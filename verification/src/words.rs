//! Tokenization of commit messages and the flagged-word list.

use vstd::prelude::*;
use vstd::string::StrSliceExecFns;
use vstd::string::StringExecFns;

verus! {

/// Whether a character counts as a letter when splitting a message into
/// words. Every non-letter character acts as a separator.
pub uninterp spec fn is_letter(c: char) -> bool;

/// Relies on char::is_alphabetic: whether the character has the Unicode
/// `Alphabetic` property, a fixed function of the character alone, named
/// `is_letter` in specifications.
pub assume_specification[ char::is_alphabetic ](c: char) -> (r: bool)
    ensures
        r == is_letter(c),
;

/// The maximal letter runs of `s`, in order: the words that tokenizing `s`
/// yields. A run interrupted by a non-letter character is never rejoined.
pub open spec fn tokens_of(s: Seq<char>) -> Seq<Seq<char>>
    decreases s.len(),
{
    if s.len() == 0 {
        Seq::empty()
    } else {
        let prev = tokens_of(s.drop_last());
        let c = s.last();
        if !is_letter(c) {
            prev
        } else if s.len() >= 2 && is_letter(s[s.len() - 2]) {
            prev.update(prev.len() - 1, prev.last().push(c))
        } else {
            prev.push(seq![c])
        }
    }
}

/// Every token is non-empty and consists solely of letters; and when `s`
/// ends in a letter there is a token carrying that trailing run.
pub proof fn lemma_tokens_wf(s: Seq<char>)
    ensures
        forall|i: int| 0 <= i < tokens_of(s).len() ==> (#[trigger] tokens_of(s)[i]).len() > 0,
        forall|i: int, j: int|
            0 <= i < tokens_of(s).len() && 0 <= j < tokens_of(s)[i].len() ==> is_letter(
                #[trigger] tokens_of(s)[i][j],
            ),
        s.len() > 0 && is_letter(s.last()) ==> tokens_of(s).len() > 0,
    decreases s.len(),
{
    if s.len() > 0 {
        let p = s.drop_last();
        let prev = tokens_of(p);
        let c = s.last();
        let t = tokens_of(s);
        lemma_tokens_wf(p);
        if !is_letter(c) {
        } else if s.len() >= 2 && is_letter(s[s.len() - 2]) {
            assert(p.last() == s[s.len() - 2]);
            assert(prev.len() > 0);
            assert(t == prev.update(prev.len() - 1, prev.last().push(c)));
            assert forall|i: int| 0 <= i < t.len() implies (#[trigger] t[i]).len() > 0 by {
                assert(prev[i].len() > 0);
            }
            assert forall|i: int, j: int|
                0 <= i < t.len() && 0 <= j < t[i].len() implies is_letter(
                #[trigger] t[i][j],
            ) by {
                if i == prev.len() - 1 {
                    if j < prev[i].len() {
                        assert(is_letter(prev[i][j]));
                    }
                } else {
                    assert(is_letter(prev[i][j]));
                }
            }
        } else {
            assert(t == prev.push(seq![c]));
            assert forall|i: int, j: int|
                0 <= i < t.len() && 0 <= j < t[i].len() implies is_letter(
                #[trigger] t[i][j],
            ) by {
                if i < prev.len() {
                    assert(is_letter(prev[i][j]));
                }
            }
        }
    }
}

/// Concatenating the tokens of `s` in order yields exactly the letters of
/// `s`: separators are dropped and the letter runs are preserved.
pub proof fn lemma_tokens_flatten(s: Seq<char>)
    ensures
        tokens_of(s).flatten() == s.filter(|c: char| is_letter(c)),
    decreases s.len(),
{
    tokens_of(s).lemma_flatten_and_flatten_alt_are_equivalent();
    lemma_tokens_flatten_alt(s);
}

proof fn lemma_tokens_flatten_alt(s: Seq<char>)
    ensures
        tokens_of(s).flatten_alt() == s.filter(|c: char| is_letter(c)),
    decreases s.len(),
{
    reveal(Seq::filter);
    let pred = |c: char| is_letter(c);
    if s.len() == 0 {
        assert(tokens_of(s).flatten_alt() =~= s.filter(pred));
    } else {
        let p = s.drop_last();
        let prev = tokens_of(p);
        let c = s.last();
        lemma_tokens_flatten_alt(p);
        lemma_tokens_wf(p);
        if !is_letter(c) {
            assert(s.filter(pred) == p.filter(pred));
        } else if s.len() >= 2 && is_letter(s[s.len() - 2]) {
            // The trailing run grows by one letter: the last token gains `c`.
            assert(p.last() == s[s.len() - 2]);
            let t = prev.update(prev.len() - 1, prev.last().push(c));
            assert(t.drop_last() =~= prev.drop_last());
            assert(t.flatten_alt() == prev.drop_last().flatten_alt() + prev.last().push(c));
            assert(prev.drop_last().flatten_alt() + prev.last().push(c) =~= (prev.drop_last().flatten_alt()
                + prev.last()).push(c));
            assert(prev.flatten_alt() == prev.drop_last().flatten_alt() + prev.last());
            assert(s.filter(pred) == p.filter(pred).push(c));
        } else {
            // A fresh run starts at `c`: one new single-letter token.
            let t = prev.push(seq![c]);
            assert(t.drop_last() =~= prev);
            assert(t.flatten_alt() == prev.flatten_alt() + seq![c]);
            assert(prev.flatten_alt() + seq![c] =~= prev.flatten_alt().push(c));
            assert(s.filter(pred) == p.filter(pred).push(c));
        }
    }
}

/// Relies on String::push: appends one character at the end of the string.
#[verifier::external_body]
fn push_char(s: &mut String, c: char)
    ensures
        final(s)@ == old(s)@.push(c),
{
    s.push(c);
}

/// Relies on str's PartialEq: two string slices compare equal exactly when
/// their character sequences are equal.
#[verifier::external_body]
pub(crate) fn str_eq(a: &str, b: &str) -> (r: bool)
    ensures
        r == (a@ == b@),
{
    a == b
}

/// The flagged words shipped with the crate, one word per line.
pub const CURSES_FILE: &'static str = "anal
anus
apeshit
arse
arsehole
ass
assfucker
asshole
assholes
asswipe
bastard
batshit
bitch
bitches
bitchy
bloody
bollocks
boob
boobs
bugger
bullshit
clusterfuck
cock
cocksucker
crap
crappy
cunt
cyberfuck
cyberfucked
cyberfucker
cyberfuckers
cyberfucking
damn
damned
dick
dickhead
dipshit
douche
douchebag
dumbass
fuck
fucked
fucker
fuckers
fuckhead
fuckin
fucking
fucks
fuckup
fuckwit
goddamn
goddamned
hell
horseshit
jackass
jackshit
jerk
motherfucker
motherfuckers
motherfucking
piss
pissed
prick
pussy
screwed
shit
shite
shitfaced
shithead
shits
shitty
slut
sluts
smartass
sod
tits
turd
twat
wanker
whore
wtf";

/// The lowercase form of a character sequence. What `lowercase` returns is
/// a fixed function of the characters alone; nothing further is assumed
/// about it.
pub uninterp spec fn lower_of(s: Seq<char>) -> Seq<char>;

/// Relies on str::to_lowercase: the Unicode lowercase mapping of the
/// string, a function of its characters alone, named `lower_of` in
/// specifications.
#[verifier::external_body]
pub(crate) fn lowercase(s: &str) -> (r: String)
    ensures
        r@ == lower_of(s@),
{
    s.to_lowercase()
}

/// Cleans a string and returns a list containing the cleaned up words.
///
/// The input is split at every character that is not a letter, and empty
/// fragments are dropped, so the result holds exactly the maximal letter
/// runs of the input. A letter run interrupted by a non-letter character is
/// not rejoined, even when the surrounding context looks like one word.
pub fn split_into_clean_words(input: &str) -> (tokens: Vec<String>)
    ensures
        tokens.deep_view() == tokens_of(input@),
{
    let n = input.unicode_len();
    let mut tokens: Vec<String> = Vec::new();
    let mut current = String::new();
    let mut in_run = false;
    let mut i: usize = 0;
    while i < n
        invariant
            i <= n,
            n == input@.len(),
            in_run == (i > 0 && is_letter(input@[i as int - 1])),
            in_run ==> tokens.deep_view().push(current@) == tokens_of(input@.take(i as int)),
            !in_run ==> tokens.deep_view() == tokens_of(input@.take(i as int)) && current@
                == Seq::<char>::empty(),
        decreases n - i,
    {
        let c = input.get_char(i);
        let ghost prefix = input@.take(i as int);
        let ghost next = input@.take(i as int + 1);
        proof {
            assert(next.drop_last() =~= prefix);
            assert(next.last() == input@[i as int]);
        }
        if c.is_alphabetic() {
            if in_run {
                proof {
                    let prev = tokens_of(prefix);
                    assert(prev == tokens.deep_view().push(current@));
                    assert(prev.last() == current@);
                    assert(tokens_of(next) =~~= tokens.deep_view().push(current@.push(c)));
                }
                push_char(&mut current, c);
            } else {
                proof {
                    assert(tokens_of(next) =~~= tokens.deep_view().push(seq![c]));
                    assert(current@.push(c) =~= seq![c]);
                }
                push_char(&mut current, c);
                in_run = true;
            }
        } else {
            if in_run {
                let ghost old_tokens = tokens.deep_view();
                let ghost run = current@;
                tokens.push(current);
                current = String::new();
                in_run = false;
                proof {
                    assert(tokens.deep_view() =~~= old_tokens.push(run));
                    assert(tokens_of(next) == tokens_of(prefix));
                }
            }
        }
        i = i + 1;
    }
    proof {
        assert(input@.take(n as int) =~= input@);
    }
    if in_run {
        let ghost old_tokens = tokens.deep_view();
        let ghost run = current@;
        tokens.push(current);
        proof {
            assert(tokens.deep_view() =~~= old_tokens.push(run));
        }
    }
    tokens
}

/// The list of flagged words, matched by exact comparison against tokens
/// that the caller has already lowercased. Constructed once at startup and
/// passed by reference into whatever performs the matching.
pub struct WordList {
    /// The flagged words.
    pub words: Vec<String>,
}

impl WordList {
    /// Whether `w` is one of the flagged words.
    pub open spec fn contains_word(&self, w: Seq<char>) -> bool {
        exists|i: int| 0 <= i < self.words@.len() && self.words@[i]@ == w
    }

    /// The flagged words as a set.
    pub open spec fn word_set(&self) -> Set<Seq<char>> {
        Set::new(|w: Seq<char>| self.contains_word(w))
    }

    /// Builds a word list holding exactly the given words.
    pub fn from_words(words: Vec<String>) -> (list: WordList)
        ensures
            list.words == words,
    {
        WordList { words }
    }

    /// The word list shipped with the crate: every word of `CURSES_FILE`.
    pub fn shipped() -> (list: WordList)
        ensures
            list.words.deep_view() == tokens_of(CURSES_FILE@),
    {
        WordList::from_words(split_into_clean_words(CURSES_FILE))
    }
}

/// Checks if a word is naughty: true exactly when the word — which the
/// caller has already lowercased — equals some entry of the list. A token
/// merely containing a flagged word as a substring does not match.
pub fn naughty_word(word: &str, list: &WordList) -> (r: bool)
    ensures
        r == list.contains_word(word@),
{
    let n = list.words.len();
    let mut i: usize = 0;
    while i < n
        invariant
            i <= n,
            n == list.words@.len(),
            forall|j: int| 0 <= j < i ==> (#[trigger] list.words@[j])@ != word@,
        decreases n - i,
    {
        if str_eq(word, list.words[i].as_str()) {
            return true;
        }
        i = i + 1;
    }
    false
}

} // verus!
