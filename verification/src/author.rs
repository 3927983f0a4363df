//! The per-author ledger of commit and flagged-word counts.

use vstd::prelude::*;
use vstd::string::StringExecFns;
use crate::words::WordList;
use crate::words::naughty_word;

verus! {

/// A single flagged word together with a count of how many times it occurred.
#[derive(Clone, Debug)]
pub struct Curse {
    /// How many times the word has been observed.
    pub count: usize,
    /// The word itself.
    pub curse: String,
}

impl Curse {
    /// Creates a new curse entry with a word and a count.
    pub fn new(curse: &str, count: usize) -> (c: Curse)
        ensures
            c.curse@ == curse@,
            c.count == count,
    {
        Curse { curse: String::from_str(curse), count }
    }
}

/// How many occurrences of the word `w` a sequence of curse entries records:
/// the sum of the counts of the entries for `w`.
pub open spec fn count_of(entries: Seq<Curse>, w: Seq<char>) -> nat
    decreases entries.len(),
{
    if entries.len() == 0 {
        0
    } else {
        count_of(entries.drop_last(), w) + if entries.last().curse@ == w {
            entries.last().count as nat
        } else {
            0
        }
    }
}

/// The sum of all counts that a sequence of curse entries records.
pub open spec fn total_of(entries: Seq<Curse>) -> nat
    decreases entries.len(),
{
    if entries.len() == 0 {
        0
    } else {
        total_of(entries.drop_last()) + entries.last().count as nat
    }
}

/// Whether some entry records the word `w` (possibly with count zero).
pub open spec fn has_word(entries: Seq<Curse>, w: Seq<char>) -> bool {
    exists|i: int| 0 <= i < entries.len() && entries[i].curse@ == w
}

/// No two entries record the same word.
pub open spec fn unique_words(entries: Seq<Curse>) -> bool {
    forall|i: int, j: int| 0 <= i < j < entries.len() ==> entries[i].curse@ != entries[j].curse@
}

/// Every entry records at least one occurrence: only words actually
/// observed are present, with no zero entries.
pub open spec fn positive_counts(entries: Seq<Curse>) -> bool {
    forall|i: int| 0 <= i < entries.len() ==> (#[trigger] entries[i]).count > 0
}

/// A recorded word has a positive count when no entry is zero.
pub proof fn lemma_count_positive(entries: Seq<Curse>, w: Seq<char>)
    requires
        positive_counts(entries),
        has_word(entries, w),
    ensures
        count_of(entries, w) >= 1,
    decreases entries.len(),
{
    let i = choose|i: int| 0 <= i < entries.len() && entries[i].curse@ == w;
    if i == entries.len() - 1 {
        assert(entries.last().curse@ == w && entries.last().count > 0);
    } else {
        assert(entries.drop_last()[i].curse@ == w);
        assert(has_word(entries.drop_last(), w));
        lemma_count_positive(entries.drop_last(), w);
    }
}

/// The word-to-count mapping that a sequence of curse entries represents.
pub open spec fn count_map(entries: Seq<Curse>) -> Map<Seq<char>, nat> {
    Map::new(|w: Seq<char>| has_word(entries, w), |w: Seq<char>| count_of(entries, w))
}

/// Appending one entry adds its count for its own word and nothing else.
pub proof fn lemma_entries_push(entries: Seq<Curse>, e: Curse)
    ensures
        forall|w: Seq<char>| count_of(entries.push(e), w) == count_of(entries, w) + (
        if e.curse@ == w {
            e.count as nat
        } else {
            0
        }),
        total_of(entries.push(e)) == total_of(entries) + e.count,
        forall|w: Seq<char>|
            has_word(entries.push(e), w) <==> (has_word(entries, w) || e.curse@ == w),
{
    assert(entries.push(e).drop_last() =~= entries);
    assert(entries.push(e).last() == e);
    assert forall|w: Seq<char>|
        has_word(entries.push(e), w) <==> (has_word(entries, w) || e.curse@ == w) by {
        let p = entries.push(e);
        if has_word(entries, w) {
            let i = choose|i: int| 0 <= i < entries.len() && entries[i].curse@ == w;
            assert(p[i].curse@ == w);
        }
        if e.curse@ == w {
            assert(p[p.len() - 1].curse@ == w);
        }
        if has_word(p, w) {
            let i = choose|i: int| 0 <= i < p.len() && p[i].curse@ == w;
            if i < entries.len() {
                assert(entries[i].curse@ == w);
            }
        }
    }
}

/// Replacing the entry at `i` by one for the same word shifts every count
/// for that word by the difference, and leaves the recorded words unchanged.
pub proof fn lemma_entries_update(entries: Seq<Curse>, i: int, e: Curse)
    requires
        0 <= i < entries.len(),
        e.curse@ == entries[i].curse@,
    ensures
        forall|w: Seq<char>|
            count_of(entries.update(i, e), w) + (if entries[i].curse@ == w {
                entries[i].count as nat
            } else {
                0
            }) == count_of(entries, w) + (if e.curse@ == w {
                e.count as nat
            } else {
                0
            }),
        total_of(entries.update(i, e)) + entries[i].count == total_of(entries) + e.count,
        forall|w: Seq<char>| has_word(entries.update(i, e), w) <==> has_word(entries, w),
    decreases entries.len(),
{
    let u = entries.update(i, e);
    if i == entries.len() - 1 {
        assert(u.drop_last() =~= entries.drop_last());
        assert(u.last() == e);
    } else {
        assert(u.drop_last() =~= entries.drop_last().update(i, e));
        assert(u.last() == entries.last());
        lemma_entries_update(entries.drop_last(), i, e);
        assert forall|w: Seq<char>|
            count_of(u, w) + (if entries[i].curse@ == w {
                entries[i].count as nat
            } else {
                0
            }) == count_of(entries, w) + (if e.curse@ == w {
                e.count as nat
            } else {
                0
            }) by {
            let dl = entries.drop_last();
            assert(count_of(u, w) == count_of(dl.update(i, e), w) + (if u.last().curse@ == w {
                u.last().count as nat
            } else {
                0
            }));
            assert(count_of(dl.update(i, e), w) + (if dl[i].curse@ == w {
                dl[i].count as nat
            } else {
                0
            }) == count_of(dl, w) + (if e.curse@ == w {
                e.count as nat
            } else {
                0
            }));
        }
    }
    assert forall|w: Seq<char>| has_word(u, w) <==> has_word(entries, w) by {
        if has_word(u, w) {
            let j = choose|j: int| 0 <= j < u.len() && u[j].curse@ == w;
            assert(entries[j].curse@ == w);
        }
        if has_word(entries, w) {
            let j = choose|j: int| 0 <= j < entries.len() && entries[j].curse@ == w;
            assert(u[j].curse@ == w);
        }
    }
}

/// A word that no entry records has count zero.
pub proof fn lemma_count_absent(entries: Seq<Curse>, w: Seq<char>)
    requires
        !has_word(entries, w),
    ensures
        count_of(entries, w) == 0,
    decreases entries.len(),
{
    if entries.len() > 0 {
        assert(!has_word(entries.drop_last(), w)) by {
            if has_word(entries.drop_last(), w) {
                let i = choose|i: int|
                    0 <= i < entries.drop_last().len() && entries.drop_last()[i].curse@ == w;
                assert(entries[i].curse@ == w);
            }
        }
        lemma_count_absent(entries.drop_last(), w);
        assert(entries[entries.len() - 1].curse@ != w);
    }
}

/// When no word repeats, the count for the word of entry `i` is exactly the
/// count that the entry itself carries.
pub proof fn lemma_count_at_index(entries: Seq<Curse>, i: int)
    requires
        unique_words(entries),
        0 <= i < entries.len(),
    ensures
        count_of(entries, entries[i].curse@) == entries[i].count,
    decreases entries.len(),
{
    let w = entries[i].curse@;
    if i == entries.len() - 1 {
        assert(!has_word(entries.drop_last(), w)) by {
            if has_word(entries.drop_last(), w) {
                let j = choose|j: int|
                    0 <= j < entries.drop_last().len() && entries.drop_last()[j].curse@ == w;
                assert(entries[j].curse@ == w && j < i);
            }
        }
        lemma_count_absent(entries.drop_last(), w);
    } else {
        assert(unique_words(entries.drop_last()));
        lemma_count_at_index(entries.drop_last(), i);
        assert(entries.last().curse@ != w);
    }
}

/// The count for any single word never exceeds the sum of all counts.
pub proof fn lemma_count_le_total(entries: Seq<Curse>, w: Seq<char>)
    ensures
        count_of(entries, w) <= total_of(entries),
    decreases entries.len(),
{
    if entries.len() > 0 {
        lemma_count_le_total(entries.drop_last(), w);
    }
}

/// The ledger of a single author, as seen in specifications: the commit
/// count, the flagged-word total and the per-word occurrence counts.
#[verifier::ext_equal]
pub struct AuthorModel {
    /// Number of commits recorded for the author.
    pub total_commits: nat,
    /// Total number of flagged-word occurrences recorded for the author.
    pub total_curses: nat,
    /// Occurrence count per flagged word.
    pub curses: Map<Seq<char>, nat>,
}

/// The ledger of an author who has no commit recorded yet.
pub open spec fn zero_author() -> AuthorModel {
    AuthorModel { total_commits: 0, total_curses: 0, curses: Map::empty() }
}

/// Recording one occurrence of `w`: the total and the count for `w` grow by
/// one; a word not seen before enters the map with count one.
pub open spec fn bump_word(m: AuthorModel, w: Seq<char>) -> AuthorModel {
    AuthorModel {
        total_commits: m.total_commits,
        total_curses: m.total_curses + 1,
        curses: m.curses.insert(
            w,
            (if m.curses.dom().contains(w) {
                m.curses[w]
            } else {
                0
            }) + 1,
        ),
    }
}

/// How many of the tokens are flagged words, occurrences counted one per
/// token.
pub open spec fn flagged_count(ws: Set<Seq<char>>, ts: Seq<Seq<char>>) -> nat
    decreases ts.len(),
{
    if ts.len() == 0 {
        0
    } else {
        flagged_count(ws, ts.drop_last()) + if ws.contains(ts.last()) {
            1nat
        } else {
            0
        }
    }
}

/// The ledger after scanning the tokens of one commit message: every
/// flagged token is recorded as one occurrence, in order.
pub open spec fn apply_tokens(m: AuthorModel, ws: Set<Seq<char>>, ts: Seq<Seq<char>>) -> AuthorModel
    decreases ts.len(),
{
    if ts.len() == 0 {
        m
    } else {
        let prev = apply_tokens(m, ws, ts.drop_last());
        if ws.contains(ts.last()) {
            bump_word(prev, ts.last())
        } else {
            prev
        }
    }
}

/// The number of occurrences of the token `w` in `ts`.
pub open spec fn occurrences_of(ts: Seq<Seq<char>>, w: Seq<char>) -> nat
    decreases ts.len(),
{
    if ts.len() == 0 {
        0
    } else {
        occurrences_of(ts.drop_last(), w) + if ts.last() == w {
            1nat
        } else {
            0
        }
    }
}

/// The per-word counts after scanning the tokens of one message, stated
/// directly: each flagged word's count grows by its number of occurrences
/// among the tokens, and no other count changes.
pub open spec fn tallied(m: AuthorModel, ws: Set<Seq<char>>, ts: Seq<Seq<char>>) -> Map<
    Seq<char>,
    nat,
> {
    Map::new(
        |w: Seq<char>|
            m.curses.dom().contains(w) || (ws.contains(w) && occurrences_of(ts, w) > 0),
        |w: Seq<char>|
            (if m.curses.dom().contains(w) {
                m.curses[w]
            } else {
                0
            }) + (if ws.contains(w) {
                occurrences_of(ts, w)
            } else {
                0
            }),
    )
}

/// What scanning the tokens of one message does to a ledger: the commit
/// count is untouched, the flagged total grows by the number of flagged
/// tokens, and the per-word counts grow by the tokens' occurrence counts.
pub proof fn lemma_apply_tokens_counts(m: AuthorModel, ws: Set<Seq<char>>, ts: Seq<Seq<char>>)
    ensures
        apply_tokens(m, ws, ts).total_commits == m.total_commits,
        apply_tokens(m, ws, ts).total_curses == m.total_curses + flagged_count(ws, ts),
        apply_tokens(m, ws, ts).curses == tallied(m, ws, ts),
    decreases ts.len(),
{
    if ts.len() == 0 {
        assert(apply_tokens(m, ws, ts).curses =~= tallied(m, ws, ts));
    } else {
        let dl = ts.drop_last();
        let t = ts.last();
        lemma_apply_tokens_counts(m, ws, dl);
        let prev = apply_tokens(m, ws, dl);
        assert(prev.curses == tallied(m, ws, dl));
        assert forall|w: Seq<char>|
            w != t implies occurrences_of(ts, w) == occurrences_of(dl, w) by {}
        assert(occurrences_of(ts, t) == occurrences_of(dl, t) + 1);
        if ws.contains(t) {
            let a = apply_tokens(m, ws, ts);
            assert(a == bump_word(prev, t));
            assert(a.curses =~= tallied(m, ws, ts)) by {
                assert(tallied(m, ws, dl).dom().contains(t) ==> tallied(m, ws, dl)[t] == (
                if m.curses.dom().contains(t) {
                    m.curses[t]
                } else {
                    0
                }) + occurrences_of(dl, t));
            }
        } else {
            assert(apply_tokens(m, ws, ts).curses =~= tallied(m, ws, ts));
        }
    }
}

/// An author of a git commit.
#[derive(Debug)]
pub struct Author {
    /// Name of the author.
    pub name: String,
    /// Total count of commits by author.
    pub total_commits: usize,
    /// Total count of curses used by author.
    pub total_curses: usize,
    /// All the curses the author used, one entry per distinct word.
    pub curses: Vec<Curse>,
}

impl View for Author {
    type V = AuthorModel;

    open spec fn view(&self) -> AuthorModel {
        AuthorModel {
            total_commits: self.total_commits as nat,
            total_curses: self.total_curses as nat,
            curses: count_map(self.curses@),
        }
    }
}

impl Author {
    /// The ledger's internal consistency: no word is recorded twice, only
    /// words actually observed are present (no zero entries), and the
    /// flagged-word total equals the sum of the per-word counts.
    /// `add_missing`, the display-only extension, steps outside this
    /// invariant by design.
    pub open spec fn wf(&self) -> bool {
        &&& unique_words(self.curses@)
        &&& positive_counts(self.curses@)
        &&& self.total_curses == total_of(self.curses@)
    }

    /// Initialize a new author from a name.
    pub fn new(name: &str) -> (author: Author)
        ensures
            author.wf(),
            author.name@ == name@,
            author@ == zero_author(),
            author.curses@.len() == 0,
    {
        let author = Author {
            name: String::from_str(name),
            curses: Vec::new(),
            total_commits: 0,
            total_curses: 0,
        };
        proof {
            assert(author@.curses =~= zero_author().curses);
        }
        author
    }

    /// Update a previously used curse or add a new one: records one
    /// occurrence of `curse`, incrementing the author's flagged-word total
    /// by one and the count for `curse` by one (a word not seen before
    /// enters with count one).
    pub fn update_occurrence(&mut self, curse: &str)
        requires
            unique_words(old(self).curses@),
            count_of(old(self).curses@, curse@) < usize::MAX,
            old(self).total_curses < usize::MAX,
        ensures
            unique_words(final(self).curses@),
            count_map(final(self).curses@) == count_map(old(self).curses@).insert(
                curse@,
                count_of(old(self).curses@, curse@) + 1,
            ),
            total_of(final(self).curses@) == total_of(old(self).curses@) + 1,
            positive_counts(old(self).curses@) ==> positive_counts(final(self).curses@),
            final(self).name == old(self).name,
            final(self).total_commits == old(self).total_commits,
            final(self).total_curses == old(self).total_curses + 1,
    {
        self.total_curses = self.total_curses + 1;
        let found = find_word(&self.curses, curse);
        match found {
            Some(i) => {
                proof {
                    lemma_count_at_index(self.curses@, i as int);
                }
                let word = self.curses[i].curse.clone();
                let count = self.curses[i].count;
                let ghost before = self.curses@;
                self.curses.set(i, Curse { curse: word, count: count + 1 });
                proof {
                    let e = self.curses@[i as int];
                    lemma_entries_update(before, i as int, e);
                    assert forall|a: int, b: int|
                        0 <= a < b < self.curses@.len() implies self.curses@[a].curse@
                        != self.curses@[b].curse@ by {
                        assert(before[a].curse@ != before[b].curse@);
                    }
                    assert(count_map(self.curses@) =~= count_map(before).insert(
                        curse@,
                        count_of(before, curse@) + 1,
                    ));
                    if positive_counts(before) {
                        assert forall|k: int|
                            0 <= k < self.curses@.len() implies (
                        #[trigger] self.curses@[k]).count > 0 by {
                            if k != i as int {
                                assert(before[k].count > 0);
                            }
                        }
                    }
                }
            },
            None => {
                let ghost before = self.curses@;
                self.curses.push(Curse::new(curse, 1));
                proof {
                    let e = self.curses@[self.curses@.len() - 1];
                    lemma_entries_push(before, e);
                    lemma_count_absent(before, curse@);
                    assert forall|a: int, b: int|
                        0 <= a < b < self.curses@.len() implies self.curses@[a].curse@
                        != self.curses@[b].curse@ by {
                        if b < before.len() {
                            assert(before[a].curse@ != before[b].curse@);
                        } else {
                            assert(self.curses@[b].curse@ == curse@);
                        }
                    }
                    assert(count_map(self.curses@) =~= count_map(before).insert(
                        curse@,
                        count_of(before, curse@) + 1,
                    ));
                    if positive_counts(before) {
                        assert forall|k: int|
                            0 <= k < self.curses@.len() implies (
                        #[trigger] self.curses@[k]).count > 0 by {
                            if k < before.len() {
                                assert(before[k].count > 0);
                            } else {
                                assert(self.curses@[k].count == 1);
                            }
                        }
                    }
                }
            },
        }
    }

    /// Add curses the author has not muttered (yet): every word of `curses`
    /// that the ledger does not record enters with count zero. No count and
    /// no total changes. A display-only extension of the core.
    pub fn add_missing(&mut self, curses: &Vec<Curse>)
        requires
            unique_words(old(self).curses@),
        ensures
            unique_words(final(self).curses@),
            forall|w: Seq<char>|
                has_word(old(self).curses@, w) ==> has_word(final(self).curses@, w),
            forall|w: Seq<char>| has_word(curses@, w) ==> has_word(final(self).curses@, w),
            forall|w: Seq<char>|
                has_word(final(self).curses@, w) ==> (has_word(old(self).curses@, w) || has_word(
                    curses@,
                    w,
                )),
            forall|w: Seq<char>| count_of(final(self).curses@, w) == count_of(old(self).curses@, w),
            total_of(final(self).curses@) == total_of(old(self).curses@),
            final(self).name == old(self).name,
            final(self).total_commits == old(self).total_commits,
            final(self).total_curses == old(self).total_curses,
    {
        let n = curses.len();
        let mut j: usize = 0;
        while j < n
            invariant
                j <= n,
                n == curses@.len(),
                unique_words(self.curses@),
                forall|w: Seq<char>|
                    has_word(self.curses@, w) <==> (has_word(old(self).curses@, w) || has_word(
                        curses@.take(j as int),
                        w,
                    )),
                forall|w: Seq<char>|
                    count_of(self.curses@, w) == count_of(old(self).curses@, w),
                total_of(self.curses@) == total_of(old(self).curses@),
                self.name == old(self).name,
                self.total_commits == old(self).total_commits,
                self.total_curses == old(self).total_curses,
            decreases n - j,
        {
            proof {
                assert(curses@.take(j as int + 1).drop_last() =~= curses@.take(j as int));
                assert(curses@.take(j as int + 1).last() == curses@[j as int]);
                assert forall|w: Seq<char>|
                    has_word(curses@.take(j as int + 1), w) <==> (has_word(
                        curses@.take(j as int),
                        w,
                    ) || curses@[j as int].curse@ == w) by {
                    lemma_entries_push(curses@.take(j as int), curses@[j as int]);
                    assert(curses@.take(j as int).push(curses@[j as int]) =~= curses@.take(
                        j as int + 1,
                    ));
                }
            }
            let word = curses[j].curse.clone();
            proof {
                assert(word@ == curses@[j as int].curse@);
            }
            let ghost mid = self.curses@;
            let found = find_word(&self.curses, word.as_str());
            if found.is_none() {
                let ghost before = self.curses@;
                self.curses.push(Curse::new(word.as_str(), 0));
                proof {
                    let e = self.curses@[self.curses@.len() - 1];
                    lemma_entries_push(before, e);
                    assert forall|a: int, b: int|
                        0 <= a < b < self.curses@.len() implies self.curses@[a].curse@
                        != self.curses@[b].curse@ by {
                        if b < before.len() {
                            assert(before[a].curse@ != before[b].curse@);
                        } else {
                            assert(self.curses@[b].curse@ == word@);
                            assert(!has_word(before, word@));
                        }
                    }
                }
            } else {
                proof {
                    let i = found.unwrap() as int;
                    assert(self.curses@[i].curse@ == word@);
                    assert(has_word(self.curses@, word@));
                }
            }
            proof {
                assert forall|w: Seq<char>|
                    has_word(self.curses@, w) <==> (has_word(old(self).curses@, w) || has_word(
                        curses@.take(j as int + 1),
                        w,
                    )) by {
                    if w == word@ {
                        assert(has_word(curses@.take(j as int + 1), w));
                        assert(has_word(self.curses@, w));
                    } else {
                        assert(has_word(self.curses@, w) <==> has_word(mid, w));
                    }
                }
            }
            j = j + 1;
        }
        proof {
            assert(curses@.take(n as int) =~= curses@);
        }
    }

    /// The recorded occurrence count for `word`: zero when the word was
    /// never recorded.
    pub fn occurrences(&self, word: &str) -> (n: usize)
        requires
            unique_words(self.curses@),
        ensures
            n == count_of(self.curses@, word@),
    {
        match find_word(&self.curses, word) {
            Some(i) => {
                proof {
                    lemma_count_at_index(self.curses@, i as int);
                }
                self.curses[i].count
            },
            None => {
                proof {
                    lemma_count_absent(self.curses@, word@);
                }
                0
            },
        }
    }

    /// Whether the author has been naughty: at least one word is recorded in
    /// the ledger.
    pub fn is_naughty(&self) -> (r: bool)
        ensures
            r == (self.curses@.len() != 0),
    {
        self.curses.len() != 0
    }

    /// Scans one commit message, given as its tokens, and records one
    /// occurrence for every flagged token. Returns how many tokens were
    /// flagged; the commit count is untouched.
    pub fn record_tokens(&mut self, list: &WordList, tokens: &Vec<String>) -> (added: usize)
        requires
            old(self).wf(),
            old(self).total_curses + flagged_count(list.word_set(), tokens.deep_view())
                <= usize::MAX,
        ensures
            final(self).wf(),
            final(self)@ == apply_tokens(old(self)@, list.word_set(), tokens.deep_view()),
            added == flagged_count(list.word_set(), tokens.deep_view()),
            final(self).name == old(self).name,
            final(self).total_commits == old(self).total_commits,
            final(self).total_curses == old(self).total_curses + added,
    {
        let ghost ws = list.word_set();
        let ghost ts = tokens.deep_view();
        let n = tokens.len();
        let mut added: usize = 0;
        let mut j: usize = 0;
        while j < n
            invariant
                j <= n,
                n == ts.len(),
                ts == tokens.deep_view(),
                ws == list.word_set(),
                self.wf(),
                self@ == apply_tokens(old(self)@, ws, ts.take(j as int)),
                added == flagged_count(ws, ts.take(j as int)),
                old(self).total_curses + flagged_count(ws, ts) <= usize::MAX,
                self.total_curses == old(self).total_curses + added,
                self.name == old(self).name,
                self.total_commits == old(self).total_commits,
            decreases n - j,
        {
            proof {
                assert(ts.take(j as int + 1).drop_last() =~= ts.take(j as int));
                assert(ts.take(j as int + 1).last() == ts[j as int]);
                lemma_flagged_count_take_le(ws, ts, j as int + 1);
            }
            let token = &tokens[j];
            proof {
                assert(token@ == ts[j as int]);
            }
            if naughty_word(token.as_str(), list) {
                let ghost prev = self@;
                let ghost before = self.curses@;
                proof {
                    lemma_count_le_total(self.curses@, token@);
                    if !has_word(before, token@) {
                        lemma_count_absent(before, token@);
                    }
                    assert(prev.curses.dom().contains(token@) == has_word(before, token@));
                    assert(ws.contains(ts[j as int]));
                }
                self.update_occurrence(token.as_str());
                added = added + 1;
                proof {
                    assert(count_map(self.curses@) == count_map(before).insert(
                        token@,
                        count_of(before, token@) + 1,
                    ));
                    assert(bump_word(prev, token@).curses == prev.curses.insert(
                        token@,
                        count_of(before, token@) + 1,
                    ));
                    assert(self@ =~= bump_word(prev, ts[j as int]));
                }
            }
            j = j + 1;
        }
        proof {
            assert(ts.take(n as int) =~= ts);
        }
        added
    }
}

/// Over a prefix of the tokens, no more tokens are flagged than over the
/// whole sequence.
pub proof fn lemma_flagged_count_take_le(ws: Set<Seq<char>>, ts: Seq<Seq<char>>, j: int)
    requires
        0 <= j <= ts.len(),
    ensures
        flagged_count(ws, ts.take(j)) <= flagged_count(ws, ts),
    decreases ts.len() - j,
{
    if j < ts.len() {
        assert(ts.take(j + 1).drop_last() =~= ts.take(j));
        lemma_flagged_count_take_le(ws, ts, j + 1);
    } else {
        assert(ts.take(j) =~= ts);
    }
}

/// Over a prefix of the entries, the sum of the counts never exceeds the
/// sum over all entries.
pub proof fn lemma_total_take_le(entries: Seq<Curse>, j: int)
    requires
        0 <= j <= entries.len(),
    ensures
        total_of(entries.take(j)) <= total_of(entries),
    decreases entries.len() - j,
{
    if j < entries.len() {
        assert(entries.take(j + 1).drop_last() =~= entries.take(j));
        lemma_total_take_le(entries, j + 1);
    } else {
        assert(entries.take(j) =~= entries);
    }
}

/// Finds the entry recording `word`, when one exists.
pub(crate) fn find_word(entries: &Vec<Curse>, word: &str) -> (r: Option<usize>)
    ensures
        match r {
            Some(i) => i < entries@.len() && entries@[i as int].curse@ == word@,
            None => !has_word(entries@, word@),
        },
{
    let n = entries.len();
    let mut i: usize = 0;
    while i < n
        invariant
            i <= n,
            n == entries@.len(),
            forall|j: int| 0 <= j < i ==> (#[trigger] entries@[j]).curse@ != word@,
        decreases n - i,
    {
        if crate::words::str_eq(entries[i].curse.as_str(), word) {
            return Some(i);
        }
        i = i + 1;
    }
    None
}

} // verus!
