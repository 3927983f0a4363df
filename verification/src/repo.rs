//! The repository-wide aggregate: the collection of author ledgers plus
//! repository-wide totals and the merged per-word counts.

use vstd::prelude::*;
use vstd::string::StringExecFns;
use crate::author::Author;
use crate::author::AuthorModel;
use crate::author::Curse;
use crate::author::apply_tokens;
use crate::author::count_map;
use crate::author::count_of;
use crate::author::flagged_count;
use crate::author::has_word;
use crate::author::total_of;
use crate::author::unique_words;
use crate::author::zero_author;
use crate::author::lemma_count_absent;
use crate::author::lemma_count_at_index;
use crate::author::lemma_count_le_total;
use crate::author::lemma_entries_push;
use crate::author::lemma_entries_update;
use crate::author::lemma_total_take_le;
use crate::author::lemma_apply_tokens_counts;
use crate::author::lemma_count_positive;
use crate::author::positive_counts;
use crate::author::tallied;
use crate::words::WordList;
use crate::words::lower_of;
use crate::words::lowercase;
use crate::words::naughty_word;
use crate::words::split_into_clean_words;
use crate::words::tokens_of;

verus! {

/// A commit as the aggregation core sees it: an author name and a message,
/// either of which may be missing in a defective history entry.
pub struct Commit {
    /// Display name of the commit's author, if present.
    pub author: Option<String>,
    /// The commit message, if present.
    pub message: Option<String>,
}

impl Commit {
    /// A commit from an author name and a message, either possibly missing.
    pub fn new(author: Option<String>, message: Option<String>) -> (c: Commit)
        ensures
            c.author == author,
            c.message == message,
    {
        Commit { author, message }
    }
}

/// No two ledgers belong to the same author name.
pub open spec fn unique_names(authors: Seq<Author>) -> bool {
    forall|i: int, j: int| 0 <= i < j < authors.len() ==> authors[i].name@ != authors[j].name@
}

/// Whether some ledger belongs to the author named `n`.
pub open spec fn has_author(authors: Seq<Author>, n: Seq<char>) -> bool {
    exists|i: int| 0 <= i < authors.len() && authors[i].name@ == n
}

/// Every ledger is internally consistent.
pub open spec fn all_wf(authors: Seq<Author>) -> bool {
    forall|i: int| 0 <= i < authors.len() ==> (#[trigger] authors[i]).wf()
}

/// The sum of the commit counts of all ledgers.
pub open spec fn sum_commits(authors: Seq<Author>) -> nat
    decreases authors.len(),
{
    if authors.len() == 0 {
        0
    } else {
        sum_commits(authors.drop_last()) + authors.last().total_commits as nat
    }
}

/// The sum of the flagged-word totals of all ledgers.
pub open spec fn sum_curses(authors: Seq<Author>) -> nat
    decreases authors.len(),
{
    if authors.len() == 0 {
        0
    } else {
        sum_curses(authors.drop_last()) + authors.last().total_curses as nat
    }
}

/// The total count for the word `w` summed over all ledgers.
pub open spec fn sum_word_count(authors: Seq<Author>, w: Seq<char>) -> nat
    decreases authors.len(),
{
    if authors.len() == 0 {
        0
    } else {
        sum_word_count(authors.drop_last(), w) + count_of(authors.last().curses@, w)
    }
}

/// Whether any ledger records the word `w`.
pub open spec fn any_author_has(authors: Seq<Author>, w: Seq<char>) -> bool {
    exists|i: int| 0 <= i < authors.len() && has_word((#[trigger] authors[i]).curses@, w)
}

/// The ledgers as a map from author name to ledger model.
pub open spec fn authors_map(authors: Seq<Author>) -> Map<Seq<char>, AuthorModel>
    decreases authors.len(),
{
    if authors.len() == 0 {
        Map::empty()
    } else {
        authors_map(authors.drop_last()).insert(authors.last().name@, authors.last()@)
    }
}

/// The word-to-count mapping obtained by merging all ledgers key-wise.
pub open spec fn merged_counts(authors: Seq<Author>) -> Map<Seq<char>, nat> {
    Map::new(
        |w: Seq<char>| any_author_has(authors, w),
        |w: Seq<char>| sum_word_count(authors, w),
    )
}

/// How many ledgers record at least one word.
pub open spec fn naughty_count(authors: Seq<Author>) -> nat
    decreases authors.len(),
{
    if authors.len() == 0 {
        0
    } else {
        naughty_count(authors.drop_last()) + if authors.last().curses@.len() != 0 {
            1nat
        } else {
            0
        }
    }
}

/// Appending one ledger: the map gains its entry and every sum grows by its
/// contribution.
pub proof fn lemma_authors_push(authors: Seq<Author>, a: Author)
    ensures
        authors_map(authors.push(a)) == authors_map(authors).insert(a.name@, a@),
        sum_commits(authors.push(a)) == sum_commits(authors) + a.total_commits,
        sum_curses(authors.push(a)) == sum_curses(authors) + a.total_curses,
        forall|w: Seq<char>|
            sum_word_count(authors.push(a), w) == sum_word_count(authors, w) + count_of(
                a.curses@,
                w,
            ),
        forall|w: Seq<char>|
            any_author_has(authors.push(a), w) <==> (any_author_has(authors, w) || has_word(
                a.curses@,
                w,
            )),
        naughty_count(authors.push(a)) == naughty_count(authors) + (if a.curses@.len() != 0 {
            1nat
        } else {
            0
        }),
        forall|n: Seq<char>|
            has_author(authors.push(a), n) <==> (has_author(authors, n) || a.name@ == n),
{
    let p = authors.push(a);
    assert(p.drop_last() =~= authors);
    assert(p.last() == a);
    assert forall|w: Seq<char>|
        any_author_has(p, w) <==> (any_author_has(authors, w) || has_word(a.curses@, w)) by {
        if any_author_has(authors, w) {
            let i = choose|i: int| 0 <= i < authors.len() && has_word(authors[i].curses@, w);
            assert(has_word(p[i].curses@, w));
        }
        if has_word(a.curses@, w) {
            assert(has_word(p[p.len() - 1].curses@, w));
        }
        if any_author_has(p, w) {
            let i = choose|i: int| 0 <= i < p.len() && has_word(p[i].curses@, w);
            if i < authors.len() {
                assert(has_word(authors[i].curses@, w));
            }
        }
    }
    assert forall|n: Seq<char>|
        has_author(p, n) <==> (has_author(authors, n) || a.name@ == n) by {
        if has_author(authors, n) {
            let i = choose|i: int| 0 <= i < authors.len() && authors[i].name@ == n;
            assert(p[i].name@ == n);
        }
        if a.name@ == n {
            assert(p[p.len() - 1].name@ == n);
        }
        if has_author(p, n) {
            let i = choose|i: int| 0 <= i < p.len() && p[i].name@ == n;
            if i < authors.len() {
                assert(authors[i].name@ == n);
            }
        }
    }
}

/// Replacing the ledger at `i` by one for the same author name: the map is
/// updated at that name and every sum shifts by the difference.
pub proof fn lemma_authors_update(authors: Seq<Author>, i: int, a: Author)
    requires
        unique_names(authors),
        0 <= i < authors.len(),
        a.name@ == authors[i].name@,
    ensures
        authors_map(authors.update(i, a)) == authors_map(authors).insert(a.name@, a@),
        sum_commits(authors.update(i, a)) + authors[i].total_commits == sum_commits(authors)
            + a.total_commits,
        sum_curses(authors.update(i, a)) + authors[i].total_curses == sum_curses(authors)
            + a.total_curses,
        unique_names(authors.update(i, a)),
    decreases authors.len(),
{
    let u = authors.update(i, a);
    assert forall|x: int, y: int|
        0 <= x < y < u.len() implies u[x].name@ != u[y].name@ by {
        assert(authors[x].name@ != authors[y].name@);
    }
    if i == authors.len() - 1 {
        assert(u.drop_last() =~= authors.drop_last());
        assert(u.last() == a);
        assert(authors_map(u) == authors_map(authors.drop_last()).insert(a.name@, a@));
        assert(authors_map(authors) == authors_map(authors.drop_last()).insert(
            authors[i].name@,
            authors[i]@,
        ));
        assert(authors_map(u) =~= authors_map(authors).insert(a.name@, a@));
    } else {
        assert(u.drop_last() =~= authors.drop_last().update(i, a));
        assert(u.last() == authors.last());
        assert(unique_names(authors.drop_last()));
        lemma_authors_update(authors.drop_last(), i, a);
        assert(authors.last().name@ != a.name@);
        assert(authors_map(u) == authors_map(authors.drop_last().update(i, a)).insert(
            authors.last().name@,
            authors.last()@,
        ));
        assert(authors_map(u) =~= authors_map(authors).insert(a.name@, a@));
    }
}

/// Every name in the ledger map belongs to some ledger, and under unique
/// names the map sends each ledger's name to that ledger.
pub proof fn lemma_authors_map_index(authors: Seq<Author>)
    ensures
        forall|n: Seq<char>| authors_map(authors).dom().contains(n) <==> has_author(authors, n),
        unique_names(authors) ==> forall|i: int|
            0 <= i < authors.len() ==> authors_map(authors)[(#[trigger] authors[i]).name@]
                == authors[i]@,
    decreases authors.len(),
{
    if authors.len() > 0 {
        let dl = authors.drop_last();
        lemma_authors_map_index(dl);
        assert forall|n: Seq<char>|
            authors_map(authors).dom().contains(n) <==> has_author(authors, n) by {
            if has_author(authors, n) {
                let i = choose|i: int| 0 <= i < authors.len() && authors[i].name@ == n;
                if i < dl.len() {
                    assert(dl[i].name@ == n);
                    assert(has_author(dl, n));
                    assert(authors_map(dl).dom().contains(n));
                } else {
                    assert(authors.last().name@ == n);
                }
                assert(authors_map(authors).dom().contains(n));
            }
            if authors_map(authors).dom().contains(n) {
                if n != authors.last().name@ {
                    assert(authors_map(dl).dom().contains(n));
                    assert(has_author(dl, n));
                    let i = choose|i: int| 0 <= i < dl.len() && dl[i].name@ == n;
                    assert(authors[i] == dl[i]);
                    assert(has_author(authors, n));
                } else {
                    assert(authors[authors.len() - 1].name@ == n);
                }
            }
        }
        if unique_names(authors) {
            assert(unique_names(dl));
            assert forall|i: int|
                0 <= i < authors.len() implies authors_map(authors)[(
            #[trigger] authors[i]).name@] == authors[i]@ by {
                if i < dl.len() {
                    assert(authors[i].name@ != authors.last().name@);
                    assert(dl[i] == authors[i]);
                }
            }
        }
    }
}

/// Each ledger contributes no more than the whole sum.
pub proof fn lemma_elem_le_sums(authors: Seq<Author>, i: int)
    requires
        0 <= i < authors.len(),
    ensures
        authors[i].total_commits <= sum_commits(authors),
        authors[i].total_curses <= sum_curses(authors),
    decreases authors.len(),
{
    if i < authors.len() - 1 {
        lemma_elem_le_sums(authors.drop_last(), i);
    }
}

/// The repository aggregate, as seen in specifications.
#[verifier::ext_equal]
pub struct RepoModel {
    /// Name of the repository.
    pub name: Seq<char>,
    /// Number of ingested commits.
    pub total_commits: nat,
    /// Total number of flagged-word occurrences over all commits.
    pub total_curses: nat,
    /// The merged word-to-count mapping; filled by finalization.
    pub curses: Map<Seq<char>, nat>,
    /// The ledgers, keyed by author name.
    pub authors: Map<Seq<char>, AuthorModel>,
}

/// Looking an author up creates an empty ledger when none exists yet, and
/// otherwise changes nothing.
pub open spec fn with_author(m: RepoModel, n: Seq<char>) -> RepoModel {
    if m.authors.dom().contains(n) {
        m
    } else {
        RepoModel {
            name: m.name,
            total_commits: m.total_commits,
            total_curses: m.total_curses,
            curses: m.curses,
            authors: m.authors.insert(n, zero_author()),
        }
    }
}

/// Ingesting one commit, given as its author name and the tokens of its
/// lowercased message: the author's ledger (created when absent) records
/// the commit and every flagged token, and the repository totals grow in
/// lockstep.
pub open spec fn ingest_tokens_model(
    m: RepoModel,
    ws: Set<Seq<char>>,
    n: Seq<char>,
    ts: Seq<Seq<char>>,
) -> RepoModel {
    let m1 = with_author(m, n);
    let am = apply_tokens(m1.authors[n], ws, ts);
    RepoModel {
        name: m1.name,
        total_commits: m1.total_commits + 1,
        total_curses: m1.total_curses + flagged_count(ws, ts),
        curses: m1.curses,
        authors: m1.authors.insert(
            n,
            AuthorModel {
                total_commits: am.total_commits + 1,
                total_curses: am.total_curses,
                curses: am.curses,
            },
        ),
    }
}

/// Whether ingesting a commit with the given tokens stays within the
/// machine counters.
pub open spec fn ingest_fits(m: RepoModel, ws: Set<Seq<char>>, ts: Seq<Seq<char>>) -> bool {
    m.total_commits < usize::MAX && m.total_curses + flagged_count(ws, ts) <= usize::MAX
}

/// Ingesting one commit record: a commit whose author or message is missing
/// is skipped, as is one whose counts would exceed the machine counters;
/// otherwise the message is lowercased, tokenized and recorded.
pub open spec fn ingest_model(m: RepoModel, ws: Set<Seq<char>>, c: Commit) -> RepoModel {
    match (c.author, c.message) {
        (Some(a), Some(msg)) => {
            let ts = tokens_of(lower_of(msg@));
            if ingest_fits(m, ws, ts) {
                ingest_tokens_model(m, ws, a@, ts)
            } else {
                m
            }
        },
        _ => m,
    }
}

/// Whether ingesting the commit record counts it: both fields are present
/// and the counters have room.
pub open spec fn ingest_counts(m: RepoModel, ws: Set<Seq<char>>, c: Commit) -> bool {
    match (c.author, c.message) {
        (Some(a), Some(msg)) => ingest_fits(m, ws, tokens_of(lower_of(msg@))),
        _ => false,
    }
}

/// Ingesting a sequence of commit records in order.
pub open spec fn build_model(m: RepoModel, ws: Set<Seq<char>>, cs: Seq<Commit>) -> RepoModel
    decreases cs.len(),
{
    if cs.len() == 0 {
        m
    } else {
        ingest_model(build_model(m, ws, cs.drop_last()), ws, cs.last())
    }
}

/// A simple representation of a git repository.
#[derive(Debug)]
pub struct Repo {
    /// Name of the repository.
    pub name: String,
    /// Count of the total amount of commits in the repository.
    pub total_commits: usize,
    /// Count of the total amount of curses used in the commits.
    pub total_curses: usize,
    /// All the naughty words used by the authors, merged over all ledgers.
    pub curses: Vec<Curse>,
    /// All the authors that have committed.
    pub authors: Vec<Author>,
}

impl View for Repo {
    type V = RepoModel;

    open spec fn view(&self) -> RepoModel {
        RepoModel {
            name: self.name@,
            total_commits: self.total_commits as nat,
            total_curses: self.total_curses as nat,
            curses: count_map(self.curses@),
            authors: authors_map(self.authors@),
        }
    }
}

impl Repo {
    /// The aggregate's internal consistency: the ledgers are internally
    /// consistent and belong to distinct names, the repository totals are
    /// the sums of the ledgers' totals, and the merged mapping records no
    /// word twice.
    pub open spec fn wf(&self) -> bool {
        &&& unique_names(self.authors@)
        &&& all_wf(self.authors@)
        &&& self.total_commits == sum_commits(self.authors@)
        &&& self.total_curses == sum_curses(self.authors@)
        &&& unique_words(self.curses@)
    }

    /// Creates a new and empty repository aggregate with the given name.
    pub fn new(name: &str) -> (repo: Repo)
        ensures
            repo.wf(),
            repo.name@ == name@,
            repo.total_commits == 0,
            repo.total_curses == 0,
            repo.curses@.len() == 0,
            repo.authors@.len() == 0,
            repo@ == (RepoModel {
                name: name@,
                total_commits: 0,
                total_curses: 0,
                curses: Map::empty(),
                authors: Map::empty(),
            }),
    {
        let repo = Repo {
            name: String::from_str(name),
            total_commits: 0,
            total_curses: 0,
            curses: Vec::new(),
            authors: Vec::new(),
        };
        proof {
            assert(repo@.curses =~= Map::<Seq<char>, nat>::empty());
            assert(repo@.authors =~= Map::<Seq<char>, AuthorModel>::empty());
        }
        repo
    }

    /// Finds the index of the ledger of the author named `name`, when one
    /// exists.
    fn find_author(&self, name: &str) -> (r: Option<usize>)
        ensures
            match r {
                Some(i) => i < self.authors@.len() && self.authors@[i as int].name@ == name@,
                None => !has_author(self.authors@, name@),
            },
    {
        let n = self.authors.len();
        let mut i: usize = 0;
        while i < n
            invariant
                i <= n,
                n == self.authors@.len(),
                forall|j: int| 0 <= j < i ==> (#[trigger] self.authors@[j]).name@ != name@,
            decreases n - i,
        {
            if crate::words::str_eq(self.authors[i].name.as_str(), name) {
                return Some(i);
            }
            i = i + 1;
        }
        None
    }

    /// Checks if an author exists and creates a new author if they don't
    /// exist. Returns the index of the author's ledger; an author
    /// seen before keeps the ledger already accumulated, and a previously
    /// unseen name starts from a ledger with every count zero.
    pub fn author(&mut self, author_name: &str) -> (i: usize)
        requires
            old(self).wf(),
        ensures
            final(self).wf(),
            i < final(self).authors@.len(),
            final(self).authors@[i as int].name@ == author_name@,
            final(self)@ == with_author(old(self)@, author_name@),
            final(self).name == old(self).name,
            final(self).total_commits == old(self).total_commits,
            final(self).total_curses == old(self).total_curses,
            final(self).curses == old(self).curses,
            has_author(old(self).authors@, author_name@) ==> final(self).authors
                == old(self).authors,
    {
        proof {
            lemma_authors_map_index(self.authors@);
        }
        let found = self.find_author(author_name);
        match found {
            Some(i) => {
                proof {
                    assert(has_author(self.authors@, author_name@));
                    assert(self@.authors.dom().contains(author_name@));
                    assert(final(self)@ =~= with_author(old(self)@, author_name@));
                }
                i
            },
            None => {
                let ghost before = self.authors@;
                let a = Author::new(author_name);
                self.authors.push(a);
                proof {
                    lemma_authors_push(before, a);
                    assert(!old(self)@.authors.dom().contains(author_name@));
                    assert(self@ =~= with_author(old(self)@, author_name@));
                    assert forall|x: int, y: int|
                        0 <= x < y < self.authors@.len() implies self.authors@[x].name@
                        != self.authors@[y].name@ by {
                        if y < before.len() {
                            assert(before[x].name@ != before[y].name@);
                        } else {
                            assert(self.authors@[y].name@ == author_name@);
                            assert(!has_author(before, author_name@));
                        }
                    }
                    assert(all_wf(self.authors@)) by {
                        assert forall|k: int|
                            0 <= k < self.authors@.len() implies (
                        #[trigger] self.authors@[k]).wf() by {
                            if k < before.len() {
                                assert(before[k].wf());
                            }
                        }
                    }
                }
                self.authors.len() - 1
            },
        }
    }

    /// Records one commit by the named author, whose lowercased message has
    /// the given tokens: the author's ledger (created when absent) records
    /// the commit and every flagged token, and the repository totals grow
    /// in lockstep.
    pub fn ingest_tokens(&mut self, list: &WordList, author_name: &str, tokens: &Vec<String>)
        requires
            old(self).wf(),
            old(self).total_commits < usize::MAX,
            old(self).total_curses + flagged_count(list.word_set(), tokens.deep_view())
                <= usize::MAX,
        ensures
            final(self).wf(),
            final(self)@ == ingest_tokens_model(
                old(self)@,
                list.word_set(),
                author_name@,
                tokens.deep_view(),
            ),
            final(self).name == old(self).name,
            final(self).curses == old(self).curses,
    {
        let ghost ws = list.word_set();
        let ghost ts = tokens.deep_view();
        let i = self.author(author_name);
        let ghost mid = *self;
        proof {
            lemma_authors_map_index(mid.authors@);
            lemma_elem_le_sums(mid.authors@, i as int);
            assert(mid.authors@[i as int].wf());
        }
        let added;
        {
            let a = &mut self.authors[i];
            added = a.record_tokens(list, tokens);
            a.total_commits = a.total_commits + 1;
        }
        proof {
            let new_a = self.authors@[i as int];
            assert(self.authors@ == mid.authors@.update(i as int, new_a));
            lemma_authors_update(mid.authors@, i as int, new_a);
        }
        self.total_commits = self.total_commits + 1;
        self.total_curses = self.total_curses + added;
        proof {
            let new_a = self.authors@[i as int];
            assert(all_wf(self.authors@)) by {
                assert forall|k: int|
                    0 <= k < self.authors@.len() implies (#[trigger] self.authors@[k]).wf() by {
                    if k != i as int {
                        assert(mid.authors@[k].wf());
                    }
                }
            }
            assert(mid@ == with_author(old(self)@, author_name@));
            assert(mid@.authors[author_name@] == mid.authors@[i as int]@);
            assert(new_a@ == (AuthorModel {
                total_commits: apply_tokens(mid.authors@[i as int]@, ws, ts).total_commits + 1,
                total_curses: apply_tokens(mid.authors@[i as int]@, ws, ts).total_curses,
                curses: apply_tokens(mid.authors@[i as int]@, ws, ts).curses,
            }));
            assert(self@ =~= ingest_tokens_model(old(self)@, ws, author_name@, ts));
        }
    }

    /// Ingests one commit record. A commit whose author or message is
    /// missing is skipped and counted nowhere, as is one whose counts would
    /// exceed the machine counters; any other commit is recorded: the
    /// message is lowercased once, tokenized, and every flagged token is
    /// counted for the commit's author and for the repository. Returns
    /// whether the commit was counted.
    pub fn ingest(&mut self, list: &WordList, commit: &Commit) -> (counted: bool)
        requires
            old(self).wf(),
        ensures
            final(self).wf(),
            final(self)@ == ingest_model(old(self)@, list.word_set(), *commit),
            counted == ingest_counts(old(self)@, list.word_set(), *commit),
            final(self).name == old(self).name,
            final(self).curses == old(self).curses,
    {
        match (&commit.author, &commit.message) {
            (Some(author_name), Some(message)) => {
                let lower = lowercase(message.as_str());
                let tokens = split_into_clean_words(lower.as_str());
                proof {
                    assert(tokens.deep_view() == tokens_of(lower_of(message@)));
                }
                let k = count_flagged(list, &tokens);
                if self.total_commits < usize::MAX && k <= usize::MAX - self.total_curses {
                    self.ingest_tokens(list, author_name.as_str(), &tokens);
                    true
                } else {
                    false
                }
            },
            _ => false,
        }
    }

    /// Iterate over all commits, finding authors who have been naughty and
    /// keeping track of them: every commit record is ingested in order.
    pub fn build(&mut self, list: &WordList, commits: &Vec<Commit>)
        requires
            old(self).wf(),
        ensures
            final(self).wf(),
            final(self)@ == build_model(old(self)@, list.word_set(), commits@),
            final(self).name == old(self).name,
            final(self).curses == old(self).curses,
    {
        let ghost ws = list.word_set();
        let n = commits.len();
        let mut i: usize = 0;
        while i < n
            invariant
                i <= n,
                n == commits@.len(),
                ws == list.word_set(),
                self.wf(),
                self@ == build_model(old(self)@, ws, commits@.take(i as int)),
                self.name == old(self).name,
                self.curses == old(self).curses,
            decreases n - i,
        {
            proof {
                assert(commits@.take(i as int + 1).drop_last() =~= commits@.take(i as int));
                assert(commits@.take(i as int + 1).last() == commits@[i as int]);
            }
            self.ingest(list, &commits[i]);
            i = i + 1;
        }
        proof {
            assert(commits@.take(n as int) =~= commits@);
        }
    }

    /// Counts all the naughty words used by authors: merges every ledger's
    /// per-word counts, key-wise, into the repository-wide mapping. Must be
    /// called exactly once, after the full walk: the mapping starts empty
    /// and afterwards holds, for every word, the sum of the ledgers' counts
    /// for it.
    pub fn count_curses(&mut self)
        requires
            old(self).wf(),
            old(self).curses@.len() == 0,
        ensures
            final(self).wf(),
            forall|w: Seq<char>|
                count_of(final(self).curses@, w) == sum_word_count(old(self).authors@, w),
            forall|w: Seq<char>|
                has_word(final(self).curses@, w) <==> any_author_has(old(self).authors@, w),
            total_of(final(self).curses@) == old(self).total_curses,
            positive_counts(final(self).curses@),
            forall|w: Seq<char>|
                has_word(final(self).curses@, w) ==> count_of(final(self).curses@, w) >= 1,
            final(self)@ == (RepoModel {
                name: old(self)@.name,
                total_commits: old(self)@.total_commits,
                total_curses: old(self)@.total_curses,
                curses: merged_counts(old(self).authors@),
                authors: old(self)@.authors,
            }),
            final(self).name == old(self).name,
            final(self).total_commits == old(self).total_commits,
            final(self).total_curses == old(self).total_curses,
            final(self).authors == old(self).authors,
    {
        let ghost all = self.authors@;
        let na = self.authors.len();
        let mut i: usize = 0;
        while i < na
            invariant
                i <= na,
                na == all.len(),
                self.authors@ == all,
                self.authors == old(self).authors,
                self.name == old(self).name,
                self.total_commits == old(self).total_commits,
                self.total_curses == old(self).total_curses,
                old(self).wf(),
                unique_words(self.curses@),
                positive_counts(self.curses@),
                forall|w: Seq<char>|
                    count_of(self.curses@, w) == sum_word_count(all.take(i as int), w),
                forall|w: Seq<char>|
                    has_word(self.curses@, w) <==> any_author_has(all.take(i as int), w),
                total_of(self.curses@) == sum_curses(all.take(i as int)),
            decreases na - i,
        {
            proof {
                assert(all.take(i as int + 1) =~= all.take(i as int).push(all[i as int]));
                lemma_authors_push(all.take(i as int), all[i as int]);
                assert(all[i as int].wf());
            }
            let ghost entries = all[i as int].curses@;
            let ne = self.authors[i].curses.len();
            let mut j: usize = 0;
            while j < ne
                invariant
                    j <= ne,
                    i < na,
                    na == all.len(),
                    ne == entries.len(),
                    entries == all[i as int].curses@,
                    self.authors@ == all,
                    self.authors == old(self).authors,
                    self.name == old(self).name,
                    self.total_commits == old(self).total_commits,
                    self.total_curses == old(self).total_curses,
                    old(self).wf(),
                    all[i as int].wf(),
                    unique_words(self.curses@),
                    positive_counts(self.curses@),
                    forall|w: Seq<char>|
                        count_of(self.curses@, w) == sum_word_count(all.take(i as int), w)
                            + count_of(entries.take(j as int), w),
                    forall|w: Seq<char>|
                        has_word(self.curses@, w) <==> (any_author_has(all.take(i as int), w)
                            || has_word(entries.take(j as int), w)),
                    total_of(self.curses@) == sum_curses(all.take(i as int)) + total_of(
                        entries.take(j as int),
                    ),
                decreases ne - j,
            {
                proof {
                    assert(entries.take(j as int + 1) =~= entries.take(j as int).push(
                        entries[j as int],
                    ));
                    lemma_entries_push(entries.take(j as int), entries[j as int]);
                    // The merged counts stay within the machine counter: what
                    // has been merged so far plus this entry is no more than
                    // the repository-wide flagged total.
                    lemma_count_le_total(self.curses@, entries[j as int].curse@);
                    lemma_total_take_le(entries, j as int + 1);
                    assert(total_of(entries) == all[i as int].total_curses);
                    assert(all.take(i as int + 1) =~= all.take(i as int).push(all[i as int]));
                    lemma_authors_push(all.take(i as int), all[i as int]);
                    lemma_sum_curses_take_le(all, i as int + 1);
                }
                let word = self.authors[i].curses[j].curse.clone();
                let count = self.authors[i].curses[j].count;
                proof {
                    assert(word@ == entries[j as int].curse@);
                    assert(count == entries[j as int].count);
                    // The ledger is well-formed, so this entry's count is
                    // positive and the merged mapping stays free of zeros.
                    assert(entries[j as int].count > 0);
                }
                let ghost before = self.curses@;
                add_count(&mut self.curses, word.as_str(), count);
                proof {
                    assert forall|w: Seq<char>|
                        count_of(self.curses@, w) == sum_word_count(all.take(i as int), w)
                            + count_of(entries.take(j as int + 1), w) by {
                        assert(count_of(self.curses@, w) == count_of(before, w) + (if w == word@ {
                            count as nat
                        } else {
                            0
                        }));
                    }
                }
                j = j + 1;
            }
            proof {
                assert(entries.take(ne as int) =~= entries);
            }
            i = i + 1;
        }
        proof {
            assert(all.take(na as int) =~= all);
            assert(count_map(self.curses@) =~= merged_counts(all));
            assert forall|w: Seq<char>|
                has_word(self.curses@, w) implies count_of(self.curses@, w) >= 1 by {
                lemma_count_positive(self.curses@, w);
            }
            assert(self@ =~= (RepoModel {
                name: old(self)@.name,
                total_commits: old(self)@.total_commits,
                total_curses: old(self)@.total_curses,
                curses: merged_counts(old(self).authors@),
                authors: old(self)@.authors,
            }));
        }
    }

    /// Count total naughty authors in repository: those with at least one
    /// recorded word.
    pub fn total_naughty_authors(&self) -> (r: usize)
        ensures
            r == naughty_count(self.authors@),
    {
        let n = self.authors.len();
        let mut count: usize = 0;
        let mut i: usize = 0;
        while i < n
            invariant
                i <= n,
                n == self.authors@.len(),
                count <= i,
                count == naughty_count(self.authors@.take(i as int)),
            decreases n - i,
        {
            proof {
                assert(self.authors@.take(i as int + 1) =~= self.authors@.take(i as int).push(
                    self.authors@[i as int],
                ));
                lemma_authors_push(self.authors@.take(i as int), self.authors@[i as int]);
            }
            if self.authors[i].is_naughty() {
                count = count + 1;
            }
            i = i + 1;
        }
        proof {
            assert(self.authors@.take(n as int) =~= self.authors@);
        }
        count
    }

    /// The ledger of the author named `name`, when one exists.
    pub fn get_author(&self, name: &str) -> (r: Option<&Author>)
        ensures
            match r {
                Some(a) => has_author(self.authors@, name@) && a.name@ == name@ && exists|i: int|
                    0 <= i < self.authors@.len() && self.authors@[i] == *a,
                None => !has_author(self.authors@, name@),
            },
    {
        let found = self.find_author(name);
        match found {
            Some(i) => {
                proof {
                    assert(self.authors@[i as int].name@ == name@);
                }
                Some(&self.authors[i])
            },
            None => None,
        }
    }

    /// The merged occurrence count for `word`: zero when no ledger recorded
    /// the word, meaningful once `count_curses` has merged the ledgers.
    pub fn curse_count(&self, word: &str) -> (n: usize)
        requires
            unique_words(self.curses@),
        ensures
            n == count_of(self.curses@, word@),
    {
        let found = crate::author::find_word(&self.curses, word);
        match found {
            Some(i) => {
                proof {
                    lemma_count_at_index(self.curses@, i as int);
                }
                self.curses[i].count
            },
            None => {
                proof {
                    lemma_count_absent(self.curses@, word@);
                }
                0
            },
        }
    }
}

/// Additivity: in every consistent aggregate the repository totals are the
/// sums of the ledgers' totals, commits and flagged occurrences alike. The
/// per-word half of the merge law is stated by `count_curses`: after
/// finalization the mapping holds, for every word, the sum of the ledgers'
/// counts for it.
pub proof fn lemma_totals_additive(repo: &Repo)
    requires
        repo.wf(),
    ensures
        repo.total_commits == sum_commits(repo.authors@),
        repo.total_curses == sum_curses(repo.authors@),
{
}

/// Idempotent ledger creation: looking the same name up twice is the same
/// as looking it up once; the second lookup finds the ledger the first one
/// made and resets nothing.
pub proof fn lemma_author_for_idempotent(m: RepoModel, n: Seq<char>)
    ensures
        with_author(with_author(m, n), n) == with_author(m, n),
{
}

/// Whether a commit record carries both an author and a message.
pub open spec fn ingestible(c: Commit) -> bool {
    c.author is Some && c.message is Some
}

/// How many of the commit records carry both an author and a message.
pub open spec fn ingestible_count(cs: Seq<Commit>) -> nat
    decreases cs.len(),
{
    if cs.len() == 0 {
        0
    } else {
        ingestible_count(cs.drop_last()) + if ingestible(cs.last()) {
            1nat
        } else {
            0
        }
    }
}

/// The tokens of a commit record's lowercased message.
pub open spec fn commit_tokens(c: Commit) -> Seq<Seq<char>> {
    match c.message {
        Some(msg) => tokens_of(lower_of(msg@)),
        None => Seq::empty(),
    }
}

/// Whether ingesting the records in order keeps every counter within the
/// machine limits at every step.
pub open spec fn all_ingests_fit(m: RepoModel, ws: Set<Seq<char>>, cs: Seq<Commit>) -> bool
    decreases cs.len(),
{
    if cs.len() == 0 {
        true
    } else {
        all_ingests_fit(m, ws, cs.drop_last()) && (ingestible(cs.last()) ==> ingest_fits(
            build_model(m, ws, cs.drop_last()),
            ws,
            commit_tokens(cs.last()),
        ))
    }
}

/// Commit accounting: so long as the counters have room at every step, the
/// ingested-commit total grows by exactly the number of records that carry
/// both an author and a message; skipped records count nowhere.
pub proof fn lemma_commit_accounting(m: RepoModel, ws: Set<Seq<char>>, cs: Seq<Commit>)
    ensures
        all_ingests_fit(m, ws, cs) ==> build_model(m, ws, cs).total_commits == m.total_commits
            + ingestible_count(cs),
    decreases cs.len(),
{
    if cs.len() > 0 {
        lemma_commit_accounting(m, ws, cs.drop_last());
    }
}

/// Order independence: ingesting two commits, each given as its author
/// name and the tokens of its lowercased message, yields the same
/// aggregate in either order.
pub proof fn lemma_ingest_order_independent(
    m: RepoModel,
    ws: Set<Seq<char>>,
    n1: Seq<char>,
    ts1: Seq<Seq<char>>,
    n2: Seq<char>,
    ts2: Seq<Seq<char>>,
)
    ensures
        ingest_tokens_model(ingest_tokens_model(m, ws, n1, ts1), ws, n2, ts2)
            == ingest_tokens_model(ingest_tokens_model(m, ws, n2, ts2), ws, n1, ts1),
{
    let l1 = ingest_tokens_model(m, ws, n1, ts1);
    let l = ingest_tokens_model(l1, ws, n2, ts2);
    let r1 = ingest_tokens_model(m, ws, n2, ts2);
    let r = ingest_tokens_model(r1, ws, n1, ts1);
    if n1 == n2 {
        let base = with_author(m, n1).authors[n1];
        let bl = apply_tokens(base, ws, ts1);
        let al = AuthorModel {
            total_commits: bl.total_commits + 1,
            total_curses: bl.total_curses,
            curses: bl.curses,
        };
        let br = apply_tokens(base, ws, ts2);
        let ar = AuthorModel {
            total_commits: br.total_commits + 1,
            total_curses: br.total_curses,
            curses: br.curses,
        };
        lemma_apply_tokens_counts(base, ws, ts1);
        lemma_apply_tokens_counts(base, ws, ts2);
        lemma_apply_tokens_counts(al, ws, ts2);
        lemma_apply_tokens_counts(ar, ws, ts1);
        assert(l1.authors[n1] == al);
        assert(r1.authors[n1] == ar);
        assert(apply_tokens(al, ws, ts2).curses =~= apply_tokens(ar, ws, ts1).curses) by {
            assert(apply_tokens(al, ws, ts2).curses == tallied(al, ws, ts2));
            assert(apply_tokens(ar, ws, ts1).curses == tallied(ar, ws, ts1));
            assert(al.curses == tallied(base, ws, ts1));
            assert(ar.curses == tallied(base, ws, ts2));
        }
        assert(l.authors =~~= r.authors);
        assert(l =~~= r);
    } else {
        assert(l1.authors.dom().contains(n2) <==> m.authors.dom().contains(n2));
        assert(r1.authors.dom().contains(n1) <==> m.authors.dom().contains(n1));
        assert(with_author(l1, n2).authors[n2] == with_author(m, n2).authors[n2]);
        assert(with_author(r1, n1).authors[n1] == with_author(m, n1).authors[n1]);
        assert(l.authors =~~= r.authors);
        assert(l =~~= r);
    }
}

/// The ingestion step of a commit record that carries both fields: the
/// author name together with the tokens of the lowercased message.
pub open spec fn commit_step(c: Commit) -> (Seq<char>, Seq<Seq<char>>) {
    (c.author.unwrap()@, commit_tokens(c))
}

/// The ingestion steps of a sequence of commit records, in order: one step
/// per record carrying both fields; the other records give rise to none.
pub open spec fn steps_of(cs: Seq<Commit>) -> Seq<(Seq<char>, Seq<Seq<char>>)>
    decreases cs.len(),
{
    if cs.len() == 0 {
        Seq::empty()
    } else if ingestible(cs.last()) {
        steps_of(cs.drop_last()).push(commit_step(cs.last()))
    } else {
        steps_of(cs.drop_last())
    }
}

/// Applying a sequence of ingestion steps in order.
pub open spec fn ingest_all_model(
    m: RepoModel,
    ws: Set<Seq<char>>,
    steps: Seq<(Seq<char>, Seq<Seq<char>>)>,
) -> RepoModel
    decreases steps.len(),
{
    if steps.len() == 0 {
        m
    } else {
        let s = steps.last();
        ingest_tokens_model(ingest_all_model(m, ws, steps.drop_last()), ws, s.0, s.1)
    }
}

/// So long as the counters have room at every step, ingesting the records
/// applies exactly their ingestion steps, in order.
proof fn lemma_build_is_ingest_all(m: RepoModel, ws: Set<Seq<char>>, cs: Seq<Commit>)
    requires
        all_ingests_fit(m, ws, cs),
    ensures
        build_model(m, ws, cs) == ingest_all_model(m, ws, steps_of(cs)),
    decreases cs.len(),
{
    if cs.len() > 0 {
        let dl = cs.drop_last();
        let c = cs.last();
        lemma_build_is_ingest_all(m, ws, dl);
        if ingestible(c) {
            let st = steps_of(cs);
            assert(st.drop_last() =~= steps_of(dl));
            assert(st.last() == commit_step(c));
            assert(commit_tokens(c) == tokens_of(lower_of(c.message.unwrap()@)));
            assert(ingest_model(build_model(m, ws, dl), ws, c) == ingest_tokens_model(
                build_model(m, ws, dl),
                ws,
                commit_step(c).0,
                commit_step(c).1,
            ));
        }
    }
}

/// Any single ingestion step can be applied last instead of in place.
proof fn lemma_ingest_all_remove(
    m: RepoModel,
    ws: Set<Seq<char>>,
    steps: Seq<(Seq<char>, Seq<Seq<char>>)>,
    j: int,
)
    requires
        0 <= j < steps.len(),
    ensures
        ingest_all_model(m, ws, steps) == ingest_tokens_model(
            ingest_all_model(m, ws, steps.remove(j)),
            ws,
            steps[j].0,
            steps[j].1,
        ),
    decreases steps.len(),
{
    if j == steps.len() - 1 {
        assert(steps.remove(j) =~= steps.drop_last());
    } else {
        let dl = steps.drop_last();
        let last = steps.last();
        lemma_ingest_all_remove(m, ws, dl, j);
        lemma_ingest_order_independent(
            ingest_all_model(m, ws, dl.remove(j)),
            ws,
            steps[j].0,
            steps[j].1,
            last.0,
            last.1,
        );
        let q = dl.remove(j).push(last);
        assert(steps.remove(j) =~= q);
        assert(q.drop_last() =~= dl.remove(j));
        assert(q.last() == last);
        assert(ingest_all_model(m, ws, q) == ingest_tokens_model(
            ingest_all_model(m, ws, dl.remove(j)),
            ws,
            last.0,
            last.1,
        ));
    }
}

/// Order independence for whole runs, at the level of ingestion steps:
/// applying the same multiset of steps, in any order, yields the same
/// aggregate.
pub proof fn lemma_ingest_all_order_independent(
    m: RepoModel,
    ws: Set<Seq<char>>,
    s1: Seq<(Seq<char>, Seq<Seq<char>>)>,
    s2: Seq<(Seq<char>, Seq<Seq<char>>)>,
)
    requires
        s1.to_multiset() == s2.to_multiset(),
    ensures
        ingest_all_model(m, ws, s1) == ingest_all_model(m, ws, s2),
    decreases s1.len(),
{
    s1.to_multiset_ensures();
    s2.to_multiset_ensures();
    if s1.len() == 0 {
        assert(s2.len() == 0);
    } else {
        let x = s1.last();
        assert(s1.contains(x));
        assert(s2.to_multiset().count(x) > 0);
        assert(s2.contains(x));
        let j = choose|j: int| 0 <= j < s2.len() && s2[j] == x;
        lemma_ingest_all_remove(m, ws, s2, j);
        let dl = s1.drop_last();
        dl.to_multiset_ensures();
        s2.remove(j).to_multiset_ensures();
        assert(s1 =~= dl.push(x));
        assert(s1.to_multiset() == dl.to_multiset().insert(x));
        assert(s2.remove(j).to_multiset() == s2.to_multiset().remove(x));
        assert(dl.to_multiset() =~= s2.remove(j).to_multiset());
        lemma_ingest_all_order_independent(m, ws, dl, s2.remove(j));
    }
}

/// Removing one commit record removes exactly its ingestion step, when it
/// has one, from the multiset of steps.
proof fn lemma_steps_of_remove(cs: Seq<Commit>, j: int)
    requires
        0 <= j < cs.len(),
    ensures
        ingestible(cs[j]) ==> steps_of(cs).to_multiset().count(commit_step(cs[j])) >= 1,
        steps_of(cs.remove(j)).to_multiset() == (if ingestible(cs[j]) {
            steps_of(cs).to_multiset().remove(commit_step(cs[j]))
        } else {
            steps_of(cs).to_multiset()
        }),
    decreases cs.len(),
{
    let dl = cs.drop_last();
    steps_of(cs).to_multiset_ensures();
    steps_of(dl).to_multiset_ensures();
    if j == cs.len() - 1 {
        assert(cs.remove(j) =~= dl);
        if ingestible(cs[j]) {
            assert(steps_of(cs) == steps_of(dl).push(commit_step(cs[j])));
            assert(steps_of(cs).to_multiset() == steps_of(dl).to_multiset().insert(
                commit_step(cs[j]),
            ));
            assert(steps_of(dl).to_multiset() =~= steps_of(cs).to_multiset().remove(
                commit_step(cs[j]),
            ));
        }
    } else {
        lemma_steps_of_remove(dl, j);
        steps_of(dl.remove(j)).to_multiset_ensures();
        let q = dl.remove(j).push(cs.last());
        assert(cs.remove(j) =~= q);
        assert(q.drop_last() =~= dl.remove(j));
        assert(q.last() == cs.last());
        assert(cs[j] == dl[j]);
        if ingestible(cs.last()) {
            assert(steps_of(q) == steps_of(dl.remove(j)).push(commit_step(cs.last())));
            assert(steps_of(cs) == steps_of(dl).push(commit_step(cs.last())));
            assert(steps_of(q).to_multiset() == steps_of(dl.remove(j)).to_multiset().insert(
                commit_step(cs.last()),
            ));
            assert(steps_of(cs).to_multiset() == steps_of(dl).to_multiset().insert(
                commit_step(cs.last()),
            ));
        } else {
            assert(steps_of(q) == steps_of(dl.remove(j)));
            assert(steps_of(cs) == steps_of(dl));
        }
        if ingestible(cs[j]) {
            assert(steps_of(q).to_multiset() =~= steps_of(cs).to_multiset().remove(
                commit_step(cs[j]),
            ));
        } else {
            assert(steps_of(q).to_multiset() =~= steps_of(cs).to_multiset());
        }
    }
}

/// Permuting the commit records permutes their ingestion steps.
proof fn lemma_steps_of_perm(cs1: Seq<Commit>, cs2: Seq<Commit>)
    requires
        cs1.to_multiset() == cs2.to_multiset(),
    ensures
        steps_of(cs1).to_multiset() == steps_of(cs2).to_multiset(),
    decreases cs1.len(),
{
    cs1.to_multiset_ensures();
    cs2.to_multiset_ensures();
    if cs1.len() == 0 {
        assert(cs2.len() == 0);
    } else {
        let x = cs1.last();
        assert(cs1.contains(x));
        assert(cs2.to_multiset().count(x) > 0);
        assert(cs2.contains(x));
        let j = choose|j: int| 0 <= j < cs2.len() && cs2[j] == x;
        lemma_steps_of_remove(cs2, j);
        let dl = cs1.drop_last();
        dl.to_multiset_ensures();
        cs2.remove(j).to_multiset_ensures();
        assert(cs1 =~= dl.push(x));
        assert(cs1.to_multiset() == dl.to_multiset().insert(x));
        assert(cs2.remove(j).to_multiset() == cs2.to_multiset().remove(x));
        assert(dl.to_multiset() =~= cs2.remove(j).to_multiset());
        lemma_steps_of_perm(dl, cs2.remove(j));
        steps_of(dl).to_multiset_ensures();
        if ingestible(x) {
            assert(steps_of(cs1) == steps_of(dl).push(commit_step(x)));
            assert(steps_of(cs1).to_multiset() == steps_of(dl).to_multiset().insert(
                commit_step(x),
            ));
            assert(steps_of(cs1).to_multiset() =~= steps_of(cs2).to_multiset());
        } else {
            assert(steps_of(cs1) == steps_of(dl));
            assert(steps_of(cs1).to_multiset() =~= steps_of(cs2).to_multiset());
        }
    }
}

/// Order independence for whole histories: two sequences of commit records
/// that are permutations of each other build identical aggregates — same
/// totals, same ledgers, same merged counts — so long as the counters have
/// room at every step in both orders.
pub proof fn lemma_build_order_independent(
    m: RepoModel,
    ws: Set<Seq<char>>,
    cs1: Seq<Commit>,
    cs2: Seq<Commit>,
)
    requires
        cs1.to_multiset() == cs2.to_multiset(),
    ensures
        all_ingests_fit(m, ws, cs1) && all_ingests_fit(m, ws, cs2) ==> build_model(m, ws, cs1)
            == build_model(m, ws, cs2),
{
    if all_ingests_fit(m, ws, cs1) && all_ingests_fit(m, ws, cs2) {
        lemma_build_is_ingest_all(m, ws, cs1);
        lemma_build_is_ingest_all(m, ws, cs2);
        lemma_steps_of_perm(cs1, cs2);
        lemma_ingest_all_order_independent(m, ws, steps_of(cs1), steps_of(cs2));
    }
}

/// Over a prefix of the ledgers, the sum of the flagged-word totals never
/// exceeds the sum over all ledgers.
pub proof fn lemma_sum_curses_take_le(authors: Seq<Author>, i: int)
    requires
        0 <= i <= authors.len(),
    ensures
        sum_curses(authors.take(i)) <= sum_curses(authors),
    decreases authors.len() - i,
{
    if i < authors.len() {
        assert(authors.take(i + 1).drop_last() =~= authors.take(i));
        lemma_sum_curses_take_le(authors, i + 1);
    } else {
        assert(authors.take(i) =~= authors);
    }
}

/// Adds `n` occurrences of `word` into a merged mapping: the count for
/// `word` grows by `n` (a word not present enters with count `n`, zero
/// included) and no other count changes.
fn add_count(curses: &mut Vec<Curse>, word: &str, n: usize)
    requires
        unique_words(old(curses)@),
        count_of(old(curses)@, word@) + n <= usize::MAX,
    ensures
        unique_words(final(curses)@),
        forall|w: Seq<char>|
            count_of(final(curses)@, w) == count_of(old(curses)@, w) + (if w == word@ {
                n as nat
            } else {
                0
            }),
        forall|w: Seq<char>|
            has_word(final(curses)@, w) <==> (has_word(old(curses)@, w) || w == word@),
        total_of(final(curses)@) == total_of(old(curses)@) + n,
        positive_counts(old(curses)@) && n > 0 ==> positive_counts(final(curses)@),
{
    let found = crate::author::find_word(curses, word);
    match found {
        Some(i) => {
            proof {
                lemma_count_at_index(curses@, i as int);
            }
            let entry_word = curses[i].curse.clone();
            let count = curses[i].count;
            let ghost before = curses@;
            curses.set(i, Curse { curse: entry_word, count: count + n });
            proof {
                let e = curses@[i as int];
                lemma_entries_update(before, i as int, e);
                assert forall|a: int, b: int|
                    0 <= a < b < curses@.len() implies curses@[a].curse@ != curses@[b].curse@ by {
                    assert(before[a].curse@ != before[b].curse@);
                }
                if positive_counts(before) && n > 0 {
                    assert forall|k: int|
                        0 <= k < curses@.len() implies (#[trigger] curses@[k]).count > 0 by {
                        if k != i as int {
                            assert(before[k].count > 0);
                        }
                    }
                }
            }
        },
        None => {
            let ghost before = curses@;
            curses.push(Curse::new(word, n));
            proof {
                let e = curses@[curses@.len() - 1];
                lemma_entries_push(before, e);
                lemma_count_absent(before, word@);
                assert forall|a: int, b: int|
                    0 <= a < b < curses@.len() implies curses@[a].curse@ != curses@[b].curse@ by {
                    if b < before.len() {
                        assert(before[a].curse@ != before[b].curse@);
                    } else {
                        assert(curses@[b].curse@ == word@);
                    }
                }
                if positive_counts(before) && n > 0 {
                    assert forall|k: int|
                        0 <= k < curses@.len() implies (#[trigger] curses@[k]).count > 0 by {
                        if k < before.len() {
                            assert(before[k].count > 0);
                        } else {
                            assert(curses@[k].count == n);
                        }
                    }
                }
            }
        },
    }
}

/// Counts how many of the tokens are flagged words.
fn count_flagged(list: &WordList, tokens: &Vec<String>) -> (k: usize)
    ensures
        k == flagged_count(list.word_set(), tokens.deep_view()),
{
    let ghost ws = list.word_set();
    let ghost ts = tokens.deep_view();
    let n = tokens.len();
    let mut k: usize = 0;
    let mut j: usize = 0;
    while j < n
        invariant
            j <= n,
            n == ts.len(),
            ts == tokens.deep_view(),
            ws == list.word_set(),
            k <= j,
            k == flagged_count(ws, ts.take(j as int)),
        decreases n - j,
    {
        proof {
            assert(ts.take(j as int + 1).drop_last() =~= ts.take(j as int));
            assert(ts.take(j as int + 1).last() == ts[j as int]);
        }
        let token = &tokens[j];
        proof {
            assert(token@ == ts[j as int]);
        }
        if naughty_word(token.as_str(), list) {
            k = k + 1;
        }
        j = j + 1;
    }
    proof {
        assert(ts.take(n as int) =~= ts);
    }
    k
}

} // verus!
