use git_anger::author::Author;
use git_anger::author::Curse;
use git_anger::repo::Commit;
use git_anger::repo::Repo;
use git_anger::words::WordList;

fn commit(author: &str, msg: &str) -> Commit {
    Commit::new(Some(author.to_string()), Some(msg.to_string()))
}

/// The five commits of the example history: three authors, seven flagged
/// occurrences in all.
fn example_commits() -> Vec<Commit> {
    vec![
        commit("John Doe", "Fix the bloody build, damn it"),
        commit("Sondre Nilsen", "fuck, the parser broke again"),
        commit("Sondre Nilsen", "Rewrite the fucking tokenizer"),
        commit("Sondre Nilsen", "Remove a shitty workaround"),
        commit("Ola Nordmann", "Resolve this fucking bitch of a merge conflict"),
    ]
}

fn example_repo() -> Repo {
    let list = WordList::shipped();
    let mut repo = Repo::new("repo");
    repo.build(&list, &example_commits());
    repo.count_curses();
    repo
}

#[test]
fn test_example_repo() {
    let repo = example_repo();

    assert_eq!(repo.authors.len(), 3);
    assert_eq!(repo.total_commits, 5);
    assert_eq!(repo.total_curses, 7);

    let john = repo.get_author("John Doe").unwrap();
    assert_eq!(john.total_curses, 2);
    assert_eq!(john.total_commits, 1);
    assert_eq!(john.occurrences("bloody"), 1);
    assert_eq!(john.occurrences("damn"), 1);

    let me = repo.get_author("Sondre Nilsen").unwrap();
    assert_eq!(me.total_curses, 3);
    assert_eq!(me.total_commits, 3);
    assert_eq!(me.occurrences("fuck"), 1);
    assert_eq!(me.occurrences("fucking"), 1);
    assert_eq!(me.occurrences("shitty"), 1);

    let ola = repo.get_author("Ola Nordmann").unwrap();
    assert_eq!(ola.total_curses, 2);
    assert_eq!(ola.total_commits, 1);
    assert_eq!(ola.occurrences("fucking"), 1);
    assert_eq!(ola.occurrences("bitch"), 1);
}

#[test]
fn test_curse_total() {
    let repo = example_repo();
    let total: usize = repo
        .authors
        .iter()
        .map(|a| a.curses.iter().map(|c| c.count).sum::<usize>())
        .sum();

    assert_eq!(total, repo.total_curses);
}

#[test]
fn test_merged_counts() {
    let repo = example_repo();
    assert_eq!(repo.curse_count("fucking"), 2);
    assert_eq!(repo.curse_count("fuck"), 1);
    assert_eq!(repo.curse_count("bloody"), 1);
    assert_eq!(repo.curse_count("damn"), 1);
    assert_eq!(repo.curse_count("shitty"), 1);
    assert_eq!(repo.curse_count("bitch"), 1);
    assert_eq!(repo.curse_count("pretty"), 0);
    assert_eq!(repo.total_naughty_authors(), 3);
}

/// The four-commit scenario: two authors, John with one commit holding
/// "bloody" and "damn", Sondre with three commits holding "fuck",
/// "fucking" and "shitty", one occurrence each.
fn scenario_commits() -> Vec<Commit> {
    vec![
        commit("John Doe", "Fix the bloody build, damn it"),
        commit("Sondre Nilsen", "fuck, the parser broke again"),
        commit("Sondre Nilsen", "Rewrite the fucking tokenizer"),
        commit("Sondre Nilsen", "Remove a shitty workaround"),
    ]
}

#[test]
fn test_fixture_scenario() {
    let list = WordList::shipped();
    let mut repo = Repo::new("repo");
    repo.build(&list, &scenario_commits());
    repo.count_curses();

    assert_eq!(repo.authors.len(), 2);
    assert_eq!(repo.total_commits, 4);
    assert_eq!(repo.total_curses, 5);

    let john = repo.get_author("John Doe").unwrap();
    assert_eq!(john.total_curses, 2);
    assert_eq!(john.total_commits, 1);
    assert_eq!(john.occurrences("bloody"), 1);
    assert_eq!(john.occurrences("damn"), 1);

    let me = repo.get_author("Sondre Nilsen").unwrap();
    assert_eq!(me.total_curses, 3);
    assert_eq!(me.total_commits, 3);
    assert_eq!(me.occurrences("fuck"), 1);
    assert_eq!(me.occurrences("fucking"), 1);
    assert_eq!(me.occurrences("shitty"), 1);
}

#[test]
fn test_order_independence() {
    let list = WordList::shipped();
    let commits = scenario_commits();
    let orders: Vec<Vec<usize>> = vec![
        vec![0, 1, 2, 3],
        vec![3, 2, 1, 0],
        vec![1, 3, 0, 2],
        vec![2, 0, 3, 1],
    ];
    let words = ["bloody", "damn", "fuck", "fucking", "shitty", "pretty"];

    let mut summaries: Vec<String> = Vec::new();
    for order in &orders {
        let mut repo = Repo::new("repo");
        for &i in order {
            let c = &commits[i];
            let permuted = Commit::new(c.author.clone(), c.message.clone());
            repo.ingest(&list, &permuted);
        }
        repo.count_curses();

        let mut summary = String::new();
        summary.push_str(&format!("{} {} ", repo.total_commits, repo.total_curses));
        let mut names: Vec<String> = repo.authors.iter().map(|a| a.name.clone()).collect();
        names.sort();
        for name in &names {
            let a = repo.get_author(name).unwrap();
            summary.push_str(&format!("{} {} {} ", a.name, a.total_commits, a.total_curses));
            for w in &words {
                summary.push_str(&format!("{} ", a.occurrences(w)));
            }
        }
        for w in &words {
            summary.push_str(&format!("{} ", repo.curse_count(w)));
        }
        summaries.push(summary);
    }
    for s in &summaries {
        assert_eq!(s, &summaries[0]);
    }
}

#[test]
fn test_skipped_commits() {
    let list = WordList::shipped();
    let mut repo = Repo::new("repo");
    let records = vec![
        Commit::new(None, Some("a damn fine commit".to_string())),
        Commit::new(Some("Jane".to_string()), None),
        Commit::new(None, None),
        commit("Jane", "looks damn good"),
    ];
    let counted = repo.ingest(&list, &records[0]);
    assert!(!counted);
    repo.build(&list, &records);
    repo.count_curses();

    assert_eq!(repo.total_commits, 1);
    assert_eq!(repo.total_curses, 1);
    assert_eq!(repo.authors.len(), 1);
    let jane = repo.get_author("Jane").unwrap();
    assert_eq!(jane.total_commits, 1);
    assert_eq!(jane.occurrences("damn"), 1);
}

#[test]
fn test_lowercasing_applies() {
    let list = WordList::shipped();
    let mut repo = Repo::new("repo");
    repo.ingest(&list, &commit("Jane", "DAMN, Bloody BUILD"));
    let jane = repo.get_author("Jane").unwrap();
    assert_eq!(jane.total_curses, 2);
    assert_eq!(jane.occurrences("damn"), 1);
    assert_eq!(jane.occurrences("bloody"), 1);
    assert_eq!(jane.occurrences("DAMN"), 0);
}

#[test]
fn test_author_names_not_normalized() {
    let list = WordList::shipped();
    let mut repo = Repo::new("repo");
    repo.ingest(&list, &commit("jane", "damn"));
    repo.ingest(&list, &commit("Jane", "damn"));
    assert_eq!(repo.authors.len(), 2);
    assert_eq!(repo.total_commits, 2);
}

#[test]
fn test_empty_message_still_counts() {
    let list = WordList::shipped();
    let mut repo = Repo::new("repo");
    let counted = repo.ingest(&list, &commit("Jane", ""));
    assert!(counted);
    assert_eq!(repo.total_commits, 1);
    assert_eq!(repo.total_curses, 0);
    let jane = repo.get_author("Jane").unwrap();
    assert_eq!(jane.total_commits, 1);
    assert!(!jane.is_naughty());
}

#[test]
fn test_author_ledger_accumulates() {
    let mut repo = Repo::new("repo");
    let i = repo.author("Jane");
    assert_eq!(repo.authors.len(), 1);
    assert_eq!(repo.authors[i].name, "Jane");
    assert_eq!(repo.authors[i].total_commits, 0);
    assert_eq!(repo.authors[i].total_curses, 0);
    assert!(repo.authors[i].curses.is_empty());

    let j = repo.author("Jane");
    assert_eq!(i, j);
    assert_eq!(repo.authors.len(), 1);

    let list = WordList::shipped();
    repo.ingest(&list, &commit("Jane", "damn"));
    let k = repo.author("Jane");
    assert_eq!(repo.authors[k].total_commits, 1);
    assert_eq!(repo.authors[k].total_curses, 1);
}

#[test]
fn test_update_occurrence() {
    let mut author = Author::new("Jane");
    author.update_occurrence("damn");
    author.update_occurrence("damn");
    author.update_occurrence("bloody");
    assert_eq!(author.occurrences("damn"), 2);
    assert_eq!(author.occurrences("bloody"), 1);
    assert_eq!(author.occurrences("fuck"), 0);
    assert_eq!(author.total_curses, 3);
    assert_eq!(author.total_commits, 0);
    assert!(author.is_naughty());
}

#[test]
fn test_add_missing() {
    let mut seen = Author::new("Jane");
    seen.update_occurrence("damn");
    let mut other = Author::new("Joe");
    assert!(!other.is_naughty());
    other.add_missing(&seen.curses);
    assert_eq!(other.occurrences("damn"), 0);
    assert_eq!(other.total_curses, 0);
    assert!(other.is_naughty());
    other.add_missing(&seen.curses);
    assert_eq!(other.curses.len(), 1);
}

#[test]
fn test_curse_new() {
    let curse = Curse::new("damn", 2);
    assert_eq!(curse.curse, "damn");
    assert_eq!(curse.count, 2);
}
