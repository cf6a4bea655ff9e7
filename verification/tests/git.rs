use ci_timing::git::{parse_commit_line, AUTHOR, PRETTY};
use ci_timing::GitCommit;

#[test]
fn a_line_names_a_commit_and_its_date() {
    assert_eq!(
        parse_commit_line("3849a5f83b82258fd76a3ff64933b81d7efeffa1 2019-05-21T12:40:13+00:00\n"),
        Some(GitCommit {
            sha: "3849a5f83b82258fd76a3ff64933b81d7efeffa1".to_string(),
            date: "2019-05-21T12:40:13+00:00".to_string(),
        })
    );
    assert_eq!(
        parse_commit_line("  a \t b  c"),
        Some(GitCommit { sha: "a".to_string(), date: "b".to_string() })
    );
}

#[test]
fn a_line_with_less_than_two_words_names_none() {
    assert_eq!(parse_commit_line(""), None);
    assert_eq!(parse_commit_line("\n"), None);
    assert_eq!(parse_commit_line("onlysha\n"), None);
}

#[test]
fn how_the_history_is_asked_for() {
    assert_eq!(AUTHOR, "bors");
    assert_eq!(PRETTY, "%H %aI");
}
