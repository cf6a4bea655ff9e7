use ci_timing::gate::{Decision, Walk, OLDEST_TRACKED_COMMIT};

fn names(v: &[&str]) -> Vec<String> {
    v.iter().map(|s| s.to_string()).collect()
}

fn run(history: &[&str], published: &[&str], oldest: Option<&str>) -> (Vec<String>, Vec<String>) {
    let mut walk = Walk::new(names(history), oldest.map(|s| s.to_string()));
    let mut probed = Vec::new();
    let mut built = Vec::new();
    loop {
        let sha = match walk.current() {
            Some(sha) => sha.clone(),
            None => break,
        };
        probed.push(sha.clone());
        match walk.decide(published.contains(&sha.as_str())) {
            Decision::Build(b) => {
                assert_eq!(b, sha);
                built.push(b);
            }
            Decision::Halt => {}
        }
    }
    assert_eq!(walk.decide(false), Decision::Halt);
    assert_eq!(walk.current(), None);
    (probed, built)
}

#[test]
fn the_walk_halts_at_the_first_published_commit() {
    let (probed, built) = run(&["C5", "C4", "C3", "C2", "C1"], &["C3"], None);
    assert_eq!(built, names(&["C5", "C4"]));
    assert_eq!(probed, names(&["C5", "C4", "C3"]));
}

#[test]
fn older_published_commits_are_never_looked_at() {
    let (probed, built) = run(&["C5", "C4", "C3", "C2", "C1"], &["C1", "C3", "C2"], None);
    assert_eq!(built, names(&["C5", "C4"]));
    assert_eq!(probed, names(&["C5", "C4", "C3"]));
}

#[test]
fn with_nothing_published_the_whole_history_is_built() {
    let (probed, built) = run(&["C3", "C2", "C1"], &[], None);
    assert_eq!(built, names(&["C3", "C2", "C1"]));
    assert_eq!(probed, names(&["C3", "C2", "C1"]));
}

#[test]
fn with_the_newest_published_nothing_is_built() {
    let (probed, built) = run(&["C3", "C2", "C1"], &["C3", "C2", "C1"], None);
    assert_eq!(built, names(&[]));
    assert_eq!(probed, names(&["C3"]));
}

#[test]
fn an_empty_history_is_over_at_once() {
    let (probed, built) = run(&[], &[], None);
    assert!(probed.is_empty() && built.is_empty());
}

#[test]
fn the_walk_stops_after_the_oldest_commit_tracked() {
    let (probed, built) = run(&["C5", "C4", "C3", "C2"], &[], Some("C4"));
    assert_eq!(built, names(&["C5", "C4"]));
    assert_eq!(probed, names(&["C5", "C4"]));
    let (probed, built) = run(&["C5", "C4", "C3"], &["C4"], Some("C4"));
    assert_eq!(built, names(&["C5"]));
    assert_eq!(probed, names(&["C5", "C4"]));
    let (_, built) = run(&["new", OLDEST_TRACKED_COMMIT, "old"], &[], Some(OLDEST_TRACKED_COMMIT));
    assert_eq!(built, names(&["new", "3849a5f83b82258fd76a3ff64933b81d7efeffa1"]));
}

#[test]
fn a_second_walk_over_what_the_first_published_builds_nothing() {
    let history = ["C5", "C4", "C3", "C2", "C1"];
    let (_, first) = run(&history, &["C3", "C2", "C1"], None);
    let mut published: Vec<&str> = vec!["C3", "C2", "C1"];
    published.extend(first.iter().map(|s| s.as_str()));
    let (probed, second) = run(&history, &published, None);
    assert!(second.is_empty());
    assert_eq!(probed, names(&["C5"]));
}
