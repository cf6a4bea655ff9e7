use ci_timing::azure::{
    builds_query, job_refs, log_path, page, Build, BuildLinks, JobRef, Link, List, Timeline,
    TimelineLog, TimelineRecord, HOST,
};

fn record(id: &str, kind: &str, url: Option<&str>) -> TimelineRecord {
    TimelineRecord {
        id: id.to_string(),
        kind: kind.to_string(),
        log: url.map(|u| TimelineLog { url: u.to_string() }),
    }
}

#[test]
fn the_query_for_builds() {
    assert_eq!(
        builds_query(),
        "/rust-lang/rust/_apis/build/builds?api-version=5.0&branchName=refs/heads/auto&queryOrder=finishTimeDescending"
    );
    assert_eq!(HOST, "https://dev.azure.com");
}

#[test]
fn where_a_log_is_kept() {
    assert_eq!(log_path("abc", "r-1"), "logs/azure/abc-r-1.gz");
}

#[test]
fn jobs_with_a_log_are_kept_in_order() {
    let timeline = Timeline {
        records: vec![
            record("1", "Job", Some("u1")),
            record("2", "Task", Some("u2")),
            record("3", "Job", None),
            record("4", "job", Some("u4")),
            record("5", "Job", Some("u5")),
            record("6", "Stage", None),
        ],
    };
    assert_eq!(
        job_refs("abc", &timeline),
        vec![
            JobRef { id: "1".to_string(), url: "u1".to_string(), path: "logs/azure/abc-1.gz".to_string() },
            JobRef { id: "5".to_string(), url: "u5".to_string(), path: "logs/azure/abc-5.gz".to_string() },
        ]
    );
    assert_eq!(job_refs("abc", &Timeline { records: Vec::new() }), Vec::new());
}

#[test]
fn a_page_gives_each_build_with_its_commit() {
    let build = |sha: &str| Build {
        source_version: sha.to_string(),
        _links: BuildLinks { timeline: Link { href: format!("https://t/{}", sha) } },
    };
    let list = List { value: vec![build("c2"), build("c1")] };
    assert_eq!(page(list), vec![("c2".to_string(), build("c2")), ("c1".to_string(), build("c1"))]);
}
