use ci_timing::error::NotFound;
use ci_timing::job_name::identify_job;

#[test]
fn the_name_stands_between_the_marker_and_the_bracket() {
    let log = "line one\n##[group][CI_JOB_NAME=dist-x86_64-linux]\nmore\n";
    assert_eq!(identify_job(log), Ok("dist-x86_64-linux".to_string()));
}

#[test]
fn the_first_line_with_the_marker_counts() {
    let log = "[CI_JOB_NAME=first]\n[CI_JOB_NAME=second]\n";
    assert_eq!(identify_job(log), Ok("first".to_string()));
}

#[test]
fn without_a_bracket_the_name_goes_to_the_end_of_the_line() {
    assert_eq!(identify_job("x CI_JOB_NAME=mingw-check\nnext"), Ok("mingw-check".to_string()));
    assert_eq!(identify_job("CI_JOB_NAME="), Ok(String::new()));
}

#[test]
fn a_placeholder_falls_back_to_the_second_word_after_the_agent_marker() {
    let log = "[CI_JOB_NAME=Job12]\nsome AGENT_JOBNAME=Job12 dist-i686-apple rest\n";
    assert_eq!(identify_job(log), Ok("dist-i686-apple".to_string()));
    let log = "AGENT_JOBNAME=ignored  \t x86_64-gnu\n[CI_JOB_NAME=Job7]\n";
    assert_eq!(identify_job(log), Ok("x86_64-gnu".to_string()));
}

#[test]
fn a_log_with_neither_marker_is_not_found() {
    assert_eq!(identify_job("nothing here\nat all\n"), Err(NotFound));
    assert_eq!(identify_job(""), Err(NotFound));
}

#[test]
fn a_placeholder_without_agent_name_is_not_found() {
    assert_eq!(identify_job("[CI_JOB_NAME=Job12]\n"), Err(NotFound));
    assert_eq!(identify_job("[CI_JOB_NAME=Job12]\nAGENT_JOBNAME=onlyone\n"), Err(NotFound));
    assert_eq!(identify_job("[CI_JOB_NAME=Job12]\nAGENT_JOBNAME=\n"), Err(NotFound));
}

#[test]
fn only_job_and_digits_is_a_placeholder() {
    let agent = "\nAGENT_JOBNAME=a b\n";
    assert_eq!(identify_job(&format!("[CI_JOB_NAME=Jobber]{}", agent)), Ok("Jobber".to_string()));
    assert_eq!(identify_job(&format!("[CI_JOB_NAME=Job]{}", agent)), Ok("Job".to_string()));
    assert_eq!(identify_job(&format!("[CI_JOB_NAME=Job1a]{}", agent)), Ok("Job1a".to_string()));
    assert_eq!(identify_job(&format!("[CI_JOB_NAME=job12]{}", agent)), Ok("job12".to_string()));
    assert_eq!(identify_job(&format!("[CI_JOB_NAME=Job0]{}", agent)), Ok("b".to_string()));
    assert_eq!(identify_job(&format!("[CI_JOB_NAME=Job123456]{}", agent)), Ok("b".to_string()));
}
