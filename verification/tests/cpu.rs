use ci_timing::cpu::{extract_cpu_microarch, lookup_microarch};

#[test]
fn family_six_model_eighty_five_is_skylake() {
    assert_eq!(lookup_microarch("6", "85"), Some("skylake".to_string()));
}

#[test]
fn every_listed_pair_has_its_name() {
    assert_eq!(lookup_microarch("6", "45"), Some("sandybridge".to_string()));
    assert_eq!(lookup_microarch("6", "62"), Some("ivybridge".to_string()));
    assert_eq!(lookup_microarch("6", "63"), Some("haswell".to_string()));
    assert_eq!(lookup_microarch("6", "79"), Some("broadwell".to_string()));
    assert_eq!(lookup_microarch("6", "86"), Some("broadwell".to_string()));
}

#[test]
fn an_unlisted_pair_has_none() {
    assert_eq!(lookup_microarch("6", "1"), None);
    assert_eq!(lookup_microarch("7", "85"), None);
    assert_eq!(lookup_microarch("", ""), None);
    assert_eq!(lookup_microarch("6 ", "85"), None);
    assert_eq!(lookup_microarch("85", "6"), None);
}

#[test]
fn the_first_family_and_the_next_model_are_looked_up() {
    let log = "processor\t: 0\nvendor_id\t: GenuineIntel\ncpu family\t: 6\nmodel\t\t: 85\nmodel name\t: Intel(R) Xeon(R)\ncpu family\t: 6\nmodel\t\t: 63\n";
    assert_eq!(extract_cpu_microarch(log), Some("skylake".to_string()));
}

#[test]
fn lines_are_trimmed_before_they_are_read() {
    let log = "  cpu family\t: 6  \r\n\tmodel\t\t: 79\t\r\n";
    assert_eq!(extract_cpu_microarch(log), Some("broadwell".to_string()));
}

#[test]
fn a_model_before_the_family_does_not_count() {
    assert_eq!(extract_cpu_microarch("model\t\t: 85\ncpu family\t: 6\n"), None);
    assert_eq!(extract_cpu_microarch("model\t\t: 85\ncpu family\t: 6\nmodel\t\t: 45\n"), Some("sandybridge".to_string()));
}

#[test]
fn a_log_that_names_no_pair_or_an_unlisted_one_has_none() {
    assert_eq!(extract_cpu_microarch(""), None);
    assert_eq!(extract_cpu_microarch("cpu family\t: 6\n"), None);
    assert_eq!(extract_cpu_microarch("cpu family\t: 6\nmodel name\t: x\n"), None);
    assert_eq!(extract_cpu_microarch("cpu family\t: 23\nmodel\t\t: 1\n"), None);
    assert_eq!(extract_cpu_microarch("cpu family\t: 6\nmodel\t\t: 200\nmodel\t\t: 85\n"), None);
}
