use ci_timing::error::TimingError;
use ci_timing::timing::extract_timings;

#[test]
fn two_parts_accumulate_into_the_next_phase() {
    let log = "[RUSTC-TIMING] crate_a 1.5\n[RUSTC-TIMING] crate_a 1.5\n[TIMING] build -- 4.0\n";
    let timings = extract_timings(log).unwrap();
    assert_eq!(timings.len(), 1);
    let build = timings.get("build").unwrap();
    assert_eq!(build.dur, 4_000_000_000);
    assert_eq!(build.parts.len(), 1);
    assert_eq!(*build.parts.get("crate_a").unwrap(), 3_000_000_000);
}

#[test]
fn parts_after_a_phase_go_to_the_next_one() {
    let log = "[RUSTC-TIMING] a 1.0\n[TIMING] first -- 2.0\n[RUSTC-TIMING] b 0.5\n[TIMING] second -- 3.0\n";
    let timings = extract_timings(log).unwrap();
    assert_eq!(timings.len(), 2);
    let first = timings.get("first").unwrap();
    assert_eq!(first.dur, 2_000_000_000);
    assert_eq!(first.parts.len(), 1);
    assert_eq!(*first.parts.get("a").unwrap(), 1_000_000_000);
    let second = timings.get("second").unwrap();
    assert_eq!(second.dur, 3_000_000_000);
    assert_eq!(second.parts.len(), 1);
    assert_eq!(*second.parts.get("b").unwrap(), 500_000_000);
}

#[test]
fn parts_that_no_phase_follows_are_dropped() {
    let with = "[TIMING] build -- 2.0\n[RUSTC-TIMING] late 9.0\n";
    let without = "[TIMING] build -- 2.0\n";
    assert_eq!(extract_timings(with), extract_timings(without));
    let timings = extract_timings(with).unwrap();
    assert_eq!(timings.get("build").unwrap().parts.len(), 0);
    assert_eq!(extract_timings("[RUSTC-TIMING] only 1.0").unwrap().len(), 0);
}

#[test]
fn nothing_is_left_over_from_one_log_to_the_next() {
    let first = extract_timings("[RUSTC-TIMING] a 1.0\n").unwrap();
    assert_eq!(first.len(), 0);
    let second = extract_timings("[TIMING] build -- 2.0\n").unwrap();
    assert_eq!(second.get("build").unwrap().parts.len(), 0);
}

#[test]
fn a_step_that_comes_again_accumulates() {
    let log = "[RUSTC-TIMING] a 1.0\n[TIMING] build -- 2.0\n[RUSTC-TIMING] a 0.25\n[RUSTC-TIMING] b 4\n[TIMING] build -- 3.5\n";
    let timings = extract_timings(log).unwrap();
    assert_eq!(timings.len(), 1);
    let build = timings.get("build").unwrap();
    assert_eq!(build.dur, 5_500_000_000);
    assert_eq!(build.parts.len(), 2);
    assert_eq!(*build.parts.get("a").unwrap(), 1_250_000_000);
    assert_eq!(*build.parts.get("b").unwrap(), 4_000_000_000);
}

#[test]
fn markers_are_found_anywhere_in_a_trimmed_line() {
    let log = "  2019-06-01T12:00:00Z [RUSTC-TIMING] core test:false 12.345  \r\n\t2019-06-01T12:00:01Z [TIMING] Std { stage: 0 } -- 20.001\t\r\n";
    let timings = extract_timings(log).unwrap();
    assert_eq!(timings.len(), 1);
    let std = timings.get("Std { stage: 0 }").unwrap();
    assert_eq!(std.dur, 20_001_000_000);
    assert_eq!(*std.parts.get("core test:false").unwrap(), 12_345_000_000);
}

#[test]
fn a_step_is_cut_at_the_first_separator() {
    let timings = extract_timings("[TIMING] a -- b -- 1.0");
    assert_eq!(timings.err(), Some(TimingError::Malformed));
    let timings = extract_timings("[TIMING]  -- 1.0").unwrap();
    assert_eq!(timings.get("").unwrap().dur, 1_000_000_000);
}

#[test]
fn a_phase_line_without_separator_is_passed_over() {
    let log = "[RUSTC-TIMING] a 1.0\n[TIMING] no separator here\n[TIMING] build -- 2.0\n";
    let timings = extract_timings(log).unwrap();
    assert_eq!(timings.len(), 1);
    assert_eq!(*timings.get("build").unwrap().parts.get("a").unwrap(), 1_000_000_000);
}

#[test]
fn other_lines_are_passed_over() {
    let log = "hello\n\n[TIMING]build -- 1.0\n[RUSTC-TIMING]x 1.0\nTIMING build -- 1.0\n";
    assert_eq!(extract_timings(log).unwrap().len(), 0);
    assert_eq!(extract_timings("").unwrap().len(), 0);
}

#[test]
fn a_line_with_both_markers_is_a_part_and_then_a_phase() {
    let timings = extract_timings("[RUSTC-TIMING] [TIMING] x -- 3.0").unwrap();
    assert_eq!(timings.len(), 1);
    let x = timings.get("x").unwrap();
    assert_eq!(x.dur, 3_000_000_000);
    assert_eq!(*x.parts.get("[TIMING] x --").unwrap(), 3_000_000_000);
}

#[test]
fn malformed_number_fails() {
    assert_eq!(extract_timings("[TIMING] build -- fast").err(), Some(TimingError::Malformed));
    assert_eq!(extract_timings("[TIMING] build --  x").err(), Some(TimingError::Malformed));
    assert_eq!(extract_timings("[RUSTC-TIMING] a b").err(), Some(TimingError::Malformed));
    assert_eq!(extract_timings("[RUSTC-TIMING] a 1e").err(), Some(TimingError::Malformed));
    assert_eq!(extract_timings("[TIMING] b -- -1e3").err(), Some(TimingError::Malformed));
    assert_eq!(extract_timings("[TIMING] b -- inf").err(), Some(TimingError::Malformed));
    assert_eq!(extract_timings("[TIMING] b -- NaN").err(), Some(TimingError::Malformed));
    assert_eq!(extract_timings("ok\n[RUSTC-TIMING] a -1\n[TIMING] b -- 1").err(), Some(TimingError::Malformed));
}

#[test]
fn a_part_without_a_name_fails() {
    assert_eq!(extract_timings("[RUSTC-TIMING] 1.5").err(), Some(TimingError::Malformed));
    assert_eq!(extract_timings("[RUSTC-TIMING] name").err(), Some(TimingError::Malformed));
}

#[test]
fn a_marker_cut_short_by_trimming_is_no_marker() {
    assert_eq!(extract_timings("[RUSTC-TIMING] \n[TIMING] build -- \n").unwrap().len(), 0);
}

#[test]
fn totals_past_the_range_fail() {
    let big = "[TIMING] build -- 18446744073.0\n";
    let log = format!("{}{}", big, big);
    assert_eq!(extract_timings(&log).err(), Some(TimingError::OutOfRange));
    let parts = "[RUSTC-TIMING] a 18446744073.0\n[RUSTC-TIMING] a 18446744073.0\n";
    assert_eq!(extract_timings(parts).err(), Some(TimingError::OutOfRange));
    let merge = "[RUSTC-TIMING] a 18446744073.0\n[TIMING] build -- 1\n[RUSTC-TIMING] a 18446744073.0\n[TIMING] build -- 1\n";
    assert_eq!(extract_timings(merge).err(), Some(TimingError::OutOfRange));
    assert_eq!(extract_timings("[TIMING] build -- 18446744074").err(), Some(TimingError::OutOfRange));
}

#[test]
fn the_first_failure_is_the_one_reported() {
    let log = "[TIMING] build -- 18446744074\n[TIMING] build -- x\n";
    assert_eq!(extract_timings(log).err(), Some(TimingError::OutOfRange));
    let log = "[TIMING] build -- x\n[TIMING] build -- 18446744074\n";
    assert_eq!(extract_timings(log).err(), Some(TimingError::Malformed));
}

#[test]
fn phases_come_in_the_order_of_their_names() {
    let timings = extract_timings("[TIMING] b -- 1\n[TIMING] a -- 2\n[TIMING] c -- 3\n").unwrap();
    let names: Vec<&str> = (0..timings.len()).map(|i| timings.entry(i).unwrap().0.as_str()).collect();
    assert_eq!(names, vec!["a", "b", "c"]);
}

#[test]
fn numbers_with_an_exponent_or_a_plus_sign_are_read() {
    let timings = extract_timings("[TIMING] build -- 1e3\n").unwrap();
    assert_eq!(timings.get("build").unwrap().dur, 1_000_000_000_000);
    let log = "[RUSTC-TIMING] a 1e3\n[RUSTC-TIMING] a +2.5E-1\n[TIMING] build -- +4.0\n[TIMING] build -- 15e-1\n";
    let timings = extract_timings(log).unwrap();
    let build = timings.get("build").unwrap();
    assert_eq!(build.dur, 5_500_000_000);
    assert_eq!(build.parts.len(), 1);
    assert_eq!(*build.parts.get("a").unwrap(), 1_000_250_000_000);
}
