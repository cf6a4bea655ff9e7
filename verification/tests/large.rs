use ci_timing::timing::extract_timings;

#[test]
fn a_long_log_with_many_parts_is_read() {
    let mut log = String::new();
    for step in 0..20 {
        for part in 0..1_000 {
            log.push_str(&format!("2019-06-01T12:00:00.0000000Z [RUSTC-TIMING] crate_{} test:false 0.250\n", part));
            log.push_str("2019-06-01T12:00:00.0000000Z    Compiling something v0.1.0 (/checkout/src/something)\n");
        }
        log.push_str(&format!("2019-06-01T12:00:00.0000000Z [TIMING] Step {{ n: {} }} -- 500.000\r\n", step % 10));
    }
    let timings = extract_timings(&log).unwrap();
    assert_eq!(timings.len(), 10);
    let step = timings.get("Step { n: 3 }").unwrap();
    assert_eq!(step.dur, 2 * 500_000_000_000);
    assert_eq!(step.parts.len(), 1_000);
    assert_eq!(*step.parts.get("crate_999 test:false").unwrap(), 2 * 250_000_000);
}
