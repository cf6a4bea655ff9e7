use ci_timing::decimal::parse_nanos;
use ci_timing::error::TimingError;
use ci_timing::text::{find_in, rfind_char, split_lines, split_whitespace, trim};

fn strings(alphabet: &[char], max_len: usize) -> Vec<String> {
    let mut all = vec![String::new()];
    let mut last = vec![String::new()];
    for _ in 0..max_len {
        let mut next = Vec::new();
        for s in &last {
            for c in alphabet {
                let mut t = s.clone();
                t.push(*c);
                next.push(t);
            }
        }
        all.extend(next.iter().cloned());
        last = next;
    }
    all
}

fn text(v: &[char]) -> String {
    v.iter().collect()
}

#[test]
fn lines_agree_with_std_on_every_short_text() {
    for s in strings(&['a', '\n', '\r', ' '], 7) {
        let v: Vec<char> = s.chars().collect();
        let got: Vec<String> = split_lines(&v).iter().map(|l| text(l)).collect();
        let want: Vec<String> = s.lines().map(|l| l.to_string()).collect();
        assert_eq!(got, want, "{:?}", s);
    }
}

#[test]
fn trim_and_words_agree_with_std_on_every_short_text() {
    for s in strings(&['a', 'b', ' ', '\t', '\u{2003}'], 6) {
        let v: Vec<char> = s.chars().collect();
        assert_eq!(text(trim(&v)), s.trim(), "{:?}", s);
        let got: Vec<String> = split_whitespace(&v).iter().map(|l| text(l)).collect();
        let want: Vec<String> = s.split_whitespace().map(|l| l.to_string()).collect();
        assert_eq!(got, want, "{:?}", s);
    }
}

#[test]
fn find_agrees_with_std_on_every_short_text() {
    let needles = strings(&['a', 'b'], 3);
    for s in strings(&['a', 'b', 'é'], 6) {
        let v: Vec<char> = s.chars().collect();
        for n in &needles {
            let m: Vec<char> = n.chars().collect();
            let want = s.find(n.as_str()).map(|byte| s[..byte].chars().count());
            assert_eq!(find_in(&v, &m), want, "{:?} {:?}", s, n);
        }
        let want = s.rfind('b').map(|byte| s[..byte].chars().count());
        assert_eq!(rfind_char(&v, 'b'), want, "{:?}", s);
    }
}

#[test]
fn numbers_agree_with_floating_point_on_every_short_text() {
    for s in strings(&['0', '1', '9', '.', 'e', 'E', '+', '-'], 6) {
        let v: Vec<char> = s.chars().collect();
        let float = s.parse::<f64>();
        match parse_nanos(&v) {
            Ok(nanos) => {
                let float = float.unwrap();
                assert!(float.is_finite() && float >= 0.0 && !s.starts_with('-'), "{:?}", s);
                let seconds = nanos as f64 / 1e9;
                assert!((seconds - float).abs() <= 1e-9 + float * 1e-12, "{:?}", s);
            }
            Err(TimingError::Malformed) => {
                assert!(float.is_err() || s.starts_with('-'), "{:?}", s)
            }
            Err(TimingError::OutOfRange) => {
                assert!(float.unwrap() > 18_446_744_073.0 && !s.starts_with('-'), "{:?}", s)
            }
        }
    }
}
