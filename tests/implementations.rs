use adler32::RollingAdler32;
use std::hash::Hasher;
use substring_search::implementations::{
    build_fx_substring, build_rolling_polynomial_substring, build_rolling_substring,
    build_sip_substring, _alternate_prereserve_iter_fx_substring, _naive_prereserve_iter_fx_substring,
    _naive_prereserve_iter_rolling_adler_shorter_substring,
    _naive_prereserve_iter_rolling_poly_shorter_substring, _naive_prereserve_iter_substring,
    _naive_prereserve_substring, _naive_substring,
};
use substring_search::hashers::RollingPolynomial;
use substring_search::windows::{hash_window, WindowHash};

#[test]
// Removing the first element and adding another element should produce the same hash as if you
// hashed those same elements (in the same order) to begin with.
fn test_adler32_rolling() {
    let s = "This is a test string. - Normal Person";
    // Testing with window size of 5
    let mut hash = RollingAdler32::from_buffer(s[0..5].as_bytes());
    hash.remove(5, s[0..1].as_bytes()[0]);
    hash.update(s[5..6].as_bytes()[0]);
    assert_eq!(hash.hash(), RollingAdler32::from_buffer(s[1..6].as_bytes()).hash());
}

#[test]
fn test_rolling_next_substring() {
    // Test string that includes multi-byte characters.
    let s = "›It costs €10 for this item…";
    let k = 5;
    let mut next_substring = build_rolling_substring(s, k);

    for i in 0..s.len() - k {
        let expected_sub = s.chars().skip(i).take(k).collect::<String>();
        assert_eq!(
            next_substring.next_window(),
            (expected_sub.as_str(), RollingAdler32::from_buffer(expected_sub.as_bytes()).hash() as u64)
        );
    }
}

fn expected_windows(s: &str, k: usize, calls: usize) -> Vec<String> {
    (0..calls).map(|i| s.chars().skip(i).take(k).collect::<String>()).collect()
}

fn sip(bytes: &[u8]) -> u64 {
    let mut h = std::collections::hash_map::DefaultHasher::new();
    h.write(bytes);
    h.finish()
}

fn fx(bytes: &[u8]) -> u64 {
    let mut h = rustc_hash::FxHasher::default();
    h.write(bytes);
    h.finish()
}

#[test]
fn polynomial_cursor_matches_fresh_hashes() {
    let s = "›It costs €10 for this item…";
    let k = 5;
    let mut cur = build_rolling_polynomial_substring(s, k);
    let mut salt = None;
    for w in expected_windows(s, k, s.len()) {
        let (sub, h) = cur.next_window();
        assert_eq!(sub, w.as_str());
        // Recover the salt from the first window by trying every allowed value.
        let found = match salt {
            Some(v) => v,
            None => {
                let v = (2..256u64)
                    .find(|v| RollingPolynomial::from_buffer_with_salt(w.as_bytes(), *v).hash() == h)
                    .unwrap();
                salt = Some(v);
                v
            }
        };
        assert_eq!(h, RollingPolynomial::from_buffer_with_salt(w.as_bytes(), found).hash());
    }
}

#[test]
fn fx_and_sip_cursors_hash_each_window() {
    let s = "a€b›c…d";
    let k = 3;
    let mut f = build_fx_substring(s, k);
    let mut p = build_sip_substring(s, k);
    for w in expected_windows(s, k, 9) {
        let (a, ha) = f.next_window();
        let (b, hb) = p.next_window();
        assert_eq!(a, w.as_str());
        assert_eq!(b, w.as_str());
        assert_eq!(ha, fx(w.as_bytes()));
        assert_eq!(hb, sip(w.as_bytes()));
    }
}

#[test]
fn window_hashes_of_known_values() {
    // Adler-32 of "abc" is 0x024d0127.
    assert_eq!(hash_window(WindowHash::Adler, b"abc"), 0x024d0127);
    assert_eq!(hash_window(WindowHash::Adler, b""), 1);
    assert_eq!(hash_window(WindowHash::Polynomial(10), &[1, 2, 3]), 123);
    assert_eq!(hash_window(WindowHash::Sip, b"abc"), sip(b"abc"));
    assert_eq!(hash_window(WindowHash::Fx, b"abc"), fx(b"abc"));
    assert_ne!(hash_window(WindowHash::Fx, b"abc"), hash_window(WindowHash::Fx, b"abd"));
}

#[test]
fn cursor_with_window_of_whole_text() {
    let s = "Test";
    let mut cur = build_rolling_substring(s, 4);
    assert_eq!(cur.next_window().0, "Test");
    assert_eq!(cur.next_window().0, "est");
    assert_eq!(cur.next_window().0, "st");
    assert_eq!(cur.next_window().0, "t");
    assert_eq!(cur.next_window(), ("", 1));
    assert_eq!(cur.next_window(), ("", 1));
}

#[test]
fn ordered_variants_index_the_first_text() {
    let s1 = "Here be another test string. Yaargh. - Pirate";
    let s2 = "This is a test string. - Normal Person";
    // s2 is scanned: its first window found in s1 starts at " test".
    let fs: [for<'a> fn(&'a str, &'a str, usize) -> Option<&'a str>; 4] = [
        _naive_substring,
        _naive_prereserve_substring,
        _naive_prereserve_iter_substring,
        _naive_prereserve_iter_fx_substring,
    ];
    for f in fs {
        assert_eq!(f(s1, s2, 5), Some(" test"));
        assert_eq!(f(s1, s2, 0), Some(""));
        assert_eq!(f("", s2, 5), None);
        assert_eq!(f("abcabc", "xxcab", 3), Some("cab"));
    }
}

#[test]
fn shorter_first_variants_agree() {
    let a = "zzzzcabzzab";
    let b = "abcab";
    let fs: [for<'a> fn(&'a str, &'a str, usize) -> Option<&'a str>; 2] = [
        _naive_prereserve_iter_rolling_adler_shorter_substring,
        _naive_prereserve_iter_rolling_poly_shorter_substring,
    ];
    for f in fs {
        // b is shorter, so a is scanned: "zca" is not in b, "cab" is.
        assert_eq!(f(a, b, 3), Some("cab"));
        assert_eq!(f(b, a, 3), Some("cab"));
        assert_eq!(f(a, b, 0), Some(""));
        assert_eq!(f(a, b, 6), None);
        assert_eq!(f("Test", "test", 4), None);
    }
}

#[test]
fn shorter_first_changes_the_reported_window() {
    // Indexing the first text reports "ab"; indexing the shorter one reports "ba".
    let long = "xbaxab";
    let short = "abba";
    assert_eq!(_naive_substring(short, long, 2), Some("ba"));
    assert_eq!(_naive_substring(long, short, 2), Some("ab"));
    assert_eq!(
        _naive_prereserve_iter_rolling_poly_shorter_substring(long, short, 2),
        Some("ba")
    );
}

#[test]
fn alternate_finds_a_common_window() {
    let r = _alternate_prereserve_iter_fx_substring("abcdef", "xxdefab", 2).unwrap();
    assert!(["ab", "de", "ef"].contains(&r));
    assert_eq!(_alternate_prereserve_iter_fx_substring("abc", "xyz", 1), None);
}
