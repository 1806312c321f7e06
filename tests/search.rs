use substring_search::{has_substring, substring, unordered_substring};

// Reference for `substring`: index the string with fewer characters, then return the first window
// of the other string that the indexed one contains.
fn substring_reference_impl<'a>(s1: &'a str, s2: &'a str, k: usize) -> Option<&'a str> {
    if k == 0 {
        return Some("");
    }
    let (indexed, scanned) = if s1.chars().count() <= s2.chars().count() { (s1, s2) } else { (s2, s1) };
    let starts: Vec<usize> = scanned
        .char_indices()
        .map(|(i, _)| i)
        .chain(std::iter::once(scanned.len()))
        .collect();
    let n = starts.len() - 1;
    if n < k {
        return None;
    }
    for i in 0..(n - k + 1) {
        let sub = &scanned[starts[i]..starts[i + k]];
        if indexed.contains(sub) {
            return Some(sub);
        }
    }
    None
}

// Checks that `sub` has `k` characters and is a substring of both `s1` and `s2`.
fn unordered_substring_correct(sub: &str, s1: &str, s2: &str, k: usize) -> bool {
    sub.chars().count() == k && s1.contains(sub) && s2.contains(sub)
}

const SAMPLES: [&str; 9] = [
    "",
    "a",
    "abab",
    "Test",
    "test",
    "ba›€ab",
    "€€€€",
    "This is a test string. - Normal Person",
    "Here be another test string. Yaargh. - Pirate",
];

#[test]
fn test_substring() {
    let s1 = "This is a test string. - Normal Person";
    let s2 = "Here be another test string. Yaargh. - Pirate";
    let k = 5;
    // We expect only the first substring will be returned.
    let expected_substring = Some(" test");

    let r = substring(s1, s2, k);
    assert_eq!(r, expected_substring);
}

#[test]
fn test_no_substring() {
    let s1 = "This is a test string. - Normal Person";
    let s2 = "Who lives in a pineapple under the sea? - Patchy";
    let k = 5;
    let expected_substring = None;

    let r = substring(s1, s2, k);
    assert_eq!(r, expected_substring);
}

#[test]
fn test_no_string() {
    let s1 = "";
    let s2 = "Who lives in a pineapple under the sea? - Patchy";
    let k = 5;
    let expected_substring = None;

    let r = substring(s1, s2, k);
    assert_eq!(r, expected_substring);
}

#[test]
fn test_no_k() {
    let s1 = "This is a test string. - Normal Person";
    let s2 = "Here be another test string. Yaargh. - Pirate";
    let k = 0;
    let expected_substring = Some("");

    let r = substring(s1, s2, k);
    assert_eq!(r, expected_substring);
}

#[test]
fn test_string_of_length_k() {
    let s1 = "Test";
    let s2 = "Test";
    let s3 = "Uhoh";
    let k = 4;

    assert_eq!(substring(s1, s2, k), Some(s1));
    assert_eq!(substring(s1, s3, k), None);
}

#[test]
fn test_case_sensitive() {
    let s1 = "Test";
    let s2 = "test";
    let k = 4;
    let expected_substring = None;

    let r = substring(s1, s2, k);
    assert_eq!(r, expected_substring);
}

#[test]
fn test_substring_unordered() {
    let s1 = "This is a test string. - Normal Person";
    let s2 = "Here be another test string. Yaargh. - Pirate";
    let k = 5;

    let r = unordered_substring(s1, s2, k);
    assert_eq!(r.is_some(), true);
    assert_eq!(unordered_substring_correct(r.unwrap(), s1, s2, k), true);
}

#[test]
fn test_no_substring_unordered() {
    let s1 = "This is a test string. - Normal Person";
    let s2 = "Who lives in a pineapple under the sea? - Patchy";
    let k = 5;
    let expected_substring = None;

    let r = unordered_substring(s1, s2, k);
    assert_eq!(r, expected_substring);
}

#[test]
fn test_no_string_unordered() {
    let s1 = "";
    let s2 = "Who lives in a pineapple under the sea? - Patchy";
    let k = 5;
    let expected_substring = None;

    let r = unordered_substring(s1, s2, k);
    assert_eq!(r, expected_substring);
}

#[test]
fn test_no_k_unordered() {
    let s1 = "This is a test string. - Normal Person";
    let s2 = "Here be another test string. Yaargh. - Pirate";
    let k = 0;
    let expected_substring = Some("");

    let r = unordered_substring(s1, s2, k);
    assert_eq!(r, expected_substring);
}

#[test]
fn test_string_of_length_k_unordered() {
    let s1 = "Test";
    let s2 = "Test";
    let s3 = "Uhoh";
    let k = 4;

    assert_eq!(unordered_substring(s1, s2, k), Some(s1));
    assert_eq!(unordered_substring(s1, s3, k), None);
}

#[test]
fn test_case_sensitive_unordered() {
    let s1 = "Test";
    let s2 = "test";
    let k = 4;
    let expected_substring = None;

    let r = unordered_substring(s1, s2, k);
    assert_eq!(r, expected_substring);
}

#[test]
fn zero_k_matches_even_empty_strings() {
    assert_eq!(substring("", "", 0), Some(""));
    assert_eq!(unordered_substring("", "", 0), Some(""));
    assert!(has_substring("", "", 0));
}

#[test]
fn strings_shorter_than_k_never_match() {
    for s1 in SAMPLES {
        for s2 in SAMPLES {
            for k in 1..10 {
                if s1.chars().count() < k || s2.chars().count() < k {
                    assert_eq!(substring(s1, s2, k), None);
                    assert_eq!(unordered_substring(s1, s2, k), None);
                    assert!(!has_substring(s1, s2, k));
                }
            }
        }
    }
}

#[test]
fn substring_agrees_with_reference() {
    for s1 in SAMPLES {
        for s2 in SAMPLES {
            for k in 0..10 {
                assert_eq!(substring(s1, s2, k), substring_reference_impl(s1, s2, k));
                assert_eq!(has_substring(s1, s2, k), substring_reference_impl(s1, s2, k).is_some());
            }
        }
    }
}

#[test]
fn unordered_results_are_common_windows() {
    for s1 in SAMPLES {
        for s2 in SAMPLES {
            for k in 1..10 {
                match unordered_substring(s1, s2, k) {
                    Some(sub) => assert!(unordered_substring_correct(sub, s1, s2, k)),
                    None => assert_eq!(substring_reference_impl(s1, s2, k), None),
                }
            }
        }
    }
}

#[test]
fn multibyte_windows_align_on_characters() {
    let s1 = "›It costs €10 for this item…";
    let s2 = "the price: €10 flat…";
    assert_eq!(substring(s1, s2, 5), Some(" €10 "));
    assert_eq!(substring("ab€cd", "x€cy", 2), Some("€c"));
    assert_eq!(unordered_substring("ab€cd", "x€cy", 2), Some("€c"));
    assert_eq!(substring("€", "€", 1), Some("€"));
}

#[test]
fn shorter_string_is_indexed() {
    // "ab" comes first in the longer string, which is scanned.
    assert_eq!(substring("zba", "xxabxba", 2), Some("ba"));
    assert_eq!(substring("xxabxba", "zba", 2), Some("ba"));
    // On a tie the first string is indexed.
    assert_eq!(substring("abcd", "cdab", 2), Some("cd"));
    assert_eq!(substring("cdab", "abcd", 2), Some("ab"));
}

#[test]
fn largest_k_never_matches() {
    assert_eq!(substring("ab", "ab", usize::MAX), None);
    assert_eq!(unordered_substring("ab", "ab", usize::MAX), None);
    assert!(!has_substring("ab", "ab", usize::MAX));
}

#[test]
fn equal_strings_match_at_their_start() {
    let s = "€ab€";
    for k in 1..5 {
        let first: String = s.chars().take(k).collect();
        assert_eq!(substring(s, s, k), Some(first.as_str()));
        assert!(unordered_substring(s, s, k).is_some());
    }
}
