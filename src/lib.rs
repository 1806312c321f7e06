//! Finding a common run of `k` characters (Unicode scalar values) in two
//! pieces of text.
pub mod hashers;
pub mod helpers;
pub mod implementations;
pub mod search;
pub mod table;
pub mod text;
pub mod windows;

use crate::implementations::{
    _alternate_prereserve_iter_fx_substring, _naive_prereserve_iter_fx_shorter_substring,
    text_of,
};
use crate::search::{is_common_window, shares_window, shorter_first_result};
use vstd::prelude::*;

verus! {

/// Given two strings, returns the first found common substring of `k`
/// characters, or `None` if there is none.
///
/// The string with fewer characters is indexed (the first one on a tie) and
/// the other is scanned from its start; the result is the first window of
/// the scanned string that occurs in the indexed one. For `k == 0` the
/// result is the empty string.
pub fn substring<'a>(s1: &'a str, s2: &'a str, k: usize) -> (r: Option<&'a str>)
    ensures
        text_of(r) == shorter_first_result(s1@, s2@, k as nat),
        k == 0 ==> text_of(r) == Some(Seq::<char>::empty()),
        k > 0 && (s1@.len() < k || s2@.len() < k) ==> r is None,
{
    _naive_prereserve_iter_fx_shorter_substring(s1, s2, k)
}

/// Given two strings, returns a common substring of `k` characters, or
/// `None` if there is none. Which one is returned when there are several is
/// left open.
///
/// This runs much faster than [`substring`] when a common substring comes
/// early in both strings, and tends to run slower otherwise.
pub fn unordered_substring<'a>(s1: &'a str, s2: &'a str, k: usize) -> (r: Option<&'a str>)
    ensures
        k == 0 ==> text_of(r) == Some(Seq::<char>::empty()),
        k > 0 ==> match r {
            Some(w) => is_common_window(w@, s1@, s2@, k as nat),
            None => !shares_window(s1@, s2@, k as nat),
        },
        k > 0 && (s1@.len() < k || s2@.len() < k) ==> r is None,
{
    _alternate_prereserve_iter_fx_substring(s1, s2, k)
}

/// Given two strings, returns whether they have a common substring of `k`
/// characters.
pub fn has_substring(s1: &str, s2: &str, k: usize) -> (r: bool)
    ensures
        r == (shorter_first_result(s1@, s2@, k as nat) is Some),
        k == 0 ==> r,
{
    substring(s1, s2, k).is_some()
}

} // verus!
