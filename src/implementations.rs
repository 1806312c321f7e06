//! The variants of the search, each a choice of schedule and hash function,
//! and the window cursors for each hash function.
use crate::hashers::RollingPolynomial;
use crate::search::{
    alternate_scan, index_then_scan, is_common_window, ordered_result, shares_window,
    shorter_first_result,
};
use crate::windows::{WindowCursor, WindowHash};
use vstd::prelude::*;
use vstd::string::StrSliceExecFns;

verus! {

/// The text of a search result, if there is one.
pub open spec fn text_of(r: Option<&str>) -> Option<Seq<char>> {
    match r {
        Some(w) => Some(w@),
        None => None,
    }
}

/// The ordered search with `indexed` indexed and `scanned` scanned: the
/// first window of `scanned` (by position) that occurs in `indexed`.
pub fn ordered_substring<'a>(indexed: &'a str, scanned: &'a str, k: usize, kind: WindowHash) -> (r:
    Option<&'a str>)
    ensures
        text_of(r) == ordered_result(indexed@, scanned@, k as nat),
{
    if k == 0 {
        proof {
            reveal_strlit("");
        }
        return Some("");
    }
    let n1 = indexed.unicode_len();
    let n2 = scanned.unicode_len();
    if n1 < k || n2 < k {
        return None;
    }
    index_then_scan(indexed, scanned, k, kind)
}

/// The ordered search with the text of fewer characters indexed (the first
/// one when both have as many).
pub fn shorter_first_substring<'a>(s1: &'a str, s2: &'a str, k: usize, kind: WindowHash) -> (r:
    Option<&'a str>)
    ensures
        text_of(r) == shorter_first_result(s1@, s2@, k as nat),
{
    let n1 = s1.unicode_len();
    let n2 = s2.unicode_len();
    if n1 <= n2 {
        ordered_substring(s1, s2, k, kind)
    } else {
        ordered_substring(s2, s1, k, kind)
    }
}

/// The alternating search: some window of `k` characters that both texts
/// hold, or none when they share none.
pub fn unordered_common_substring<'a>(s1: &'a str, s2: &'a str, k: usize, kind: WindowHash) -> (r:
    Option<&'a str>)
    ensures
        k == 0 ==> text_of(r) == Some(Seq::<char>::empty()),
        k > 0 ==> match r {
            Some(w) => is_common_window(w@, s1@, s2@, k as nat),
            None => !shares_window(s1@, s2@, k as nat),
        },
        k > 0 && (s1@.len() < k || s2@.len() < k) ==> r is None,
{
    if k == 0 {
        proof {
            reveal_strlit("");
        }
        return Some("");
    }
    let n1 = s1.unicode_len();
    let n2 = s2.unicode_len();
    if n1 < k || n2 < k {
        return None;
    }
    alternate_scan(s1, s2, k, kind)
}

/// Indexes every window of `s1` (SipHash keys), then returns the first
/// window of `s2` that is in the index.
pub fn _naive_substring<'a>(s1: &'a str, s2: &'a str, k: usize) -> (r: Option<&'a str>)
    ensures
        text_of(r) == ordered_result(s1@, s2@, k as nat),
{
    ordered_substring(s1, s2, k, WindowHash::Sip)
}

/// As [`_naive_substring`], with the table sized for all of `s1`'s windows
/// up front.
pub fn _naive_prereserve_substring<'a>(s1: &'a str, s2: &'a str, k: usize) -> (r: Option<&'a str>)
    ensures
        text_of(r) == ordered_result(s1@, s2@, k as nat),
{
    ordered_substring(s1, s2, k, WindowHash::Sip)
}

/// As [`_naive_prereserve_substring`], with the windows taken from a cursor
/// that keeps a queue of character offsets.
pub fn _naive_prereserve_iter_substring<'a>(s1: &'a str, s2: &'a str, k: usize) -> (r: Option<
    &'a str,
>)
    ensures
        text_of(r) == ordered_result(s1@, s2@, k as nat),
{
    ordered_substring(s1, s2, k, WindowHash::Sip)
}

/// As [`_naive_prereserve_iter_substring`], with FxHasher keys.
pub fn _naive_prereserve_iter_fx_substring<'a>(s1: &'a str, s2: &'a str, k: usize) -> (r: Option<
    &'a str,
>)
    ensures
        text_of(r) == ordered_result(s1@, s2@, k as nat),
{
    ordered_substring(s1, s2, k, WindowHash::Fx)
}

/// The ordered search with FxHasher keys, indexing the text of fewer
/// characters.
pub fn _naive_prereserve_iter_fx_shorter_substring<'a>(s1: &'a str, s2: &'a str, k: usize) -> (r:
    Option<&'a str>)
    ensures
        text_of(r) == shorter_first_result(s1@, s2@, k as nat),
{
    shorter_first_substring(s1, s2, k, WindowHash::Fx)
}

/// The ordered search with rolling Adler-32 keys, indexing the text of
/// fewer characters.
pub fn _naive_prereserve_iter_rolling_adler_shorter_substring<'a>(
    s1: &'a str,
    s2: &'a str,
    k: usize,
) -> (r: Option<&'a str>)
    ensures
        text_of(r) == shorter_first_result(s1@, s2@, k as nat),
{
    shorter_first_substring(s1, s2, k, WindowHash::Adler)
}

/// The ordered search with rolling polynomial keys, indexing the text of
/// fewer characters. One random salt serves both texts.
pub fn _naive_prereserve_iter_rolling_poly_shorter_substring<'a>(
    s1: &'a str,
    s2: &'a str,
    k: usize,
) -> (r: Option<&'a str>)
    ensures
        text_of(r) == shorter_first_result(s1@, s2@, k as nat),
{
    let salt = RollingPolynomial::new().salt();
    shorter_first_substring(s1, s2, k, WindowHash::Polynomial(salt))
}

/// The alternating search with FxHasher keys.
pub fn _alternate_prereserve_iter_fx_substring<'a>(s1: &'a str, s2: &'a str, k: usize) -> (r:
    Option<&'a str>)
    ensures
        k == 0 ==> text_of(r) == Some(Seq::<char>::empty()),
        k > 0 ==> match r {
            Some(w) => is_common_window(w@, s1@, s2@, k as nat),
            None => !shares_window(s1@, s2@, k as nat),
        },
        k > 0 && (s1@.len() < k || s2@.len() < k) ==> r is None,
{
    unordered_common_substring(s1, s2, k, WindowHash::Fx)
}

/// A cursor over the windows of `source` with rolling Adler-32 hashes.
pub fn build_rolling_substring<'b>(source: &'b str, k: usize) -> (r: WindowCursor<'b>)
    requires
        1 <= k <= source@.len(),
    ensures
        r.wf(),
        r.text() == source@,
        r.width() == k,
        r.hasher() == WindowHash::Adler,
        r.next_index() == 0,
{
    WindowCursor::new(source, k, WindowHash::Adler)
}

/// A cursor over the windows of `source` with rolling polynomial hashes
/// under a fresh random salt.
pub fn build_rolling_polynomial_substring<'b>(source: &'b str, k: usize) -> (r: WindowCursor<'b>)
    requires
        1 <= k <= source@.len(),
    ensures
        r.wf(),
        r.text() == source@,
        r.width() == k,
        r.hasher() matches WindowHash::Polynomial(salt) && 2 <= salt < 256,
        r.next_index() == 0,
{
    let salt = RollingPolynomial::new().salt();
    WindowCursor::new(source, k, WindowHash::Polynomial(salt))
}

/// A cursor over the windows of `source` with FxHasher hashes.
pub fn build_fx_substring<'b>(source: &'b str, k: usize) -> (r: WindowCursor<'b>)
    requires
        1 <= k <= source@.len(),
    ensures
        r.wf(),
        r.text() == source@,
        r.width() == k,
        r.hasher() == WindowHash::Fx,
        r.next_index() == 0,
{
    WindowCursor::new(source, k, WindowHash::Fx)
}

/// A cursor over the windows of `source` with SipHash (std's
/// `DefaultHasher`) hashes.
pub fn build_sip_substring<'b>(source: &'b str, k: usize) -> (r: WindowCursor<'b>)
    requires
        1 <= k <= source@.len(),
    ensures
        r.wf(),
        r.text() == source@,
        r.width() == k,
        r.hasher() == WindowHash::Sip,
        r.next_index() == 0,
{
    WindowCursor::new(source, k, WindowHash::Sip)
}

} // verus!
