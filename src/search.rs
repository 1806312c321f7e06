//! The matching engine: index the windows of one text, then look up the
//! windows of the other, in one of two schedules.
use crate::table::MatchTable;
use crate::text::clipped_window;
use crate::windows::{WindowCursor, WindowHash};
use vstd::prelude::*;
use vstd::string::StrSliceExecFns;

verus! {

broadcast use {vstd::seq::group_seq_axioms, vstd::set::group_set_axioms};

/// `w` occurs as a run of consecutive characters of `s`.
pub open spec fn occurs_in(w: Seq<char>, s: Seq<char>) -> bool {
    exists|j: int| 0 <= j && j + w.len() <= s.len() && #[trigger] s.subrange(j, j + w.len()) == w
}

/// The window of `k` characters of `s` that starts at position `i`.
pub open spec fn window_at(s: Seq<char>, k: nat, i: int) -> Seq<char> {
    s.subrange(i, i + k)
}

/// The texts of the windows of `k` characters of `s` that start before `i`.
pub open spec fn windows_before(s: Seq<char>, k: nat, i: int) -> Set<Seq<char>> {
    Set::new(
        |w: Seq<char>|
            exists|j: int| 0 <= j < i && j + k <= s.len() && #[trigger] window_at(s, k, j) == w,
    )
}

/// The first window of `k` characters of `scanned`, at position `i` or
/// later, that occurs in `indexed`.
pub open spec fn first_window_from(indexed: Seq<char>, scanned: Seq<char>, k: nat, i: int) -> Option<
    Seq<char>,
>
    decreases scanned.len() + 1 - i,
{
    if i < 0 || i + k > scanned.len() {
        None
    } else if occurs_in(window_at(scanned, k, i), indexed) {
        Some(window_at(scanned, k, i))
    } else {
        first_window_from(indexed, scanned, k, i + 1)
    }
}

/// What the ordered search owes when `indexed` is indexed and `scanned` is
/// scanned: the empty text for `k == 0`, nothing when a text is shorter than
/// `k`, else the first window of `scanned` that occurs in `indexed`.
pub open spec fn ordered_result(indexed: Seq<char>, scanned: Seq<char>, k: nat) -> Option<
    Seq<char>,
> {
    if k == 0 {
        Some(Seq::empty())
    } else if indexed.len() < k || scanned.len() < k {
        None
    } else {
        first_window_from(indexed, scanned, k, 0)
    }
}

/// What the ordered search owes when the text with fewer characters is the
/// indexed one (the first text on a tie).
pub open spec fn shorter_first_result(s1: Seq<char>, s2: Seq<char>, k: nat) -> Option<Seq<char>> {
    if s1.len() <= s2.len() {
        ordered_result(s1, s2, k)
    } else {
        ordered_result(s2, s1, k)
    }
}

/// Some window of `k` characters occurs in both texts.
pub open spec fn shares_window(s1: Seq<char>, s2: Seq<char>, k: nat) -> bool {
    exists|i: int| 0 <= i && i + k <= s2.len() && occurs_in(#[trigger] window_at(s2, k, i), s1)
}

/// A text that the unordered search may return: one of `k` characters that
/// occurs in both texts.
pub open spec fn is_common_window(w: Seq<char>, s1: Seq<char>, s2: Seq<char>, k: nat) -> bool {
    w.len() == k && occurs_in(w, s1) && occurs_in(w, s2)
}

/// Adding the window at `i` to the windows before `i`.
proof fn lemma_windows_before_step(s: Seq<char>, k: nat, i: int)
    requires
        0 <= i,
        i + k <= s.len(),
    ensures
        windows_before(s, k, i + 1) == windows_before(s, k, i).insert(window_at(s, k, i)),
{
    assert forall|w: Seq<char>| #[trigger]
        windows_before(s, k, i + 1).contains(w) implies windows_before(s, k, i).insert(
        window_at(s, k, i),
    ).contains(w) by {
        let j = choose|j: int| 0 <= j < i + 1 && j + k <= s.len() && #[trigger] window_at(s, k, j) == w;
        if j < i {
            assert(windows_before(s, k, i).contains(w));
        }
    }
    assert forall|w: Seq<char>| #[trigger]
        windows_before(s, k, i).insert(window_at(s, k, i)).contains(w) implies windows_before(
        s,
        k,
        i + 1,
    ).contains(w) by {
        if w == window_at(s, k, i) {
        } else {
            let j = choose|j: int| 0 <= j < i && j + k <= s.len() && #[trigger] window_at(s, k, j) == w;
            assert(window_at(s, k, j) == w);
        }
    }
    assert(windows_before(s, k, i + 1) =~= windows_before(s, k, i).insert(window_at(s, k, i)));
}

/// With all windows of `s` indexed, a text of `k` characters is indexed
/// exactly when it occurs in `s`.
proof fn lemma_all_windows(s: Seq<char>, k: nat, w: Seq<char>)
    requires
        w.len() == k,
        k <= s.len(),
    ensures
        windows_before(s, k, s.len() - k + 1).contains(w) <==> occurs_in(w, s),
{
    if occurs_in(w, s) {
        let j = choose|j: int| 0 <= j && j + w.len() <= s.len() && #[trigger] s.subrange(j, j + w.len()) == w;
        assert(window_at(s, k, j) == w);
    }
    if windows_before(s, k, s.len() - k + 1).contains(w) {
        let j = choose|j: int|
            0 <= j < s.len() - k + 1 && j + k <= s.len() && #[trigger] window_at(s, k, j) == w;
        assert(s.subrange(j, j + w.len()) == w);
    }
}

/// Windows that do not occur can be skipped in the ordered search.
proof fn lemma_first_skip(indexed: Seq<char>, scanned: Seq<char>, k: nat, a: int, i: int)
    requires
        0 <= a <= i,
        i + k <= scanned.len() + 1,
        forall|j: int| a <= j < i ==> !occurs_in(#[trigger] window_at(scanned, k, j), indexed),
    ensures
        first_window_from(indexed, scanned, k, a) == first_window_from(indexed, scanned, k, i),
    decreases i - a,
{
    if a < i {
        assert(!occurs_in(window_at(scanned, k, a), indexed));
        lemma_first_skip(indexed, scanned, k, a + 1, i);
    }
}

/// Puts the windows of the cursor from its position up to `end` in the table.
fn fill_table<'a>(cur: &mut WindowCursor<'a>, table: &mut MatchTable<'a>, start: usize, end: usize)
    requires
        old(cur).wf(),
        old(cur).next_index() == start,
        old(table).wf(),
        old(table).hasher() == old(cur).hasher(),
        old(table).text() == old(cur).text(),
        old(table).count() <= start,
        old(table).room() >= end,
        old(cur).next_index() <= end,
        end + old(cur).width() <= old(cur).text().len() + 1,
        old(table).contents() == windows_before(
            old(cur).text(),
            old(cur).width(),
            old(cur).next_index() as int,
        ),
    ensures
        final(cur).wf(),
        final(cur).text() == old(cur).text(),
        final(cur).width() == old(cur).width(),
        final(cur).hasher() == old(cur).hasher(),
        final(cur).next_index() == end,
        final(table).wf(),
        final(table).hasher() == old(table).hasher(),
        final(table).text() == old(table).text(),
        final(table).room() == old(table).room(),
        final(table).count() <= end,
        final(table).contents() == windows_before(old(cur).text(), old(cur).width(), end as int),
{
    let ghost s = cur.text();
    let ghost k = cur.width();
    let mut i: usize = start;
    while i < end
        invariant
            cur.wf(),
            cur.text() == s,
            cur.width() == k,
            s == old(cur).text(),
            k == old(cur).width(),
            start == old(cur).next_index(),
            cur.hasher() == old(cur).hasher(),
            cur.next_index() == i,
            i <= end,
            end + k <= s.len() + 1,
            table.wf(),
            table.hasher() == cur.hasher(),
            table.text() == s,
            table.count() <= i,
            table.room() == old(table).room(),
            old(table).room() >= end,
            table.contents() == windows_before(s, k, i as int),
        decreases end - i,
    {
        let (w, h, off) = cur.next_window_at();
        proof {
            assert(clipped_window(s, i as int, k as int) == window_at(s, k, i as int));
            lemma_windows_before_step(s, k, i as int);
        }
        table.insert(h, w, off);
        i = i + 1;
    }
}

/// Looks up the windows of the cursor from its position up to `end`, and
/// returns the first one whose text is in the table.
fn find_in_table<'a>(
    cur: &mut WindowCursor<'a>,
    table: &MatchTable<'a>,
    start: usize,
    end: usize,
) -> (r: Option<&'a str>)
    requires
        old(cur).wf(),
        old(cur).next_index() == start,
        table.wf(),
        table.hasher() == old(cur).hasher(),
        old(cur).next_index() <= end,
        end + old(cur).width() <= old(cur).text().len() + 1,
    ensures
        match r {
            Some(w) => exists|i: int|
                old(cur).next_index() <= i < end && w@ == window_at(
                    old(cur).text(),
                    old(cur).width(),
                    i,
                ) && table.contents().contains(w@) && forall|j: int|
                    old(cur).next_index() <= j < i ==> !table.contents().contains(
                        #[trigger] window_at(old(cur).text(), old(cur).width(), j),
                    ),
            None => forall|j: int|
                old(cur).next_index() <= j < end ==> !table.contents().contains(
                    #[trigger] window_at(old(cur).text(), old(cur).width(), j),
                ),
        },
{
    let ghost s = cur.text();
    let ghost k = cur.width();
    let mut i: usize = start;
    while i < end
        invariant
            cur.wf(),
            cur.text() == s,
            cur.width() == k,
            s == old(cur).text(),
            k == old(cur).width(),
            start == old(cur).next_index(),
            cur.hasher() == table.hasher(),
            table.wf(),
            cur.next_index() == i,
            start <= i <= end,
            end + k <= s.len() + 1,
            forall|j: int| start <= j < i ==> !table.contents().contains(#[trigger] window_at(s, k, j)),
        decreases end - i,
    {
        let (w, h) = cur.next_window();
        proof {
            assert(clipped_window(s, i as int, k as int) == window_at(s, k, i as int));
        }
        if table.contains(h, w) {
            proof {
                let ii = i as int;
                assert(w@ == window_at(old(cur).text(), old(cur).width(), ii));
                assert(forall|j: int|
                    old(cur).next_index() <= j < ii ==> !table.contents().contains(
                        #[trigger] window_at(old(cur).text(), old(cur).width(), j),
                    ));
            }
            return Some(w);
        }
        i = i + 1;
    }
    None
}

/// Indexes every window of `indexed`, then returns the first window of
/// `scanned` that is in the index.
pub fn index_then_scan<'a>(indexed: &'a str, scanned: &'a str, k: usize, kind: WindowHash) -> (r:
    Option<&'a str>)
    requires
        1 <= k <= indexed@.len(),
        k <= scanned@.len(),
    ensures
        match r {
            Some(w) => first_window_from(indexed@, scanned@, k as nat, 0) == Some(w@),
            None => first_window_from(indexed@, scanned@, k as nat, 0) is None,
        },
{
    let n1 = indexed.unicode_len();
    let n2 = scanned.unicode_len();
    let mut table = MatchTable::with_capacity(indexed, n1, kind);
    let mut cur = WindowCursor::new(indexed, k, kind);
    proof {
        assert(windows_before(indexed@, k as nat, 0) =~= Set::<Seq<char>>::empty());
    }
    fill_table(&mut cur, &mut table, 0, n1 - k + 1);
    let mut scan = WindowCursor::new(scanned, k, kind);
    let r = find_in_table(&mut scan, &table, 0, n2 - k + 1);
    proof {
        let s = indexed@;
        let t = scanned@;
        let kk = k as nat;
        assert forall|j: int| 0 <= j && j + kk <= t.len() implies #[trigger] table.contents().contains(
            window_at(t, kk, j),
        ) == occurs_in(window_at(t, kk, j), s) by {
            lemma_all_windows(s, kk, window_at(t, kk, j));
        }
        match r {
            Some(w) => {
                let i = choose|i: int|
                    0 <= i < n2 - k + 1 && w@ == window_at(t, kk, i) && table.contents().contains(w@)
                        && forall|j: int|
                        0 <= j < i ==> !table.contents().contains(#[trigger] window_at(t, kk, j));
                lemma_first_skip(s, t, kk, 0, i);
            },
            None => {
                lemma_first_skip(s, t, kk, 0, n2 - k + 1);
            },
        }
    }
    r
}

/// No window of `s1` that starts before `a` has the text of a window of
/// `s2` that starts before `b`.
pub open spec fn no_pair_before(s1: Seq<char>, s2: Seq<char>, k: nat, a: int, b: int) -> bool {
    forall|x: int, y: int|
        0 <= x < a && 0 <= y < b ==> #[trigger] window_at(s1, k, x) != #[trigger] window_at(s2, k, y)
}

/// A window of `s` occurs in `s`.
proof fn lemma_window_occurs(s: Seq<char>, k: nat, j: int)
    requires
        0 <= j,
        j + k <= s.len(),
    ensures
        window_at(s, k, j).len() == k,
        occurs_in(window_at(s, k, j), s),
{
    let w = window_at(s, k, j);
    assert(s.subrange(j, j + w.len()) == w);
}

/// An indexed window occurs in its text.
proof fn lemma_indexed_occurs(s: Seq<char>, k: nat, i: int, w: Seq<char>)
    requires
        windows_before(s, k, i).contains(w),
    ensures
        w.len() == k,
        occurs_in(w, s),
{
    let j = choose|j: int| 0 <= j < i && j + k <= s.len() && #[trigger] window_at(s, k, j) == w;
    lemma_window_occurs(s, k, j);
}

/// With no pair of equal windows at all, no window is shared.
proof fn lemma_no_pair_not_shared(s1: Seq<char>, s2: Seq<char>, k: nat)
    requires
        k <= s1.len(),
        k <= s2.len(),
        no_pair_before(s1, s2, k, s1.len() - k + 1, s2.len() - k + 1),
    ensures
        !shares_window(s1, s2, k),
{
    if shares_window(s1, s2, k) {
        let i = choose|i: int| 0 <= i && i + k <= s2.len() && occurs_in(#[trigger] window_at(s2, k, i), s1);
        let w = window_at(s2, k, i);
        let j = choose|j: int| 0 <= j && j + w.len() <= s1.len() && #[trigger] s1.subrange(j, j + w.len()) == w;
        assert(window_at(s1, k, j) == window_at(s2, k, i));
    }
}

/// Alternates between the two texts: at each step it indexes the next window
/// of each text, each in its own table, and only then looks each of the two
/// windows up in the other text's table. Once the text with fewer windows is
/// used up, the remaining windows of the other are looked up in its table.
///
/// A shared text is found at the latest when the later of its two windows
/// is reached: by then the earlier one is indexed, and windows at the same
/// step are indexed before either lookup.
pub fn alternate_scan<'a>(s1: &'a str, s2: &'a str, k: usize, kind: WindowHash) -> (r: Option<
    &'a str,
>)
    requires
        1 <= k <= s1@.len(),
        k <= s2@.len(),
    ensures
        match r {
            Some(w) => is_common_window(w@, s1@, s2@, k as nat),
            None => !shares_window(s1@, s2@, k as nat),
        },
{
    let ghost a = s1@;
    let ghost b = s2@;
    let ghost kk = k as nat;
    let n1 = s1.unicode_len();
    let n2 = s2.unicode_len();
    let c1 = n1 - k + 1;
    let c2 = n2 - k + 1;
    let m = if c1 <= c2 {
        c1
    } else {
        c2
    };
    let mut t1 = MatchTable::with_capacity(s1, n1, kind);
    let mut t2 = MatchTable::with_capacity(s2, n2, kind);
    let mut cur1 = WindowCursor::new(s1, k, kind);
    let mut cur2 = WindowCursor::new(s2, k, kind);
    proof {
        assert(windows_before(a, kk, 0) =~= Set::<Seq<char>>::empty());
        assert(windows_before(b, kk, 0) =~= Set::<Seq<char>>::empty());
    }
    let mut i: usize = 0;
    while i < m
        invariant
            a == s1@,
            b == s2@,
            kk == k,
            c1 == a.len() - k + 1,
            c2 == b.len() - k + 1,
            m <= c1,
            m <= c2,
            m == c1 || m == c2,
            i <= m,
            cur1.wf(),
            cur1.text() == a,
            cur1.width() == k,
            cur1.hasher() == kind,
            cur1.next_index() == i,
            cur2.wf(),
            cur2.text() == b,
            cur2.width() == k,
            cur2.hasher() == kind,
            cur2.next_index() == i,
            t1.wf(),
            t1.hasher() == kind,
            t1.text() == a,
            t1.count() <= i,
            t1.room() >= c1,
            t1.contents() == windows_before(a, kk, i as int),
            t2.wf(),
            t2.hasher() == kind,
            t2.text() == b,
            t2.count() <= i,
            t2.room() >= c2,
            t2.contents() == windows_before(b, kk, i as int),
            no_pair_before(a, b, kk, i as int, i as int),
        decreases m - i,
    {
        let ghost ii = i as int;
        let (w1, h1, off1) = cur1.next_window_at();
        proof {
            assert(clipped_window(a, ii, k as int) == window_at(a, kk, ii));
            lemma_windows_before_step(a, kk, ii);
        }
        t1.insert(h1, w1, off1);
        let (w2, h2, off2) = cur2.next_window_at();
        proof {
            assert(clipped_window(b, ii, k as int) == window_at(b, kk, ii));
            lemma_windows_before_step(b, kk, ii);
        }
        t2.insert(h2, w2, off2);
        if t2.contains(h1, w1) {
            proof {
                lemma_indexed_occurs(b, kk, ii + 1, w1@);
                lemma_window_occurs(a, kk, ii);
            }
            return Some(w1);
        }
        if t1.contains(h2, w2) {
            proof {
                lemma_indexed_occurs(a, kk, ii + 1, w2@);
                lemma_window_occurs(b, kk, ii);
            }
            return Some(w2);
        }
        proof {
            assert forall|x: int, y: int|
                0 <= x < ii + 1 && 0 <= y < ii + 1 implies #[trigger] window_at(a, kk, x)
                != #[trigger] window_at(b, kk, y) by {
                if x == ii && window_at(a, kk, x) == window_at(b, kk, y) {
                    assert(windows_before(b, kk, ii + 1).contains(window_at(b, kk, y)));
                } else if y == ii && window_at(a, kk, x) == window_at(b, kk, y) {
                    assert(windows_before(a, kk, ii + 1).contains(window_at(a, kk, x)));
                }
            }
        }
        i = i + 1;
    }
    if c1 <= c2 {
        let r = find_in_table(&mut cur2, &t1, m, c2);
        proof {
            match r {
                Some(w) => {
                    let j = choose|j: int|
                        m <= j < c2 && w@ == window_at(b, kk, j) && t1.contents().contains(w@)
                            && forall|y: int|
                            m <= y < j ==> !t1.contents().contains(#[trigger] window_at(b, kk, y));
                    lemma_indexed_occurs(a, kk, c1 as int, w@);
                    lemma_window_occurs(b, kk, j);
                },
                None => {
                    assert forall|x: int, y: int|
                        0 <= x < c1 && 0 <= y < c2 implies #[trigger] window_at(a, kk, x)
                        != #[trigger] window_at(b, kk, y) by {
                        if y >= m && window_at(a, kk, x) == window_at(b, kk, y) {
                            assert(windows_before(a, kk, c1 as int).contains(window_at(a, kk, x)));
                        }
                    }
                    lemma_no_pair_not_shared(a, b, kk);
                },
            }
        }
        r
    } else {
        let r = find_in_table(&mut cur1, &t2, m, c1);
        proof {
            match r {
                Some(w) => {
                    let j = choose|j: int|
                        m <= j < c1 && w@ == window_at(a, kk, j) && t2.contents().contains(w@)
                            && forall|y: int|
                            m <= y < j ==> !t2.contents().contains(#[trigger] window_at(a, kk, y));
                    lemma_indexed_occurs(b, kk, c2 as int, w@);
                    lemma_window_occurs(a, kk, j);
                },
                None => {
                    assert forall|x: int, y: int|
                        0 <= x < c1 && 0 <= y < c2 implies #[trigger] window_at(a, kk, x)
                        != #[trigger] window_at(b, kk, y) by {
                        if x >= m && window_at(a, kk, x) == window_at(b, kk, y) {
                            assert(windows_before(b, kk, c2 as int).contains(window_at(b, kk, y)));
                        }
                    }
                    lemma_no_pair_not_shared(a, b, kk);
                },
            }
        }
        r
    }
}

/// The ordered search from position `a` finds a window exactly when some
/// window of `scanned` at `a` or later occurs in `indexed`.
proof fn lemma_first_some_iff(indexed: Seq<char>, scanned: Seq<char>, k: nat, a: int)
    requires
        0 <= a,
    ensures
        first_window_from(indexed, scanned, k, a) is Some <==> exists|i: int|
            a <= i && i + k <= scanned.len() && occurs_in(
                #[trigger] window_at(scanned, k, i),
                indexed,
            ),
    decreases scanned.len() + 1 - a,
{
    if a + k <= scanned.len() {
        lemma_first_some_iff(indexed, scanned, k, a + 1);
        if occurs_in(window_at(scanned, k, a), indexed) {
            assert(a <= a && a + k <= scanned.len());
        }
    }
}

/// Sharing a window does not depend on the order of the texts.
proof fn lemma_shares_symmetric(s1: Seq<char>, s2: Seq<char>, k: nat)
    ensures
        shares_window(s1, s2, k) <==> shares_window(s2, s1, k),
{
    if shares_window(s1, s2, k) {
        let i = choose|i: int| 0 <= i && i + k <= s2.len() && occurs_in(#[trigger] window_at(s2, k, i), s1);
        let w = window_at(s2, k, i);
        let j = choose|j: int| 0 <= j && j + w.len() <= s1.len() && #[trigger] s1.subrange(j, j + w.len()) == w;
        assert(window_at(s1, k, j) == w);
        assert(s2.subrange(i, i + w.len()) == w);
        assert(occurs_in(window_at(s1, k, j), s2));
    }
    if shares_window(s2, s1, k) {
        let i = choose|i: int| 0 <= i && i + k <= s1.len() && occurs_in(#[trigger] window_at(s1, k, i), s2);
        let w = window_at(s1, k, i);
        let j = choose|j: int| 0 <= j && j + w.len() <= s2.len() && #[trigger] s2.subrange(j, j + w.len()) == w;
        assert(window_at(s2, k, j) == w);
        assert(s1.subrange(i, i + w.len()) == w);
        assert(occurs_in(window_at(s2, k, j), s1));
    }
}

/// For `k >= 1`, the ordered search (with the shorter text indexed) finds a
/// window exactly when the two texts share a window of `k` characters. With
/// the contract of the unordered search, the two searches agree on whether
/// there is a match.
pub proof fn lemma_ordered_finds_iff_shared(s1: Seq<char>, s2: Seq<char>, k: nat)
    requires
        k >= 1,
    ensures
        shorter_first_result(s1, s2, k) is Some <==> shares_window(s1, s2, k),
{
    lemma_shares_symmetric(s1, s2, k);
    if s1.len() < k || s2.len() < k {
        if shares_window(s1, s2, k) {
            let i = choose|i: int| 0 <= i && i + k <= s2.len() && occurs_in(#[trigger] window_at(s2, k, i), s1);
            let w = window_at(s2, k, i);
            let j = choose|j: int| 0 <= j && j + w.len() <= s1.len() && #[trigger] s1.subrange(j, j + w.len()) == w;
        }
    } else if s1.len() <= s2.len() {
        lemma_first_some_iff(s1, s2, k, 0);
    } else {
        lemma_first_some_iff(s2, s1, k, 0);
    }
}

} // verus!
