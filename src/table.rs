//! A set of windows of one text, keyed by a hash computed outside the table.
//! Windows whose hashes collide are told apart by their bytes. The windows
//! sit in hashbrown's raw table as byte ranges of the indexed text, so that
//! a lookup takes the hash that a window cursor has already computed.
use crate::text::lemma_encode_injective;
use crate::windows::{window_hash, WindowHash};
use vstd::multiset::Multiset;
use vstd::prelude::*;
use vstd::string::StringSliceAdditionalSpecFns;
use vstd::utf8::encode_utf8;

verus! {

broadcast use vstd::seq::group_seq_axioms;

/// The bytes of `text` in `range` are those of `probe`.
pub open spec fn range_holds(text: Seq<u8>, range: (usize, usize), probe: Seq<u8>) -> bool {
    range.0 <= range.1 <= text.len() && text.subrange(range.0 as int, range.1 as int) == probe
}

/// Whether the bytes of `text` from `start` to `end` are those of `probe`.
pub fn same_bytes(text: &str, start: usize, end: usize, probe: &str) -> (r: bool)
    ensures
        r == range_holds(text.spec_bytes(), (start, end), probe.spec_bytes()),
{
    let x = text.as_bytes();
    let y = probe.as_bytes();
    if !(start <= end && end <= x.len()) {
        return false;
    }
    if end - start != y.len() {
        return false;
    }
    let mut i: usize = 0;
    while i < y.len()
        invariant
            x@ == text.spec_bytes(),
            y@ == probe.spec_bytes(),
            start <= end <= x@.len(),
            end - start == y@.len(),
            i <= y@.len(),
            forall|j: int| 0 <= j < i ==> x@[start + j] == y@[j],
        decreases y@.len() - i,
    {
        if x[start + i] != y[i] {
            return false;
        }
        i = i + 1;
    }
    assert(x@.subrange(start as int, end as int) =~= y@);
    true
}

/// Whether two texts hold the same characters, compared byte by byte.
pub fn same_text(a: &str, b: &str) -> (r: bool)
    ensures
        r == (a@ == b@),
{
    let n = a.as_bytes().len();
    let r = same_bytes(a, 0, n, b);
    proof {
        lemma_encode_injective(a@, b@);
        assert(a.spec_bytes().subrange(0, n as int) =~= a.spec_bytes());
        assert(a.spec_bytes() == encode_utf8(a@));
        assert(b.spec_bytes() == encode_utf8(b@));
    }
    r
}

/// hashbrown's raw table, holding windows of the indexed text as byte
/// ranges. `RawTable`'s allocator parameter is bounded by a trait that is
/// private to hashbrown, so the table is held here rather than declared with
/// its own generics.
#[verifier::external_body]
pub struct RawWindows {
    table: hashbrown::raw::RawTable<(usize, usize)>,
}

/// The entries of a raw table: the hash that each was inserted under, and
/// its byte range.
pub uninterp spec fn raw_entries(t: RawWindows) -> Multiset<(u64, (usize, usize))>;

/// How many entries the raw table was made to take without growing.
pub uninterp spec fn raw_room(t: RawWindows) -> nat;

/// Relies on hashbrown's `RawTable::with_capacity`: an empty table with
/// enough capacity for at least `capacity` entries without reallocating.
#[verifier::external_body]
fn raw_with_capacity(capacity: usize) -> (r: RawWindows)
    ensures
        raw_entries(r) == Multiset::<(u64, (usize, usize))>::empty(),
        raw_room(r) >= capacity,
{
    RawWindows { table: hashbrown::raw::RawTable::with_capacity(capacity) }
}

/// Relies on hashbrown's `RawTable::try_insert_no_grow`: it adds the entry
/// under `hash` without checking for an equal one, and fails only when the
/// table would have to grow, which the room left rules out.
#[verifier::external_body]
fn raw_insert(t: &mut RawWindows, hash: u64, range: (usize, usize))
    requires
        raw_entries(*old(t)).len() < raw_room(*old(t)),
    ensures
        raw_entries(*final(t)) == raw_entries(*old(t)).insert((hash, range)),
        raw_room(*final(t)) == raw_room(*old(t)),
{
    let _ = t.table.try_insert_no_grow(hash, range);
}

/// Relies on hashbrown's `RawTable::find`, with an equality test that
/// compares the bytes of `indexed` in an entry's range with those of
/// `probe`: an entry it returns passes the test, and it returns one whenever
/// an entry inserted under `hash` passes.
#[verifier::external_body]
fn raw_find(t: &RawWindows, hash: u64, indexed: &str, probe: &str) -> (r: bool)
    ensures
        (exists|range: (usize, usize)|
            raw_entries(*t).contains((hash, range)) && range_holds(
                indexed.spec_bytes(),
                range,
                probe.spec_bytes(),
            )) ==> r,
        r ==> exists|e: (u64, (usize, usize))|
            raw_entries(*t).contains(e) && range_holds(
                indexed.spec_bytes(),
                e.1,
                probe.spec_bytes(),
            ),
{
    t.table.find(hash, |entry: &(usize, usize)| same_bytes(indexed, entry.0, entry.1, probe)).is_some()
}

/// The match table: windows of one text, each under the hash that a window
/// cursor gave it.
pub struct MatchTable<'a> {
    indexed: &'a str,
    raw: RawWindows,
    kind: WindowHash,
    contents: Ghost<Set<Seq<char>>>,
}

impl<'a> MatchTable<'a> {
    /// The texts of the windows in the table.
    pub closed spec fn contents(&self) -> Set<Seq<char>> {
        self.contents@
    }

    /// The hash function the table's keys come from.
    pub closed spec fn hasher(&self) -> WindowHash {
        self.kind
    }

    /// The text whose windows the table holds.
    pub closed spec fn text(&self) -> Seq<char> {
        self.indexed@
    }

    /// The number of entries in the table.
    pub closed spec fn count(&self) -> nat {
        raw_entries(self.raw).len()
    }

    /// How many entries the table takes in all.
    pub closed spec fn room(&self) -> nat {
        raw_room(self.raw)
    }

    /// Each entry holds, under its own hash, the bytes of a text of
    /// `contents`; and each text of `contents` has such an entry.
    pub closed spec fn wf(&self) -> bool {
        &&& forall|e: (u64, (usize, usize))| #[trigger]
            raw_entries(self.raw).contains(e) ==> exists|w: Seq<char>|
                #![trigger self.contents@.contains(w)]
                self.contents@.contains(w) && range_holds(
                    self.indexed.spec_bytes(),
                    e.1,
                    encode_utf8(w),
                ) && e.0 == window_hash(self.kind, encode_utf8(w))
        &&& forall|w: Seq<char>| #[trigger]
            self.contents@.contains(w) ==> exists|range: (usize, usize)|
                #![trigger raw_entries(self.raw).contains((window_hash(self.kind, encode_utf8(w)), range))]
                raw_entries(self.raw).contains((window_hash(self.kind, encode_utf8(w)), range))
                    && range_holds(self.indexed.spec_bytes(), range, encode_utf8(w))
    }

    /// An empty table for windows of `indexed`, with room for `capacity`
    /// of them.
    pub fn with_capacity(indexed: &'a str, capacity: usize, kind: WindowHash) -> (r: Self)
        ensures
            r.wf(),
            r.contents() == Set::<Seq<char>>::empty(),
            r.hasher() == kind,
            r.text() == indexed@,
            r.count() == 0,
            r.room() >= capacity,
    {
        MatchTable {
            indexed,
            raw: raw_with_capacity(capacity),
            kind,
            contents: Ghost(Set::empty()),
        }
    }

    /// Whether a window with the text of `w`, whose hash is `hash`, is in
    /// the table.
    pub fn contains(&self, hash: u64, w: &str) -> (r: bool)
        requires
            self.wf(),
            hash == window_hash(self.hasher(), encode_utf8(w@)),
        ensures
            r == self.contents().contains(w@),
    {
        let r = raw_find(&self.raw, hash, self.indexed, w);
        proof {
            let bytes = self.indexed.spec_bytes();
            let entries = raw_entries(self.raw);
            assert(w.spec_bytes() == encode_utf8(w@));
            if r {
                let e = choose|e: (u64, (usize, usize))|
                    entries.contains(e) && range_holds(bytes, e.1, w.spec_bytes());
                let x = choose|x: Seq<char>|
                    self.contents@.contains(x) && range_holds(bytes, e.1, encode_utf8(x)) && e.0
                        == window_hash(self.kind, encode_utf8(x));
                assert(encode_utf8(x) == encode_utf8(w@));
                lemma_encode_injective(x, w@);
            }
            if self.contents@.contains(w@) {
                let range = choose|range: (usize, usize)|
                    entries.contains((window_hash(self.kind, encode_utf8(w@)), range))
                        && range_holds(bytes, range, encode_utf8(w@));
                assert(entries.contains((hash, range)) && range_holds(bytes, range, w.spec_bytes()));
            }
        }
        r
    }

    /// Adds the window `w`, whose hash is `hash` and whose bytes start at
    /// byte `start` of the indexed text, unless a window with its text is
    /// there already.
    pub fn insert(&mut self, hash: u64, w: &'a str, start: usize)
        requires
            old(self).wf(),
            hash == window_hash(old(self).hasher(), encode_utf8(w@)),
            start + encode_utf8(w@).len() <= encode_utf8(old(self).text()).len(),
            encode_utf8(old(self).text()).subrange(start as int, start + encode_utf8(w@).len())
                == encode_utf8(w@),
            old(self).count() < old(self).room(),
        ensures
            final(self).wf(),
            final(self).hasher() == old(self).hasher(),
            final(self).text() == old(self).text(),
            final(self).room() == old(self).room(),
            final(self).count() <= old(self).count() + 1,
            final(self).contents() == old(self).contents().insert(w@),
    {
        if self.contains(hash, w) {
            assert(self.contents@.insert(w@) =~= self.contents@);
            return;
        }
        let total = self.indexed.as_bytes().len();
        let end = start + w.as_bytes().len();
        assert(end <= total);
        let ghost old_entries = raw_entries(self.raw);
        raw_insert(&mut self.raw, hash, (start, end));
        self.contents = Ghost(self.contents@.insert(w@));
        proof {
            let bytes = self.indexed.spec_bytes();
            let k = self.kind;
            let entries = raw_entries(self.raw);
            assert(range_holds(bytes, (start, end), encode_utf8(w@)));
            assert forall|e: (u64, (usize, usize))| #[trigger] entries.contains(e) implies exists|
                x: Seq<char>,
            |
                #![trigger self.contents@.contains(x)]
                self.contents@.contains(x) && range_holds(bytes, e.1, encode_utf8(x)) && e.0
                    == window_hash(k, encode_utf8(x)) by {
                if e == (hash, (start, end)) {
                    assert(self.contents@.contains(w@));
                } else {
                    assert(old_entries.contains(e));
                    let x = choose|x: Seq<char>|
                        old(self).contents@.contains(x) && range_holds(bytes, e.1, encode_utf8(x))
                            && e.0 == window_hash(k, encode_utf8(x));
                    assert(self.contents@.contains(x));
                }
            }
            assert forall|x: Seq<char>| #[trigger] self.contents@.contains(x) implies exists|
                range: (usize, usize),
            |
                #![trigger entries.contains((window_hash(k, encode_utf8(x)), range))]
                entries.contains((window_hash(k, encode_utf8(x)), range)) && range_holds(
                    bytes,
                    range,
                    encode_utf8(x),
                ) by {
                if x == w@ {
                    assert(entries.contains((window_hash(k, encode_utf8(x)), (start, end))));
                } else {
                    assert(old(self).contents@.contains(x));
                    let range = choose|range: (usize, usize)|
                        old_entries.contains((window_hash(k, encode_utf8(x)), range))
                            && range_holds(bytes, range, encode_utf8(x));
                    assert(entries.contains((window_hash(k, encode_utf8(x)), range)));
                }
            }
        }
    }
}

} // verus!
