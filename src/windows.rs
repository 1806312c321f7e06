//! The windows of `k` characters of a text, one after another, each with its
//! hash under a chosen hash function.
use crate::hashers::{
    hash_after_buffer, hash_after_removing, lemma_appending_poly, lemma_remove_poly,
    lemma_removing_poly, lemma_update_poly, poly_hash, RollingPolynomial,
};
use crate::text::{
    char_width_at, clipped_window, lemma_encode_concat, lemma_prefix_bytes_mono,
    lemma_window_bytes, prefix_bytes, slice_between,
};
use std::collections::hash_map::DefaultHasher;
use std::collections::VecDeque;
use std::hash::Hasher;
use vstd::prelude::*;
use vstd::std_specs::hash::DefaultHasherAdditionalSpecFns;
use vstd::utf8::*;

verus! {

broadcast use {vstd::seq::group_seq_axioms, vstd::seq_lib::group_seq_properties};

/// What rustc_hash's `FxHasher` gives for one write of these bytes.
pub uninterp spec fn fx_hash_of(b: Seq<u8>) -> u64;

/// The Adler-32 checksum of these bytes.
pub uninterp spec fn adler32_of(b: Seq<u8>) -> u32;

/// The modulus of Adler-32. A rolling Adler-32 state stays exact under
/// `remove` only for windows of at most this many bytes.
pub const ADLER_MODULUS: usize = 65521;

/// Relies on rustc_hash's `FxHasher`: a default hasher, one `write` of the
/// bytes, then `finish`. The result depends on the bytes alone.
#[verifier::external_body]
fn fx_hash(bytes: &[u8]) -> (r: u64)
    ensures
        r == fx_hash_of(bytes@),
{
    let mut hasher = rustc_hash::FxHasher::default();
    hasher.write(bytes);
    hasher.finish()
}

/// Relies on adler32's `RollingAdler32::from_buffer` and `hash`: the
/// checksum of the bytes.
#[verifier::external_body]
fn adler_hash(bytes: &[u8]) -> (r: u32)
    ensures
        r == adler32_of(bytes@),
{
    adler32::RollingAdler32::from_buffer(bytes).hash()
}

/// Relies on adler32's `RollingAdler32::remove`: it forgets `byte`, fed
/// `size` bytes ago, so the checksum of a window becomes that of the window
/// without its first byte. The state travels as its hash, which
/// `RollingAdler32::from_value` reads back unchanged.
#[verifier::external_body]
fn adler_remove(value: u32, size: usize, byte: u8) -> (r: u32)
    requires
        1 <= size <= ADLER_MODULUS,
    ensures
        forall|w: Seq<u8>|
            #[trigger] adler32_of(w) == value && w.len() == size && w[0] == byte ==> r
                == adler32_of(w.drop_first()),
{
    let mut state = adler32::RollingAdler32::from_value(value);
    state.remove(size, byte);
    state.hash()
}

/// Relies on adler32's `RollingAdler32::update`: the checksum of a window
/// becomes that of the window with `byte` appended. The state travels as its
/// hash, which `RollingAdler32::from_value` reads back unchanged.
#[verifier::external_body]
fn adler_update(value: u32, byte: u8) -> (r: u32)
    ensures
        forall|w: Seq<u8>| #[trigger] adler32_of(w) == value ==> r == adler32_of(w.push(byte)),
{
    let mut state = adler32::RollingAdler32::from_value(value);
    state.update(byte);
    state.hash()
}

/// The hash function that a cursor gives each window.
#[derive(Clone, Copy, Debug)]
pub enum WindowHash {
    /// rustc_hash's FxHasher, computed afresh for each window.
    Fx,
    /// std's `DefaultHasher` (SipHash), computed afresh for each window.
    Sip,
    /// Adler-32, rolled from one window to the next.
    Adler,
    /// The polynomial hash with the given salt, rolled from one window to the next.
    Polynomial(u64),
}

/// The hash of a window's bytes under `kind`.
pub open spec fn window_hash(kind: WindowHash, b: Seq<u8>) -> u64 {
    match kind {
        WindowHash::Fx => fx_hash_of(b),
        WindowHash::Sip => DefaultHasher::spec_finish(seq![b]),
        WindowHash::Adler => adler32_of(b) as u64,
        WindowHash::Polynomial(salt) => poly_hash(b, salt),
    }
}

/// The hash of `bytes` under `kind`, computed from scratch.
pub fn hash_window(kind: WindowHash, bytes: &[u8]) -> (r: u64)
    ensures
        r == window_hash(kind, bytes@),
{
    match kind {
        WindowHash::Fx => fx_hash(bytes),
        WindowHash::Sip => {
            let mut hasher = DefaultHasher::new();
            hasher.write(bytes);
            assert(hasher@ =~= seq![bytes@]);
            hasher.finish()
        },
        WindowHash::Adler => adler_hash(bytes) as u64,
        WindowHash::Polynomial(salt) => RollingPolynomial::from_buffer_with_salt(
            bytes,
            salt,
        ).hash(),
    }
}

/// Byte offset of character `i` of `cs`, or the end of the text past it.
pub open spec fn clip_offset(cs: Seq<char>, i: int) -> nat {
    prefix_bytes(cs, if i < cs.len() { i } else { cs.len() as int })
}

/// The bytes of a clipped window are those between the clipped offsets.
proof fn lemma_clipped_bytes(cs: Seq<char>, start: int, k: int)
    requires
        0 <= start,
        0 <= k,
    ensures
        encode_utf8(clipped_window(cs, start, k)) == encode_utf8(cs).subrange(
            clip_offset(cs, start) as int,
            clip_offset(cs, start + k) as int,
        ),
        clip_offset(cs, start) <= clip_offset(cs, start + k) <= encode_utf8(cs).len(),
{
    let n = cs.len() as int;
    let a = if start < n { start } else { n };
    let b = if start + k < n { start + k } else { n };
    lemma_window_bytes(cs, a, b);
    lemma_prefix_bytes_mono(cs, a, b);
    lemma_prefix_bytes_mono(cs, b, n);
}

/// Sliding a window of `k` characters from position `i` to `i + 1`, by
/// removing the bytes of character `i` one at a time and then appending the
/// bytes of character `i + k`, gives the same polynomial hash as hashing the
/// characters `i + 1 ..= i + k` from scratch with the same salt.
pub proof fn lemma_rolling_window_law(cs: Seq<char>, i: int, k: int, salt: u64)
    requires
        0 <= i,
        1 <= k,
        i + k < cs.len(),
    ensures
        ({
            let w = encode_utf8(cs.subrange(i, i + k));
            let out = encode_utf8(seq![cs[i]]).len();
            let incoming = encode_utf8(seq![cs[i + k]]);
            hash_after_buffer(hash_after_removing(poly_hash(w, salt), salt, w, out), salt, incoming)
                == poly_hash(encode_utf8(cs.subrange(i + 1, i + k + 1)), salt)
        }),
{
    let w = encode_utf8(cs.subrange(i, i + k));
    let first = seq![cs[i]];
    let middle = cs.subrange(i + 1, i + k);
    let last = seq![cs[i + k]];
    assert(cs.subrange(i, i + k) =~= first + middle);
    assert(cs.subrange(i + 1, i + k + 1) =~= middle + last);
    lemma_encode_concat(first, middle);
    lemma_encode_concat(middle, last);
    let out = encode_utf8(first).len();
    lemma_removing_poly(w, salt, out);
    assert(w.subrange(out as int, w.len() as int) =~= encode_utf8(middle));
    lemma_appending_poly(encode_utf8(middle), salt, encode_utf8(last));
}

/// Slides a polynomial hash from the bytes `lo..hi` to the bytes `mid..new_hi`.
fn roll_polynomial(
    poly: &mut RollingPolynomial,
    bytes: &[u8],
    lo: usize,
    mid: usize,
    hi: usize,
    new_hi: usize,
)
    requires
        lo <= mid <= hi <= new_hi <= bytes@.len(),
        hi - lo <= u32::MAX,
        old(poly).spec_hash() == poly_hash(bytes@.subrange(lo as int, hi as int), old(poly).spec_salt()),
    ensures
        final(poly).spec_salt() == old(poly).spec_salt(),
        final(poly).spec_hash() == poly_hash(
            bytes@.subrange(mid as int, new_hi as int),
            old(poly).spec_salt(),
        ),
{
    let ghost salt = poly.spec_salt();
    let mut j: usize = lo;
    while j < mid
        invariant
            lo <= j <= mid <= hi <= new_hi <= bytes@.len(),
            hi - lo <= u32::MAX,
            poly.spec_salt() == salt,
            poly.spec_hash() == poly_hash(bytes@.subrange(j as int, hi as int), salt),
        decreases mid - j,
    {
        proof {
            let w = bytes@.subrange(j as int, hi as int);
            lemma_remove_poly(w, salt);
            assert(w.drop_first() =~= bytes@.subrange(j + 1, hi as int));
        }
        poly.remove((hi - j) as u32, bytes[j]);
        j = j + 1;
    }
    let mut j: usize = hi;
    while j < new_hi
        invariant
            mid <= hi <= j <= new_hi <= bytes@.len(),
            poly.spec_salt() == salt,
            poly.spec_hash() == poly_hash(bytes@.subrange(mid as int, j as int), salt),
        decreases new_hi - j,
    {
        proof {
            let w = bytes@.subrange(mid as int, j as int);
            lemma_update_poly(w, salt, bytes@[j as int]);
            assert(w.push(bytes@[j as int]) =~= bytes@.subrange(mid as int, j + 1));
        }
        poly.update(bytes[j]);
        j = j + 1;
    }
}

/// Slides an Adler-32 checksum from the bytes `lo..hi` to the bytes `mid..new_hi`.
fn roll_adler(value: u32, bytes: &[u8], lo: usize, mid: usize, hi: usize, new_hi: usize) -> (r:
    u32)
    requires
        lo <= mid <= hi <= new_hi <= bytes@.len(),
        hi - lo <= ADLER_MODULUS,
        value == adler32_of(bytes@.subrange(lo as int, hi as int)),
    ensures
        r == adler32_of(bytes@.subrange(mid as int, new_hi as int)),
{
    let mut state = value;
    let mut j: usize = lo;
    while j < mid
        invariant
            lo <= j <= mid <= hi <= new_hi <= bytes@.len(),
            hi - lo <= ADLER_MODULUS,
            state == adler32_of(bytes@.subrange(j as int, hi as int)),
        decreases mid - j,
    {
        let ghost w = bytes@.subrange(j as int, hi as int);
        state = adler_remove(state, hi - j, bytes[j]);
        proof {
            assert(w.drop_first() =~= bytes@.subrange(j + 1, hi as int));
        }
        j = j + 1;
    }
    let mut j: usize = hi;
    while j < new_hi
        invariant
            mid <= hi <= j <= new_hi <= bytes@.len(),
            state == adler32_of(bytes@.subrange(mid as int, j as int)),
        decreases new_hi - j,
    {
        let ghost w = bytes@.subrange(mid as int, j as int);
        state = adler_update(state, bytes[j]);
        proof {
            assert(w.push(bytes@[j as int]) =~= bytes@.subrange(mid as int, j + 1));
        }
        j = j + 1;
    }
    state
}

/// The windows of `k` characters of a text, handed out one per call. Each
/// step moves the window by one character, keeping the byte offsets of the
/// window's characters in a queue so that no offset is found twice. Past the
/// end of the text the windows shrink, down to the empty window.
pub struct WindowCursor<'a> {
    source: &'a str,
    bytes: &'a [u8],
    k: usize,
    offsets: VecDeque<usize>,
    started: bool,
    base: Ghost<nat>,
    kind: WindowHash,
    poly: RollingPolynomial,
    adler: u32,
}

impl<'a> WindowCursor<'a> {
    /// The text whose windows are handed out.
    pub closed spec fn text(&self) -> Seq<char> {
        self.source@
    }

    /// The number of characters in a window.
    pub closed spec fn width(&self) -> nat {
        self.k as nat
    }

    /// The hash function of the windows.
    pub closed spec fn hasher(&self) -> WindowHash {
        self.kind
    }

    /// The position of the window that the next call hands out.
    pub closed spec fn next_index(&self) -> nat {
        if self.started {
            self.base@ + 1
        } else {
            0
        }
    }

    /// The rolling state holds the hash of `b`.
    closed spec fn covers(&self, b: Seq<u8>) -> bool {
        match self.kind {
            WindowHash::Polynomial(salt) => self.poly.spec_salt() == salt
                && self.poly.spec_hash() == poly_hash(b, salt),
            WindowHash::Adler => self.adler == adler32_of(b),
            _ => true,
        }
    }

    /// The queue holds the offsets of the last window handed out (or of
    /// the first one, before any), and the rolling state its hash.
    pub closed spec fn wf(&self) -> bool {
        &&& self.bytes@ == encode_utf8(self.source@)
        &&& 1 <= self.k <= self.source@.len()
        &&& self.offsets@.len() == self.k + 1
        &&& forall|j: int|
            0 <= j <= self.k ==> #[trigger] self.offsets@[j] == clip_offset(
                self.source@,
                self.base@ + j,
            )
        &&& !self.started ==> self.base@ == 0
        &&& self.started ==> self.covers(
            encode_utf8(clipped_window(self.source@, self.base@ as int, self.k as int)),
        )
    }

    /// A cursor at the first window of `k` characters of `source`.
    pub fn new(source: &'a str, k: usize, kind: WindowHash) -> (r: Self)
        requires
            1 <= k <= source@.len(),
        ensures
            r.wf(),
            r.text() == source@,
            r.width() == k,
            r.hasher() == kind,
            r.next_index() == 0,
    {
        let bytes = source.as_bytes();
        let blen = bytes.len();
        let ghost cs = source@;
        let mut offsets: VecDeque<usize> = VecDeque::new();
        let mut off: usize = 0;
        proof {
            assert(cs.subrange(0, 0) =~= Seq::<char>::empty());
            assert(encode_utf8(Seq::<char>::empty()) =~= Seq::<u8>::empty());
        }
        offsets.push_back(off);
        let mut j: usize = 0;
        while j < k
            invariant
                bytes@ == encode_utf8(cs),
                blen == bytes@.len(),
                cs == source@,
                j <= k <= cs.len(),
                off == prefix_bytes(cs, j as int),
                offsets@.len() == j + 1,
                forall|i: int| 0 <= i <= j ==> #[trigger] offsets@[i] == clip_offset(cs, i),
            decreases k - j,
        {
            let w = char_width_at(bytes, off, Ghost(cs), Ghost(j as int));
            off = off + w;
            offsets.push_back(off);
            j = j + 1;
        }
        WindowCursor {
            source,
            bytes,
            k,
            offsets,
            started: false,
            base: Ghost(0),
            kind,
            poly: RollingPolynomial::with_salt(0),
            adler: 0,
        }
    }

    /// Hands out the next window and its hash, and moves on by one character.
    pub fn next_window(&mut self) -> (r: (&'a str, u64))
        requires
            old(self).wf(),
        ensures
            final(self).wf(),
            final(self).text() == old(self).text(),
            final(self).width() == old(self).width(),
            final(self).hasher() == old(self).hasher(),
            final(self).next_index() == old(self).next_index() + 1,
            r.0@ == clipped_window(old(self).text(), old(self).next_index() as int, old(self).width() as int),
            r.1 == window_hash(old(self).hasher(), encode_utf8(r.0@)),
    {
        let (w, h, _) = self.next_window_at();
        (w, h)
    }

    /// As [`Self::next_window`], also giving the byte offset at which the
    /// window starts in the text.
    pub fn next_window_at(&mut self) -> (r: (&'a str, u64, usize))
        requires
            old(self).wf(),
        ensures
            final(self).wf(),
            final(self).text() == old(self).text(),
            final(self).width() == old(self).width(),
            final(self).hasher() == old(self).hasher(),
            final(self).next_index() == old(self).next_index() + 1,
            r.0@ == clipped_window(old(self).text(), old(self).next_index() as int, old(self).width() as int),
            r.1 == window_hash(old(self).hasher(), encode_utf8(r.0@)),
            r.2 + encode_utf8(r.0@).len() <= encode_utf8(old(self).text()).len(),
            encode_utf8(old(self).text()).subrange(r.2 as int, r.2 + encode_utf8(r.0@).len())
                == encode_utf8(r.0@),
    {
        let ghost cs = self.source@;
        let ghost n = cs.len() as int;
        let k = self.k;
        if !self.started {
            let lo = self.offsets[0];
            let hi = self.offsets[k];
            proof {
                assert(self.offsets@[0] == clip_offset(cs, 0));
                assert(self.offsets@[k as int] == clip_offset(cs, k as int));
                assert(clipped_window(cs, 0, k as int) == cs.subrange(0, k as int));
                lemma_clipped_bytes(cs, 0, k as int);
            }
            let win = slice_between(self.source, lo, hi, Ghost(0), Ghost(k as int));
            let wb = win.as_bytes();
            let h = match self.kind {
                WindowHash::Polynomial(salt) => {
                    self.poly = RollingPolynomial::from_buffer_with_salt(wb, salt);
                    self.poly.hash()
                },
                WindowHash::Adler => {
                    let a = adler_hash(wb);
                    self.adler = a;
                    a as u64
                },
                _ => hash_window(self.kind, wb),
            };
            self.started = true;
            return (win, h, lo);
        }
        let ghost t: int = (self.base@ + 1) as int;
        let lo = self.offsets[0];
        let mid = self.offsets[1];
        let hi = self.offsets[k];
        let len = self.bytes.len();
        proof {
            assert(self.offsets@[0] == clip_offset(cs, t - 1));
            assert(self.offsets@[1] == clip_offset(cs, t));
            assert(self.offsets@[k as int] == clip_offset(cs, t - 1 + k));
            lemma_clipped_bytes(cs, t - 1, k as int);
            lemma_clipped_bytes(cs, t, k as int);
            lemma_clipped_bytes(cs, t - 1, 1);
            lemma_clipped_bytes(cs, t, k - 1);
            lemma_clipped_bytes(cs, t - 1 + k, 1);
            lemma_prefix_bytes_mono(cs, n, n);
            if t - 1 + k < n {
                lemma_prefix_bytes_mono(cs, t - 1 + k, n);
            }
        }
        let new_hi = if hi < len {
            proof {
                if t - 1 + k >= n {
                    assert(hi == prefix_bytes(cs, n));
                }
            }
            let w = char_width_at(self.bytes, hi, Ghost(cs), Ghost(t - 1 + k));
            hi + w
        } else {
            len
        };
        assert(new_hi == clip_offset(cs, t + k));
        self.offsets.pop_front();
        self.offsets.push_back(new_hi);
        self.base = Ghost(t as nat);
        proof {
            assert forall|j: int| 0 <= j <= k implies #[trigger] self.offsets@[j] == clip_offset(
                cs,
                t + j,
            ) by {
                if j < k {
                    assert(self.offsets@[j] == old(self).offsets@[j + 1]);
                }
            }
        }
        let ghost a = if t < n { t } else { n };
        let ghost b = if t + k < n { t + k } else { n };
        let win = slice_between(self.source, mid, new_hi, Ghost(a), Ghost(b));
        proof {
            assert(clipped_window(cs, t, k as int) == cs.subrange(a, b));
        }
        let h = match self.kind {
            WindowHash::Polynomial(salt) => {
                // `remove` takes the length of the window as a `u32`; a longer
                // window is hashed afresh.
                if hi - lo <= 0xffff_ffff {
                    roll_polynomial(&mut self.poly, self.bytes, lo, mid, hi, new_hi);
                } else {
                    self.poly = RollingPolynomial::from_buffer_with_salt(win.as_bytes(), salt);
                }
                self.poly.hash()
            },
            WindowHash::Adler => {
                // Adler-32's `remove` is exact only on windows of at most
                // `ADLER_MODULUS` bytes; a longer window is hashed afresh.
                if hi - lo <= ADLER_MODULUS {
                    self.adler = roll_adler(self.adler, self.bytes, lo, mid, hi, new_hi);
                } else {
                    self.adler = adler_hash(win.as_bytes());
                }
                self.adler as u64
            },
            _ => hash_window(self.kind, win.as_bytes()),
        };
        (win, h, mid)
    }
}

} // verus!
