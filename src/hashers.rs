//! Rolling hash of a byte window as a polynomial in a salt, kept modulo 2^64.
use vstd::arithmetic::div_mod::*;
use vstd::arithmetic::power::*;
use vstd::prelude::*;

verus! {

/// The modulus of 64-bit wrapping arithmetic.
pub open spec fn word() -> int {
    0x1_0000_0000_0000_0000
}

/// An integer reduced into the range of `u64`.
pub open spec fn wrap(v: int) -> u64 {
    (v % word()) as u64
}

/// `b[0] * salt^(n-1) + b[1] * salt^(n-2) + ... + b[n-1]`, over the integers.
pub open spec fn poly_value(b: Seq<u8>, salt: int) -> int
    decreases b.len(),
{
    if b.len() == 0 {
        0
    } else {
        poly_value(b.drop_last(), salt) * salt + b.last() as int
    }
}

/// The polynomial hash of `b` under `salt`, modulo 2^64.
pub open spec fn poly_hash(b: Seq<u8>, salt: u64) -> u64 {
    wrap(poly_value(b, salt as int))
}

/// The hash after a byte is appended to the window.
pub open spec fn hash_after_update(hash: u64, salt: u64, byte: u8) -> u64 {
    wrap(hash as int * salt as int + byte as int)
}

/// The hash after `byte` leaves a window of `size` bytes at its front.
pub open spec fn hash_after_remove(hash: u64, salt: u64, size: nat, byte: u8) -> u64 {
    wrap(hash as int - byte as int * pow(salt as int, (size - 1) as nat))
}

/// The hash after each byte of `b` is appended in turn.
pub open spec fn hash_after_buffer(hash: u64, salt: u64, b: Seq<u8>) -> u64
    decreases b.len(),
{
    if b.len() == 0 {
        hash
    } else {
        hash_after_update(hash_after_buffer(hash, salt, b.drop_last()), salt, b.last())
    }
}

/// Relies on `u64::wrapping_pow`: `base` to the power `exp`, modulo 2^64.
#[verifier::external_body]
fn wrapping_power(base: u64, exp: u32) -> (r: u64)
    ensures
        r == wrap(pow(base as int, exp as nat)),
{
    base.wrapping_pow(exp)
}

/// Relies on rand's `Rng::gen_range` on the thread-local generator: a value
/// in the half-open range `lo..hi`.
#[verifier::external_body]
fn random_between(lo: u64, hi: u64) -> (r: u64)
    requires
        lo < hi,
    ensures
        lo <= r < hi,
{
    rand::Rng::gen_range(&mut rand::thread_rng(), lo..hi)
}

/// Appending a byte to the window is one Horner step on the integer value.
pub proof fn lemma_update_poly(b: Seq<u8>, salt: u64, byte: u8)
    ensures
        hash_after_update(poly_hash(b, salt), salt, byte) == poly_hash(b.push(byte), salt),
{
    let v = poly_value(b, salt as int);
    assert(b.push(byte).drop_last() =~= b);
    lemma_mul_mod_noop_left(v, salt as int, word());
    lemma_add_mod_noop(v * salt as int, byte as int, word());
    lemma_mod_twice(v * salt as int, word());
    lemma_mod_bound(v, word());
    lemma_small_mod(byte as nat, word() as nat);
    lemma_add_mod_noop((v % word()) * salt as int, byte as int, word());
    lemma_mod_twice((v % word()) * salt as int, word());
}

/// The first byte of a window contributes `b[0] * salt^(n-1)`.
pub proof fn lemma_poly_first(b: Seq<u8>, salt: int)
    requires
        b.len() >= 1,
    ensures
        poly_value(b, salt) == b[0] as int * pow(salt, (b.len() - 1) as nat) + poly_value(
            b.drop_first(),
            salt,
        ),
    decreases b.len(),
{
    reveal(pow);
    if b.len() == 1 {
        assert(b.drop_last().len() == 0);
        assert(b.drop_first().len() == 0);
        assert(pow(salt, 0) == 1);
        assert(poly_value(b.drop_last(), salt) == 0);
        assert(poly_value(b.drop_first(), salt) == 0);
        assert(0 * salt == 0);
        assert(b.last() == b[0]);
    } else {
        let init = b.drop_last();
        lemma_poly_first(init, salt);
        assert(init.drop_first() =~= b.drop_first().drop_last());
        assert(b.drop_first().last() == b.last());
        assert(init[0] == b[0]);
        let e = (b.len() - 2) as nat;
        assert(pow(salt, (e + 1) as nat) == salt * pow(salt, e));
        let p = pow(salt, e);
        let r = poly_value(init.drop_first(), salt);
        assert((b[0] as int * p + r) * salt == b[0] as int * (salt * p) + r * salt)
            by (nonlinear_arith);
        let tail = b.drop_first();
        assert(poly_value(tail, salt) == poly_value(tail.drop_last(), salt) * salt
            + tail.last() as int);
        assert(poly_value(b, salt) == poly_value(init, salt) * salt + b.last() as int);
    }
}

/// Removing the front byte of a window leaves the hash of the rest.
pub proof fn lemma_remove_poly(b: Seq<u8>, salt: u64)
    requires
        b.len() >= 1,
    ensures
        hash_after_remove(poly_hash(b, salt), salt, b.len(), b[0]) == poly_hash(
            b.drop_first(),
            salt,
        ),
{
    let v = poly_value(b, salt as int);
    let t = b[0] as int * pow(salt as int, (b.len() - 1) as nat);
    lemma_poly_first(b, salt as int);
    lemma_sub_mod_noop(v, t, word());
    lemma_mod_bound(v, word());
    lemma_mod_bound(t, word());
    lemma_sub_mod_noop(v % word(), t, word());
    lemma_mod_twice(v, word());
    assert(v - t == poly_value(b.drop_first(), salt as int));
}

/// Appending a buffer from the empty hash gives the polynomial hash.
pub proof fn lemma_buffer_poly(b: Seq<u8>, salt: u64)
    ensures
        hash_after_buffer(0, salt, b) == poly_hash(b, salt),
    decreases b.len(),
{
    if b.len() == 0 {
    } else {
        lemma_buffer_poly(b.drop_last(), salt);
        lemma_update_poly(b.drop_last(), salt, b.last());
        assert(b.drop_last().push(b.last()) =~= b);
    }
}

/// Sliding a window by one byte, by removing its front byte and then
/// appending the next one, gives the same hash as hashing the new window
/// from scratch with the same salt.
pub proof fn lemma_rolling_law(window: Seq<u8>, next: u8, salt: u64)
    requires
        window.len() >= 1,
    ensures
        hash_after_update(
            hash_after_remove(poly_hash(window, salt), salt, window.len(), window[0]),
            salt,
            next,
        ) == poly_hash(window.drop_first().push(next), salt),
{
    lemma_remove_poly(window, salt);
    lemma_update_poly(window.drop_first(), salt, next);
}

/// The hash after the first `count` bytes leave the window `b`, one at a
/// time, each removed with the length of the window it leaves.
pub open spec fn hash_after_removing(hash: u64, salt: u64, b: Seq<u8>, count: nat) -> u64
    decreases count,
{
    if count == 0 || b.len() == 0 {
        hash
    } else {
        hash_after_removing(
            hash_after_remove(hash, salt, b.len(), b[0]),
            salt,
            b.drop_first(),
            (count - 1) as nat,
        )
    }
}

/// Removing the first `count` bytes of a window leaves the hash of the rest.
pub proof fn lemma_removing_poly(b: Seq<u8>, salt: u64, count: nat)
    requires
        count <= b.len(),
    ensures
        hash_after_removing(poly_hash(b, salt), salt, b, count) == poly_hash(
            b.subrange(count as int, b.len() as int),
            salt,
        ),
    decreases count,
{
    if count == 0 {
        assert(b.subrange(0, b.len() as int) =~= b);
    } else {
        lemma_remove_poly(b, salt);
        lemma_removing_poly(b.drop_first(), salt, (count - 1) as nat);
        assert(b.drop_first().subrange(count - 1, b.drop_first().len() as int) =~= b.subrange(
            count as int,
            b.len() as int,
        ));
    }
}

/// Appending a buffer to the hash of `b` gives the hash of `b` followed by
/// the buffer.
pub proof fn lemma_appending_poly(b: Seq<u8>, salt: u64, x: Seq<u8>)
    ensures
        hash_after_buffer(poly_hash(b, salt), salt, x) == poly_hash(b + x, salt),
    decreases x.len(),
{
    if x.len() == 0 {
        assert(b + x =~= b);
    } else {
        lemma_appending_poly(b, salt, x.drop_last());
        lemma_update_poly(b + x.drop_last(), salt, x.last());
        assert((b + x.drop_last()).push(x.last()) =~= b + x);
    }
}

/// A rolling polynomial hash over bytes:
/// `b1 * a^(l-1) + b2 * a^(l-2) + ... + bl * a^0` modulo 2^64 for a salt `a`.
pub struct RollingPolynomial {
    hash: u64,
    salt: u64,
}

impl RollingPolynomial {
    /// The current hash.
    pub closed spec fn spec_hash(&self) -> u64 {
        self.hash
    }

    /// The salt that the hash is a polynomial in.
    pub closed spec fn spec_salt(&self) -> u64 {
        self.salt
    }

    /// An empty hash with a random salt of at least 2 and below 256: a salt
    /// of 0 or 1 would make the hash degenerate, and a small salt keeps the
    /// powers from wrapping too early.
    pub fn new() -> (r: Self)
        ensures
            r.spec_hash() == 0,
            2 <= r.spec_salt() < 256,
    {
        let salt = random_between(2, 256);
        RollingPolynomial { hash: 0, salt }
    }

    /// An empty hash with the given salt.
    pub fn with_salt(salt: u64) -> (r: Self)
        ensures
            r.spec_hash() == 0,
            r.spec_salt() == salt,
    {
        RollingPolynomial { hash: 0, salt }
    }

    /// The hash of `bytes` under a fresh random salt.
    pub fn from_buffer(bytes: &[u8]) -> (r: Self)
        ensures
            2 <= r.spec_salt() < 256,
            r.spec_hash() == poly_hash(bytes@, r.spec_salt()),
    {
        let mut instance = Self::new();
        instance.update_buffer(bytes);
        proof {
            lemma_buffer_poly(bytes@, instance.salt);
        }
        instance
    }

    /// The hash of `bytes` under the given salt.
    pub fn from_buffer_with_salt(bytes: &[u8], salt: u64) -> (r: Self)
        ensures
            r.spec_salt() == salt,
            r.spec_hash() == poly_hash(bytes@, salt),
    {
        let mut instance = Self::with_salt(salt);
        instance.update_buffer(bytes);
        proof {
            lemma_buffer_poly(bytes@, salt);
        }
        instance
    }

    /// Appends `byte` to the window.
    pub fn update(&mut self, byte: u8)
        ensures
            final(self).spec_salt() == old(self).spec_salt(),
            final(self).spec_hash() == hash_after_update(
                old(self).spec_hash(),
                old(self).spec_salt(),
                byte,
            ),
    {
        let h = self.hash;
        let m = h.wrapping_mul(self.salt);
        let r = m.wrapping_add(byte as u64);
        proof {
            let x = h as int * self.salt as int;
            lemma_mod_bound(x, word());
            lemma_small_mod(byte as nat, word() as nat);
            lemma_add_mod_noop(x, byte as int, word());
            lemma_mod_twice(x, word());
            let y: int = (m as int) + (byte as int);
            if y >= word() {
                lemma_mod_sub_multiples_vanish(y, word());
                lemma_small_mod((y - word()) as nat, word() as nat);
            } else {
                lemma_small_mod(y as nat, word() as nat);
            }
        }
        self.hash = r;
    }

    /// Takes `byte` out of the front of a window of `size` bytes.
    pub fn remove(&mut self, size: u32, byte: u8)
        requires
            size >= 1,
        ensures
            final(self).spec_salt() == old(self).spec_salt(),
            final(self).spec_hash() == hash_after_remove(
                old(self).spec_hash(),
                old(self).spec_salt(),
                size as nat,
                byte,
            ),
    {
        let h = self.hash;
        let p = wrapping_power(self.salt, size - 1);
        let t = (byte as u64).wrapping_mul(p);
        let r = h.wrapping_sub(t);
        proof {
            let e = pow(self.salt as int, (size - 1) as nat);
            let full = byte as int * e;
            lemma_mul_mod_noop_right(byte as int, e, word());
            assert(t as int == full % word());
            lemma_mod_bound(full, word());
            lemma_small_mod(h as nat, word() as nat);
            lemma_sub_mod_noop(h as int, full, word());
            lemma_mod_twice(full, word());
            let d: int = (h as int) - (t as int);
            if d < 0 {
                lemma_mod_multiples_vanish(1, d, word());
                lemma_small_mod((d + word()) as nat, word() as nat);
                assert(word() * 1 + d == d + word());
            } else {
                lemma_small_mod(d as nat, word() as nat);
            }
        }
        self.hash = r;
    }

    /// Appends each byte of `bytes` in turn.
    pub fn update_buffer(&mut self, bytes: &[u8])
        ensures
            final(self).spec_salt() == old(self).spec_salt(),
            final(self).spec_hash() == hash_after_buffer(
                old(self).spec_hash(),
                old(self).spec_salt(),
                bytes@,
            ),
    {
        let ghost start = self.hash;
        let mut i: usize = 0;
        while i < bytes.len()
            invariant
                i <= bytes@.len(),
                self.salt == old(self).spec_salt(),
                start == old(self).spec_hash(),
                self.hash == hash_after_buffer(start, self.salt, bytes@.subrange(0, i as int)),
            decreases bytes@.len() - i,
        {
            proof {
                let pre = bytes@.subrange(0, i as int + 1);
                assert(pre.drop_last() =~= bytes@.subrange(0, i as int));
                assert(pre.last() == bytes@[i as int]);
            }
            self.update(bytes[i]);
            i = i + 1;
        }
        proof {
            assert(bytes@.subrange(0, i as int) =~= bytes@);
        }
    }

    /// The current hash.
    pub fn hash(&self) -> (r: u64)
        ensures
            r == self.spec_hash(),
    {
        self.hash
    }

    /// The salt that the hash is a polynomial in.
    pub fn salt(&self) -> (r: u64)
        ensures
            r == self.spec_salt(),
    {
        self.salt
    }
}

} // verus!
