use vstd::prelude::*;

verus! {

/// Multiplier of the Fx hash.
pub const KEY: u64 = 0x517c_c1b7_2722_0a95;

/// One mixing step: rotate the state left by five bits, xor in the word,
/// multiply by `KEY` modulo 2^64.
pub open spec fn fx_step(h: u64, w: u64) -> u64 {
    (((h << 5u64) | (h >> 59u64)) ^ w).wrapping_mul(KEY)
}

/// Little-endian value of the first two bytes.
pub open spec fn le2(s: Seq<u8>) -> int {
    s[0] + 256 * s[1]
}

/// Little-endian value of the first four bytes.
pub open spec fn le4(s: Seq<u8>) -> int {
    s[0] + 256 * s[1] + 65536 * s[2] + 16777216 * s[3]
}

/// Little-endian value of the first eight bytes.
pub open spec fn le8(s: Seq<u8>) -> int {
    le4(s) + 4294967296 * le4(s.subrange(4, 8))
}

/// The state after hashing `s` from state `h`: whole eight-byte words first,
/// then at most one four-byte word, one two-byte word and one byte.
pub open spec fn fx_write(h: u64, s: Seq<u8>) -> u64
    decreases s.len(),
{
    if s.len() >= 8 {
        fx_write(fx_step(h, le8(s) as u64), s.subrange(8, s.len() as int))
    } else if s.len() >= 4 {
        fx_write(fx_step(h, le4(s) as u64), s.subrange(4, s.len() as int))
    } else if s.len() >= 2 {
        fx_write(fx_step(h, le2(s) as u64), s.subrange(2, s.len() as int))
    } else if s.len() == 1 {
        fx_step(h, s[0] as u64)
    } else {
        h
    }
}

/// Hash of a key's bytes from the zero state.
pub open spec fn fx_hash(s: Seq<u8>) -> u64 {
    fx_write(0, s)
}

/// A small, fast, non-cryptographic hasher for key bytes.
pub struct FastHasher {
    pub hash: u64,
}

impl FastHasher {
    /// Mixes one word into the state.
    pub fn compute_hash(&mut self, word: u64)
        ensures
            final(self).hash == fx_step(old(self).hash, word),
    {
        let h = self.hash;
        self.hash = (((h << 5u64) | (h >> 59u64)) ^ word).wrapping_mul(KEY);
    }

    /// Hashes `bytes` into the state.
    pub fn write(&mut self, bytes: &[u8])
        ensures
            final(self).hash == fx_write(old(self).hash, bytes@),
    {
        let ghost h0 = self.hash;
        let n = bytes.len();
        let mut i: usize = 0;
        assert(bytes@.subrange(0, n as int) =~= bytes@);
        while n - i >= 8
            invariant
                i <= n,
                n == bytes@.len(),
                fx_write(self.hash, bytes@.subrange(i as int, n as int)) == fx_write(h0, bytes@),
            decreases n - i,
        {
            let ghost rest = bytes@.subrange(i as int, n as int);
            let w = word8(bytes, i);
            self.compute_hash(w);
            assert(rest.subrange(8, rest.len() as int) =~= bytes@.subrange(i + 8, n as int));
            i = i + 8;
        }
        if n - i >= 4 {
            let ghost rest = bytes@.subrange(i as int, n as int);
            let w = (bytes[i] as u64) + 256 * (bytes[i + 1] as u64) + 65536 * (bytes[i + 2] as u64)
                + 16777216 * (bytes[i + 3] as u64);
            assert(w as int == le4(rest));
            assert(fx_write(self.hash, rest) == fx_write(fx_step(self.hash, w), rest.subrange(4, rest.len() as int)));
            self.compute_hash(w);
            assert(rest.subrange(4, rest.len() as int) =~= bytes@.subrange(i + 4, n as int));
            i = i + 4;
        }
        assert(fx_write(self.hash, bytes@.subrange(i as int, n as int)) == fx_write(h0, bytes@));
        if n - i >= 2 {
            let ghost rest = bytes@.subrange(i as int, n as int);
            let w = (bytes[i] as u64) + 256 * (bytes[i + 1] as u64);
            assert(w as int == le2(rest));
            assert(fx_write(self.hash, rest) == fx_write(fx_step(self.hash, w), rest.subrange(2, rest.len() as int)));
            self.compute_hash(w);
            assert(rest.subrange(2, rest.len() as int) =~= bytes@.subrange(i + 2, n as int));
            i = i + 2;
        }
        assert(fx_write(self.hash, bytes@.subrange(i as int, n as int)) == fx_write(h0, bytes@));
        let ghost rest = bytes@.subrange(i as int, n as int);
        if n - i >= 1 {
            assert(rest[0] == bytes@[i as int]);
            self.compute_hash(bytes[i] as u64);
        } else {
            assert(rest.len() == 0);
        }
    }

    /// The current state as the hash value.
    pub fn finish(&self) -> (r: u64)
        ensures
            r == self.hash,
    {
        self.hash
    }
}

impl Default for FastHasher {
    fn default() -> (r: Self)
        ensures
            r.hash == 0,
    {
        FastHasher { hash: 0 }
    }
}

/// Little-endian word of the eight bytes at `i`.
fn word8(bytes: &[u8], i: usize) -> (r: u64)
    requires
        i + 8 <= bytes@.len(),
    ensures
        r as int == le8(bytes@.subrange(i as int, bytes@.len() as int)),
{
    let lo = (bytes[i] as u64) + 256 * (bytes[i + 1] as u64) + 65536 * (bytes[i + 2] as u64)
        + 16777216 * (bytes[i + 3] as u64);
    let hi = (bytes[i + 4] as u64) + 256 * (bytes[i + 5] as u64) + 65536 * (bytes[i + 6] as u64)
        + 16777216 * (bytes[i + 7] as u64);
    lo + 4294967296 * hi
}

/// Hash of a key's bytes.
pub fn hash_key(key: &[u8]) -> (r: u64)
    ensures
        r == fx_hash(key@),
{
    let mut h = FastHasher { hash: 0 };
    h.write(key);
    h.finish()
}

} // verus!
