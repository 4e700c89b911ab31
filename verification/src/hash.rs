//! The DJB2 byte hash, and the trait by which a key hands out its hash.

use core::hash::Hasher;
use vstd::arithmetic::div_mod::lemma_fundamental_div_mod;
use vstd::arithmetic::power2::lemma2_to64;
use vstd::prelude::*;
use vstd::wrapping::usize_specs;

verus! {

/// The state every DJB2 computation starts from.
pub const DJB2_SEED: usize = 5381;

/// One DJB2 round: `h * 33 + byte`, reduced to the width of `usize`.
pub open spec fn djb2_step(h: usize, byte: u8) -> usize {
    ((h * 33 + byte) % (usize::MAX + 1)) as usize
}

/// The state reached from `h` after the rounds for `bytes`, first byte first.
pub open spec fn djb2_fold(h: usize, bytes: Seq<u8>) -> usize
    decreases bytes.len(),
{
    if bytes.len() == 0 {
        h
    } else {
        djb2_step(djb2_fold(h, bytes.drop_last()), bytes.last())
    }
}

/// The DJB2 hash of a byte string.
pub open spec fn djb2(bytes: Seq<u8>) -> usize {
    djb2_fold(DJB2_SEED, bytes)
}

/// Feeding `a` and then `b` is feeding `a + b`.
pub proof fn lemma_djb2_fold_concat(h: usize, a: Seq<u8>, b: Seq<u8>)
    ensures
        djb2_fold(h, a + b) == djb2_fold(djb2_fold(h, a), b),
    decreases b.len(),
{
    if b.len() == 0 {
    } else {
        lemma_djb2_fold_concat(h, a, b.drop_last());
        assert((a + b).drop_last() =~= a + b.drop_last());
    }
}

/// The two wrapping operations of one round compute `djb2_step`.
proof fn lemma_round_is_step(h: usize, byte: u8)
    ensures
        usize_specs::wrapping_add(usize_specs::wrapping_mul(h, 33), byte as usize) == djb2_step(
            h,
            byte,
        ),
{
    let range: int = usize::MAX + 1;
    let x: int = h * 33;
    let q: int = x / range;
    let m: int = x % range;
    lemma_fundamental_div_mod(x, range);
    if m + byte < range {
    } else {
        assert(x + byte == (q + 1) * range + (m + byte - range)) by (nonlinear_arith)
            requires
                x == range * q + m,
        ;
    }
}

/// A hasher that folds the bytes written to it with DJB2.
pub struct DjB2Hasher {
    hash: usize,
}

impl View for DjB2Hasher {
    type V = usize;

    closed spec fn view(&self) -> usize {
        self.hash
    }
}

impl DjB2Hasher {
    pub fn new() -> (hasher: Self)
        ensures
            hasher@ == DJB2_SEED,
    {
        DjB2Hasher { hash: 5381 }
    }
}

impl Hasher for DjB2Hasher {
    /// The hash of everything written so far.
    fn finish(&self) -> (digest: u64)
        ensures
            digest == self@,
    {
        self.hash as u64
    }

    /// Folds `bytes` into the state, in order.
    fn write(&mut self, bytes: &[u8])
        ensures
            final(self)@ == djb2_fold(old(self)@, bytes@),
    {
        let mut i: usize = 0;
        while i < bytes.len()
            invariant
                i <= bytes.len(),
                self.hash == djb2_fold(old(self).hash, bytes@.take(i as int)),
            decreases bytes.len() - i,
        {
            let byte: u8 = bytes[i];
            proof {
                lemma_round_is_step(self.hash, byte);
                assert(bytes@.take(i + 1).drop_last() =~= bytes@.take(i as int));
            }
            self.hash = self.hash.wrapping_mul(33).wrapping_add(byte as usize);
            i = i + 1;
        }
        proof {
            assert(bytes@.take(i as int) =~= bytes@);
        }
    }
}

/// Hashes `bytes` with DJB2.
pub fn djb2_hash(bytes: &[u8]) -> (h: usize)
    ensures
        h == djb2(bytes@),
{
    let mut hasher = DjB2Hasher::new();
    hasher.write(bytes);
    hasher.finish() as usize
}

/// A value with a hash that depends on nothing but the value.
pub trait Hash {
    /// The hash of the value.
    spec fn hash_spec(&self) -> usize;

    fn hash(&self) -> (h: usize)
        ensures
            h == self.hash_spec(),
    ;
}

/// The `width` low bytes of `value`, lowest first.
pub open spec fn le_bytes(value: nat, width: nat) -> Seq<u8>
    decreases width,
{
    if width == 0 {
        Seq::empty()
    } else {
        seq![(value % 256) as u8] + le_bytes(value / 256, (width - 1) as nat)
    }
}

/// The number below `2^bits` that stands for `value` in two's complement.
pub open spec fn unsigned(value: int, bits: nat) -> nat {
    if value >= 0 {
        value as nat
    } else {
        (value + vstd::arithmetic::power2::pow2(bits)) as nat
    }
}

/// The hash of an integer: DJB2 over its `width` bytes, lowest first.
pub open spec fn int_hash(value: nat, width: nat) -> usize {
    djb2(le_bytes(value, width))
}

/// Hashes the `width` low bytes of `value`, lowest first.
pub fn hash_le_bytes(value: u64, width: usize) -> (h: usize)
    ensures
        h == int_hash(value as nat, width as nat),
{
    let mut hasher = DjB2Hasher::new();
    let mut rest: u64 = value;
    let mut i: usize = 0;
    while i < width
        invariant
            i <= width,
            djb2_fold(hasher@, le_bytes(rest as nat, (width - i) as nat)) == int_hash(
                value as nat,
                width as nat,
            ),
        decreases width - i,
    {
        let byte: [u8; 1] = [(rest % 256) as u8];
        proof {
            let tail = le_bytes((rest / 256) as nat, (width - i - 1) as nat);
            assert(byte@ =~= seq![(rest % 256) as u8]);
            lemma_djb2_fold_concat(hasher@, byte@, tail);
        }
        hasher.write(byte.as_slice());
        rest = rest / 256;
        i = i + 1;
    }
    hasher.finish() as usize
}

impl Hash for u8 {
    open spec fn hash_spec(&self) -> usize {
        int_hash(*self as nat, 1)
    }

    fn hash(&self) -> (h: usize) {
        hash_le_bytes(*self as u64, 1)
    }
}

impl Hash for u16 {
    open spec fn hash_spec(&self) -> usize {
        int_hash(*self as nat, 2)
    }

    fn hash(&self) -> (h: usize) {
        hash_le_bytes(*self as u64, 2)
    }
}

impl Hash for u32 {
    open spec fn hash_spec(&self) -> usize {
        int_hash(*self as nat, 4)
    }

    fn hash(&self) -> (h: usize) {
        hash_le_bytes(*self as u64, 4)
    }
}

impl Hash for u64 {
    open spec fn hash_spec(&self) -> usize {
        int_hash(*self as nat, 8)
    }

    fn hash(&self) -> (h: usize) {
        hash_le_bytes(*self, 8)
    }
}

impl Hash for usize {
    open spec fn hash_spec(&self) -> usize {
        int_hash(*self as nat, (usize::BITS / 8) as nat)
    }

    fn hash(&self) -> (h: usize) {
        hash_le_bytes(*self as u64, (usize::BITS / 8) as usize)
    }
}

impl Hash for i8 {
    open spec fn hash_spec(&self) -> usize {
        int_hash(unsigned(*self as int, 8), 1)
    }

    fn hash(&self) -> (h: usize) {
        proof {
            lemma2_to64();
        }
        let value: i64 = if *self >= 0 {
            *self as i64
        } else {
            *self as i64 + 0x100
        };
        hash_le_bytes(value as u64, 1)
    }
}

impl Hash for i16 {
    open spec fn hash_spec(&self) -> usize {
        int_hash(unsigned(*self as int, 16), 2)
    }

    fn hash(&self) -> (h: usize) {
        proof {
            lemma2_to64();
        }
        let value: i64 = if *self >= 0 {
            *self as i64
        } else {
            *self as i64 + 0x1_0000
        };
        hash_le_bytes(value as u64, 2)
    }
}

impl Hash for i32 {
    open spec fn hash_spec(&self) -> usize {
        int_hash(unsigned(*self as int, 32), 4)
    }

    fn hash(&self) -> (h: usize) {
        proof {
            lemma2_to64();
        }
        let value: i64 = if *self >= 0 {
            *self as i64
        } else {
            *self as i64 + 0x1_0000_0000
        };
        hash_le_bytes(value as u64, 4)
    }
}

impl Hash for i64 {
    open spec fn hash_spec(&self) -> usize {
        int_hash(unsigned(*self as int, 64), 8)
    }

    fn hash(&self) -> (h: usize) {
        proof {
            lemma2_to64();
        }
        let value: i128 = if *self >= 0 {
            *self as i128
        } else {
            *self as i128 + 0x1_0000_0000_0000_0000
        };
        hash_le_bytes(value as u64, 8)
    }
}

impl Hash for isize {
    open spec fn hash_spec(&self) -> usize {
        int_hash(unsigned(*self as int, usize::BITS as nat), (usize::BITS / 8) as nat)
    }

    fn hash(&self) -> (h: usize) {
        proof {
            lemma2_to64();
        }
        let value: i128 = if *self >= 0 {
            *self as i128
        } else {
            *self as i128 + usize::MAX as i128 + 1
        };
        hash_le_bytes(value as u64, (usize::BITS / 8) as usize)
    }
}

} // verus!
