//! The checksum engine: a table-driven 32-bit cyclic redundancy check over
//! the page framing polynomial.
//!
//! The page format computes its checksum with a running 32-bit accumulator:
//! for each byte `b`, `acc = (acc << 8) ^ table[(b ^ (acc >> 24)) & 0xff]`,
//! where the 256-entry table holds eight shift-and-xor rounds of the fixed
//! polynomial applied to each possible top byte. The accumulator starts at
//! zero and there is no final inversion.

use vstd::prelude::*;

verus! {

/// One round of the polynomial division: shift left one bit and, if a bit
/// fell out, fold the polynomial back in.
pub open spec fn poly_round(r: u32) -> u32 {
    if r & 0x80000000u32 != 0 {
        (r << 1u32) ^ 0x04c11db7u32
    } else {
        r << 1u32
    }
}

/// `n` rounds of [`poly_round`].
pub open spec fn poly_rounds(r: u32, n: nat) -> u32
    decreases n,
{
    if n == 0 {
        r
    } else {
        poly_rounds(poly_round(r), (n - 1) as nat)
    }
}

/// Entry `i` of the lookup table: eight polynomial rounds applied to `i`
/// placed in the accumulator's top byte.
pub open spec fn table_entry(i: int) -> u32 {
    poly_rounds((i as u32) << 24u32, 8)
}

/// One byte folded into the running accumulator.
pub open spec fn crc_step(acc: u32, b: u8) -> u32 {
    (acc << 8u32) ^ table_entry((b ^ (acc >> 24u32) as u8) as int)
}

/// The accumulator after folding every byte of `s` into `acc`, left to
/// right.
pub open spec fn crc_fold(acc: u32, s: Seq<u8>) -> u32
    decreases s.len(),
{
    if s.len() == 0 {
        acc
    } else {
        crc_fold(crc_step(acc, s[0]), s.drop_first())
    }
}

/// The checksum of a byte sequence: fold it into a zero accumulator.
pub open spec fn crc_of(s: Seq<u8>) -> u32 {
    crc_fold(0, s)
}

/// Running `n + 1` rounds is one more round after the first `n`.
proof fn lemma_poly_rounds_snoc(r: u32, n: nat)
    ensures
        poly_rounds(r, n + 1) == poly_round(poly_rounds(r, n)),
    decreases n,
{
    reveal_with_fuel(poly_rounds, 2);
    if n > 0 {
        lemma_poly_rounds_snoc(poly_round(r), (n - 1) as nat);
    }
}

/// Folding a single byte is one accumulator step.
pub proof fn lemma_crc_fold_one(acc: u32, b: u8)
    ensures
        crc_fold(acc, seq![b]) == crc_step(acc, b),
{
    reveal_with_fuel(crc_fold, 2);
    assert(seq![b].drop_first() =~= Seq::<u8>::empty());
}

/// Folding a concatenation threads the accumulator through both halves.
pub proof fn lemma_crc_fold_concat(acc: u32, a: Seq<u8>, b: Seq<u8>)
    ensures
        crc_fold(acc, a + b) == crc_fold(crc_fold(acc, a), b),
    decreases a.len(),
{
    if a.len() == 0 {
        assert(a + b =~= b);
    } else {
        assert((a + b).drop_first() =~= a.drop_first() + b);
        lemma_crc_fold_concat(crc_step(acc, a[0]), a.drop_first(), b);
    }
}

/// Folding one more byte after a prefix is one accumulator step.
pub proof fn lemma_crc_fold_snoc(acc: u32, s: Seq<u8>, b: u8)
    ensures
        crc_fold(acc, s.push(b)) == crc_step(crc_fold(acc, s), b),
{
    assert(s.push(b) =~= s + seq![b]);
    lemma_crc_fold_concat(acc, s, seq![b]);
    lemma_crc_fold_one(crc_fold(acc, s), b);
}

/// The checksum engine. The lookup table is filled once, at construction,
/// from the fixed polynomial; checksumming itself never recomputes it.
pub struct Crc {
    table: Vec<u32>,
}

impl Crc {
    /// The table holds exactly the 256 precomputed entries.
    pub closed spec fn wf(&self) -> bool {
        &&& self.table@.len() == 256
        &&& forall|i: int| 0 <= i < 256 ==> self.table@[i] == table_entry(i)
    }

    /// Precompute the lookup table.
    pub fn new() -> (c: Crc)
        ensures
            c.wf(),
    {
        let mut table: Vec<u32> = Vec::new();
        let mut i: usize = 0;
        while i < 256
            invariant
                i <= 256,
                table@.len() == i,
                forall|j: int| 0 <= j < i ==> table@[j] == table_entry(j),
            decreases 256 - i,
        {
            let top: u32 = (i as u32) << 24u32;
            let mut r: u32 = top;
            let mut k: usize = 0;
            while k < 8
                invariant
                    k <= 8,
                    r == poly_rounds(top, k as nat),
                decreases 8 - k,
            {
                proof {
                    lemma_poly_rounds_snoc(top, k as nat);
                }
                if r & 0x80000000u32 != 0 {
                    r = (r << 1u32) ^ 0x04c11db7u32;
                } else {
                    r = r << 1u32;
                }
                k = k + 1;
            }
            table.push(r);
            i = i + 1;
        }
        Crc { table }
    }

    /// Fold one byte into the accumulator through the table.
    pub fn step(&self, acc: u32, b: u8) -> (r: u32)
        requires
            self.wf(),
        ensures
            r == crc_step(acc, b),
    {
        let idx: u8 = b ^ ((acc >> 24u32) as u8);
        (acc << 8u32) ^ self.table[idx as usize]
    }

    /// Fold the bytes `v[start..end]` into `acc`.
    pub fn fold_range(&self, acc: u32, v: &Vec<u8>, start: usize, end: usize) -> (r: u32)
        requires
            self.wf(),
            start <= end <= v@.len(),
        ensures
            r == crc_fold(acc, v@.subrange(start as int, end as int)),
    {
        let mut acc2: u32 = acc;
        let mut i: usize = start;
        proof {
            assert(v@.subrange(start as int, start as int) =~= Seq::<u8>::empty());
        }
        while i < end
            invariant
                self.wf(),
                start <= i <= end <= v@.len(),
                acc2 == crc_fold(acc, v@.subrange(start as int, i as int)),
            decreases end - i,
        {
            proof {
                assert(v@.subrange(start as int, i + 1) =~= v@.subrange(
                    start as int,
                    i as int,
                ).push(v@[i as int]));
                lemma_crc_fold_snoc(acc, v@.subrange(start as int, i as int), v@[i as int]);
            }
            acc2 = self.step(acc2, v[i]);
            i = i + 1;
        }
        acc2
    }

    /// Fold four zero bytes into the accumulator.
    pub fn fold_zero4(&self, acc: u32) -> (r: u32)
        requires
            self.wf(),
        ensures
            r == crc_fold(acc, seq![0u8, 0u8, 0u8, 0u8]),
    {
        proof {
            let z = seq![0u8, 0u8, 0u8, 0u8];
            assert(z =~= seq![0u8, 0u8, 0u8].push(0u8));
            assert(seq![0u8, 0u8, 0u8] =~= seq![0u8, 0u8].push(0u8));
            assert(seq![0u8, 0u8] =~= seq![0u8].push(0u8));
            assert(seq![0u8] =~= Seq::<u8>::empty().push(0u8));
            lemma_crc_fold_snoc(acc, seq![0u8, 0u8, 0u8], 0u8);
            lemma_crc_fold_snoc(acc, seq![0u8, 0u8], 0u8);
            lemma_crc_fold_snoc(acc, seq![0u8], 0u8);
            lemma_crc_fold_snoc(acc, Seq::<u8>::empty(), 0u8);
        }
        let a1: u32 = self.step(acc, 0);
        let a2: u32 = self.step(a1, 0);
        let a3: u32 = self.step(a2, 0);
        self.step(a3, 0)
    }

    /// The checksum of an entire byte vector.
    pub fn checksum(&self, v: &Vec<u8>) -> (r: u32)
        requires
            self.wf(),
        ensures
            r == crc_of(v@),
    {
        let r = self.fold_range(0, v, 0, v.len());
        proof {
            assert(v@.subrange(0, v@.len() as int) =~= v@);
        }
        r
    }
}

} // verus!
