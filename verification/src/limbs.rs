//! Little-endian byte values and the 64-bit limb helpers used by field
//! element encodings.

use vstd::prelude::*;

verus! {

/// The integer value of a little-endian byte string.
pub open spec fn le_val(s: Seq<u8>) -> nat
    decreases s.len(),
{
    if s.len() == 0 {
        0
    } else {
        (s[0] + 256 * le_val(s.subrange(1, s.len() as int))) as nat
    }
}

/// 256 raised to the power `n`: the weight of the byte at position `n` in a
/// little-endian byte string.
pub open spec fn pow256(n: nat) -> nat
    decreases n,
{
    if n == 0 {
        1
    } else {
        256 * pow256((n - 1) as nat)
    }
}

/// The `n`-byte little-endian encoding of `v` (modulo `256^n`).
pub open spec fn le_bytes(v: nat, n: nat) -> Seq<u8>
    decreases n,
{
    if n == 0 {
        Seq::empty()
    } else {
        seq![(v % 256) as u8] + le_bytes(v / 256, (n - 1) as nat)
    }
}

/// Byte weights are positive.
pub proof fn lemma_pow256_pos(n: nat)
    ensures
        pow256(n) >= 1,
    decreases n,
{
    if n > 0 {
        lemma_pow256_pos((n - 1) as nat);
    }
}

/// A prefix of an encoding is the encoding at the shorter width.
pub proof fn lemma_le_bytes_take(v: nat, n: nat, m: nat)
    requires
        m <= n,
    ensures
        le_bytes(v, n).take(m as int) =~= le_bytes(v, m),
    decreases m,
{
    lemma_le_bytes_val(v, n);
    lemma_le_bytes_val(v, m);
    if m > 0 {
        lemma_le_bytes_take(v / 256, (n - 1) as nat, (m - 1) as nat);
        assert(le_bytes(v, n).take(m as int).subrange(1, m as int) =~= le_bytes(
            v / 256,
            (n - 1) as nat,
        ).take(m as int - 1));
    }
}

/// Encoding at width `n` keeps the value modulo `256^n`.
pub proof fn lemma_le_bytes_val_mod(v: nat, n: nat)
    ensures
        le_val(le_bytes(v, n)) == v % pow256(n),
    decreases n,
{
    if n == 0 {
        assert(pow256(0) == 1);
        assert(v % 1 == 0) by (nonlinear_arith);
    } else {
        lemma_le_bytes_val_mod(v / 256, (n - 1) as nat);
        lemma_le_bytes_val(v, n);
        let s = le_bytes(v, n);
        assert(s.subrange(1, s.len() as int) =~= le_bytes(v / 256, (n - 1) as nat));
        lemma_pow256_pos((n - 1) as nat);
        vstd::arithmetic::div_mod::lemma_mod_breakdown(
            v as int,
            256,
            pow256((n - 1) as nat) as int,
        );
        assert(pow256(n) == 256 * pow256((n - 1) as nat));
    }
}

/// The value of a byte string is below the weight of its one-past-the-end
/// position.
pub proof fn lemma_le_val_bound(s: Seq<u8>)
    ensures
        le_val(s) < pow256(s.len()),
    decreases s.len(),
{
    if s.len() > 0 {
        lemma_le_val_bound(s.subrange(1, s.len() as int));
    }
}

/// Encoding a value below `256^n` in `n` bytes preserves it.
pub proof fn lemma_le_bytes_val(v: nat, n: nat)
    ensures
        le_bytes(v, n).len() == n,
        v < pow256(n) ==> le_val(le_bytes(v, n)) == v,
    decreases n,
{
    if n > 0 {
        lemma_le_bytes_val(v / 256, (n - 1) as nat);
        let s = le_bytes(v, n);
        assert(s.subrange(1, s.len() as int) =~= le_bytes(v / 256, (n - 1) as nat));
    }
}

/// A byte string is the encoding of its own value: little-endian decoding is
/// injective at a fixed width.
pub proof fn lemma_le_val_bytes_id(s: Seq<u8>)
    ensures
        le_bytes(le_val(s), s.len()) =~= s,
    decreases s.len(),
{
    if s.len() > 0 {
        let tail = s.subrange(1, s.len() as int);
        lemma_le_val_bytes_id(tail);
        assert(le_val(s) % 256 == s[0] && le_val(s) / 256 == le_val(tail)) by {
            lemma_le_val_bound(tail);
        }
    }
}

/// Appending a byte adds its value at the weight of the old length.
pub proof fn lemma_le_val_snoc(s: Seq<u8>, b: u8)
    ensures
        le_val(s.push(b)) == le_val(s) + b * pow256(s.len()),
    decreases s.len(),
{
    if s.len() == 0 {
        reveal_with_fuel(le_val, 2);
        assert(s.push(b).subrange(1, 1) == Seq::<u8>::empty()) by {
            assert(s.push(b).subrange(1, 1) =~= Seq::<u8>::empty());
        }
        assert(s.push(b)[0] == b);
        assert(le_val(s.push(b)) == b);
        assert(le_val(s) == 0);
        assert(pow256(0) == 1);
        assert(b * 1nat == b) by (nonlinear_arith);
    } else {
        let tail = s.subrange(1, s.len() as int);
        lemma_le_val_snoc(tail, b);
        assert(s.push(b).subrange(1, s.len() as int + 1) =~= tail.push(b));
        assert(b * pow256(s.len()) == 256 * (b * pow256(tail.len()))) by (nonlinear_arith)
            requires
                pow256(s.len()) == 256 * pow256(tail.len()),
        ;
    }
}

/// Compute a + b + carry, returning the result and the new carry over.
pub fn adc(a: u64, b: u64, carry: u64) -> (r: (u64, u64))
    ensures
        r.0 + r.1 * 0x1_0000_0000_0000_0000 == a + b + carry,
{
    let ret: u128 = (a as u128) + (b as u128) + (carry as u128);
    let lo: u64 = ret as u64;
    let hi: u64 = (ret >> 64) as u64;
    proof {
        assert(lo + hi * 0x1_0000_0000_0000_0000 == ret) by (bit_vector)
            requires
                lo == ret as u64 && hi == (ret >> 64) as u64 && ret
                    < 0x3_0000_0000_0000_0000_0000_0000_0000_0000,
        ;
    }
    (lo, hi)
}

/// Compute a - (b + borrow), returning the result and the new borrow.
/// The incoming and outgoing borrow flags are all-ones when set.
pub fn sbb(a: u64, b: u64, borrow: u64) -> (r: (u64, u64))
    ensures
        ({
            let bin: int = if borrow >= 0x8000_0000_0000_0000 {
                1
            } else {
                0
            };
            r.0 == (a - b - bin) % 0x1_0000_0000_0000_0000 && r.1 == (if a - b - bin >= 0 {
                0u64
            } else {
                0xffff_ffff_ffff_ffffu64
            })
        }),
{
    let bin: u64 = borrow >> 63;
    let d: u128 = (b as u128) + (bin as u128);
    let ret: u128 = (a as u128).wrapping_sub(d);
    let lo: u64 = ret as u64;
    let hi: u64 = (ret >> 64) as u64;
    proof {
        assert(bin == if borrow >= 0x8000_0000_0000_0000 {
            1u64
        } else {
            0u64
        }) by (bit_vector)
            requires
                bin == borrow >> 63u64,
        ;
        assert(lo == (a - b - bin) % 0x1_0000_0000_0000_0000 && hi == (if a - b - bin >= 0 {
            0u64
        } else {
            0xffff_ffff_ffff_ffffu64
        })) by (bit_vector)
            requires
                bin <= 1 && d == (b as u128) + (bin as u128) && ret == (a as u128).wrapping_sub(d)
                    && lo == ret as u64 && hi == (ret >> 64) as u64,
        ;
    }
    (lo, hi)
}

/// Compute a + (b * c) + carry, returning the result and the new carry over.
pub fn mac(a: u64, b: u64, c: u64, carry: u64) -> (r: (u64, u64))
    ensures
        r.0 + r.1 * 0x1_0000_0000_0000_0000 == a + b * c + carry,
{
    proof {
        assert((a as int) + (b as int) * (c as int) + (carry as int)
            < 0x1_0000_0000_0000_0000_0000_0000_0000_0000) by (nonlinear_arith)
            requires
                a <= 0xffff_ffff_ffff_ffffu64 && b <= 0xffff_ffff_ffff_ffffu64 && c
                    <= 0xffff_ffff_ffff_ffffu64 && carry <= 0xffff_ffff_ffff_ffffu64,
        ;
    }
    let ret: u128 = (a as u128) + ((b as u128) * (c as u128)) + (carry as u128);
    let lo: u64 = #[verifier::truncate] (ret as u64);
    let hi: u64 = (ret >> 64) as u64;
    proof {
        assert(lo + hi * 0x1_0000_0000_0000_0000 == ret) by (bit_vector)
            requires
                lo == ret as u64 && hi == (ret >> 64) as u64,
        ;
    }
    (lo, hi)
}

/// Reassemble a 32-byte string into eight 32-bit little-endian limbs.
pub fn u32_from_u8(u8_arr: &[u8; 32]) -> (t: [u32; 8])
    ensures
        forall|i: int|
            0 <= i < 8 ==> #[trigger] t@[i] == le_val(u8_arr@.subrange(4 * i, 4 * i + 4)),
{
    let mut t: [u32; 8] = [0u32; 8];
    let mut i: usize = 0;
    while i < 8
        invariant
            i <= 8,
            forall|j: int|
                0 <= j < i ==> #[trigger] t@[j] == le_val(u8_arr@.subrange(4 * j, 4 * j + 4)),
        decreases 8 - i,
    {
        let b0 = u8_arr[4 * i];
        let b1 = u8_arr[4 * i + 1];
        let b2 = u8_arr[4 * i + 2];
        let b3 = u8_arr[4 * i + 3];
        let v: u32 = (b0 as u32) + (b1 as u32) * 0x100 + (b2 as u32) * 0x1_0000 + (b3 as u32)
            * 0x100_0000;
        proof {
            let s = u8_arr@.subrange(4 * i as int, 4 * i as int + 4);
            assert(s.len() == 4);
            assert(s.subrange(1, 4).subrange(1, 3) =~= s.subrange(2, 4));
            assert(s.subrange(1, 4).subrange(1, 3).subrange(1, 2) =~= s.subrange(3, 4));
            assert(s.subrange(3, 4).subrange(1, 1) =~= Seq::<u8>::empty());
            reveal_with_fuel(le_val, 5);
            assert(le_val(s) == s[0] + 256 * (s[1] + 256 * (s[2] + 256 * (s[3] as nat))));
        }
        t[i] = v;
        i = i + 1;
    }
    t
}

} // verus!
