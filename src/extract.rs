use vstd::prelude::*;
use crate::byte::ByteBase;
use crate::enum_string::EnumString;

verus! {

/// `256` to the power `n`.
pub open spec fn pow256(n: nat) -> nat
    decreases n,
{
    if n == 0 {
        1
    } else {
        256 * pow256((n - 1) as nat)
    }
}

/// The unsigned integer that bytes spell with the most significant first.
pub open spec fn be_value(s: Seq<u8>) -> nat
    decreases s.len(),
{
    if s.len() == 0 {
        0
    } else {
        (be_value(s.drop_last()) * 256 + s.last()) as nat
    }
}

/// The unsigned integer that bytes spell with the least significant first.
pub open spec fn le_value(s: Seq<u8>) -> nat
    decreases s.len(),
{
    if s.len() == 0 {
        0
    } else {
        (s[0] + 256 * le_value(s.drop_first())) as nat
    }
}

/// Where an extraction starts: `offset` bytes after the detection cursor.
pub open spec fn start_of(cursor: usize, offset: i32) -> int {
    cursor as int + offset as int
}

/// The value read by a binary extraction of `length` bytes at `offset` from
/// `cursor`, or `None` where the length is unsupported or the bytes are not
/// all inside the buffer.
pub open spec fn extraction(buf: Seq<u8>, cursor: usize, offset: i32, length: usize, little: bool) -> Option<u64> {
    let start = start_of(cursor, offset);
    if 1 <= length <= 8 && 0 <= start && start + length <= buf.len() {
        let s = buf.subrange(start, start + length);
        Some((if little { le_value(s) } else { be_value(s) }) as u64)
    } else {
        None
    }
}

proof fn lemma_pow256_mono(a: nat, b: nat)
    requires
        a <= b,
    ensures
        pow256(a) <= pow256(b),
    decreases b,
{
    if a < b {
        lemma_pow256_mono(a, (b - 1) as nat);
    }
}

proof fn lemma_pow256_seven()
    ensures
        pow256(7) == 0x100_0000_0000_0000,
{
    reveal_with_fuel(pow256, 8);
}

/// Stepping a most-significant-first accumulator keeps it below `256^k`.
proof fn lemma_step_bound(acc: nat, b: u8, k: nat)
    requires
        acc < pow256(k),
    ensures
        acc * 256 + b < pow256(k + 1),
{
    assert(pow256(k + 1) == 256 * pow256(k));
    assert(acc * 256 + b < pow256(k + 1)) by (nonlinear_arith)
        requires
            acc < pow256(k),
            pow256(k + 1) == 256 * pow256(k),
            b < 256,
    ;
}

/// Read `length` bytes (1 to 8) at `offset` from `cursor` as an unsigned
/// integer in the given byte order; `None` where they do not fit the buffer.
pub fn extract_binary(buf: &[u8], cursor: usize, offset: i32, length: usize, little: bool) -> (r: Option<u64>)
    ensures
        r == extraction(buf@, cursor, offset, length, little),
{
    if length < 1 || length > 8 {
        return None;
    }
    if offset < 0 {
        let back = (-(offset as i64)) as u64;
        if (cursor as u64) < back {
            return None;
        }
        return extract_at(buf, (cursor as u64 - back) as usize, length, little);
    }
    let fwd = offset as usize;
    if cursor > buf.len() || fwd > buf.len() - cursor {
        return None;
    }
    extract_at(buf, cursor + fwd, length, little)
}

fn extract_at(buf: &[u8], start: usize, length: usize, little: bool) -> (r: Option<u64>)
    requires
        1 <= length <= 8,
    ensures
        r == (if start + length <= buf@.len() {
            let s = buf@.subrange(start as int, start + length);
            Some((if little { le_value(s) } else { be_value(s) }) as u64)
        } else {
            None
        }),
{
    if start > buf.len() || length > buf.len() - start {
        return None;
    }
    let ghost s = buf@.subrange(start as int, start + length);
    proof {
        lemma_pow256_seven();
    }
    let mut acc: u64 = 0;
    if little {
        let mut i: usize = length;
        while i > 0
            invariant
                1 <= length <= 8,
                start + length <= buf.len(),
                pow256(7) == 0x100_0000_0000_0000,
                s == buf@.subrange(start as int, start + length),
                i <= length,
                acc as nat == le_value(s.subrange(i as int, length as int)),
                acc < pow256((length - i) as nat),
            decreases i,
        {
            let b = buf[start + i - 1];
            proof {
                lemma_step_bound(acc as nat, b, (length - i) as nat);
                lemma_pow256_mono((length - i) as nat, 7);
                assert(acc < 0x100_0000_0000_0000);
                let t = s.subrange(i - 1, length as int);
                assert(t.drop_first() =~= s.subrange(i as int, length as int));
                assert(t[0] == b);
            }
            acc = acc * 256 + b as u64;
            i = i - 1;
        }
        assert(s.subrange(0, length as int) =~= s);
    } else {
        let mut i: usize = 0;
        while i < length
            invariant
                1 <= length <= 8,
                start + length <= buf.len(),
                pow256(7) == 0x100_0000_0000_0000,
                s == buf@.subrange(start as int, start + length),
                i <= length,
                acc as nat == be_value(s.subrange(0, i as int)),
                acc < pow256(i as nat),
            decreases length - i,
        {
            let b = buf[start + i];
            proof {
                lemma_step_bound(acc as nat, b, i as nat);
                lemma_pow256_mono(i as nat, 7);
                assert(acc < 0x100_0000_0000_0000);
                let t = s.subrange(0, i + 1);
                assert(t.drop_last() =~= s.subrange(0, i as int));
                assert(t.last() == b);
            }
            acc = acc * 256 + b as u64;
            i = i + 1;
        }
        assert(s.subrange(0, length as int) =~= s);
    }
    Some(acc)
}

/// The value of an ASCII digit in `base`, if it is one.
pub open spec fn digit_of(c: u8, base: nat) -> Option<nat> {
    let d: int = if 0x30 <= c <= 0x39 {
        c - 0x30
    } else if 0x61 <= c <= 0x66 {
        c - 0x61 + 10
    } else if 0x41 <= c <= 0x46 {
        c - 0x41 + 10
    } else {
        16
    };
    if d < base {
        Some(d as nat)
    } else {
        None
    }
}

/// The number that ASCII digits spell in `base`, or `None` if one of them is
/// not a digit of that base.
pub open spec fn digits_value(s: Seq<u8>, base: nat) -> Option<nat>
    decreases s.len(),
{
    if s.len() == 0 {
        Some(0)
    } else {
        match (digits_value(s.drop_last(), base), digit_of(s.last(), base)) {
            (Some(v), Some(d)) => Some(v * base + d),
            _ => None,
        }
    }
}

/// The value read by a text extraction of `length` digits (1 to 23) at
/// `offset` from `cursor`, or `None` where the digits do not fit the
/// buffer, are not digits of the base, or spell a number beyond `u64`.
pub open spec fn text_extraction(buf: Seq<u8>, cursor: usize, offset: i32, length: usize, base: ByteBase) -> Option<u64> {
    let start = start_of(cursor, offset);
    if 1 <= length <= 23 && 0 <= start && start + length <= buf.len() {
        match digits_value(buf.subrange(start, start + length), base.code() as nat) {
            Some(v) => if v <= u64::MAX { Some(v as u64) } else { None },
            None => None,
        }
    } else {
        None
    }
}

/// A number spelled by a prefix of digits is at most the whole number.
proof fn lemma_digits_prefix(s: Seq<u8>, base: nat, k: int)
    requires
        base >= 1,
        0 <= k <= s.len(),
        digits_value(s, base) is Some,
    ensures
        digits_value(s.subrange(0, k), base) is Some,
        digits_value(s.subrange(0, k), base)->0 <= digits_value(s, base)->0,
    decreases s.len(),
{
    if k == s.len() {
        assert(s.subrange(0, k) =~= s);
    } else {
        let t = s.drop_last();
        lemma_digits_prefix(t, base, k);
        assert(t.subrange(0, k) =~= s.subrange(0, k));
        let v = digits_value(t, base)->0;
        let d = digit_of(s.last(), base)->0;
        assert(v <= v * base + d) by (nonlinear_arith)
            requires
                base >= 1,
        ;
    }
}

fn digit_at(c: u8, base: u64) -> (r: Option<u64>)
    requires
        base <= 16,
    ensures
        r matches Some(d) ==> digit_of(c, base as nat) == Some(d as nat),
        r is None ==> digit_of(c, base as nat) is None,
{
    let d: u64 = if 0x30 <= c && c <= 0x39 {
        (c - 0x30) as u64
    } else if 0x61 <= c && c <= 0x66 {
        (c - 0x61 + 10) as u64
    } else if 0x41 <= c && c <= 0x46 {
        (c - 0x41 + 10) as u64
    } else {
        16
    };
    if d < base {
        Some(d)
    } else {
        None
    }
}

/// Read `length` ASCII digits (1 to 23) at `offset` from `cursor` as a
/// number in `base`; `None` where they do not fit the buffer, hold a
/// character that is no digit of the base, or the number exceeds `u64`.
pub fn extract_text(buf: &[u8], cursor: usize, offset: i32, length: usize, base: ByteBase) -> (r: Option<u64>)
    ensures
        r == text_extraction(buf@, cursor, offset, length, base),
{
    if length < 1 || length > 23 {
        return None;
    }
    let start: usize;
    if offset < 0 {
        let back = (-(offset as i64)) as u64;
        if (cursor as u64) < back {
            return None;
        }
        start = (cursor as u64 - back) as usize;
    } else {
        let fwd = offset as usize;
        if cursor > buf.len() || fwd > buf.len() - cursor {
            return None;
        }
        start = cursor + fwd;
    }
    if start > buf.len() || length > buf.len() - start {
        return None;
    }
    let b = base.into_u() as u64;
    let ghost s = buf@.subrange(start as int, start + length);
    let ghost bn = b as nat;
    let mut acc: u64 = 0;
    let mut i: usize = 0;
    while i < length
        invariant
            start as int == start_of(cursor, offset),
            1 <= length <= 23,
            start + length <= buf.len(),
            s == buf@.subrange(start as int, start + length),
            b == base.code(),
            8 <= b <= 16,
            bn == b as nat,
            i <= length,
            digits_value(s.subrange(0, i as int), bn) == Some(acc as nat),
        decreases length - i,
    {
        let t = Ghost(s.subrange(0, i + 1));
        proof {
            assert(t@.drop_last() =~= s.subrange(0, i as int));
            assert(t@.last() == buf@[start + i]);
        }
        let d = match digit_at(buf[start + i], b) {
            Some(d) => d,
            None => {
                proof {
                    if digits_value(s, bn) is Some {
                        lemma_digits_prefix(s, bn, i + 1);
                    }
                }
                return None;
            },
        };
        let next = match acc.checked_mul(b) {
            Some(m) => m.checked_add(d),
            None => None,
        };
        match next {
            Some(n) => {
                acc = n;
            },
            None => {
                proof {
                    assert(acc as nat * bn + d as nat > u64::MAX) by (nonlinear_arith)
                        requires
                            acc as nat * bn > u64::MAX || acc as nat * bn + d as nat > u64::MAX,
                    {
                    }
                    if digits_value(s, bn) is Some {
                        lemma_digits_prefix(s, bn, i + 1);
                    }
                }
                return None;
            },
        }
        i = i + 1;
    }
    assert(s.subrange(0, length as int) =~= s);
    Some(acc)
}

} // verus!
