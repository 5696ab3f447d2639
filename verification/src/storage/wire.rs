//! Fixed-width and variable-width integers as bytes.

use vstd::prelude::*;

verus! {

/// The `width` low-order bytes of `n`, least significant first.
pub open spec fn le(n: nat, width: nat) -> Seq<u8>
    decreases width,
{
    if width == 0 {
        Seq::empty()
    } else {
        seq![(n % 256) as u8] + le(n / 256, (width - 1) as nat)
    }
}

/// The number whose bytes, least significant first, are `s`.
pub open spec fn un_le(s: Seq<u8>) -> nat
    decreases s.len(),
{
    if s.len() == 0 {
        0
    } else {
        s[0] as nat + 256 * un_le(s.skip(1))
    }
}

/// `256` to the power `width`: how many numbers fit in `width` bytes.
pub open spec fn span(width: nat) -> nat
    decreases width,
{
    if width == 0 {
        1
    } else {
        256 * span((width - 1) as nat)
    }
}

pub proof fn le_len(n: nat, width: nat)
    ensures
        le(n, width).len() == width,
    decreases width,
{
    if width > 0 {
        le_len(n / 256, (width - 1) as nat);
    }
}

/// A number that fits in `width` bytes is what those bytes say.
pub proof fn le_reads_back(n: nat, width: nat)
    requires
        n < span(width),
    ensures
        un_le(le(n, width)) == n,
    decreases width,
{
    if width > 0 {
        let rest = (width - 1) as nat;
        le_reads_back(n / 256, rest);
        le_len(n / 256, rest);
        assert(le(n, width).skip(1) =~= le(n / 256, rest));
    }
}

pub proof fn un_le_fits(s: Seq<u8>)
    ensures
        un_le(s) < span(s.len()),
    decreases s.len(),
{
    if s.len() > 0 {
        un_le_fits(s.skip(1));
    }
}

pub proof fn spans()
    ensures
        span(4) == 0x1_0000_0000,
        span(8) == 0x1_0000_0000_0000_0000,
{
    reveal_with_fuel(span, 9);
}

/// Eight bytes, least significant first.
pub open spec fn le64(n: u64) -> Seq<u8> {
    le(n as nat, 8)
}

/// Four bytes, least significant first.
pub open spec fn le32(n: u32) -> Seq<u8> {
    le(n as nat, 4)
}

/// The eight-byte number at `at`.
pub open spec fn u64_at(data: Seq<u8>, at: int) -> u64 {
    un_le(data.subrange(at, at + 8)) as u64
}

/// The four-byte number at `at`.
pub open spec fn u32_at(data: Seq<u8>, at: int) -> u32 {
    un_le(data.subrange(at, at + 4)) as u32
}

/// A number written at `at` is read there.
pub proof fn u64_reads_back(data: Seq<u8>, at: int, n: u64)
    requires
        0 <= at,
        at + 8 <= data.len(),
        data.subrange(at, at + 8) == le64(n),
    ensures
        u64_at(data, at) == n,
{
    spans();
    le_reads_back(n as nat, 8);
}

pub proof fn u32_reads_back(data: Seq<u8>, at: int, n: u32)
    requires
        0 <= at,
        at + 4 <= data.len(),
        data.subrange(at, at + 4) == le32(n),
    ensures
        u32_at(data, at) == n,
{
    spans();
    le_reads_back(n as nat, 4);
}

/// Appends `n` as eight bytes, least significant first.
pub fn put_u64_le(out: &mut Vec<u8>, n: u64)
    ensures
        final(out)@ == old(out)@ + le64(n),
{
    let mut rest: u64 = n;
    let mut i: usize = 0;
    let ghost start = out@;
    assert(start + le(n as nat, 8) =~= out@ + le(n as nat, 8));
    while i < 8
        invariant
            i <= 8,
            start + le64(n) == out@ + le(rest as nat, (8 - i) as nat),
        decreases 8 - i,
    {
        let ghost was = out@;
        let ghost whole = rest;
        out.push((rest % 256) as u8);
        rest = rest / 256;
        i += 1;
        assert(out@ + le(rest as nat, (8 - i) as nat) =~= was + le(
            whole as nat,
            (9 - i) as nat,
        ));
    }
    assert(out@ + le(rest as nat, 0) =~= out@);
}

/// Appends `n` as four bytes, least significant first.
pub fn put_u32_le(out: &mut Vec<u8>, n: u32)
    ensures
        final(out)@ == old(out)@ + le32(n),
{
    let mut rest: u32 = n;
    let mut i: usize = 0;
    let ghost start = out@;
    while i < 4
        invariant
            i <= 4,
            start + le32(n) == out@ + le(rest as nat, (4 - i) as nat),
        decreases 4 - i,
    {
        let ghost was = out@;
        let ghost whole = rest;
        out.push((rest % 256) as u8);
        rest = rest / 256;
        i += 1;
        assert(out@ + le(rest as nat, (4 - i) as nat) =~= was + le(
            whole as nat,
            (5 - i) as nat,
        ));
    }
    assert(out@ + le(rest as nat, 0) =~= out@);
}

/// Appends `bytes`.
pub fn put_slice(out: &mut Vec<u8>, bytes: &[u8])
    ensures
        final(out)@ == old(out)@ + bytes@,
{
    let ghost start = out@;
    let mut i: usize = 0;
    assert(start + bytes@.take(0) =~= start);
    while i < bytes.len()
        invariant
            i <= bytes.len(),
            out@ == start + bytes@.take(i as int),
        decreases bytes.len() - i,
    {
        out.push(bytes[i]);
        assert(out@ =~= start + bytes@.take(i + 1));
        i += 1;
    }
    assert(bytes@.take(i as int) =~= bytes@);
}

/// The eight-byte number at `at`.
pub fn get_u64_le(data: &[u8], at: usize) -> (n: u64)
    requires
        at + 8 <= data@.len(),
    ensures
        n == u64_at(data@, at as int),
{
    let ghost bytes = data@.subrange(at as int, at + 8);
    let len: usize = data.len();
    let mut n: u64 = 0;
    let mut i: usize = 8;
    proof {
        spans();
        assert(bytes.skip(8) =~= Seq::empty());
    }
    while i > 0
        invariant
            i <= 8,
            at + 8 <= len,
            len == data@.len(),
            bytes == data@.subrange(at as int, at + 8),
            n == un_le(bytes.skip(i as int)),
        decreases i,
    {
        i -= 1;
        proof {
            let tail = bytes.skip(i as int);
            assert(tail.skip(1) =~= bytes.skip(i + 1));
            assert(tail[0] == data@[at + i]);
            un_le_fits(tail);
            span_grows(tail.len(), 8);
            spans();
        }
        n = n * 256 + data[at + i] as u64;
    }
    assert(bytes.skip(0) =~= bytes);
    n
}

/// The four-byte number at `at`.
pub fn get_u32_le(data: &[u8], at: usize) -> (n: u32)
    requires
        at + 4 <= data@.len(),
    ensures
        n == u32_at(data@, at as int),
{
    let ghost bytes = data@.subrange(at as int, at + 4);
    let len: usize = data.len();
    let mut n: u32 = 0;
    let mut i: usize = 4;
    proof {
        spans();
        assert(bytes.skip(4) =~= Seq::empty());
    }
    while i > 0
        invariant
            i <= 4,
            at + 4 <= len,
            len == data@.len(),
            bytes == data@.subrange(at as int, at + 4),
            n == un_le(bytes.skip(i as int)),
        decreases i,
    {
        i -= 1;
        proof {
            let tail = bytes.skip(i as int);
            assert(tail.skip(1) =~= bytes.skip(i + 1));
            assert(tail[0] == data@[at + i]);
            un_le_fits(tail);
            span_grows(tail.len(), 4);
            spans();
        }
        n = n * 256 + data[at + i] as u32;
    }
    assert(bytes.skip(0) =~= bytes);
    n
}

proof fn span_grows(a: nat, b: nat)
    requires
        a <= b,
    ensures
        span(a) <= span(b),
    decreases b,
{
    if a < b {
        span_grows(a, (b - 1) as nat);
    }
}

// --- variable-width integers ------------------------------------------------

/// `v` in base 128, least significant digit first, every digit but the last
/// marked by its high bit (LEB128).
pub open spec fn varint(v: nat) -> Seq<u8>
    decreases v,
{
    if v < 128 {
        seq![v as u8]
    } else {
        seq![(v % 128 + 128) as u8] + varint(v / 128)
    }
}

/// The number whose base-128 digits are the low seven bits of `s`.
pub open spec fn varint_value(s: Seq<u8>) -> nat
    decreases s.len(),
{
    if s.len() == 0 {
        0
    } else {
        (s[0] % 128) as nat + 128 * varint_value(s.skip(1))
    }
}

/// How many bytes the variable-width integer at the front of `s` takes; `None`
/// where `s` ends inside it or its first `limit` bytes all continue it.
pub open spec fn varint_len(s: Seq<u8>, limit: nat) -> Option<nat>
    decreases limit,
{
    if s.len() == 0 || limit == 0 {
        None
    } else if s[0] < 128 {
        Some(1)
    } else {
        match varint_len(s.skip(1), (limit - 1) as nat) {
            Some(n) => Some(n + 1),
            None => None,
        }
    }
}

/// A variable-width integer is at most this long.
pub const MAX_VARINT: usize = 10;

/// The variable-width integer at `at` and the offset past it. Bits past the
/// sixty-fourth are dropped.
pub open spec fn varint_at(data: Seq<u8>, at: int) -> Option<(u64, int)> {
    if at < 0 || at > data.len() {
        None
    } else {
        match varint_len(data.skip(at), MAX_VARINT as nat) {
            Some(n) => Some(
                (
                    (varint_value(data.subrange(at, at + n)) % 0x1_0000_0000_0000_0000) as u64,
                    at + n,
                ),
            ),
            None => None,
        }
    }
}

/// Why bytes were not read as what they should have been.
#[derive(Debug, Clone, Copy, PartialEq, Eq, Structural)]
pub enum WireError {
    /// A variable-width integer runs past the end of the payload.
    Truncated,
    /// A variable-width integer is longer than 64 bits.
    Overlong,
}

/// Digits of `v`: at most ten of them for a 64-bit number.
pub proof fn varint_digits(v: nat, limit: nat)
    requires
        v < pow128(limit),
    ensures
        1 <= varint(v).len() <= limit || limit == 0,
        varint_value(varint(v)) == v,
    decreases limit,
{
    reveal_with_fuel(pow128, 2);
    assert(varint_value(Seq::<u8>::empty()) == 0);
    if limit > 0 {
        if v >= 128 {
            let rest = (limit - 1) as nat;
            assert(v / 128 < pow128(rest)) by {
                assert(v < 128 * pow128(rest));
            }
            varint_digits(v / 128, rest);
            if rest == 0 {
                assert(v < 128);
            }
            assert(varint(v).skip(1) =~= varint(v / 128));
        } else {
            assert(varint(v).skip(1) =~= Seq::empty());
        }
    } else {
        assert(v == 0);
        assert(varint(v).skip(1) =~= Seq::empty());
    }
}

/// `128` to the power `n`.
pub open spec fn pow128(n: nat) -> nat
    decreases n,
{
    if n == 0 {
        1
    } else {
        128 * pow128((n - 1) as nat)
    }
}

proof fn pow128_fits(n: nat)
    requires
        n < 10,
    ensures
        1 <= pow128(n) <= 0x8000_0000_0000_0000,
{
    reveal_with_fuel(pow128, 11);
    assert(n == 0 || n == 1 || n == 2 || n == 3 || n == 4 || n == 5 || n == 6 || n == 7 || n == 8
        || n == 9);
}

proof fn pow128_covers_u64()
    ensures
        pow128(10) > u64::MAX,
{
    reveal_with_fuel(pow128, 11);
}

proof fn varint_framing(v: nat, rest: Seq<u8>, limit: nat)
    requires
        v < pow128(limit),
        limit > 0,
    ensures
        varint_len(varint(v) + rest, limit) == Some(varint(v).len()),
    decreases limit,
{
    reveal_with_fuel(pow128, 2);
    let s = varint(v) + rest;
    if v >= 128 {
        let less = (limit - 1) as nat;
        assert(v / 128 < pow128(less)) by {
            assert(v < 128 * pow128(less));
        }
        if less == 0 {
            assert(v < 128);
        }
        varint_framing(v / 128, rest, less);
        assert(s.skip(1) =~= varint(v / 128) + rest);
    }
}

/// **A variable-width integer reads back**: written anywhere in a payload, it
/// is read there, and reading ends where it ends.
pub proof fn varint_reads_back(before: Seq<u8>, v: u64, rest: Seq<u8>)
    ensures
        varint_at(before + varint(v as nat) + rest, before.len() as int) == Some(
            (v, (before.len() + varint(v as nat).len()) as int),
        ),
{
    pow128_covers_u64();
    let w = varint(v as nat);
    let data = before + w + rest;
    let at = before.len() as int;
    assert(data.skip(at) =~= w + rest);
    varint_framing(v as nat, rest, 10);
    varint_digits(v as nat, 10);
    assert(data.subrange(at, at + w.len()) =~= w);
}

/// Appends `v` as LEB128.
pub fn put_varint(buf: &mut Vec<u8>, v: u64)
    ensures
        final(buf)@ == old(buf)@ + varint(v as nat),
{
    let ghost start = buf@;
    let mut rest: u64 = v;
    while rest >= 128
        invariant
            start + varint(v as nat) == buf@ + varint(rest as nat),
        decreases rest,
    {
        let ghost was = buf@;
        let ghost whole = rest;
        buf.push((rest % 128 + 128) as u8);
        rest = rest / 128;
        assert(buf@ + varint(rest as nat) =~= was + varint(whole as nat));
    }
    buf.push(rest as u8);
    assert(buf@ =~= start + varint(v as nat));
}

/// Reads a LEB128 value starting at `at`, returning it and the next offset.
/// Bounded by ten bytes so a corrupt payload cannot run away.
pub fn get_varint(data: &[u8], at: usize) -> (r: Result<(u64, usize), WireError>)
    ensures
        match r {
            Ok((v, next)) => varint_at(data@, at as int) == Some((v, next as int)),
            Err(_) => varint_at(data@, at as int) is None,
        },
        r matches Ok((_, next)) ==> at < next <= data@.len(),
        r == Err::<(u64, usize), WireError>(WireError::Overlong) <==> at + MAX_VARINT
            <= data@.len() && varint_at(data@, at as int) is None,
{
    let len: usize = data.len();
    if at > len {
        return Err(WireError::Truncated);
    }
    let ghost s = data@.skip(at as int);
    let mut v: u128 = 0;
    let mut scale: u128 = 1;
    let mut n: usize = 0;
    proof {
        reveal_with_fuel(pow128, 2);
        assert(s.skip(0) =~= s);
        assert(s.take(0) =~= Seq::empty());
    }
    while n < MAX_VARINT
        invariant
            n <= MAX_VARINT,
            at + n <= len,
            len == data@.len(),
            s == data@.skip(at as int),
            scale == pow128(n as nat),
            v == varint_value(s.take(n as int)),
            v < pow128(n as nat),
            forall|j: int| 0 <= j < n ==> #[trigger] s[j] >= 128,
        decreases MAX_VARINT - n,
    {
        if at + n >= len {
            proof {
                all_continue(s, n as nat, MAX_VARINT as nat);
            }
            return Err(WireError::Truncated);
        }
        let b: u8 = data[at + n];
        let digit: u128 = (b % 128) as u128;
        proof {
            assert(b == s[n as int]);
            value_push(s, n as int);
            pow128_fits(n as nat);
            assert(pow128((n + 1) as nat) == 128 * pow128(n as nat));
            assert(digit * scale <= 127 * scale) by (nonlinear_arith)
                requires
                    digit <= 127,
                    scale >= 0,
            ;
            assert(scale * digit == digit * scale) by (nonlinear_arith);
        }
        v = v + digit * scale;
        n += 1;
        if b < 128 {
            proof {
                ends_here(s, (n - 1) as nat, MAX_VARINT as nat);
                assert(data@.subrange(at as int, at + n) =~= s.take(n as int));
            }
            let low: u64 = (v % 0x1_0000_0000_0000_0000) as u64;
            return Ok((low, at + n));
        }
        scale = scale * 128;
    }
    proof {
        all_continue(s, n as nat, MAX_VARINT as nat);
    }
    Err(WireError::Overlong)
}

proof fn value_push(s: Seq<u8>, n: int)
    requires
        0 <= n < s.len(),
    ensures
        varint_value(s.take(n + 1)) == varint_value(s.take(n)) + pow128(n as nat) * (s[n] % 128),
    decreases n,
{
    if n == 0 {
        assert(s.take(1).skip(1) =~= Seq::empty());
        assert(s.take(0) =~= Seq::empty());
        reveal_with_fuel(pow128, 2);
    } else {
        let t = s.skip(1);
        value_push(t, n - 1);
        assert(s.take(n + 1).skip(1) =~= t.take(n));
        assert(s.take(n).skip(1) =~= t.take(n - 1));
        assert(t[n - 1] == s[n]);
        let p = pow128((n - 1) as nat) as int;
        let d = (s[n] % 128) as int;
        assert(128 * (p * d) == (128 * p) * d) by (nonlinear_arith);
    }
}

proof fn all_continue(s: Seq<u8>, n: nat, limit: nat)
    requires
        n <= s.len(),
        n <= limit,
        forall|j: int| 0 <= j < n ==> #[trigger] s[j] >= 128,
        n == s.len() || n == limit,
    ensures
        varint_len(s, limit) is None,
    decreases n,
{
    if n > 0 {
        let t = s.skip(1);
        assert forall|j: int| 0 <= j < n - 1 implies #[trigger] t[j] >= 128 by {
            assert(s[j + 1] >= 128);
        }
        assert(s[0] >= 128);
        all_continue(t, (n - 1) as nat, (limit - 1) as nat);
    }
}

proof fn ends_here(s: Seq<u8>, n: nat, limit: nat)
    requires
        n < s.len(),
        n < limit,
        forall|j: int| 0 <= j < n ==> #[trigger] s[j] >= 128,
        s[n as int] < 128,
    ensures
        varint_len(s, limit) == Some(n + 1),
    decreases n,
{
    if n > 0 {
        let t = s.skip(1);
        assert forall|j: int| 0 <= j < n - 1 implies #[trigger] t[j] >= 128 by {
            assert(s[j + 1] >= 128);
        }
        assert(s[0] >= 128);
        ends_here(t, (n - 1) as nat, (limit - 1) as nat);
    }
}

/// **Fixed-width numbers are little-endian**: byte `i` counts `256` to the power
/// `i`, written and read.
pub proof fn numbers_are_little_endian(n: u64, m: u32, data: Seq<u8>, at: int)
    requires
        0 <= at,
        at + 8 <= data.len(),
    ensures
        le64(n).len() == 8,
        n == le64(n)[0] + 0x100 * le64(n)[1] + 0x1_0000 * le64(n)[2] + 0x100_0000 * le64(n)[3]
            + 0x1_0000_0000 * le64(n)[4] + 0x100_0000_0000 * le64(n)[5] + 0x1_0000_0000_0000
            * le64(n)[6] + 0x100_0000_0000_0000 * le64(n)[7],
        le32(m).len() == 4,
        m == le32(m)[0] + 0x100 * le32(m)[1] + 0x1_0000 * le32(m)[2] + 0x100_0000 * le32(m)[3],
        u64_at(data, at) == data[at] + 0x100 * data[at + 1] + 0x1_0000 * data[at + 2] + 0x100_0000
            * data[at + 3] + 0x1_0000_0000 * data[at + 4] + 0x100_0000_0000 * data[at + 5]
            + 0x1_0000_0000_0000 * data[at + 6] + 0x100_0000_0000_0000 * data[at + 7],
        u32_at(data, at) == data[at] + 0x100 * data[at + 1] + 0x1_0000 * data[at + 2] + 0x100_0000
            * data[at + 3],
{
    spans();
    le_len(n as nat, 8);
    le_len(m as nat, 4);
    le_reads_back(n as nat, 8);
    le_reads_back(m as nat, 4);
    eight_bytes(le64(n));
    four_bytes(le32(m));
    let s = data.subrange(at, at + 8);
    let t = data.subrange(at, at + 4);
    eight_bytes(s);
    four_bytes(t);
    un_le_fits(s);
    un_le_fits(t);
    assert(s[0] == data[at] && s[1] == data[at + 1] && s[2] == data[at + 2] && s[3] == data[at + 3]
        && s[4] == data[at + 4] && s[5] == data[at + 5] && s[6] == data[at + 6] && s[7] == data[at
        + 7]);
    assert(t[0] == data[at] && t[1] == data[at + 1] && t[2] == data[at + 2] && t[3] == data[at
        + 3]);
}

proof fn four_bytes(s: Seq<u8>)
    requires
        s.len() == 4,
    ensures
        un_le(s) == s[0] + 0x100 * s[1] + 0x1_0000 * s[2] + 0x100_0000 * s[3],
{
    let a = s.skip(1);
    let b = a.skip(1);
    let c = b.skip(1);
    let d = c.skip(1);
    assert(a[0] == s[1] && b[0] == s[2] && c[0] == s[3]);
    assert(un_le(d) == 0);
    assert(un_le(c) == s[3]);
    assert(un_le(b) == s[2] + 256 * un_le(c));
    assert(un_le(a) == s[1] + 256 * un_le(b));
}

proof fn eight_bytes(s: Seq<u8>)
    requires
        s.len() == 8,
    ensures
        un_le(s) == s[0] + 0x100 * s[1] + 0x1_0000 * s[2] + 0x100_0000 * s[3] + 0x1_0000_0000
            * s[4] + 0x100_0000_0000 * s[5] + 0x1_0000_0000_0000 * s[6] + 0x100_0000_0000_0000
            * s[7],
{
    let a = s.skip(1);
    let b = a.skip(1);
    let c = b.skip(1);
    let d = c.skip(1);
    four_bytes(d);
    assert(a[0] == s[1] && b[0] == s[2] && c[0] == s[3] && d[0] == s[4] && d[1] == s[5] && d[2]
        == s[6] && d[3] == s[7]);
    assert(un_le(c) == s[3] + 256 * un_le(d));
    assert(un_le(b) == s[2] + 256 * un_le(c));
    assert(un_le(a) == s[1] + 256 * un_le(b));
}

/// **Variable-width numbers are base 128, least digit first**, a digit that others
/// follow marked by its high bit, and none is longer than it needs.
pub proof fn varints_are_base_128(v: nat)
    ensures
        v < 128 ==> varint(v).len() == 1 && varint(v)[0] == v,
        v >= 128 ==> varint(v).len() == varint(v / 128).len() + 1,
        v >= 128 ==> varint(v)[0] == 128 + v % 128,
        v >= 128 ==> varint(v).skip(1) == varint(v / 128),
{
    if v >= 128 {
        assert(varint(v).skip(1) =~= varint(v / 128));
    }
}

} // verus!
