//! Text that is part of the formats: decimal numbers, names and comparisons.

use vstd::prelude::*;
use vstd::string::*;

verus! {

/// The digit `d` as a character.
pub open spec fn digit(d: nat) -> char {
    ((48 + d) as u8) as char
}

/// `n` in decimal, without leading zeros.
pub open spec fn decimal(n: nat) -> Seq<char>
    decreases n,
{
    if n < 10 {
        seq![digit(n)]
    } else {
        decimal(n / 10).push(digit(n % 10))
    }
}

/// Whether `c` is a decimal digit.
pub open spec fn is_digit(c: char) -> bool {
    '0' <= c && c <= '9'
}

/// Whether `s` is made of digits, at least one.
pub open spec fn all_digits(s: Seq<char>) -> bool {
    s.len() > 0 && forall|i: int| 0 <= i < s.len() ==> is_digit(#[trigger] s[i])
}

/// The number that the digits `s` write.
pub open spec fn digits_value(s: Seq<char>) -> nat
    decreases s.len(),
{
    if s.len() == 0 {
        0
    } else {
        10 * digits_value(s.drop_last()) + (s.last() as u32 - 48) as nat
    }
}

/// `s` without one leading plus sign.
pub open spec fn unsigned(s: Seq<char>) -> Seq<char> {
    if s.len() > 0 && s[0] == '+' {
        s.skip(1)
    } else {
        s
    }
}

/// The number no larger than `max` that `s` writes in decimal, with an optional
/// plus sign.
pub open spec fn parsed(s: Seq<char>, max: nat) -> Option<nat> {
    let d = unsigned(s);
    if all_digits(d) && digits_value(d) <= max {
        Some(digits_value(d))
    } else {
        None
    }
}

/// `s` between quotes, with what needs escaping escaped.
pub uninterp spec fn quoted(s: Seq<char>) -> Seq<char>;

/// `str`'s `Debug` formatting: the text quoted and escaped.
#[verifier::external_body]
fn debug_text(s: &str) -> (t: String)
    ensures
        t@ == quoted(s@),
{
    format!("{:?}", s)
}

/// `s` between quotes.
pub fn quote(s: &str) -> (t: String)
    ensures
        t@ == quoted(s@),
{
    debug_text(s)
}

/// Whether two texts are the same.
pub fn same_text(a: &str, b: &str) -> (r: bool)
    ensures
        r == (a@ == b@),
{
    a.to_owned() == b.to_owned()
}

/// The digit `d` as text.
fn digit_text(d: u64) -> (s: &'static str)
    requires
        d < 10,
    ensures
        s@ == seq![digit(d as nat)],
{
    proof {
        reveal_strlit("0");
        reveal_strlit("1");
        reveal_strlit("2");
        reveal_strlit("3");
        reveal_strlit("4");
        reveal_strlit("5");
        reveal_strlit("6");
        reveal_strlit("7");
        reveal_strlit("8");
        reveal_strlit("9");
    }
    let s: &'static str = if d == 0 {
        "0"
    } else if d == 1 {
        "1"
    } else if d == 2 {
        "2"
    } else if d == 3 {
        "3"
    } else if d == 4 {
        "4"
    } else if d == 5 {
        "5"
    } else if d == 6 {
        "6"
    } else if d == 7 {
        "7"
    } else if d == 8 {
        "8"
    } else {
        "9"
    };
    assert(s@ =~= seq![digit(d as nat)]);
    s
}

/// Appends `n` in decimal.
pub fn push_decimal(out: &mut String, n: u64)
    ensures
        final(out)@ == old(out)@ + decimal(n as nat),
    decreases n,
{
    let ghost before = out@;
    if n >= 10 {
        push_decimal(out, n / 10);
    }
    out.append(digit_text(n % 10));
    assert(out@ =~= before + decimal(n as nat));
}

/// `n` in decimal.
pub fn decimal_text(n: u64) -> (s: String)
    ensures
        s@ == decimal(n as nat),
{
    let mut s = String::new();
    push_decimal(&mut s, n);
    assert(s@ =~= decimal(n as nat));
    s
}

/// The number that `s` writes, where it is no larger than `max`.
pub fn parse_decimal(s: &str, max: u64) -> (r: Option<u64>)
    ensures
        match r {
            Some(n) => parsed(s@, max as nat) == Some(n as nat),
            None => parsed(s@, max as nat) is None,
        },
{
    let len: usize = s.unicode_len();
    let start: usize = if len > 0 && s.get_char(0) == '+' {
        1
    } else {
        0
    };
    let ghost d = unsigned(s@);
    assert(d =~= s@.skip(start as int));
    if start == len {
        return None;
    }
    let mut value: u64 = 0;
    let mut i: usize = start;
    while i < len
        invariant
            start <= i <= len,
            len == s@.len(),
            d == s@.skip(start as int),
            d.len() == len - start,
            forall|j: int| 0 <= j < i - start ==> is_digit(#[trigger] d[j]),
            value == digits_value(d.take(i - start)),
            value <= max,
            d == unsigned(s@),
            d.len() > 0,
        decreases len - i,
    {
        let c: char = s.get_char(i);
        let ghost k = i - start;
        assert(c == d[k]);
        if !('0' <= c && c <= '9') {
            assert(!all_digits(d));
            return None;
        }
        let v: u64 = (c as u32 - 48) as u64;
        assert(d.take(k + 1).drop_last() =~= d.take(k));
        let next: u128 = 10 * (value as u128) + v as u128;
        if next > max as u128 {
            proof {
                digits_value_grows(d, k + 1);
            }
            return None;
        }
        value = next as u64;
        i += 1;
    }
    assert(d.take(d.len() as int) =~= d);
    Some(value)
}

/// More digits never write a smaller number.
proof fn digits_value_grows(d: Seq<char>, k: int)
    requires
        0 <= k <= d.len(),
    ensures
        digits_value(d.take(k)) <= digits_value(d),
    decreases d.len(),
{
    if k == d.len() {
        assert(d.take(k) =~= d);
    } else {
        digits_value_grows(d.drop_last(), k);
        assert(d.drop_last().take(k) =~= d.take(k));
    }
}

/// **A number reads back** from its decimal text.
pub proof fn decimal_reads_back(n: nat, max: nat)
    requires
        n <= max,
    ensures
        parsed(decimal(n), max) == Some(n),
{
    decimal_digits(n);
    assert(is_digit(decimal(n)[0]));
}

pub proof fn decimal_digits(n: nat)
    ensures
        all_digits(decimal(n)),
        digits_value(decimal(n)) == n,
    decreases n,
{
    if n < 10 {
        assert(decimal(n).drop_last() =~= Seq::empty());
        reveal_with_fuel(digits_value, 2);
    } else {
        decimal_digits(n / 10);
        assert(decimal(n).drop_last() =~= decimal(n / 10));
    }
}

/// Different numbers have different texts.
pub proof fn decimal_is_injective(a: nat, b: nat)
    requires
        decimal(a) == decimal(b),
    ensures
        a == b,
{
    decimal_digits(a);
    decimal_digits(b);
}

/// **A number is written digit by digit**: one digit as itself, and ten times a
/// number plus a digit as the number with that digit behind it.
pub proof fn decimal_is_positional(n: nat, d: nat)
    requires
        d < 10,
    ensures
        decimal(d).len() == 1,
        decimal(d)[0] as u32 == '0' as u32 + d,
        n > 0 ==> decimal(10 * n + d).len() == decimal(n).len() + 1,
        n > 0 ==> decimal(10 * n + d).drop_last() == decimal(n),
        n > 0 ==> decimal(10 * n + d).last() as u32 == '0' as u32 + d,
{
    if n > 0 {
        assert((10 * n + d) / 10 == n);
        assert((10 * n + d) % 10 == d);
        assert(decimal(10 * n + d).drop_last() =~= decimal(n));
    }
}

/// **A number is read digit by digit**: one digit as itself; a further digit
/// makes ten times the number plus the digit, no larger than `max`; a single
/// plus sign in front changes nothing; and no text without a digit, or with
/// anything else in it, is a number.
pub proof fn a_number_is_read_digit_by_digit(s: Seq<char>, c: char, max: nat)
    requires
        s.len() > 0,
        s != seq!['+'],
    ensures
        parsed(Seq::empty(), max) is None,
        parsed(seq!['+'], max) is None,
        parsed(seq!['+', c], max) == if c == '+' {
            None
        } else {
            parsed(seq![c], max)
        },
        parsed(seq![c], max) == if '0' <= c <= '9' && c as u32 - '0' as u32 <= max {
            Some((c as u32 - '0' as u32) as nat)
        } else {
            None
        },
        parsed(s.push(c), max) == match parsed(s, max) {
            Some(v) => if '0' <= c <= '9' && 10 * v + (c as u32 - '0' as u32) <= max {
                Some((10 * v + (c as u32 - '0' as u32)) as nat)
            } else {
                None
            },
            None => None,
        },
{
    reveal_with_fuel(digits_value, 2);
    assert(unsigned(seq!['+']) =~= Seq::empty());
    let one = seq![c];
    assert(one.drop_last() =~= Seq::empty());
    if c == '+' {
        assert(unsigned(one) =~= Seq::empty());
    } else {
        assert(all_digits(one) <==> is_digit(one[0]));
    }
    let signed = seq!['+', c];
    assert(unsigned(signed) =~= one);
    assert(all_digits(one) <==> is_digit(one[0]));
    let d = unsigned(s);
    let e = unsigned(s.push(c));
    assert(d.len() > 0) by {
        if s.len() == 1 && s[0] == '+' {
            assert(s =~= seq!['+']);
        }
    }
    assert(e =~= d.push(c));
    assert(e.drop_last() =~= d);
    assert(e.last() == c);
    if all_digits(e) {
        assert forall|i: int| 0 <= i < d.len() implies is_digit(#[trigger] d[i]) by {
            assert(is_digit(e[i]));
        }
        assert(is_digit(e[d.len() as int]));
    }
    if all_digits(d) && is_digit(c) {
        assert forall|i: int| 0 <= i < e.len() implies is_digit(#[trigger] e[i]) by {
            if i < d.len() {
                assert(is_digit(d[i]));
            }
        }
    }
}

/// **A number ends where its digits do**: two texts that begin with a number and go
/// on with something else are the same only where both parts are.
#[verifier::rlimit(50)]
pub proof fn a_number_ends_where_its_digits_do(a: nat, b: nat, x: Seq<char>, y: Seq<char>)
    requires
        x.len() > 0,
        y.len() > 0,
        !is_digit(x[0]),
        !is_digit(y[0]),
        decimal(a) + x == decimal(b) + y,
    ensures
        a == b,
        x == y,
{
    let s = decimal(a) + x;
    let m = decimal(a).len() as int;
    let n = decimal(b).len() as int;
    decimal_digits(a);
    decimal_digits(b);
    if m < n {
        assert(s[m] == x[0]);
        assert((decimal(b) + y)[m] == decimal(b)[m]);
        assert(is_digit(decimal(b)[m]));
    } else if n < m {
        assert((decimal(b) + y)[n] == y[0]);
        assert(s[n] == decimal(a)[n]);
        assert(is_digit(decimal(a)[n]));
    }
    assert(decimal(a) =~= s.take(m));
    assert(decimal(b) =~= (decimal(b) + y).take(n));
    assert(x =~= s.skip(m));
    assert(y =~= (decimal(b) + y).skip(n));
    decimal_is_injective(a, b);
}

proof fn the_first_number_is_told(
    pre: Seq<char>,
    a: nat,
    b: nat,
    s: Seq<char>,
    x: Seq<char>,
    y: Seq<char>,
)
    requires
        s.len() > 0,
        !is_digit(s[0]),
        pre + decimal(a) + s + x == pre + decimal(b) + s + y,
    ensures
        a == b,
        x == y,
{
    let v = pre + decimal(a) + s + x;
    let w = pre + decimal(b) + s + y;
    let k = pre.len() as int;
    assert(decimal(a) + (s + x) =~= v.skip(k));
    assert(decimal(b) + (s + y) =~= w.skip(k));
    a_number_ends_where_its_digits_do(a, b, s + x, s + y);
    assert(x =~= (s + x).skip(s.len() as int));
    assert(y =~= (s + y).skip(s.len() as int));
}

proof fn regrouped(
    p: Seq<char>,
    d: Seq<char>,
    s: Seq<char>,
    x: Seq<char>,
    t: Seq<char>,
    y: Seq<char>,
    u: Seq<char>,
)
    ensures
        p + d + s + Seq::empty() == p + d + s,
        p + d + s + x + t == p + d + s + (x + t),
        p + d + s + x + t + y + u == p + d + s + (x + t + (y + u)),
        Seq::empty() + x + t + (y + u) == x + t + (y + u),
{
    assert(p + d + s + Seq::empty() =~= p + d + s);
    assert(p + d + s + x + t =~= p + d + s + (x + t));
    assert(p + d + s + x + t + y + u =~= p + d + s + (x + t + (y + u)));
    assert(Seq::empty() + x + t + (y + u) =~= x + t + (y + u));
}

proof fn two_numbers_are_told(
    pre: Seq<char>,
    a: (nat, nat),
    b: (nat, nat),
    s: Seq<char>,
    t: Seq<char>,
)
    requires
        s.len() > 0 && !is_digit(s[0]),
        t.len() > 0 && !is_digit(t[0]),
        pre + decimal(a.0) + s + (decimal(a.1) + t) == pre + decimal(b.0) + s + (decimal(b.1) + t),
    ensures
        a == b,
{
    the_first_number_is_told(pre, a.0, b.0, s, decimal(a.1) + t, decimal(b.1) + t);
    a_number_ends_where_its_digits_do(a.1, b.1, t, t);
}

proof fn three_numbers_are_told(
    pre: Seq<char>,
    a: (nat, nat, nat),
    b: (nat, nat, nat),
    s: Seq<char>,
    t: Seq<char>,
    u: Seq<char>,
)
    requires
        s.len() > 0 && !is_digit(s[0]),
        t.len() > 0 && !is_digit(t[0]),
        u.len() > 0 && !is_digit(u[0]),
        pre + decimal(a.0) + s + (decimal(a.1) + t + (decimal(a.2) + u)) == pre + decimal(b.0) + s
            + (decimal(b.1) + t + (decimal(b.2) + u)),
    ensures
        a == b,
{
    let x = decimal(a.1) + t + (decimal(a.2) + u);
    let y = decimal(b.1) + t + (decimal(b.2) + u);
    let no: Seq<char> = Seq::empty();
    the_first_number_is_told(pre, a.0, b.0, s, x, y);
    regrouped(no, no, no, decimal(a.1), t, decimal(a.2), u);
    regrouped(no, no, no, decimal(b.1), t, decimal(b.2), u);
    two_numbers_are_told(no, (a.1, a.2), (b.1, b.2), t, u);
}

/// **Numbers in a sentence are told apart by their places**: where each is followed
/// by something that is no digit, the sentence is the same only where each number
/// is.
#[verifier::rlimit(50)]
pub proof fn numbers_are_told_by_their_places(
    pre: Seq<char>,
    a: (nat, nat, nat),
    b: (nat, nat, nat),
    s: Seq<char>,
    t: Seq<char>,
    u: Seq<char>,
)
    requires
        s.len() > 0 && !is_digit(s[0]),
        t.len() > 0 && !is_digit(t[0]),
        u.len() > 0 && !is_digit(u[0]),
    ensures
        pre + decimal(a.0) + s == pre + decimal(b.0) + s <==> a.0 == b.0,
        pre + decimal(a.0) + s + decimal(a.1) + t == pre + decimal(b.0) + s + decimal(b.1) + t
            <==> a.0 == b.0 && a.1 == b.1,
        pre + decimal(a.0) + s + decimal(a.1) + t + decimal(a.2) + u == pre + decimal(b.0) + s
            + decimal(b.1) + t + decimal(b.2) + u <==> a == b,
{
    let v = pre + decimal(a.0) + s;
    let w = pre + decimal(b.0) + s;
    regrouped(pre, decimal(a.0), s, decimal(a.1), t, decimal(a.2), u);
    regrouped(pre, decimal(b.0), s, decimal(b.1), t, decimal(b.2), u);
    if v == w {
        the_first_number_is_told(pre, a.0, b.0, s, Seq::empty(), Seq::empty());
    }
    if v + decimal(a.1) + t == w + decimal(b.1) + t {
        two_numbers_are_told(pre, (a.0, a.1), (b.0, b.1), s, t);
    }
    if v + decimal(a.1) + t + decimal(a.2) + u == w + decimal(b.1) + t + decimal(b.2) + u {
        three_numbers_are_told(pre, a, b, s, t, u);
    }
}

/// `part` stands somewhere in `s`.
pub open spec fn says(s: Seq<char>, part: Seq<char>) -> bool {
    exists|i: int|
        0 <= i && i + part.len() <= s.len() && #[trigger] s.subrange(i, i + part.len()) == part
}

/// What is put between two texts is said by the whole.
pub proof fn said_between(s: Seq<char>, a: Seq<char>, part: Seq<char>, b: Seq<char>)
    requires
        s =~= a + part + b,
    ensures
        says(s, part),
{
    let i = a.len() as int;
    assert(s.subrange(i, i + part.len()) =~= part);
}

} // verus!
