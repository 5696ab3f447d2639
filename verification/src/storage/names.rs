//! Names of the objects and files that hold committed state.

use vstd::prelude::*;
use vstd::string::*;

use crate::text::{
    all_digits, decimal, decimal_digits, digit, digits_value, is_digit, parse_decimal, parsed,
    unsigned,
};

verus! {

/// Digits a sequence is padded to.
pub const SEQUENCE_DIGITS: usize = 12;

/// `n` zeros.
pub open spec fn zeros(n: nat) -> Seq<char> {
    Seq::new(n, |i: int| '0')
}

/// `n` in decimal, zero-padded to twelve digits.
pub open spec fn padded(n: nat) -> Seq<char> {
    let d = decimal(n);
    if d.len() < SEQUENCE_DIGITS {
        zeros((SEQUENCE_DIGITS - d.len()) as nat) + d
    } else {
        d
    }
}

/// Appends `n`, zero-padded to twelve digits.
pub fn push_padded(out: &mut String, n: u64)
    ensures
        final(out)@ == old(out)@ + padded(n as nat),
{
    let digits = crate::text::decimal_text(n);
    let len: usize = digits.as_str().unicode_len();
    let ghost before = out@;
    let mut i: usize = len;
    assert(out@ =~= before + zeros(0));
    while i < SEQUENCE_DIGITS
        invariant
            len <= i,
            len < SEQUENCE_DIGITS ==> i <= SEQUENCE_DIGITS,
            len >= SEQUENCE_DIGITS ==> i == len,
            out@ == before + zeros((i - len) as nat),
        decreases SEQUENCE_DIGITS - i,
    {
        proof {
            reveal_strlit("0");
        }
        out.append("0");
        i += 1;
        assert(out@ =~= before + zeros((i - len) as nat));
    }
    out.append(digits.as_str());
    assert(out@ =~= before + padded(n as nat));
}

/// `prefix`, the padded sequence, `suffix`.
pub open spec fn numbered(prefix: Seq<char>, n: nat, suffix: Seq<char>) -> Seq<char> {
    prefix + padded(n) + suffix
}

fn numbered_name(prefix: &str, n: u64, suffix: &str) -> (s: String)
    ensures
        s@ == numbered(prefix@, n as nat, suffix@),
{
    let mut s = String::from_str(prefix);
    push_padded(&mut s, n);
    s.append(suffix);
    assert(s@ =~= numbered(prefix@, n as nat, suffix@));
    s
}

/// The name of a snapshot's metadata object. Zero-padded so lexicographic
/// listing order is sequence order.
pub fn snapshot_name(sequence: u64) -> (s: String)
    ensures
        s@ == numbered("snap-"@, sequence as nat, ".json"@),
{
    numbered_name("snap-", sequence, ".json")
}

/// The name of a commit's Puffin sidecar.
pub fn sidecar_name(sequence: u64) -> (s: String)
    ensures
        s@ == numbered("dsu-"@, sequence as nat, ".puffin"@),
{
    numbered_name("dsu-", sequence, ".puffin")
}

/// The name of a layer cached from object storage.
pub fn cached_layer_name(sequence: u64) -> (s: String)
    ensures
        s@ == numbered("routing-layer-"@, sequence as nat, ".puffin"@),
{
    numbered_name("routing-layer-", sequence, ".puffin")
}

/// The name of a layer folded locally. Layer files accumulate, so each needs
/// its own name: the older ones are still mapped and still consulted.
pub fn folded_layer_name(worker: &str, sequence: u64, full: bool) -> (s: String)
    ensures
        s@ == numbered(
            "routing-"@ + worker@ + "-"@,
            sequence as nat,
            if full {
                "-base.puffin"@
            } else {
                "-delta.puffin"@
            },
        ),
{
    let mut prefix = String::from_str("routing-");
    prefix.append(worker);
    prefix.append("-");
    if full {
        numbered_name(prefix.as_str(), sequence, "-base.puffin")
    } else {
        numbered_name(prefix.as_str(), sequence, "-delta.puffin")
    }
}

/// The name of a commit's data file; `unique` tells retries apart.
pub fn data_file_name(sequence: u64, unique: &str) -> (s: String)
    ensures
        s@ == numbered("part-"@, sequence as nat, "-"@ + unique@ + ".parquet"@),
{
    let mut suffix = String::from_str("-");
    suffix.append(unique);
    suffix.append(".parquet");
    numbered_name("part-", sequence, suffix.as_str())
}

/// `s` starts with `prefix`.
pub open spec fn has_prefix(s: Seq<char>, prefix: Seq<char>) -> bool {
    prefix.len() <= s.len() && s.take(prefix.len() as int) == prefix
}

/// `s` ends with `suffix`.
pub open spec fn has_suffix(s: Seq<char>, suffix: Seq<char>) -> bool {
    suffix.len() <= s.len() && s.skip(s.len() - suffix.len()) == suffix
}

/// `s` without `prefix` in front.
pub fn strip_prefix<'a>(s: &'a str, prefix: &str) -> (r: Option<&'a str>)
    ensures
        match r {
            Some(rest) => has_prefix(s@, prefix@) && rest@ == s@.skip(prefix@.len() as int),
            None => !has_prefix(s@, prefix@),
        },
{
    let n: usize = s.unicode_len();
    let k: usize = prefix.unicode_len();
    if k > n {
        return None;
    }
    let head = s.substring_char(0, k);
    assert(head@ =~= s@.take(k as int));
    if !crate::text::same_text(head, prefix) {
        return None;
    }
    let rest = s.substring_char(k, n);
    assert(rest@ =~= s@.skip(k as int));
    Some(rest)
}

/// `s` without `suffix` at the end.
pub fn strip_suffix<'a>(s: &'a str, suffix: &str) -> (r: Option<&'a str>)
    ensures
        match r {
            Some(rest) => has_suffix(s@, suffix@) && rest@ == s@.take(s@.len() - suffix@.len()),
            None => !has_suffix(s@, suffix@),
        },
{
    let n: usize = s.unicode_len();
    let k: usize = suffix.unicode_len();
    if k > n {
        return None;
    }
    let tail = s.substring_char(n - k, n);
    assert(tail@ =~= s@.skip(n - k));
    if !crate::text::same_text(tail, suffix) {
        return None;
    }
    let rest = s.substring_char(0, n - k);
    assert(rest@ =~= s@.take(n - k));
    Some(rest)
}

/// The sequence that the name of a metadata object says.
pub open spec fn named_sequence(name: Seq<char>) -> Option<nat> {
    let rest = name.skip("snap-"@.len() as int);
    if has_prefix(name, "snap-"@) && has_suffix(rest, ".json"@) {
        parsed(rest.take(rest.len() - ".json"@.len()), u64::MAX as nat)
    } else {
        None
    }
}

/// The sequence that the name of a metadata object says; `None` for any other
/// name.
pub fn sequence_of(name: &str) -> (r: Option<u64>)
    ensures
        match r {
            Some(n) => named_sequence(name@) == Some(n as nat),
            None => named_sequence(name@) is None,
        },
{
    match strip_prefix(name, "snap-") {
        None => None,
        Some(rest) => match strip_suffix(rest, ".json") {
            None => None,
            Some(digits) => parse_decimal(digits, u64::MAX),
        },
    }
}

/// The sequences that `names` say, ascending.
pub open spec fn sequences_in(names: Seq<Seq<char>>) -> Seq<u64>
    decreases names.len(),
{
    if names.len() == 0 {
        Seq::empty()
    } else {
        match named_sequence(names.last()) {
            Some(n) => placed(sequences_in(names.drop_last()), n as u64),
            None => sequences_in(names.drop_last()),
        }
    }
}

/// `v` with `x` after every number that is not larger.
pub open spec fn placed(v: Seq<u64>, x: u64) -> Seq<u64>
    decreases v.len(),
{
    if v.len() == 0 || v.last() <= x {
        v.push(x)
    } else {
        placed(v.drop_last(), x).push(v.last())
    }
}

pub open spec fn text_views(names: Seq<String>) -> Seq<Seq<char>> {
    names.map_values(|s: String| s@)
}

/// Every committed sequence that a listing names, ascending.
pub fn sequences_of(names: &Vec<String>) -> (v: Vec<u64>)
    ensures
        v@ == sequences_in(text_views(names@)),
        forall|i: int, j: int| 0 <= i <= j < v@.len() ==> #[trigger] v@[i] <= #[trigger] v@[j],
{
    let ghost all = text_views(names@);
    let mut v: Vec<u64> = Vec::new();
    let mut i: usize = 0;
    assert(all.take(0) =~= Seq::empty());
    while i < names.len()
        invariant
            i <= names.len(),
            all == text_views(names@),
            v@ == sequences_in(all.take(i as int)),
        decreases names.len() - i,
    {
        assert(all.take(i + 1).drop_last() =~= all.take(i as int));
        assert(all.take(i + 1).last() == names@[i as int]@);
        match sequence_of(names[i].as_str()) {
            None => {},
            Some(n) => place(&mut v, n),
        }
        i += 1;
    }
    assert(all.take(i as int) =~= all);
    proof {
        listings_are_sorted(all);
    }
    v
}

fn place(v: &mut Vec<u64>, x: u64)
    ensures
        final(v)@ == placed(old(v)@, x),
{
    let ghost before = v@;
    let mut at: usize = v.len();
    assert(before.take(at as int) =~= before);
    assert(placed(before.take(at as int), x) + before.skip(at as int) =~= placed(before, x));
    while at > 0 && v[at - 1] > x
        invariant
            at <= v.len(),
            v@ == before,
            placed(before.take(at as int), x) + before.skip(at as int) == placed(before, x),
        decreases at,
    {
        proof {
            let here = before.take(at as int);
            assert(here.drop_last() =~= before.take(at - 1));
            assert(placed(here, x) == placed(before.take(at - 1), x).push(here.last()));
            assert(before.skip(at - 1) =~= seq![here.last()] + before.skip(at as int));
            assert(placed(here, x) + before.skip(at as int) =~= placed(before.take(at - 1), x)
                + before.skip(at - 1));
        }
        at = at - 1;
    }
    assert(placed(before.take(at as int), x) == before.take(at as int).push(x));
    v.insert(at, x);
    assert(v@ =~= before.take(at as int).push(x) + before.skip(at as int));
}

// --- laws ------------------------------------------------------------------------------------------

proof fn zeros_write_nothing(k: nat, d: Seq<char>)
    requires
        all_digits(d),
    ensures
        all_digits(zeros(k) + d),
        digits_value(zeros(k) + d) == digits_value(d),
    decreases d.len(),
{
    let s = zeros(k) + d;
    assert forall|i: int| 0 <= i < s.len() implies is_digit(#[trigger] s[i]) by {
        if i >= k {
            assert(is_digit(d[i - k]));
        }
    }
    let front = d.drop_last();
    assert(s.drop_last() =~= zeros(k) + front);
    assert(s.last() == d.last());
    if front.len() == 0 {
        assert(zeros(k) + front =~= zeros(k));
        zeros_are_zero(k);
        assert(digits_value(front) == 0);
    } else {
        assert forall|i: int| 0 <= i < front.len() implies is_digit(#[trigger] front[i]) by {
            assert(is_digit(d[i]));
        }
        zeros_write_nothing(k, front);
    }
}

proof fn zeros_are_zero(k: nat)
    ensures
        digits_value(zeros(k)) == 0,
    decreases k,
{
    if k > 0 {
        assert(zeros(k).drop_last() =~= zeros((k - 1) as nat));
        zeros_are_zero((k - 1) as nat);
    }
}

/// **A snapshot's name says its sequence.**
pub proof fn snapshot_names_read_back(sequence: u64)
    ensures
        named_sequence(numbered("snap-"@, sequence as nat, ".json"@)) == Some(sequence as nat),
{
    let p = "snap-"@;
    let s = ".json"@;
    let d = padded(sequence as nat);
    let name = numbered(p, sequence as nat, s);
    assert(name.take(p.len() as int) =~= p);
    let rest = name.skip(p.len() as int);
    assert(rest =~= d + s);
    assert(rest.skip(rest.len() - s.len()) =~= s);
    assert(rest.take(rest.len() - s.len()) =~= d);
    decimal_digits(sequence as nat);
    let k = if decimal(sequence as nat).len() < SEQUENCE_DIGITS {
        (SEQUENCE_DIGITS - decimal(sequence as nat).len()) as nat
    } else {
        0
    };
    assert(d =~= zeros(k) + decimal(sequence as nat));
    zeros_write_nothing(k, decimal(sequence as nat));
    assert(is_digit(d[0]));
    assert(unsigned(d) == d);
}

/// The last `w` digits of `n`.
pub open spec fn low_digits(n: nat, w: nat) -> Seq<char>
    decreases w,
{
    if w == 0 {
        Seq::empty()
    } else {
        low_digits(n / 10, (w - 1) as nat).push(digit(n % 10))
    }
}

pub open spec fn pow10(w: nat) -> nat
    decreases w,
{
    if w == 0 {
        1
    } else {
        10 * pow10((w - 1) as nat)
    }
}

proof fn padded_is_low_digits(n: nat, w: nat)
    requires
        n < pow10(w),
        w > 0,
    ensures
        decimal(n).len() <= w,
        zeros((w - decimal(n).len()) as nat) + decimal(n) == low_digits(n, w),
    decreases w,
{
    if n < 10 {
        zero_digits((w - 1) as nat);
        assert(low_digits(n, w) == low_digits(0, (w - 1) as nat).push(digit(n)));
        assert(zeros((w - 1) as nat) + decimal(n) =~= zeros((w - 1) as nat).push(digit(n)));
    } else {
        assert(n / 10 < pow10((w - 1) as nat));
        if w == 1 {
            assert(pow10(1) == 10) by {
                reveal_with_fuel(pow10, 2);
            }
        }
        padded_is_low_digits(n / 10, (w - 1) as nat);
        let z = zeros((w - decimal(n).len()) as nat);
        assert(z + decimal(n) =~= (z + decimal(n / 10)).push(digit(n % 10)));
    }
}

proof fn zero_digits(w: nat)
    ensures
        low_digits(0, w) == zeros(w),
    decreases w,
{
    if w > 0 {
        zero_digits((w - 1) as nat);
        assert(digit(0) == '0');
    }
    assert(low_digits(0, w) =~= zeros(w));
}

/// `a` comes before `b` in a lexicographic listing.
pub open spec fn listed_before(a: Seq<char>, b: Seq<char>) -> bool {
    exists|i: int| #[trigger] first_difference(a, b, i) && a[i] < b[i]
}

pub open spec fn first_difference(a: Seq<char>, b: Seq<char>, i: int) -> bool {
    &&& 0 <= i < a.len()
    &&& i < b.len()
    &&& a[i] != b[i]
    &&& forall|j: int| 0 <= j < i ==> #[trigger] a[j] == b[j]
}

proof fn digits_order(a: nat, b: nat, w: nat)
    requires
        a < b,
        b < pow10(w),
    ensures
        low_digits(a, w).len() == w,
        low_digits(b, w).len() == w,
        listed_before(low_digits(a, w), low_digits(b, w)),
    decreases w,
{
    low_digits_len(a, w);
    low_digits_len(b, w);
    if w > 0 {
        let x = low_digits(a, w);
        let y = low_digits(b, w);
        let fx = low_digits(a / 10, (w - 1) as nat);
        let fy = low_digits(b / 10, (w - 1) as nat);
        low_digits_len(a / 10, (w - 1) as nat);
        low_digits_len(b / 10, (w - 1) as nat);
        if a / 10 == b / 10 {
            assert(a % 10 < b % 10);
            let i = w - 1;
            assert(x[i] == digit(a % 10) && y[i] == digit(b % 10));
            assert(first_difference(x, y, i) && x[i] < y[i]);
        } else {
            assert(b / 10 < pow10((w - 1) as nat));
            digits_order(a / 10, b / 10, (w - 1) as nat);
            let i = choose|i: int| #[trigger] first_difference(fx, fy, i) && fx[i] < fy[i];
            assert(x[i] == fx[i] && y[i] == fy[i]);
            assert forall|j: int| 0 <= j < i implies #[trigger] x[j] == y[j] by {
                assert(x[j] == fx[j] && y[j] == fy[j]);
            }
            assert(first_difference(x, y, i) && x[i] < y[i]);
        }
    }
}

proof fn low_digits_len(n: nat, w: nat)
    ensures
        low_digits(n, w).len() == w,
    decreases w,
{
    if w > 0 {
        low_digits_len(n / 10, (w - 1) as nat);
    }
}

/// **Listing order is sequence order**, for sequences of at most twelve
/// digits: the name of an earlier snapshot sorts before that of a later one.
pub proof fn names_list_in_sequence_order(a: u64, b: u64)
    requires
        a < b < 1_000_000_000_000,
    ensures
        listed_before(
            numbered("snap-"@, a as nat, ".json"@),
            numbered("snap-"@, b as nat, ".json"@),
        ),
{
    assert(pow10(12) == 1_000_000_000_000) by {
        reveal_with_fuel(pow10, 13);
    }
    padded_is_low_digits(a as nat, 12);
    padded_is_low_digits(b as nat, 12);
    digits_order(a as nat, b as nat, 12);
    let pa = padded(a as nat);
    let pb = padded(b as nat);
    assert(pa =~= low_digits(a as nat, 12));
    assert(pb =~= low_digits(b as nat, 12));
    let i = choose|i: int| #[trigger] first_difference(pa, pb, i) && pa[i] < pb[i];
    let x = numbered("snap-"@, a as nat, ".json"@);
    let y = numbered("snap-"@, b as nat, ".json"@);
    let k = "snap-"@.len() as int;
    assert(x[k + i] == pa[i] && y[k + i] == pb[i]);
    assert forall|j: int| 0 <= j < k + i implies #[trigger] x[j] == y[j] by {
        if j >= k {
            assert(x[j] == pa[j - k] && y[j] == pb[j - k]);
        }
    }
    assert(first_difference(x, y, k + i) && x[k + i] < y[k + i]);
}

/// **A name is its prefix and what follows**, and its suffix and what precedes.
pub proof fn prefixes_and_suffixes_split(s: Seq<char>, part: Seq<char>, rest: Seq<char>)
    ensures
        has_prefix(part + rest, part),
        (part + rest).skip(part.len() as int) == rest,
        has_prefix(s, part) ==> s == part + s.skip(part.len() as int),
        has_suffix(rest + part, part),
        (rest + part).take((rest + part).len() - part.len()) == rest,
        has_suffix(s, part) ==> s == s.take(s.len() - part.len()) + part,
{
    assert((part + rest).take(part.len() as int) =~= part);
    assert((part + rest).skip(part.len() as int) =~= rest);
    assert((rest + part).skip((rest + part).len() - part.len()) =~= part);
    assert((rest + part).take((rest + part).len() - part.len()) =~= rest);
    if has_prefix(s, part) {
        assert(s =~= s.take(part.len() as int) + s.skip(part.len() as int));
    }
    if has_suffix(s, part) {
        assert(s =~= s.take(s.len() - part.len()) + s.skip(s.len() - part.len()));
    }
}

/// **A snapshot is known by its name**: `snap-`, the number, `.json`, and by
/// nothing else.
pub proof fn a_snapshot_is_known_by_its_name(d: Seq<char>, name: Seq<char>)
    ensures
        named_sequence("snap-"@ + d + ".json"@) == parsed(d, u64::MAX as nat),
        named_sequence(name) is Some ==> exists|n: Seq<char>|
            name == #[trigger] ("snap-"@ + n + ".json"@),
{
    let p = "snap-"@;
    let s = ".json"@;
    let full = p + d + s;
    assert(full =~= p + (d + s));
    prefixes_and_suffixes_split(name, p, d + s);
    prefixes_and_suffixes_split(d + s, s, d);
    if named_sequence(name) is Some {
        let tail = name.skip(p.len() as int);
        prefixes_and_suffixes_split(tail, s, d);
        assert(name =~= p + tail.take(tail.len() - s.len()) + s);
    }
}

/// **A padded number has twelve digits**, more only where it needs them, and
/// writes the number.
pub proof fn a_padded_number_has_twelve_digits(n: nat)
    ensures
        padded(n).len() >= 12,
        padded(n).len() > 12 ==> padded(n) == decimal(n),
        all_digits(padded(n)),
        digits_value(padded(n)) == n,
        parsed(padded(n), n) == Some(n),
{
    decimal_digits(n);
    let d = decimal(n);
    let k = if d.len() < 12 {
        (12 - d.len()) as nat
    } else {
        0
    };
    assert(padded(n) =~= zeros(k) + d);
    zeros_write_nothing(k, d);
    assert(is_digit(padded(n)[0]));
}

/// `v` is in ascending order.
pub open spec fn ascending(v: Seq<u64>) -> bool {
    forall|i: int, j: int| 0 <= i <= j < v.len() ==> #[trigger] v[i] <= #[trigger] v[j]
}

proof fn placing_sorts(v: Seq<u64>, x: u64)
    requires
        ascending(v),
    ensures
        ascending(placed(v, x)),
        placed(v, x).len() == v.len() + 1,
        placed(v, x).last() == if v.len() > 0 && v.last() > x {
            v.last()
        } else {
            x
        },
        placed(v, x).to_multiset() == v.to_multiset().insert(x),
    decreases v.len(),
{
    broadcast use vstd::seq_lib::group_to_multiset_ensures;

    if v.len() > 0 && v.last() > x {
        let front = v.drop_last();
        placing_sorts(front, x);
        let out = placed(v, x);
        let before = placed(front, x);
        assert(front.push(v.last()) =~= v);
        if front.len() > 0 {
            assert(v[v.len() - 2] <= v[v.len() - 1]);
        }
        assert forall|i: int, j: int| 0 <= i <= j < out.len() implies #[trigger] out[i]
            <= #[trigger] out[j] by {
            if i < before.len() {
                assert(before[i] <= before[before.len() - 1]);
            }
        }
        assert(out.to_multiset() =~= v.to_multiset().insert(x));
    } else {
        let out = placed(v, x);
        assert forall|i: int, j: int| 0 <= i <= j < out.len() implies #[trigger] out[i]
            <= #[trigger] out[j] by {
            if i < v.len() {
                assert(v[i] <= v[v.len() - 1]);
            }
        }
    }
}

/// **A listing gives its sequences in ascending order, each as often as a name
/// says it**: the names of two listings together say the sequences of both, one
/// name says its own, and any other name says none.
pub proof fn a_listing_gives_its_sequences_ascending(
    a: Seq<Seq<char>>,
    b: Seq<Seq<char>>,
    name: Seq<char>,
    i: int,
    j: int,
)
    ensures
        0 <= i <= j < sequences_in(a).len() ==> sequences_in(a)[i] <= sequences_in(a)[j],
        sequences_in(a + b).to_multiset() == sequences_in(a).to_multiset().add(
            sequences_in(b).to_multiset(),
        ),
        sequences_in(seq![name]) == match named_sequence(name) {
            Some(n) => seq![n as u64],
            None => Seq::empty(),
        },
        sequences_in(Seq::empty()).len() == 0,
    decreases b.len(),
{
    broadcast use vstd::seq_lib::group_to_multiset_ensures;

    listings_are_sorted(a);
    assert(seq![name].drop_last() =~= Seq::empty());
    assert(sequences_in(Seq::<Seq<char>>::empty()) =~= Seq::empty());
    assert(seq![name].last() == name);
    match named_sequence(name) {
        Some(n) => {
            assert(placed(Seq::empty(), n as u64) =~= seq![n as u64]);
        },
        None => {},
    }
    if b.len() == 0 {
        assert(a + b =~= a);
        assert(sequences_in(b).to_multiset() =~= vstd::multiset::Multiset::empty());
        assert(sequences_in(a + b).to_multiset() =~= sequences_in(a).to_multiset().add(
            sequences_in(b).to_multiset(),
        ));
    } else {
        let front = b.drop_last();
        a_listing_gives_its_sequences_ascending(a, front, name, i, j);
        assert((a + b).drop_last() =~= a + front);
        assert((a + b).last() == b.last());
        listings_are_sorted(front);
        listings_are_sorted(a + front);
        match named_sequence(b.last()) {
            Some(n) => {
                placing_sorts(sequences_in(front), n as u64);
                placing_sorts(sequences_in(a + front), n as u64);
            },
            None => {},
        }
        assert(sequences_in(a + b).to_multiset() =~= sequences_in(a).to_multiset().add(
            sequences_in(b).to_multiset(),
        ));
    }
}

proof fn listings_are_sorted(names: Seq<Seq<char>>)
    ensures
        ascending(sequences_in(names)),
    decreases names.len(),
{
    if names.len() > 0 {
        listings_are_sorted(names.drop_last());
        match named_sequence(names.last()) {
            Some(n) => placing_sorts(sequences_in(names.drop_last()), n as u64),
            None => {},
        }
    }
}

/// **The order of a listing does not matter**: the same names in any order give
/// the same sequences.
pub proof fn a_listing_may_come_in_any_order(a: Seq<Seq<char>>, b: Seq<Seq<char>>)
    requires
        a.to_multiset() == b.to_multiset(),
    ensures
        sequences_in(a) == sequences_in(b),
{
    listings_are_sorted(a);
    listings_are_sorted(b);
    same_names_say_the_same(a, b);
    sorted_alike(sequences_in(a), sequences_in(b));
}

proof fn same_names_say_the_same(a: Seq<Seq<char>>, b: Seq<Seq<char>>)
    requires
        a.to_multiset() == b.to_multiset(),
    ensures
        sequences_in(a).to_multiset() == sequences_in(b).to_multiset(),
    decreases a.len(),
{
    broadcast use vstd::seq_lib::group_to_multiset_ensures;

    assert(a.len() == a.to_multiset().len() && b.len() == b.to_multiset().len());
    if a.len() == 0 {
        assert(a =~= b);
    } else {
        let x = a.last();
        let front = a.drop_last();
        assert(front =~= a.remove(a.len() - 1));
        assert(a.contains(x));
        assert(b.to_multiset().count(x) > 0);
        assert(b.contains(x));
        let k = b.index_of(x);
        let one = seq![x];
        let lo = b.take(k);
        let hi = b.skip(k + 1);
        assert(b.remove(k) =~= lo + hi);
        assert(b =~= lo + (one + hi));
        assert(a =~= front + one);
        same_names_say_the_same(front, lo + hi);
        a_listing_gives_its_sequences_ascending(front, one, x, 0, 0);
        a_listing_gives_its_sequences_ascending(lo, hi, x, 0, 0);
        a_listing_gives_its_sequences_ascending(one, hi, x, 0, 0);
        a_listing_gives_its_sequences_ascending(lo, one + hi, x, 0, 0);
        assert(sequences_in(a).to_multiset() =~= sequences_in(b).to_multiset());
    }
}

proof fn sorted_alike(a: Seq<u64>, b: Seq<u64>)
    requires
        ascending(a),
        ascending(b),
        a.to_multiset() == b.to_multiset(),
    ensures
        a == b,
    decreases a.len(),
{
    broadcast use vstd::seq_lib::group_to_multiset_ensures;

    assert(a.len() == a.to_multiset().len() && b.len() == b.to_multiset().len());
    if a.len() == 0 {
        assert(a =~= b);
    } else {
        let x = a.last();
        let y = b.last();
        assert(a.contains(x) && b.contains(y));
        assert(b.to_multiset().count(x) > 0 && a.to_multiset().count(y) > 0);
        assert(b.contains(x) && a.contains(y));
        let i = b.index_of(x);
        let j = a.index_of(y);
        assert(b[i] <= b[b.len() - 1]);
        assert(a[j] <= a[a.len() - 1]);
        assert(a.drop_last() =~= a.remove(a.len() - 1));
        assert(b.drop_last() =~= b.remove(b.len() - 1));
        sorted_alike(a.drop_last(), b.drop_last());
        assert(a =~= a.drop_last().push(x));
        assert(b =~= b.drop_last().push(y));
    }
}

/// **A numbered name says its number, once**: between its prefix and its suffix
/// stands the number, so no two numbers share a name.
pub proof fn a_numbered_name_says_its_number(
    prefix: Seq<char>,
    suffix: Seq<char>,
    a: nat,
    b: nat,
)
    ensures
        has_prefix(numbered(prefix, a, suffix), prefix),
        has_suffix(numbered(prefix, a, suffix), suffix),
        parsed(
            numbered(prefix, a, suffix).subrange(
                prefix.len() as int,
                numbered(prefix, a, suffix).len() - suffix.len(),
            ),
            a,
        ) == Some(a),
        numbered(prefix, a, suffix) == numbered(prefix, b, suffix) <==> a == b,
{
    let x = numbered(prefix, a, suffix);
    let y = numbered(prefix, b, suffix);
    assert(x.take(prefix.len() as int) =~= prefix);
    assert(x.skip(x.len() - suffix.len()) =~= suffix);
    assert(x.subrange(prefix.len() as int, x.len() - suffix.len()) =~= padded(a));
    assert(y.subrange(prefix.len() as int, y.len() - suffix.len()) =~= padded(b));
    a_padded_number_has_twelve_digits(a);
    a_padded_number_has_twelve_digits(b);
}

/// **The name of a snapshot gives its sequence back**, and each name that is made
/// of a sequence is its own.
pub proof fn a_snapshot_name_gives_its_sequence(
    a: u64,
    b: u64,
    s: String,
    t: String,
    name: &str,
    r: Option<u64>,
)
    requires
        call_ensures(snapshot_name, (a,), s),
        call_ensures(snapshot_name, (b,), t),
        name@ == s@,
        call_ensures(sequence_of, (name,), r),
    ensures
        r == Some(a),
        s@ == t@ <==> a == b,
{
    snapshot_names_read_back(a);
    a_numbered_name_says_its_number("snap-"@, ".json"@, a as nat, b as nat);
}

/// **Files of different commits have different names.**
pub proof fn commits_have_their_own_files(
    a: u64,
    b: u64,
    s: String,
    t: String,
    u: String,
    v: String,
)
    requires
        call_ensures(sidecar_name, (a,), s),
        call_ensures(sidecar_name, (b,), t),
        call_ensures(cached_layer_name, (a,), u),
        call_ensures(cached_layer_name, (b,), v),
    ensures
        s@ == t@ <==> a == b,
        u@ == v@ <==> a == b,
{
    a_numbered_name_says_its_number("dsu-"@, ".puffin"@, a as nat, b as nat);
    a_numbered_name_says_its_number("routing-layer-"@, ".puffin"@, a as nat, b as nat);
}

/// **A listing is answered in ascending order**, whatever its own.
pub proof fn a_listing_is_answered_in_order(
    names: Vec<String>,
    shuffled: Vec<String>,
    v: Vec<u64>,
    w: Vec<u64>,
    i: int,
    j: int,
)
    requires
        call_ensures(sequences_of, (&names,), v),
        call_ensures(sequences_of, (&shuffled,), w),
        text_views(names@).to_multiset() == text_views(shuffled@).to_multiset(),
    ensures
        0 <= i <= j < v@.len() ==> v@[i] <= v@[j],
        v@ == w@,
{
    a_listing_may_come_in_any_order(text_views(names@), text_views(shuffled@));
    a_listing_gives_its_sequences_ascending(
        text_views(names@),
        Seq::empty(),
        Seq::empty(),
        i,
        j,
    );
}

/// **What is stripped off is what was asked for**, and the rest is untouched.
pub proof fn stripping_takes_only_what_was_asked(
    s: &str,
    part: &str,
    r: Option<&str>,
    t: Option<&str>,
)
    requires
        call_ensures(strip_prefix, (s, part), r),
        call_ensures(strip_suffix, (s, part), t),
    ensures
        r matches Some(rest) ==> s@ == part@ + rest@,
        t matches Some(rest) ==> s@ == rest@ + part@,
        r is None ==> forall|rest: Seq<char>| s@ != #[trigger] (part@ + rest),
        t is None ==> forall|rest: Seq<char>| s@ != #[trigger] (rest + part@),
{
    prefixes_and_suffixes_split(s@, part@, Seq::empty());
    if r is None {
        assert forall|rest: Seq<char>| s@ != #[trigger] (part@ + rest) by {
            prefixes_and_suffixes_split(s@, part@, rest);
        }
    }
    if t is None {
        assert forall|rest: Seq<char>| s@ != #[trigger] (rest + part@) by {
            prefixes_and_suffixes_split(s@, part@, rest);
        }
    }
}

} // verus!
