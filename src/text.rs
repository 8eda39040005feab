//! Byte-level text helpers shared by the grammar: character classes,
//! decimal and hexadecimal numbers, and splitting on a separator.
use vstd::prelude::*;

use crate::encoding::ascii_lower;

verus! {

pub open spec fn is_digit(c: u8) -> bool {
    48 <= c <= 57
}

pub open spec fn is_alpha(c: u8) -> bool {
    (65 <= c <= 90) || (97 <= c <= 122)
}

pub open spec fn is_alnum(c: u8) -> bool {
    is_digit(c) || is_alpha(c)
}

pub open spec fn all_alnum(s: Seq<u8>) -> bool {
    forall|i: int| 0 <= i < s.len() ==> is_alnum(#[trigger] s[i])
}

pub open spec fn all_digits(s: Seq<u8>) -> bool {
    forall|i: int| 0 <= i < s.len() ==> is_digit(#[trigger] s[i])
}

/// Value of a string of decimal digits, most significant first.
pub open spec fn dec_value(s: Seq<u8>) -> nat
    decreases s.len(),
{
    if s.len() == 0 {
        0
    } else {
        dec_value(s.drop_last()) * 10 + (s.last() - 48) as nat
    }
}

pub fn is_digit_byte(c: u8) -> (r: bool)
    ensures
        r == is_digit(c),
{
    48 <= c && c <= 57
}

pub fn is_alnum_byte(c: u8) -> (r: bool)
    ensures
        r == is_alnum(c),
{
    (48 <= c && c <= 57) || (65 <= c && c <= 90) || (97 <= c && c <= 122)
}

/// Copy of `s[from..to]`.
pub fn copy_range(s: &[u8], from: usize, to: usize) -> (r: Vec<u8>)
    requires
        from <= to <= s@.len(),
    ensures
        r@ == s@.subrange(from as int, to as int),
{
    let mut r: Vec<u8> = Vec::new();
    let mut i: usize = from;
    while i < to
        invariant
            from <= i <= to <= s@.len(),
            r@ == s@.subrange(from as int, i as int),
        decreases to - i,
    {
        r.push(s[i]);
        i = i + 1;
    }
    r
}

/// Decimal value of `s`, when `s` is one to `max_digits` digits and the value
/// fits under `limit`.
pub fn parse_decimal(s: &[u8], max_digits: usize, limit: u64) -> (r: Option<u64>)
    requires
        max_digits <= 19,
    ensures
        r is Some <==> (1 <= s@.len() <= max_digits && all_digits(s@) && dec_value(s@) <= limit),
        r is Some ==> r->0 == dec_value(s@),
{
    if s.len() == 0 || s.len() > max_digits {
        return None;
    }
    let mut v: u64 = 0;
    let mut i: usize = 0;
    while i < s.len()
        invariant
            i <= s@.len() <= max_digits <= 19,
            all_digits(s@.subrange(0, i as int)),
            v == dec_value(s@.subrange(0, i as int)),
            v < pow10(i as nat),
        decreases s@.len() - i,
    {
        let c = s[i];
        if !is_digit_byte(c) {
            proof {
                assert(!all_digits(s@)) by {
                    assert(!is_digit(s@[i as int]));
                }
            }
            return None;
        }
        proof {
            lemma_pow10_bound(i as nat);
            assert(s@.subrange(0, i + 1).drop_last() =~= s@.subrange(0, i as int));
        }
        v = v * 10 + (c - 48) as u64;
        i = i + 1;
        proof {
            assert forall|k: int| 0 <= k < i implies is_digit(#[trigger] s@.subrange(0, i as int)[k]) by {
                if k < i - 1 {
                    assert(s@.subrange(0, i as int)[k] == s@.subrange(0, i - 1)[k]);
                }
            }
        }
    }
    assert(s@.subrange(0, s@.len() as int) =~= s@);
    if v <= limit {
        Some(v)
    } else {
        None
    }
}

pub open spec fn pow10(n: nat) -> nat
    decreases n,
{
    if n == 0 {
        1
    } else {
        10 * pow10((n - 1) as nat)
    }
}

proof fn lemma_pow10_bound(n: nat)
    requires
        n <= 18,
    ensures
        pow10(n) <= 1_000_000_000_000_000_000,
    decreases 18 - n,
{
    if n < 18 {
        lemma_pow10_bound(n + 1);
    } else {
        reveal_with_fuel(pow10, 19);
    }
}


pub open spec fn occurs_at(s: Seq<u8>, sep: Seq<u8>, i: int) -> bool {
    0 <= i && i + sep.len() <= s.len() && s.subrange(i, i + sep.len()) == sep
}

/// Index of the first occurrence of `sep` in `s` at or after `from`, or
/// `s.len()` where there is none.
pub open spec fn first_occ(s: Seq<u8>, sep: Seq<u8>, from: int) -> int
    decreases s.len() - from,
{
    if from < 0 || from >= s.len() || from + sep.len() > s.len() {
        s.len() as int
    } else if occurs_at(s, sep, from) {
        from
    } else {
        first_occ(s, sep, from + 1)
    }
}

/// The pieces of `s[from..]` between occurrences of `sep` (at least one piece).
pub open spec fn split_from(s: Seq<u8>, sep: Seq<u8>, from: int) -> Seq<Seq<u8>>
    decreases s.len() - from,
{
    let i = first_occ(s, sep, from);
    if from < 0 || from > s.len() || sep.len() == 0 || i >= s.len() || i < from || i + sep.len()
        > s.len() {
        seq![s.subrange(from, s.len() as int)]
    } else {
        seq![s.subrange(from, i)] + split_from(s, sep, i + sep.len())
    }
}

pub open spec fn split_on(s: Seq<u8>, sep: Seq<u8>) -> Seq<Seq<u8>> {
    split_from(s, sep, 0)
}

pub proof fn lemma_first_occ_range(s: Seq<u8>, sep: Seq<u8>, from: int)
    requires
        0 <= from,
        sep.len() > 0,
    ensures
        from <= first_occ(s, sep, from) || first_occ(s, sep, from) == s.len(),
        first_occ(s, sep, from) < s.len() ==> occurs_at(s, sep, first_occ(s, sep, from)),
        forall|j: int| from <= j < first_occ(s, sep, from) ==> !occurs_at(s, sep, j),
    decreases s.len() - from,
{
    if from + sep.len() <= s.len() && !occurs_at(s, sep, from) {
        lemma_first_occ_range(s, sep, from + 1);
    }
}

/// Whether `sep` occurs in `s` at `i`.
pub fn occurs_at_exec(s: &[u8], sep: &[u8], i: usize) -> (r: bool)
    ensures
        r == occurs_at(s@, sep@, i as int),
{
    if sep.len() > s.len() || i > s.len() - sep.len() {
        return false;
    }
    let mut k: usize = 0;
    while k < sep.len()
        invariant
            k <= sep@.len(),
            i as int + sep@.len() <= s@.len() <= usize::MAX,
            forall|j: int| 0 <= j < k ==> s@[i + j] == sep@[j],
        decreases sep@.len() - k,
    {
        if s[i + k] != sep[k] {
            proof {
                assert(s@.subrange(i as int, i + sep@.len())[k as int] != sep@[k as int]);
            }
            return false;
        }
        k = k + 1;
    }
    assert(s@.subrange(i as int, i + sep@.len()) =~= sep@);
    true
}

/// Index of the first occurrence of `sep` at or after `from`, or `s.len()`.
pub fn find_from(s: &[u8], sep: &[u8], from: usize) -> (r: usize)
    requires
        from <= s@.len(),
    ensures
        r == first_occ(s@, sep@, from as int),
        r <= s@.len(),
{
    let mut i: usize = from;
    loop
        invariant
            from <= i <= s@.len(),
            first_occ(s@, sep@, from as int) == first_occ(s@, sep@, i as int),
        decreases s@.len() - i,
    {
        if sep.len() > s.len() - i {
            return s.len();
        }
        if occurs_at_exec(s, sep, i) {
            return i;
        }
        if i == s.len() {
            assert(s@.subrange(i as int, i as int) =~= sep@);
            assert(false);
        }
        i = i + 1;
    }
}

/// The byte strings held by a sequence of vectors.
pub open spec fn bytes_of(v: Seq<Vec<u8>>) -> Seq<Seq<u8>> {
    v.map_values(|x: Vec<u8>| x@)
}

/// The pieces of `s` between occurrences of `sep`.
pub fn split_bytes(s: &[u8], sep: &[u8]) -> (r: Vec<Vec<u8>>)
    requires
        sep@.len() > 0,
    ensures
        bytes_of(r@) == split_on(s@, sep@),
        r@.len() >= 1,
{
    let mut out: Vec<Vec<u8>> = Vec::new();
    let mut start: usize = 0;
    loop
        invariant
            start <= s@.len(),
            sep@.len() > 0,
            bytes_of(out@) + split_from(s@, sep@, start as int) == split_on(s@, sep@),
        decreases s@.len() - start,
    {
        let i = find_from(s, sep, start);
        proof {
            lemma_first_occ_range(s@, sep@, start as int);
        }
        if i >= s.len() {
            let piece = copy_range(s, start, s.len());
            proof {
                assert(split_from(s@, sep@, start as int) == seq![piece@]);
            }
            out.push(piece);
            proof {
                assert(bytes_of(out@) =~= split_on(s@, sep@));
            }
            return out;
        }
        let piece = copy_range(s, start, i);
        let ghost old_out = bytes_of(out@);
        out.push(piece);
        proof {
            assert(split_from(s@, sep@, start as int) == seq![piece@] + split_from(s@, sep@, i + sep@.len()));
            assert(bytes_of(out@) =~= old_out.push(piece@));
            assert(old_out + split_from(s@, sep@, start as int) =~= bytes_of(out@) + split_from(s@, sep@, i + sep@.len()));
        }
        start = i + sep.len();
    }
}


/// Whether two byte strings are equal.
pub fn eq_bytes(a: &[u8], b: &[u8]) -> (r: bool)
    ensures
        r == (a@ == b@),
{
    if a.len() != b.len() {
        return false;
    }
    let mut i: usize = 0;
    while i < a.len()
        invariant
            i <= a@.len() == b@.len(),
            forall|j: int| 0 <= j < i ==> a@[j] == b@[j],
        decreases a@.len() - i,
    {
        if a[i] != b[i] {
            return false;
        }
        i = i + 1;
    }
    assert(a@ =~= b@);
    true
}

/// Appends `b` to `out`.
pub fn push_bytes(out: &mut Vec<u8>, b: &[u8])
    ensures
        final(out)@ == old(out)@ + b@,
{
    out.extend_from_slice(b);
}


/// A one-byte separator.
pub fn sep_of(b: u8) -> (r: Vec<u8>)
    ensures
        r@ == seq![b],
{
    let mut r: Vec<u8> = Vec::new();
    r.push(b);
    r
}

pub open spec fn digits_between(s: Seq<u8>, lo: nat, hi: nat) -> bool {
    lo <= s.len() <= hi && all_digits(s)
}

pub open spec fn is_hex_digit(c: u8) -> bool {
    is_digit(c) || (65 <= c <= 70) || (97 <= c <= 102)
}

pub open spec fn hex_value(c: u8) -> nat {
    if is_digit(c) {
        (c - 48) as nat
    } else if 65 <= c <= 70 {
        (c - 55) as nat
    } else {
        (c - 87) as nat
    }
}

/// Value of a byte from two hexadecimal digits.
pub open spec fn hex_pair_value(hi: u8, lo: u8) -> nat {
    hex_value(hi) * 16 + hex_value(lo)
}

/// Value of a string of hexadecimal digits, most significant first.
pub open spec fn hex_number(s: Seq<u8>) -> nat
    decreases s.len(),
{
    if s.len() == 0 {
        0
    } else {
        hex_number(s.drop_last()) * 16 + hex_value(s.last())
    }
}

pub open spec fn all_hex(s: Seq<u8>) -> bool {
    forall|i: int| 0 <= i < s.len() ==> is_hex_digit(#[trigger] s[i])
}

pub fn hex_digit_value(c: u8) -> (r: Option<u8>)
    ensures
        r is Some <==> is_hex_digit(c),
        r is Some ==> r->0 == hex_value(c) && r->0 < 16,
{
    if 48 <= c && c <= 57 {
        Some(c - 48)
    } else if 65 <= c && c <= 70 {
        Some(c - 55)
    } else if 97 <= c && c <= 102 {
        Some(c - 87)
    } else {
        None
    }
}

/// Value of one to four hexadecimal digits.
pub fn parse_hex_u16(s: &[u8]) -> (r: Option<u16>)
    ensures
        r is Some <==> (1 <= s@.len() <= 4 && all_hex(s@)),
        r is Some ==> r->0 == hex_number(s@),
{
    if s.len() == 0 || s.len() > 4 {
        return None;
    }
    let mut v: u32 = 0;
    let mut i: usize = 0;
    while i < s.len()
        invariant
            i <= s@.len() <= 4,
            all_hex(s@.subrange(0, i as int)),
            v == hex_number(s@.subrange(0, i as int)),
            v < pow16(i as nat),
        decreases s@.len() - i,
    {
        let d = hex_digit_value(s[i]);
        if d.is_none() {
            assert(!all_hex(s@)) by {
                assert(!is_hex_digit(s@[i as int]));
            }
            return None;
        }
        let d = d.unwrap();
        proof {
            assert(s@.subrange(0, i + 1).drop_last() =~= s@.subrange(0, i as int));
            assert(pow16(i as nat) <= 4096) by {
                reveal_with_fuel(pow16, 4);
            }
        }
        v = v * 16 + d as u32;
        i = i + 1;
        proof {
            assert forall|k: int| 0 <= k < i implies is_hex_digit(#[trigger] s@.subrange(0, i as int)[k]) by {
                if k < i - 1 {
                    assert(s@.subrange(0, i as int)[k] == s@.subrange(0, i - 1)[k]);
                }
            }
        }
    }
    assert(s@.subrange(0, s@.len() as int) =~= s@);
    assert(v < 65536) by {
        reveal_with_fuel(pow16, 5);
    }
    Some(v as u16)
}

pub open spec fn pow16(n: nat) -> nat
    decreases n,
{
    if n == 0 {
        1
    } else {
        16 * pow16((n - 1) as nat)
    }
}


pub proof fn lemma_pow10_pos(n: nat)
    ensures
        pow10(n) >= 1,
    decreases n,
{
    if n > 0 {
        lemma_pow10_pos((n - 1) as nat);
    }
}

/// A string of at most `n` digits is worth less than `10^n`.
pub proof fn lemma_dec_bound(s: Seq<u8>, n: nat)
    requires
        s.len() <= n,
        all_digits(s),
    ensures
        dec_value(s) < pow10(n),
    decreases s.len(),
{
    if s.len() > 0 {
        assert(all_digits(s.drop_last())) by {
            assert forall|i: int| 0 <= i < s.drop_last().len() implies is_digit(
                #[trigger] s.drop_last()[i],
            ) by {
                assert(s.drop_last()[i] == s[i]);
            }
        }
        lemma_dec_bound(s.drop_last(), (n - 1) as nat);
        assert(is_digit(s[s.len() - 1]));
        let a = dec_value(s.drop_last());
        let b = pow10((n - 1) as nat);
        assert(a * 10 + 9 < b * 10) by (nonlinear_arith)
            requires
                a < b,
        ;
        assert(dec_value(s) == a * 10 + (s.last() - 48) as nat);
        assert(pow10(n) == 10 * b);
    } else {
        lemma_pow10_pos(n);
    }
}


/// The bytes written as pairs of hexadecimal digits.
pub open spec fn hex_bytes_of(s: Seq<u8>) -> Seq<u8> {
    Seq::new(s.len() / 2, |i: int| hex_pair_value(s[2 * i], s[2 * i + 1]) as u8)
}

/// The bytes that `s` writes as pairs of hexadecimal digits (either case).
pub fn hex_decode(s: &[u8]) -> (r: Option<Vec<u8>>)
    ensures
        r is Some <==> (s@.len() % 2 == 0 && all_hex(s@)),
        r is Some ==> r->0@ == hex_bytes_of(s@),
{
    if s.len() % 2 != 0 {
        return None;
    }
    let mut out: Vec<u8> = Vec::new();
    let n = s.len() / 2;
    let mut i: usize = 0;
    while i < n
        invariant
            i <= n,
            n * 2 == s@.len() <= usize::MAX,
            forall|j: int| 0 <= j < 2 * i ==> is_hex_digit(#[trigger] s@[j]),
            out@ =~= hex_bytes_of(s@).subrange(0, i as int),
        decreases n - i,
    {
        let hi = hex_digit_value(s[2 * i]);
        let lo = hex_digit_value(s[2 * i + 1]);
        match (hi, lo) {
            (Some(h), Some(l)) => {
                out.push(h * 16 + l);
            },
            _ => {
                assert(!all_hex(s@)) by {
                    if hi is None {
                        assert(!is_hex_digit(s@[2 * i as int]));
                    } else {
                        assert(!is_hex_digit(s@[2 * i as int + 1]));
                    }
                }
                return None;
            },
        }
        i = i + 1;
    }
    assert(out@ =~= hex_bytes_of(s@));
    Some(out)
}


/// The text between quotes, where a backslash escapes a backslash or a quote
/// and no other quote stands.
pub open spec fn escaped_ok(s: Seq<u8>) -> bool
    decreases s.len(),
{
    if s.len() == 0 {
        true
    } else if s[0] == 92u8 {
        s.len() >= 2 && (s[1] == 92u8 || s[1] == 34u8) && escaped_ok(s.subrange(2, s.len() as int))
    } else {
        s[0] != 34u8 && escaped_ok(s.subrange(1, s.len() as int))
    }
}

/// The text that escaped text `s` stands for: a backslash and the byte
/// after it stand for that byte.
pub open spec fn unescaped(s: Seq<u8>) -> Seq<u8>
    decreases s.len(),
{
    if s.len() == 0 {
        Seq::empty()
    } else if s[0] == 92u8 && s.len() >= 2 {
        seq![s[1]] + unescaped(s.subrange(2, s.len() as int))
    } else {
        seq![s[0]] + unescaped(s.subrange(1, s.len() as int))
    }
}

/// `u` with a backslash put before each backslash and each quote.
pub open spec fn escaped(u: Seq<u8>) -> Seq<u8>
    decreases u.len(),
{
    if u.len() == 0 {
        Seq::empty()
    } else {
        let head = if u[0] == 92u8 || u[0] == 34u8 {
            seq![92u8, u[0]]
        } else {
            seq![u[0]]
        };
        head + escaped(u.subrange(1, u.len() as int))
    }
}

/// Escaping gives text that reads back as `u`, and adds no byte but the
/// backslash.
pub proof fn lemma_escaped(u: Seq<u8>)
    ensures
        escaped_ok(escaped(u)),
        unescaped(escaped(u)) == u,
        forall|b: u8| b != 92u8 && lacks(u, b) ==> lacks(escaped(u), b),
    decreases u.len(),
{
    if u.len() > 0 {
        let t = u.subrange(1, u.len() as int);
        lemma_escaped(t);
        let e = escaped(u);
        if u[0] == 92u8 || u[0] == 34u8 {
            assert(e.subrange(2, e.len() as int) =~= escaped(t));
        } else {
            assert(e.subrange(1, e.len() as int) =~= escaped(t));
        }
        assert(unescaped(e) =~= u);
        assert forall|b: u8| b != 92u8 && lacks(u, b) implies lacks(e, b) by {
            assert forall|i: int| 0 <= i < t.len() implies t[i] != b by {
                assert(t[i] == u[i + 1]);
            }
            assert(u[0] != b);
            assert(lacks(t, b));
            assert(lacks(escaped(t), b));
            assert forall|i: int| 0 <= i < e.len() implies e[i] != b by {
                if u[0] == 92u8 || u[0] == 34u8 {
                    if i >= 2 {
                        assert(e[i] == escaped(t)[i - 2]);
                    }
                } else if i >= 1 {
                    assert(e[i] == escaped(t)[i - 1]);
                }
            }
        }
    }
}

/// Appends `u` escaped.
pub fn write_escaped(out: &mut Vec<u8>, u: &[u8])
    ensures
        final(out)@ == old(out)@ + escaped(u@),
{
    let mut i: usize = 0;
    assert(u@.subrange(0, u@.len() as int) =~= u@);
    while i < u.len()
        invariant
            i <= u@.len(),
            old(out)@ + escaped(u@) == out@ + escaped(u@.subrange(i as int, u@.len() as int)),
        decreases u@.len() - i,
    {
        let ghost rest = u@.subrange(i as int, u@.len() as int);
        assert(rest[0] == u@[i as int]);
        assert(rest.subrange(1, rest.len() as int) =~= u@.subrange(i + 1, u@.len() as int));
        let c = u[i];
        if c == 92 || c == 34 {
            out.push(92);
        }
        out.push(c);
        i = i + 1;
        assert(old(out)@ + escaped(u@) =~= out@ + escaped(u@.subrange(i as int, u@.len() as int)));
    }
    assert(escaped(u@.subrange(i as int, u@.len() as int)) =~= Seq::<u8>::empty());
    assert(out@ =~= old(out)@ + escaped(u@));
}

/// The text of a quoted string `"..."`, escapes undone.
pub open spec fn quoted_of(v: Seq<u8>) -> Option<Seq<u8>> {
    if v.len() >= 2 && v[0] == 34u8 && v.last() == 34u8 && escaped_ok(v.subrange(1, v.len() - 1)) {
        Some(unescaped(v.subrange(1, v.len() - 1)))
    } else {
        None
    }
}

/// The text of the quoted string `v`.
pub fn parse_quoted(v: &[u8]) -> (r: Option<Vec<u8>>)
    ensures
        match r {
            Some(t) => quoted_of(v@) == Some(t@),
            None => quoted_of(v@) is None,
        },
{
    if v.len() < 2 || v[0] != 34 || v[v.len() - 1] != 34 {
        return None;
    }
    let end = v.len() - 1;
    assert(v@.last() == v@[end as int]);
    let ghost inner = v@.subrange(1, end as int);
    let mut out: Vec<u8> = Vec::new();
    let mut i: usize = 1;
    assert(v@.subrange(1, end as int) =~= inner);
    while i < end
        invariant
            unescaped(inner) == out@ + unescaped(v@.subrange(i as int, end as int)),
            1 <= i <= end,
            end == v@.len() - 1,
            v@.len() >= 2 && v@[0] == 34u8 && v@.last() == 34u8,
            inner == v@.subrange(1, end as int),
            escaped_ok(inner) == escaped_ok(v@.subrange(i as int, end as int)),
        decreases end - i,
    {
        let ghost rest = v@.subrange(i as int, end as int);
        assert(rest[0] == v@[i as int]);
        assert(i + 1 < end ==> rest[1] == v@[i + 1]);
        if v[i] == 92 {
            if i + 1 >= end || (v[i + 1] != 92 && v[i + 1] != 34) {
                assert(!escaped_ok(rest));
                assert(v@.subrange(1, v@.len() - 1) == inner);
                assert(!escaped_ok(inner));
                return None;
            }
            assert(rest.subrange(2, rest.len() as int) =~= v@.subrange(i + 2, end as int));
            out.push(v[i + 1]);
            i = i + 2;
            assert(unescaped(inner) =~= out@ + unescaped(v@.subrange(i as int, end as int)));
        } else {
            if v[i] == 34 {
                assert(!escaped_ok(rest));
                assert(v@.subrange(1, v@.len() - 1) == inner);
                assert(!escaped_ok(inner));
                return None;
            }
            assert(rest.subrange(1, rest.len() as int) =~= v@.subrange(i + 1, end as int));
            out.push(v[i]);
            i = i + 1;
            assert(unescaped(inner) =~= out@ + unescaped(v@.subrange(i as int, end as int)));
        }
    }
    assert(v@.subrange(i as int, end as int) =~= Seq::<u8>::empty());
    assert(v@.last() == v@[end as int]);
    assert(out@ =~= unescaped(inner));
    Some(out)
}


pub fn check_alnum(s: &[u8]) -> (r: bool)
    ensures
        r == all_alnum(s@),
{
    let mut i: usize = 0;
    while i < s.len()
        invariant
            i <= s@.len(),
            forall|j: int| 0 <= j < i ==> is_alnum(#[trigger] s@[j]),
        decreases s@.len() - i,
    {
        if !is_alnum_byte(s[i]) {
            return false;
        }
        i = i + 1;
    }
    true
}


pub open spec fn crlf() -> Seq<u8> {
    seq![13u8, 10u8]
}

/// `v` without one leading CRLF, where it has one.
pub open spec fn skip_crlf(v: Seq<u8>) -> Seq<u8> {
    if v.len() >= 2 && v.subrange(0, 2) == crlf() {
        v.subrange(2, v.len() as int)
    } else {
        v
    }
}

pub fn crlf_bytes() -> (r: Vec<u8>)
    ensures
        r@ == crlf(),
{
    let mut r = sep_of(13);
    r.push(10);
    assert(r@ =~= crlf());
    r
}

/// `v` without one leading CRLF, where it has one.
pub fn skip_leading_crlf(v: &[u8]) -> (r: Vec<u8>)
    ensures
        r@ == skip_crlf(v@),
{
    if v.len() >= 2 && v[0] == 13 && v[1] == 10 {
        assert(v@.subrange(0, 2) =~= crlf());
        copy_range(v, 2, v.len())
    } else {
        assert(v@.len() >= 2 ==> v@.subrange(0, 2)[0] == v@[0] && v@.subrange(0, 2)[1] == v@[1]);
        let r = copy_range(v, 0, v.len());
        assert(r@ =~= v@);
        r
    }
}

/// `v` without one trailing CRLF, where it has one.
pub open spec fn drop_crlf(v: Seq<u8>) -> Seq<u8> {
    if v.len() >= 2 && v.subrange(v.len() - 2, v.len() as int) == crlf() {
        v.subrange(0, v.len() - 2)
    } else {
        v
    }
}

/// The lines of a list value: none where the value is empty (after one
/// leading and one trailing CRLF), else its CRLF-separated lines.
pub open spec fn record_lines(v: Seq<u8>) -> Seq<Seq<u8>> {
    let body = drop_crlf(skip_crlf(v));
    if body.len() == 0 {
        Seq::empty()
    } else {
        split_on(body, crlf())
    }
}

/// The lines of the list value `v`.
pub fn split_records(v: &[u8]) -> (r: Vec<Vec<u8>>)
    ensures
        bytes_of(r@) == record_lines(v@),
{
    let front = skip_leading_crlf(v);
    let n = front.len();
    let body = if n >= 2 && front[n - 2] == 13 && front[n - 1] == 10 {
        assert(front@.subrange(n - 2, n as int) =~= crlf());
        copy_range(front.as_slice(), 0, n - 2)
    } else {
        proof {
            if n >= 2 {
                assert(front@.subrange(n - 2, n as int)[0] == front@[n - 2]);
                assert(front@.subrange(n - 2, n as int)[1] == front@[n - 1]);
            }
        }
        let r = copy_range(front.as_slice(), 0, n);
        assert(r@ =~= front@);
        r
    };
    assert(body@ == drop_crlf(skip_crlf(v@)));
    if body.len() == 0 {
        let r: Vec<Vec<u8>> = Vec::new();
        assert(bytes_of(r@) =~= Seq::<Seq<u8>>::empty());
        return r;
    }
    split_bytes(body.as_slice(), crlf_bytes().as_slice())
}

/// The CRLF-separated lines of `v`, after one leading CRLF if it has one.
pub fn split_lines(v: &[u8]) -> (r: Vec<Vec<u8>>)
    ensures
        bytes_of(r@) == split_on(skip_crlf(v@), crlf()),
{
    let sep = crlf_bytes();
    if v.len() >= 2 && v[0] == 13 && v[1] == 10 {
        assert(v@.subrange(0, 2) =~= crlf());
        let rest = copy_range(v, 2, v.len());
        split_bytes(rest.as_slice(), sep.as_slice())
    } else {
        assert(v@.len() >= 2 ==> v@.subrange(0, 2)[0] == v@[0] && v@.subrange(0, 2)[1] == v@[1]);
        split_bytes(v, sep.as_slice())
    }
}


/// `e` is the first occurrence at or after `from`.
pub proof fn lemma_first_occ_is(s: Seq<u8>, sep: Seq<u8>, from: int, e: int)
    requires
        0 <= from <= e,
        sep.len() > 0,
        occurs_at(s, sep, e),
        forall|j: int| from <= j < e ==> !occurs_at(s, sep, j),
    ensures
        first_occ(s, sep, from) == e,
    decreases e - from,
{
    if from < e {
        lemma_first_occ_is(s, sep, from + 1, e);
    }
}

/// An occurrence found inside `a` is the first one in `a + b` too.
pub proof fn lemma_first_occ_prefix(a: Seq<u8>, b: Seq<u8>, sep: Seq<u8>, from: int)
    requires
        0 <= from,
        sep.len() > 0,
        first_occ(a, sep, from) + sep.len() <= a.len(),
    ensures
        first_occ(a + b, sep, from) == first_occ(a, sep, from),
{
    let e = first_occ(a, sep, from);
    lemma_first_occ_range(a, sep, from);
    assert((a + b).subrange(e, e + sep.len()) =~= a.subrange(e, e + sep.len()));
    assert forall|j: int| from <= j < e implies !occurs_at(a + b, sep, j) by {
        assert(!occurs_at(a, sep, j));
        assert((a + b).subrange(j, j + sep.len()) =~= a.subrange(j, j + sep.len()));
    }
    lemma_first_occ_is(a + b, sep, from, e);
}


/// Upper-case hexadecimal digit of `v` (below 16).
pub open spec fn hex_digit(v: nat) -> u8 {
    if v < 10 {
        (48 + v) as u8
    } else {
        (55 + v) as u8
    }
}

/// Two upper-case hexadecimal digits per byte.
pub open spec fn hex_upper(b: Seq<u8>) -> Seq<u8> {
    Seq::new(
        2 * b.len(),
        |i: int|
            if i % 2 == 0 {
                hex_digit((b[i / 2] / 16) as nat)
            } else {
                hex_digit((b[i / 2] % 16) as nat)
            },
    )
}

fn hex_digit_exec(v: u8) -> (r: u8)
    requires
        v < 16,
    ensures
        r == hex_digit(v as nat),
{
    if v < 10 {
        48 + v
    } else {
        55 + v
    }
}

/// The bytes of `b` as upper-case hexadecimal, two digits each.
pub fn hex_encode(b: &[u8]) -> (r: Vec<u8>)
    ensures
        r@ == hex_upper(b@),
{
    let mut out: Vec<u8> = Vec::new();
    let mut i: usize = 0;
    while i < b.len()
        invariant
            i <= b@.len(),
            out@ =~= hex_upper(b@).subrange(0, 2 * i),
        decreases b@.len() - i,
    {
        out.push(hex_digit_exec(b[i] / 16));
        out.push(hex_digit_exec(b[i] % 16));
        i = i + 1;
    }
    assert(hex_upper(b@).subrange(0, 2 * i as int) =~= hex_upper(b@));
    out
}


/// The bytes of `b` as an array of its length.
pub fn to_array<const N: usize>(b: &[u8]) -> (a: [u8; N])
    requires
        b@.len() == N,
    ensures
        a@ == b@,
{
    let mut a: [u8; N] = [0u8; N];
    let mut i: usize = 0;
    while i < N
        invariant
            i <= N,
            b@.len() == N,
            a@.len() == N,
            forall|j: int| 0 <= j < i ==> a@[j] == b@[j],
        decreases N - i,
    {
        a[i] = b[i];
        i = i + 1;
    }
    assert(a@ =~= b@);
    a
}


/// Decimal digits of `n`, without leading zeros.
pub open spec fn dec_text(n: nat) -> Seq<u8>
    decreases n,
{
    if n < 10 {
        seq![(48 + n) as u8]
    } else {
        dec_text(n / 10).push((48 + n % 10) as u8)
    }
}

/// Lower-case hexadecimal digits of `n`, without leading zeros.
pub open spec fn hex_text(n: nat) -> Seq<u8>
    decreases n,
{
    if n < 16 {
        seq![hex_lower(n)]
    } else {
        hex_text(n / 16).push(hex_lower(n % 16))
    }
}

pub open spec fn hex_lower(v: nat) -> u8 {
    if v < 10 {
        (48 + v) as u8
    } else {
        (87 + v) as u8
    }
}

pub proof fn lemma_dec_text(n: nat, k: nat)
    requires
        1 <= k,
        n < pow10(k),
    ensures
        all_digits(dec_text(n)),
        dec_value(dec_text(n)) == n,
        1 <= dec_text(n).len() <= k,
    decreases n,
{
    if n >= 10 {
        reveal_with_fuel(pow10, 2);
        if k == 1 {
            assert(pow10(1) == 10);
        }
        assert(n / 10 < pow10((k - 1) as nat)) by {
            assert(pow10(k) == 10 * pow10((k - 1) as nat));
            assert(n / 10 < pow10((k - 1) as nat)) by (nonlinear_arith)
                requires
                    n < 10 * pow10((k - 1) as nat),
            ;
        }
        lemma_dec_text(n / 10, (k - 1) as nat);
        let t = dec_text(n);
        assert(t.drop_last() =~= dec_text(n / 10));
        assert forall|i: int| 0 <= i < t.len() implies is_digit(#[trigger] t[i]) by {
            if i < t.len() - 1 {
                assert(t[i] == dec_text(n / 10)[i]);
            }
        }
        assert(n == (n / 10) * 10 + n % 10);
        assert(t.last() == (48 + n % 10) as u8);
        assert(dec_value(t) == dec_value(dec_text(n / 10)) * 10 + (n % 10));
    } else {
        let t = dec_text(n);
        assert(t.drop_last() =~= Seq::<u8>::empty());
        assert(dec_value(t) == dec_value(t.drop_last()) * 10 + (t.last() - 48) as nat);
    }
}

pub proof fn lemma_hex_text(n: nat, k: nat)
    requires
        1 <= k,
        n < pow16(k),
    ensures
        all_hex(hex_text(n)),
        hex_number(hex_text(n)) == n,
        1 <= hex_text(n).len() <= k,
    decreases n,
{
    if n >= 16 {
        reveal_with_fuel(pow16, 2);
        if k == 1 {
            assert(pow16(1) == 16);
        }
        assert(n / 16 < pow16((k - 1) as nat)) by {
            assert(pow16(k) == 16 * pow16((k - 1) as nat));
            assert(n / 16 < pow16((k - 1) as nat)) by (nonlinear_arith)
                requires
                    n < 16 * pow16((k - 1) as nat),
            ;
        }
        lemma_hex_text(n / 16, (k - 1) as nat);
        let t = hex_text(n);
        assert(t.drop_last() =~= hex_text(n / 16));
        assert forall|i: int| 0 <= i < t.len() implies is_hex_digit(#[trigger] t[i]) by {
            if i < t.len() - 1 {
                assert(t[i] == hex_text(n / 16)[i]);
            }
        }
        assert(n == (n / 16) * 16 + n % 16);
        assert(t.last() == hex_lower(n % 16));
        assert(hex_number(t) == hex_number(hex_text(n / 16)) * 16 + (n % 16));
    } else {
        let t = hex_text(n);
        assert(t.drop_last() =~= Seq::<u8>::empty());
        assert(hex_number(t) == hex_number(t.drop_last()) * 16 + hex_value(t.last()));
    }
}

/// Appends the decimal digits of `n`.
pub fn write_decimal(out: &mut Vec<u8>, n: u64)
    ensures
        final(out)@ == old(out)@ + dec_text(n as nat),
    decreases n,
{
    if n >= 10 {
        write_decimal(out, n / 10);
    }
    out.push(48 + (n % 10) as u8);
    assert(out@ =~= old(out)@ + dec_text(n as nat));
}

/// Appends the lower-case hexadecimal digits of `n`.
pub fn write_hex(out: &mut Vec<u8>, n: u64)
    ensures
        final(out)@ == old(out)@ + hex_text(n as nat),
    decreases n,
{
    if n >= 16 {
        write_hex(out, n / 16);
    }
    let d = (n % 16) as u8;
    out.push(if d < 10 {
        48 + d
    } else {
        87 + d
    });
    assert(out@ =~= old(out)@ + hex_text(n as nat));
}

/// `ps` joined by `sep`.
pub open spec fn join_front(ps: Seq<Seq<u8>>, sep: Seq<u8>) -> Seq<u8>
    decreases ps.len(),
{
    if ps.len() == 0 {
        Seq::empty()
    } else if ps.len() == 1 {
        ps[0]
    } else {
        ps[0] + sep + join_front(ps.drop_first(), sep)
    }
}

pub open spec fn lacks(p: Seq<u8>, b: u8) -> bool {
    forall|i: int| 0 <= i < p.len() ==> p[i] != b
}

pub proof fn lemma_first_occ_none(s: Seq<u8>, sep: Seq<u8>, from: int)
    requires
        0 <= from,
        sep.len() > 0,
        forall|j: int| from <= j < s.len() ==> !occurs_at(s, sep, j),
    ensures
        first_occ(s, sep, from) == s.len(),
    decreases s.len() - from,
{
    if from < s.len() && from + sep.len() <= s.len() {
        lemma_first_occ_none(s, sep, from + 1);
    }
}

proof fn lemma_split_from_join(buf: Seq<u8>, pos: int, ps: Seq<Seq<u8>>, sep: Seq<u8>)
    requires
        0 <= pos <= buf.len(),
        ps.len() >= 1,
        sep.len() >= 1,
        forall|i: int| 0 <= i < ps.len() ==> lacks(#[trigger] ps[i], sep[0]),
        buf.subrange(pos, buf.len() as int) == join_front(ps, sep),
    ensures
        split_from(buf, sep, pos) == ps,
    decreases ps.len(),
{
    let p = ps[0];
    let e = pos + p.len();
    let t = buf.subrange(pos, buf.len() as int);
    assert(lacks(ps[0], sep[0]));
    if ps.len() == 1 {
        assert forall|j: int| pos <= j < buf.len() implies !occurs_at(buf, sep, j) by {
            assert(buf[j] == t[j - pos]);
            if occurs_at(buf, sep, j) {
                assert(buf.subrange(j, j + sep.len())[0] == buf[j]);
            }
        }
        lemma_first_occ_none(buf, sep, pos);
        assert(buf.subrange(pos, buf.len() as int) =~= p);
        assert(split_from(buf, sep, pos) =~= ps);
    } else {
        let rest = ps.drop_first();
        assert(t =~= p + sep + join_front(rest, sep));
        assert forall|j: int| pos <= j < e implies !occurs_at(buf, sep, j) by {
            assert(buf[j] == t[j - pos]);
            assert(t[j - pos] == p[j - pos]);
            if occurs_at(buf, sep, j) {
                assert(buf.subrange(j, j + sep.len())[0] == buf[j]);
            }
        }
        assert(buf.subrange(e, e + sep.len()) =~= sep) by {
            assert forall|k: int| 0 <= k < sep.len() implies buf.subrange(e, e + sep.len())[k] == sep[k] by {
                assert(buf[e + k] == t[p.len() + k]);
            }
        }
        lemma_first_occ_is(buf, sep, pos, e);
        assert(buf.subrange(pos, e) =~= p) by {
            assert forall|k: int| 0 <= k < p.len() implies buf.subrange(pos, e)[k] == p[k] by {
                assert(buf[pos + k] == t[k]);
            }
        }
        let tail = buf.subrange(e + sep.len(), buf.len() as int);
        assert(tail =~= join_front(rest, sep)) by {
            assert forall|k: int| 0 <= k < tail.len() implies #[trigger] tail[k] == t[p.len() + sep.len() + k] by {
                assert(buf[e + sep.len() + k] == t[p.len() + sep.len() + k]);
            }
        }
        assert forall|i: int| 0 <= i < rest.len() implies lacks(#[trigger] rest[i], sep[0]) by {
            assert(rest[i] == ps[i + 1]);
        }
        lemma_split_from_join(buf, e + sep.len(), rest, sep);
        assert(split_from(buf, sep, pos) =~= seq![p] + rest);
        assert(seq![p] + rest =~= ps);
    }
}

/// Splitting the pieces joined by `sep` gives them back, when none of them
/// holds the first byte of `sep`.
pub proof fn lemma_split_join(ps: Seq<Seq<u8>>, sep: Seq<u8>)
    requires
        ps.len() >= 1,
        sep.len() >= 1,
        forall|i: int| 0 <= i < ps.len() ==> lacks(#[trigger] ps[i], sep[0]),
    ensures
        split_on(join_front(ps, sep), sep) == ps,
{
    let s = join_front(ps, sep);
    assert(s.subrange(0, s.len() as int) =~= s);
    lemma_split_from_join(s, 0, ps, sep);
}


/// Joining one more piece adds the separator and the piece at the end.
pub proof fn lemma_join_push(ps: Seq<Seq<u8>>, x: Seq<u8>, sep: Seq<u8>)
    requires
        ps.len() >= 1,
    ensures
        join_front(ps.push(x), sep) == join_front(ps, sep) + sep + x,
    decreases ps.len(),
{
    let q = ps.push(x);
    assert(q[0] == ps[0]);
    if ps.len() == 1 {
        assert(q.drop_first() =~= seq![x]);
        assert(join_front(q.drop_first(), sep) == x);
        assert(join_front(q, sep) == q[0] + sep + join_front(q.drop_first(), sep));
        assert(join_front(ps, sep) == ps[0]);
    } else {
        assert(q.drop_first() =~= ps.drop_first().push(x));
        lemma_join_push(ps.drop_first(), x, sep);
        assert(join_front(q, sep) == q[0] + sep + join_front(q.drop_first(), sep));
        assert(join_front(ps, sep) == ps[0] + sep + join_front(ps.drop_first(), sep));
        assert(join_front(q, sep) =~= join_front(ps, sep) + sep + x);
    }
}

/// A join lacks a byte that neither the pieces nor the separator hold.
pub proof fn lemma_join_lacks(ps: Seq<Seq<u8>>, sep: Seq<u8>, b: u8)
    requires
        lacks(sep, b),
        forall|i: int| 0 <= i < ps.len() ==> lacks(#[trigger] ps[i], b),
    ensures
        lacks(join_front(ps, sep), b),
    decreases ps.len(),
{
    if ps.len() > 1 {
        let rest = ps.drop_first();
        assert forall|i: int| 0 <= i < rest.len() implies lacks(#[trigger] rest[i], b) by {
            assert(rest[i] == ps[i + 1]);
        }
        lemma_join_lacks(rest, sep, b);
        assert(lacks(ps[0], b));
        let j = join_front(ps, sep);
        assert(j =~= ps[0] + sep + join_front(rest, sep));
        assert forall|i: int| 0 <= i < j.len() implies j[i] != b by {
            if i < ps[0].len() {
                assert(j[i] == ps[0][i]);
            } else if i < ps[0].len() + sep.len() {
                assert(j[i] == sep[i - ps[0].len()]);
            } else {
                assert(j[i] == join_front(rest, sep)[i - ps[0].len() - sep.len()]);
            }
        }
    } else if ps.len() == 1 {
        assert(lacks(ps[0], b));
    }
}

/// Non-empty pieces without `b`, joined by `b`, never hold `b` twice in a row.
pub proof fn lemma_join_no_double(ps: Seq<Seq<u8>>, b: u8)
    requires
        forall|i: int| 0 <= i < ps.len() ==> (#[trigger] ps[i]).len() >= 1 && lacks(ps[i], b),
    ensures
        ({
            let j = join_front(ps, seq![b]);
            forall|k: int| 0 <= k < j.len() - 1 ==> !(j[k] == b && #[trigger] j[k + 1] == b)
        }),
        ps.len() >= 1 ==> join_front(ps, seq![b]).len() >= 1 && join_front(ps, seq![b])[0] == ps[0][0],
    decreases ps.len(),
{
    let j = join_front(ps, seq![b]);
    if ps.len() == 1 {
        assert(lacks(ps[0], b));
        assert(ps[0].len() >= 1);
    } else if ps.len() > 1 {
        let rest = ps.drop_first();
        assert forall|i: int| 0 <= i < rest.len() implies (#[trigger] rest[i]).len() >= 1 && lacks(rest[i], b) by {
            assert(rest[i] == ps[i + 1]);
        }
        lemma_join_no_double(rest, b);
        let jr = join_front(rest, seq![b]);
        let p = ps[0];
        assert(p.len() >= 1 && lacks(p, b));
        assert(j =~= p + seq![b] + jr);
        assert(rest[0] == ps[1]);
        assert(ps[1].len() >= 1 && lacks(ps[1], b));
        assert forall|k: int| 0 <= k < j.len() - 1 implies !(j[k] == b && #[trigger] j[k + 1] == b) by {
            if k < p.len() {
                assert(j[k] == p[k]);
            } else if k == p.len() {
                assert(j[k + 1] == jr[0]);
                assert(jr[0] == rest[0][0]);
                assert(ps[1][0] != b);
            } else {
                let m = k - p.len() - 1;
                assert(j[k] == jr[m]);
                assert(j[k + 1] == jr[m + 1]);
                assert(0 <= m < jr.len() - 1);
                assert(!(jr[m] == b && jr[m + 1] == b));
            }
        }
        assert(j[0] == p[0]);
    }
}


/// The last `w` decimal digits of `n`, zero-padded.
pub open spec fn pad_dec(n: nat, w: nat) -> Seq<u8>
    decreases w,
{
    if w == 0 {
        Seq::empty()
    } else {
        pad_dec(n / 10, (w - 1) as nat).push((48 + n % 10) as u8)
    }
}

/// Appends the last `w` decimal digits of `n`, zero-padded.
pub fn write_padded(out: &mut Vec<u8>, n: u64, w: usize)
    ensures
        final(out)@ == old(out)@ + pad_dec(n as nat, w as nat),
    decreases w,
{
    if w == 0 {
        assert(out@ =~= old(out)@ + pad_dec(n as nat, 0));
        return;
    }
    write_padded(out, n / 10, w - 1);
    out.push(48 + (n % 10) as u8);
    assert(out@ =~= old(out)@ + pad_dec(n as nat, w as nat));
}

pub proof fn lemma_pad_dec(n: nat, w: nat)
    requires
        n < pow10(w),
    ensures
        pad_dec(n, w).len() == w,
        all_digits(pad_dec(n, w)),
        dec_value(pad_dec(n, w)) == n,
    decreases w,
{
    if w == 0 {
        assert(pow10(0) == 1);
    } else {
        assert(pow10(w) == 10 * pow10((w - 1) as nat));
        assert(n / 10 < pow10((w - 1) as nat)) by (nonlinear_arith)
            requires
                n < 10 * pow10((w - 1) as nat),
        ;
        lemma_pad_dec(n / 10, (w - 1) as nat);
        let t = pad_dec(n, w);
        assert(t.drop_last() =~= pad_dec(n / 10, (w - 1) as nat));
        assert forall|i: int| 0 <= i < t.len() implies is_digit(#[trigger] t[i]) by {
            if i < t.len() - 1 {
                assert(t[i] == pad_dec(n / 10, (w - 1) as nat)[i]);
            }
        }
        assert(n == (n / 10) * 10 + n % 10);
        assert(t.last() == (48 + n % 10) as u8);
    }
}

pub fn to_ascii_lower(s: &[u8]) -> (r: Vec<u8>)
    ensures
        r@ == ascii_lower(s@),
{
    let mut r: Vec<u8> = Vec::new();
    let mut i: usize = 0;
    while i < s.len()
        invariant
            i <= s@.len(),
            r@ =~= ascii_lower(s@).subrange(0, i as int),
        decreases s@.len() - i,
    {
        let c = s[i];
        r.push(if 65 <= c && c <= 90 {
            c + 32
        } else {
            c
        });
        i = i + 1;
    }
    assert(ascii_lower(s@).subrange(0, i as int) =~= ascii_lower(s@));
    r
}

/// The pieces joined by `sep`.
pub fn join_bytes(parts: &Vec<Vec<u8>>, sep: &[u8]) -> (r: Vec<u8>)
    ensures
        r@ == join_front(bytes_of(parts@), sep@),
{
    let mut r: Vec<u8> = Vec::new();
    if parts.len() == 0 {
        assert(r@ =~= join_front(bytes_of(parts@), sep@));
        return r;
    }
    let ghost ps = bytes_of(parts@);
    push_bytes(&mut r, parts[0].as_slice());
    assert(ps.subrange(0, 1) =~= seq![ps[0]]);
    let mut i: usize = 1;
    while i < parts.len()
        invariant
            1 <= i <= parts@.len(),
            ps == bytes_of(parts@),
            r@ == join_front(ps.subrange(0, i as int), sep@),
        decreases parts@.len() - i,
    {
        push_bytes(&mut r, sep);
        push_bytes(&mut r, parts[i].as_slice());
        proof {
            assert(ps.subrange(0, i + 1) =~= ps.subrange(0, i as int).push(ps[i as int]));
            lemma_join_push(ps.subrange(0, i as int), ps[i as int], sep@);
        }
        i = i + 1;
    }
    assert(ps.subrange(0, i as int) =~= ps);
    r
}


pub open spec fn is_upper_hex(c: u8) -> bool {
    is_digit(c) || (65 <= c <= 70)
}

/// Upper-case hex reads back as the bytes it was made from.
pub proof fn lemma_hex_upper(b: Seq<u8>)
    ensures
        hex_upper(b).len() == 2 * b.len(),
        forall|i: int| 0 <= i < hex_upper(b).len() ==> is_upper_hex(#[trigger] hex_upper(b)[i]),
        all_hex(hex_upper(b)),
        hex_bytes_of(hex_upper(b)) == b,
{
    let h = hex_upper(b);
    assert forall|i: int| 0 <= i < h.len() implies is_upper_hex(#[trigger] h[i]) by {
        let v: nat = if i % 2 == 0 {
            (b[i / 2] / 16) as nat
        } else {
            (b[i / 2] % 16) as nat
        };
        assert(v < 16);
    }
    assert forall|i: int| 0 <= i < b.len() implies hex_bytes_of(h)[i] == b[i] by {
        assert((2 * i) / 2 == i && (2 * i) % 2 == 0 && (2 * i + 1) / 2 == i && (2 * i + 1) % 2 == 1);
        let hi = (b[i] / 16) as nat;
        let lo = (b[i] % 16) as nat;
        assert(hex_value(hex_digit(hi)) == hi);
        assert(hex_value(hex_digit(lo)) == lo);
        assert(hi * 16 + lo == b[i]);
    }
    assert(hex_bytes_of(h) =~= b);
}

/// Digits lack every byte that is no digit.
pub proof fn lemma_digits_lack(t: Seq<u8>, b: u8)
    requires
        all_digits(t),
        !is_digit(b),
    ensures
        lacks(t, b),
{
}

pub proof fn lemma_join2(a: Seq<u8>, b: Seq<u8>, sep: Seq<u8>)
    ensures
        join_front(seq![a, b], sep) == a + sep + b,
{
    assert(seq![a, b].drop_first() =~= seq![b]);
    assert(join_front(seq![b], sep) == b);
}

pub proof fn lemma_join3(a: Seq<u8>, b: Seq<u8>, c: Seq<u8>, sep: Seq<u8>)
    ensures
        join_front(seq![a, b, c], sep) == a + sep + b + sep + c,
{
    assert(seq![a, b, c].drop_first() =~= seq![b, c]);
    lemma_join2(b, c, sep);
    assert(join_front(seq![a, b, c], sep) =~= a + sep + b + sep + c);
}


/// Each piece of a split on one byte lacks that byte.
pub proof fn lemma_split_pieces_lack(s: Seq<u8>, b: u8, from: int)
    requires
        0 <= from <= s.len(),
    ensures
        forall|k: int| 0 <= k < split_from(s, seq![b], from).len() ==> lacks(
            #[trigger] split_from(s, seq![b], from)[k],
            b,
        ),
    decreases s.len() - from,
{
    let sep = seq![b];
    let i = first_occ(s, sep, from);
    lemma_first_occ_range(s, sep, from);
    let end = if i >= s.len() || i < from || i + 1 > s.len() {
        s.len() as int
    } else {
        i
    };
    let piece = s.subrange(from, end);
    assert forall|j: int| 0 <= j < piece.len() implies piece[j] != b by {
        assert(piece[j] == s[from + j]);
        if s[from + j] == b {
            assert(s.subrange(from + j, from + j + 1) =~= sep);
            assert(occurs_at(s, sep, from + j));
        }
    }
    if end < s.len() {
        lemma_split_pieces_lack(s, b, i + 1);
        assert forall|k: int| 0 <= k < split_from(s, sep, from).len() implies lacks(
            #[trigger] split_from(s, sep, from)[k],
            b,
        ) by {
            if k > 0 {
                assert(split_from(s, sep, from)[k] == split_from(s, sep, i + 1)[k - 1]);
            }
        }
    }
}

/// Undoing escapes adds no byte.
pub proof fn lemma_unescaped_lacks(s: Seq<u8>, b: u8)
    requires
        lacks(s, b),
    ensures
        lacks(unescaped(s), b),
    decreases s.len(),
{
    if s.len() > 0 {
        let k: int = if s[0] == 92u8 && s.len() >= 2 {
            2
        } else {
            1
        };
        let t = s.subrange(k, s.len() as int);
        assert forall|i: int| 0 <= i < t.len() implies t[i] != b by {
            assert(t[i] == s[i + k]);
        }
        lemma_unescaped_lacks(t, b);
        let u = unescaped(s);
        assert forall|i: int| 0 <= i < u.len() implies u[i] != b by {
            if i > 0 {
                assert(u[i] == unescaped(t)[i - 1]);
            } else if k == 2 {
                assert(u[0] == s[1]);
            }
        }
    }
}

} // verus!
