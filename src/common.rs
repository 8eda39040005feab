//! Leaf records shared by the grammar: identifiers, calendar times,
//! addresses and targets.
use vstd::prelude::*;

use crate::text::{
    dec_text, hex_text, is_digit, is_hex_digit, join_front, lacks,
    lemma_dec_text, lemma_first_occ_none, lemma_hex_text, lemma_join_lacks, lemma_join_no_double,
    lemma_join_push, lemma_split_join, occurs_at, pow10, pow16, push_bytes, write_decimal, write_hex, pad_dec, write_padded, lemma_digits_lack, lemma_join2, lemma_join3,
    lemma_pad_dec,
    all_alnum, all_hex, bytes_of, lemma_dec_bound, copy_range, dec_value, digits_between, hex_number,
    is_alnum, is_alnum_byte, parse_decimal, parse_hex_u16, sep_of, split_bytes, split_on,
};

verus! {

/// An identifier as the daemon writes it: one to sixteen letters and digits.
pub open spec fn id_valid(w: Seq<u8>) -> bool {
    1 <= w.len() <= 16 && all_alnum(w)
}

pub fn check_id(w: &[u8]) -> (r: bool)
    ensures
        r == id_valid(w@),
{
    if w.len() == 0 || w.len() > 16 {
        return false;
    }
    let mut i: usize = 0;
    while i < w.len()
        invariant
            i <= w@.len(),
            forall|j: int| 0 <= j < i ==> is_alnum(#[trigger] w@[j]),
        decreases w@.len() - i,
    {
        if !is_alnum_byte(w[i]) {
            return false;
        }
        i = i + 1;
    }
    true
}

/// Identifier of a stream.
#[derive(Debug, Clone, PartialEq, Eq, Hash)]
pub struct StreamID(pub Vec<u8>);

impl StreamID {
    /// The identifier that is the whole of `w`.
    pub fn parse(w: &[u8]) -> (r: Option<StreamID>)
        ensures
            r is Some <==> id_valid(w@),
            r is Some ==> (r->0).0@ == w@,
    {
        if check_id(w) {
            Some(StreamID(copy_range(w, 0, w.len())))
        } else {
            None
        }
    }
}

/// Identifier of a circuit; `0` stands for no circuit.
#[derive(Debug, Clone, PartialEq, Eq, Hash)]
pub struct CircuitID(pub Vec<u8>);

impl CircuitID {
    /// The identifier that is the whole of `w`.
    pub fn parse(w: &[u8]) -> (r: Option<CircuitID>)
        ensures
            r is Some <==> id_valid(w@),
            r is Some ==> (r->0).0@ == w@,
    {
        if check_id(w) {
            Some(CircuitID(copy_range(w, 0, w.len())))
        } else {
            None
        }
    }
}

/// A calendar time as the daemon writes it.
#[derive(Debug, Clone, Copy, PartialEq, Eq, Structural)]
pub struct Time {
    pub year: u16,
    pub month: u8,
    pub day: u8,
    pub hour: u8,
    pub minute: u8,
    pub second: u8,
    /// Microseconds; 0 when the text gives none.
    pub mseconds: u32,
}

/// The time written as `YYYY-MM-DD` and `HH:MM:SS[.uuuuuu]`.
pub open spec fn time_of_parts(date: Seq<u8>, clock: Seq<u8>) -> Option<Time> {
    let d = split_on(date, seq![45u8]);
    let c = split_on(clock, seq![46u8]);
    let hms = split_on(c[0], seq![58u8]);
    if d.len() == 3 && digits_between(d[0], 4, 4) && digits_between(d[1], 1, 2)
        && digits_between(d[2], 1, 2) && (c.len() == 1 || (c.len() == 2 && digits_between(
        c[1],
        6,
        6,
    ))) && hms.len() == 3 && digits_between(hms[0], 1, 2) && digits_between(hms[1], 1, 2)
        && digits_between(hms[2], 1, 2) {
        Some(
            Time {
                year: dec_value(d[0]) as u16,
                month: dec_value(d[1]) as u8,
                day: dec_value(d[2]) as u8,
                hour: dec_value(hms[0]) as u8,
                minute: dec_value(hms[1]) as u8,
                second: dec_value(hms[2]) as u8,
                mseconds: if c.len() == 2 {
                    dec_value(c[1]) as u32
                } else {
                    0
                },
            },
        )
    } else {
        None
    }
}

/// The time written as one word, date and clock joined by `T` or a space.
pub open spec fn time_of(w: Seq<u8>) -> Option<Time> {
    let t = split_on(w, seq![84u8]);
    let s = split_on(w, seq![32u8]);
    if t.len() == 2 {
        time_of_parts(t[0], t[1])
    } else if s.len() == 2 {
        time_of_parts(s[0], s[1])
    } else {
        None
    }
}

fn field(p: &[u8], lo: usize, hi: usize, limit: u64) -> (r: Option<u64>)
    requires
        1 <= lo,
        hi <= 6,
    ensures
        r is Some <==> (digits_between(p@, lo as nat, hi as nat) && dec_value(p@) <= limit),
        r is Some ==> r->0 == dec_value(p@),
{
    if p.len() < lo {
        return None;
    }
    parse_decimal(p, hi, limit)
}

impl Time {
    /// The time written as `date` and `clock`.
    pub fn parse_parts(date: &[u8], clock: &[u8]) -> (r: Option<Time>)
        ensures
            r == time_of_parts(date@, clock@),
    {
        let d = split_bytes(date, sep_of(45).as_slice());
        let c = split_bytes(clock, sep_of(46).as_slice());
        proof {
            assert(bytes_of(d@).len() == d@.len());
            assert(bytes_of(c@).len() == c@.len());
        }
        if c.len() == 0 {
            return None;
        }
        let hms = split_bytes(c[0].as_slice(), sep_of(58).as_slice());
        proof {
            assert(bytes_of(hms@).len() == hms@.len());
            assert(bytes_of(c@)[0] == c@[0]@);
        }
        if d.len() != 3 || hms.len() != 3 || (c.len() != 1 && c.len() != 2) {
            return None;
        }
        proof {
            assert(bytes_of(d@)[0] == d@[0]@);
            assert(bytes_of(d@)[1] == d@[1]@);
            assert(bytes_of(d@)[2] == d@[2]@);
            assert(bytes_of(hms@)[0] == hms@[0]@);
            assert(bytes_of(hms@)[1] == hms@[1]@);
            assert(bytes_of(hms@)[2] == hms@[2]@);
        }
        let year = field(d[0].as_slice(), 4, 4, 9999);
        let month = field(d[1].as_slice(), 1, 2, 99);
        let day = field(d[2].as_slice(), 1, 2, 99);
        let hour = field(hms[0].as_slice(), 1, 2, 99);
        let minute = field(hms[1].as_slice(), 1, 2, 99);
        let second = field(hms[2].as_slice(), 1, 2, 99);
        let mut micro: Option<u64> = Some(0);
        if c.len() == 2 {
            proof {
                assert(bytes_of(c@)[1] == c@[1]@);
            }
            micro = field(c[1].as_slice(), 6, 6, 999999);
        }
        proof {
            reveal_with_fuel(crate::text::pow10, 7);
            if digits_between(d@[0]@, 4, 4) {
                lemma_dec_bound(d@[0]@, 4);
            }
            if digits_between(d@[1]@, 1, 2) {
                lemma_dec_bound(d@[1]@, 2);
            }
            if digits_between(d@[2]@, 1, 2) {
                lemma_dec_bound(d@[2]@, 2);
            }
            if digits_between(hms@[0]@, 1, 2) {
                lemma_dec_bound(hms@[0]@, 2);
            }
            if digits_between(hms@[1]@, 1, 2) {
                lemma_dec_bound(hms@[1]@, 2);
            }
            if digits_between(hms@[2]@, 1, 2) {
                lemma_dec_bound(hms@[2]@, 2);
            }
            if c.len() == 2 && digits_between(c@[1]@, 6, 6) {
                lemma_dec_bound(c@[1]@, 6);
            }
        }
        match (year, month, day, hour, minute, second, micro) {
            (Some(y), Some(mo), Some(dd), Some(h), Some(mi), Some(s), Some(u)) => Some(
                Time {
                    year: y as u16,
                    month: mo as u8,
                    day: dd as u8,
                    hour: h as u8,
                    minute: mi as u8,
                    second: s as u8,
                    mseconds: u as u32,
                },
            ),
            _ => None,
        }
    }

    /// The time written as one word (`2021-04-30T13:28:42.004916`).
    pub fn parse(w: &[u8]) -> (r: Option<Time>)
        ensures
            r == time_of(w@),
    {
        let t = split_bytes(w, sep_of(84).as_slice());
        proof {
            assert(bytes_of(t@).len() == t@.len());
        }
        if t.len() == 2 {
            proof {
                assert(bytes_of(t@)[0] == t@[0]@);
                assert(bytes_of(t@)[1] == t@[1]@);
            }
            return Time::parse_parts(t[0].as_slice(), t[1].as_slice());
        }
        let s = split_bytes(w, sep_of(32).as_slice());
        proof {
            assert(bytes_of(s@).len() == s@.len());
        }
        if s.len() == 2 {
            proof {
                assert(bytes_of(s@)[0] == s@[0]@);
                assert(bytes_of(s@)[1] == s@[1]@);
            }
            return Time::parse_parts(s[0].as_slice(), s[1].as_slice());
        }
        None
    }
}


/// An IP address: four bytes, or eight 16-bit groups.
#[derive(Debug, Clone, Copy, PartialEq, Eq)]
pub enum IpAddr {
    V4([u8; 4]),
    V6([u16; 8]),
}

/// The host part of a target.
#[derive(Debug, Clone, PartialEq, Eq)]
pub enum HostOrAddr {
    Host(Vec<u8>),
    Addr(IpAddr),
}

/// What a `HostOrAddr` holds, as plain values.
pub enum HostView {
    Host(Seq<u8>),
    V4(Seq<u8>),
    V6(Seq<u16>),
}

impl View for HostOrAddr {
    type V = HostView;

    open spec fn view(&self) -> HostView {
        match self {
            HostOrAddr::Host(h) => HostView::Host(h@),
            HostOrAddr::Addr(IpAddr::V4(a)) => HostView::V4(a@),
            HostOrAddr::Addr(IpAddr::V6(g)) => HostView::V6(g@),
        }
    }
}

pub open spec fn octets_ok(p: Seq<Seq<u8>>) -> bool {
    forall|i: int| 0 <= i < p.len() ==> digits_between(#[trigger] p[i], 1, 3) && dec_value(p[i]) <= 255
}

/// The four bytes of a dotted IPv4 address.
pub open spec fn ipv4_of(s: Seq<u8>) -> Option<Seq<u8>> {
    let p = split_on(s, seq![46u8]);
    if p.len() == 4 && octets_ok(p) {
        Some(p.map_values(|x: Seq<u8>| dec_value(x) as u8))
    } else {
        None
    }
}

pub open spec fn groups_ok(p: Seq<Seq<u8>>) -> bool {
    forall|i: int| 0 <= i < p.len() ==> 1 <= (#[trigger] p[i]).len() <= 4 && all_hex(p[i])
}

pub open spec fn group_values(p: Seq<Seq<u8>>) -> Seq<u16> {
    p.map_values(|x: Seq<u8>| hex_number(x) as u16)
}

/// Colon-separated groups; none in an empty string.
pub open spec fn hex_groups(s: Seq<u8>) -> Seq<Seq<u8>> {
    if s.len() == 0 {
        Seq::empty()
    } else {
        split_on(s, seq![58u8])
    }
}

/// The eight groups of an IPv6 address, where at most one `::` stands for
/// one or more zero groups.
pub open spec fn ipv6_of(s: Seq<u8>) -> Option<Seq<u16>> {
    let halves = split_on(s, seq![58u8, 58u8]);
    let g = hex_groups(s);
    if halves.len() == 1 {
        if g.len() == 8 && groups_ok(g) {
            Some(group_values(g))
        } else {
            None
        }
    } else if halves.len() == 2 {
        let l = hex_groups(halves[0]);
        let r = hex_groups(halves[1]);
        if l.len() + r.len() <= 7 && groups_ok(l) && groups_ok(r) {
            Some(
                group_values(l) + Seq::new((8 - l.len() - r.len()) as nat, |i: int| 0u16)
                    + group_values(r),
            )
        } else {
            None
        }
    } else {
        None
    }
}

pub open spec fn is_host_byte(c: u8) -> bool {
    is_alnum(c) || c == 46 || c == 45
}

pub open spec fn host_chars(s: Seq<u8>) -> bool {
    s.len() >= 1 && forall|i: int| 0 <= i < s.len() ==> is_host_byte(#[trigger] s[i])
}

/// The host written as `[V6]`, a dotted IPv4 address, or a host name.
pub open spec fn host_of(a: Seq<u8>) -> Option<HostView> {
    if a.len() >= 2 && a[0] == 91u8 && a.last() == 93u8 {
        match ipv6_of(a.subrange(1, a.len() - 1)) {
            Some(g) => Some(HostView::V6(g)),
            None => None,
        }
    } else if ipv4_of(a) is Some {
        Some(HostView::V4(ipv4_of(a)->0))
    } else if host_chars(a) {
        Some(HostView::Host(a))
    } else {
        None
    }
}

fn parse_groups(s: &[u8]) -> (r: Option<Vec<u16>>)
    ensures
        match r {
            Some(v) => groups_ok(hex_groups(s@)) && v@ == group_values(hex_groups(s@)),
            None => !groups_ok(hex_groups(s@)),
        },
{
    let mut out: Vec<u16> = Vec::new();
    if s.len() == 0 {
        assert(out@ =~= group_values(hex_groups(s@)));
        return Some(out);
    }
    let parts = split_bytes(s, sep_of(58).as_slice());
    let ghost g = hex_groups(s@);
    assert(g == bytes_of(parts@));
    let mut i: usize = 0;
    while i < parts.len()
        invariant
            i <= parts@.len() == g.len(),
            g == bytes_of(parts@),
            g == hex_groups(s@),
            forall|j: int| 0 <= j < i ==> 1 <= (#[trigger] g[j]).len() <= 4 && all_hex(g[j]),
            out@ =~= group_values(g.subrange(0, i as int)),
        decreases parts@.len() - i,
    {
        assert(g[i as int] == parts@[i as int]@);
        match parse_hex_u16(parts[i].as_slice()) {
            Some(v) => {
                out.push(v);
            },
            None => {
                assert(!groups_ok(g)) by {
                    assert(!(1 <= g[i as int].len() <= 4 && all_hex(g[i as int])));
                }
                return None;
            },
        }
        i = i + 1;
        assert(out@ =~= group_values(g.subrange(0, i as int)));
    }
    assert(g.subrange(0, i as int) =~= g);
    Some(out)
}

fn ipv6_from(s: &[u8]) -> (r: Option<[u16; 8]>)
    ensures
        match r {
            Some(a) => ipv6_of(s@) == Some(a@),
            None => ipv6_of(s@) is None,
        },
{
    let mut colons: Vec<u8> = sep_of(58);
    colons.push(58);
    assert(colons@ =~= seq![58u8, 58u8]);
    let halves = split_bytes(s, colons.as_slice());
    let n = halves.len();
    assert(bytes_of(halves@).len() == n);
    let v: Vec<u16>;
    if n == 1 {
        match parse_groups(s) {
            Some(g) => {
                if g.len() != 8 {
                    return None;
                }
                v = g;
            },
            None => {
                return None;
            },
        }
    } else if n == 2 {
        assert(bytes_of(halves@)[0] == halves@[0]@);
        assert(bytes_of(halves@)[1] == halves@[1]@);
        let l = parse_groups(halves[0].as_slice());
        let r = parse_groups(halves[1].as_slice());
        match (l, r) {
            (Some(l), Some(r)) => {
                if l.len() > 7 || r.len() > 7 - l.len() {
                    return None;
                }
                let mut g = l;
                let zeros = 8 - g.len() - r.len();
                let mut k: usize = 0;
                let ghost lv = g@;
                while k < zeros
                    invariant
                        k <= zeros,
                        g@ =~= lv + Seq::new(k as nat, |i: int| 0u16),
                    decreases zeros - k,
                {
                    g.push(0);
                    k = k + 1;
                }
                let mut j: usize = 0;
                let ghost zv = g@;
                while j < r.len()
                    invariant
                        j <= r@.len(),
                        g@ =~= zv + r@.subrange(0, j as int),
                    decreases r@.len() - j,
                {
                    g.push(r[j]);
                    j = j + 1;
                }
                assert(r@.subrange(0, r@.len() as int) =~= r@);
                v = g;
            },
            _ => {
                return None;
            },
        }
    } else {
        return None;
    }
    assert(v@.len() == 8);
    let a: [u16; 8] = [v[0], v[1], v[2], v[3], v[4], v[5], v[6], v[7]];
    assert(a@ =~= v@);
    Some(a)
}

fn ipv4_from(s: &[u8]) -> (r: Option<[u8; 4]>)
    ensures
        match r {
            Some(a) => ipv4_of(s@) == Some(a@),
            None => ipv4_of(s@) is None,
        },
{
    let p = split_bytes(s, sep_of(46).as_slice());
    let ghost g = bytes_of(p@);
    if p.len() != 4 {
        return None;
    }
    let mut out: Vec<u8> = Vec::new();
    let mut i: usize = 0;
    while i < 4
        invariant
            i <= 4,
            p@.len() == 4,
            g == bytes_of(p@),
            g == split_on(s@, seq![46u8]),
            forall|j: int| 0 <= j < i ==> digits_between(#[trigger] g[j], 1, 3) && dec_value(g[j]) <= 255,
            out@ =~= g.subrange(0, i as int).map_values(|x: Seq<u8>| dec_value(x) as u8),
        decreases 4 - i,
    {
        assert(g[i as int] == p@[i as int]@);
        match parse_decimal(p[i].as_slice(), 3, 255) {
            Some(v) => {
                out.push(v as u8);
            },
            None => {
                return None;
            },
        }
        i = i + 1;
        assert(out@ =~= g.subrange(0, i as int).map_values(|x: Seq<u8>| dec_value(x) as u8));
    }
    assert(g.subrange(0, 4) =~= g);
    let a: [u8; 4] = [out[0], out[1], out[2], out[3]];
    assert(a@ =~= out@);
    Some(a)
}

fn check_host_chars(s: &[u8]) -> (r: bool)
    ensures
        r == host_chars(s@),
{
    if s.len() == 0 {
        return false;
    }
    let mut i: usize = 0;
    while i < s.len()
        invariant
            i <= s@.len(),
            forall|j: int| 0 <= j < i ==> is_host_byte(#[trigger] s@[j]),
        decreases s@.len() - i,
    {
        let c = s[i];
        if !(is_alnum_byte(c) || c == 46 || c == 45) {
            return false;
        }
        i = i + 1;
    }
    true
}

impl HostOrAddr {
    /// The host written as `a`.
    pub fn parse(a: &[u8]) -> (r: Option<HostOrAddr>)
        ensures
            match r {
                Some(h) => host_of(a@) == Some(h@),
                None => host_of(a@) is None,
            },
    {
        if a.len() >= 2 && a[0] == 91 && a[a.len() - 1] == 93 {
            let inner = copy_range(a, 1, a.len() - 1);
            return match ipv6_from(inner.as_slice()) {
                Some(g) => Some(HostOrAddr::Addr(IpAddr::V6(g))),
                None => None,
            };
        }
        match ipv4_from(a) {
            Some(b) => {
                return Some(HostOrAddr::Addr(IpAddr::V4(b)));
            },
            None => {},
        }
        if check_host_chars(a) {
            assert(a@.subrange(0, a@.len() as int) =~= a@);
            Some(HostOrAddr::Host(copy_range(a, 0, a.len())))
        } else {
            None
        }
    }
}

/// An address and a port.
#[derive(Debug, Clone, PartialEq, Eq)]
pub struct Target {
    pub addr: HostOrAddr,
    pub port: u16,
}

pub struct TargetView {
    pub addr: HostView,
    pub port: u16,
}

impl View for Target {
    type V = TargetView;

    open spec fn view(&self) -> TargetView {
        TargetView { addr: self.addr@, port: self.port }
    }
}

/// A port: one to five digits, at most 65535.
pub open spec fn port_of(p: Seq<u8>) -> Option<u16> {
    if digits_between(p, 1, 5) && dec_value(p) <= 65535 {
        Some(dec_value(p) as u16)
    } else {
        None
    }
}

/// The target whose address and port are the two words `a` and `p`.
pub open spec fn target_of_parts(a: Seq<u8>, p: Seq<u8>) -> Option<TargetView> {
    match (host_of(a), port_of(p)) {
        (Some(h), Some(n)) => Some(TargetView { addr: h, port: n }),
        _ => None,
    }
}

/// The target written as one word: `HOST:PORT`, `V4:PORT` or `[V6]:PORT`.
pub open spec fn target_of(w: Seq<u8>) -> Option<TargetView> {
    if w.len() > 0 && w[0] == 91u8 {
        let parts = split_on(w, seq![93u8, 58u8]);
        if parts.len() == 2 {
            target_of_parts(parts[0].push(93u8), parts[1])
        } else {
            None
        }
    } else {
        let parts = split_on(w, seq![58u8]);
        if parts.len() == 2 {
            target_of_parts(parts[0], parts[1])
        } else {
            None
        }
    }
}

pub fn parse_port(p: &[u8]) -> (r: Option<u16>)
    ensures
        r == port_of(p@),
{
    match parse_decimal(p, 5, 65535) {
        Some(v) => Some(v as u16),
        None => None,
    }
}

impl Target {
    /// The target whose address and port are the words `a` and `p`.
    pub fn parse_parts(a: &[u8], p: &[u8]) -> (r: Option<Target>)
        ensures
            match r {
                Some(t) => target_of_parts(a@, p@) == Some(t@),
                None => target_of_parts(a@, p@) is None,
            },
    {
        let addr = HostOrAddr::parse(a);
        let port = parse_port(p);
        match (addr, port) {
            (Some(h), Some(n)) => Some(Target { addr: h, port: n }),
            _ => None,
        }
    }

    /// The target written as one word.
    pub fn parse(w: &[u8]) -> (r: Option<Target>)
        ensures
            match r {
                Some(t) => target_of(w@) == Some(t@),
                None => target_of(w@) is None,
            },
    {
        if w.len() > 0 && w[0] == 91 {
            let mut sep = sep_of(93);
            sep.push(58);
            assert(sep@ =~= seq![93u8, 58u8]);
            let parts = split_bytes(w, sep.as_slice());
            assert(bytes_of(parts@).len() == parts@.len());
            if parts.len() != 2 {
                return None;
            }
            assert(bytes_of(parts@)[0] == parts@[0]@);
            assert(bytes_of(parts@)[1] == parts@[1]@);
            let mut a = copy_range(parts[0].as_slice(), 0, parts[0].len());
            a.push(93);
            assert(parts@[0]@.subrange(0, parts@[0]@.len() as int) =~= parts@[0]@);
            Target::parse_parts(a.as_slice(), parts[1].as_slice())
        } else {
            let parts = split_bytes(w, sep_of(58).as_slice());
            assert(bytes_of(parts@).len() == parts@.len());
            if parts.len() != 2 {
                return None;
            }
            assert(bytes_of(parts@)[0] == parts@[0]@);
            assert(bytes_of(parts@)[1] == parts@[1]@);
            Target::parse_parts(parts[0].as_slice(), parts[1].as_slice())
        }
    }
}


pub open spec fn v4_parts(a: Seq<u8>) -> Seq<Seq<u8>> {
    seq![dec_text(a[0] as nat), dec_text(a[1] as nat), dec_text(a[2] as nat), dec_text(a[3] as nat)]
}

pub open spec fn v6_parts(g: Seq<u16>) -> Seq<Seq<u8>> {
    g.map_values(|x: u16| hex_text(x as nat))
}

/// The host as written: a name as it is, IPv4 dotted, IPv6 as eight
/// lower-case groups in brackets.
pub open spec fn host_text(h: HostView) -> Seq<u8> {
    match h {
        HostView::Host(s) => s,
        HostView::V4(a) => join_front(v4_parts(a), seq![46u8]),
        HostView::V6(g) => seq![91u8] + join_front(v6_parts(g), seq![58u8]) + seq![93u8],
    }
}

/// The target as written: `HOST:PORT`, `V4:PORT` or `[V6]:PORT`.
pub open spec fn target_text(t: TargetView) -> Seq<u8> {
    host_text(t.addr) + seq![58u8] + dec_text(t.port as nat)
}

/// A target whose host name reads back as a host name.
pub open spec fn target_wf(t: TargetView) -> bool {
    match t.addr {
        HostView::Host(s) => host_of(s) == Some(HostView::Host(s)),
        HostView::V4(a) => a.len() == 4,
        HostView::V6(g) => g.len() == 8,
    }
}

impl HostOrAddr {
    /// Appends the host as written.
    pub fn write_text(&self, out: &mut Vec<u8>)
        ensures
            final(out)@ == old(out)@ + host_text(self@),
    {
        match self {
            HostOrAddr::Host(h) => {
                push_bytes(out, h.as_slice());
            },
            HostOrAddr::Addr(IpAddr::V4(a)) => {
                let ghost start = out@;
                let ghost parts = v4_parts(a@);
                write_decimal(out, a[0] as u64);
                assert(parts.subrange(0, 1) =~= seq![parts[0]]);
                let mut i: usize = 1;
                while i < 4
                    invariant
                        1 <= i <= 4,
                        parts == v4_parts(a@),
                        out@ == start + join_front(parts.subrange(0, i as int), seq![46u8]),
                    decreases 4 - i,
                {
                    out.push(46);
                    write_decimal(out, a[i] as u64);
                    proof {
                        assert(parts.subrange(0, i + 1) =~= parts.subrange(0, i as int).push(parts[i as int]));
                        lemma_join_push(parts.subrange(0, i as int), parts[i as int], seq![46u8]);
                    }
                    i = i + 1;
                    assert(out@ =~= start + join_front(parts.subrange(0, i as int), seq![46u8]));
                }
                assert(parts.subrange(0, 4) =~= parts);
            },
            HostOrAddr::Addr(IpAddr::V6(g)) => {
                let ghost parts = v6_parts(g@);
                out.push(91);
                let ghost start = out@;
                write_hex(out, g[0] as u64);
                assert(parts.subrange(0, 1) =~= seq![parts[0]]);
                let mut i: usize = 1;
                while i < 8
                    invariant
                        1 <= i <= 8,
                        parts == v6_parts(g@),
                        out@ == start + join_front(parts.subrange(0, i as int), seq![58u8]),
                    decreases 8 - i,
                {
                    out.push(58);
                    write_hex(out, g[i] as u64);
                    proof {
                        assert(parts.subrange(0, i + 1) =~= parts.subrange(0, i as int).push(parts[i as int]));
                        lemma_join_push(parts.subrange(0, i as int), parts[i as int], seq![58u8]);
                    }
                    i = i + 1;
                    assert(out@ =~= start + join_front(parts.subrange(0, i as int), seq![58u8]));
                }
                assert(parts.subrange(0, 8) =~= parts);
                out.push(93);
                assert(out@ =~= old(out)@ + host_text(self@));
            },
        }
    }
}

impl Target {
    /// The target as written.
    pub fn to_text(&self) -> (r: Vec<u8>)
        ensures
            r@ == target_text(self@),
    {
        let mut out: Vec<u8> = Vec::new();
        self.addr.write_text(&mut out);
        out.push(58);
        write_decimal(&mut out, self.port as u64);
        assert(out@ =~= target_text(self@));
        out
    }
}

proof fn lemma_v4_round_trip(a: Seq<u8>)
    requires
        a.len() == 4,
    ensures
        ipv4_of(join_front(v4_parts(a), seq![46u8])) == Some(a),
        lacks(join_front(v4_parts(a), seq![46u8]), 58u8),
        lacks(join_front(v4_parts(a), seq![46u8]), 91u8),
        join_front(v4_parts(a), seq![46u8]).len() >= 1,
        is_digit(join_front(v4_parts(a), seq![46u8])[0]),
{
    let ps = v4_parts(a);
    reveal_with_fuel(pow10, 4);
    assert forall|i: int| 0 <= i < 4 implies digits_between(#[trigger] ps[i], 1, 3) && dec_value(ps[i])
        == a[i] as nat by {
        lemma_dec_text(a[i] as nat, 3);
    }
    assert forall|i: int| 0 <= i < ps.len() implies lacks(#[trigger] ps[i], 46u8) by {
        lemma_dec_text(a[i] as nat, 3);
        lemma_digits_lack(ps[i], 46u8);
    }
    lemma_split_join(ps, seq![46u8]);
    assert(octets_ok(ps));
    assert(ps.map_values(|x: Seq<u8>| dec_value(x) as u8) =~= a);
    assert forall|i: int| 0 <= i < ps.len() implies lacks(#[trigger] ps[i], 58u8) by {
        lemma_dec_text(a[i] as nat, 3);
        lemma_digits_lack(ps[i], 58u8);
    }
    lemma_join_lacks(ps, seq![46u8], 58u8);
    assert forall|i: int| 0 <= i < ps.len() implies lacks(#[trigger] ps[i], 91u8) by {
        lemma_dec_text(a[i] as nat, 3);
        lemma_digits_lack(ps[i], 91u8);
    }
    lemma_join_lacks(ps, seq![46u8], 91u8);
    let j = join_front(ps, seq![46u8]);
    assert(j =~= ps[0] + seq![46u8] + join_front(ps.drop_first(), seq![46u8]));
    lemma_dec_text(a[0] as nat, 3);
    assert(j[0] == ps[0][0]);
}

proof fn lemma_v6_round_trip(g: Seq<u16>)
    requires
        g.len() == 8,
    ensures
        ipv6_of(join_front(v6_parts(g), seq![58u8])) == Some(g),
        lacks(join_front(v6_parts(g), seq![58u8]), 93u8),
{
    let ps = v6_parts(g);
    let j = join_front(ps, seq![58u8]);
    reveal_with_fuel(pow16, 5);
    assert forall|i: int| 0 <= i < ps.len() implies (#[trigger] ps[i]).len() >= 1 && lacks(ps[i], 58u8) && lacks(
        ps[i],
        93u8,
    ) && 1 <= ps[i].len() <= 4 && all_hex(ps[i]) && hex_number(ps[i]) == g[i] as nat by {
        lemma_hex_text(g[i] as nat, 4);
        assert forall|k: int| 0 <= k < ps[i].len() implies ps[i][k] != 58u8 && ps[i][k] != 93u8 by {
            assert(is_hex_digit(ps[i][k]));
        }
    }
    lemma_join_no_double(ps, 58u8);
    assert forall|k: int| 0 <= k < j.len() implies !occurs_at(j, seq![58u8, 58u8], k) by {
        if occurs_at(j, seq![58u8, 58u8], k) {
            assert(j.subrange(k, k + 2)[0] == j[k]);
            assert(j.subrange(k, k + 2)[1] == j[k + 1]);
        }
    }
    lemma_first_occ_none(j, seq![58u8, 58u8], 0);
    assert(split_on(j, seq![58u8, 58u8]) == seq![j.subrange(0, j.len() as int)]);
    assert(j.subrange(0, j.len() as int) =~= j);
    lemma_split_join(ps, seq![58u8]);
    assert(hex_groups(j) == ps);
    assert(groups_ok(ps));
    assert(group_values(ps) =~= g);
    lemma_join_lacks(ps, seq![58u8], 93u8);
}

/// The text of a target reads back as that target.
pub proof fn lemma_target_round_trip(t: TargetView)
    requires
        target_wf(t),
    ensures
        target_of(target_text(t)) == Some(t),
{
    let dt = dec_text(t.port as nat);
    reveal_with_fuel(pow10, 6);
    lemma_dec_text(t.port as nat, 5);
    assert(port_of(dt) == Some(t.port));
    assert(lacks(dt, 58u8)) by {
        lemma_digits_lack(dt, 58u8);
    }
    assert(lacks(dt, 93u8)) by {
        lemma_digits_lack(dt, 93u8);
    }
    let w = target_text(t);
    match t.addr {
        HostView::Host(s) => {
            assert(host_chars(s));
            assert(lacks(s, 58u8)) by {
                assert forall|i: int| 0 <= i < s.len() implies s[i] != 58u8 by {
                    assert(is_host_byte(s[i]));
                }
            }
            assert(is_host_byte(s[0]));
            let ps = seq![s, dt];
            assert(ps.drop_first() =~= seq![dt]);
            assert(join_front(seq![dt], seq![58u8]) == dt);
            assert(join_front(ps, seq![58u8]) =~= w);
            lemma_split_join(ps, seq![58u8]);
            assert(w[0] == s[0]);
        },
        HostView::V4(a) => {
            lemma_v4_round_trip(a);
            let h = join_front(v4_parts(a), seq![46u8]);
            let ps = seq![h, dt];
            assert(ps.drop_first() =~= seq![dt]);
            assert(join_front(seq![dt], seq![58u8]) == dt);
            assert(join_front(ps, seq![58u8]) =~= w);
            lemma_split_join(ps, seq![58u8]);
            assert(w[0] == h[0]);
            assert(host_of(h) == Some(HostView::V4(a)));
        },
        HostView::V6(g) => {
            lemma_v6_round_trip(g);
            let j = join_front(v6_parts(g), seq![58u8]);
            let h = seq![91u8] + j;
            assert(lacks(h, 93u8)) by {
                assert forall|i: int| 0 <= i < h.len() implies h[i] != 93u8 by {
                    if i > 0 {
                        assert(h[i] == j[i - 1]);
                    }
                }
            }
            let ps = seq![h, dt];
            assert(ps.drop_first() =~= seq![dt]);
            assert(join_front(seq![dt], seq![93u8, 58u8]) == dt);
            assert(join_front(ps, seq![93u8, 58u8]) =~= w);
            lemma_split_join(ps, seq![93u8, 58u8]);
            assert(w[0] == 91u8);
            let a = h.push(93u8);
            assert(a =~= host_text(t.addr));
            assert(a.subrange(1, a.len() - 1) =~= j);
            assert(host_of(a) == Some(HostView::V6(g)));
        },
    }
}


/// The time as `YYYY-MM-DDTHH:MM:SS.uuuuuu`.
pub open spec fn time_text(t: Time) -> Seq<u8> {
    pad_dec(t.year as nat, 4) + seq![45u8] + pad_dec(t.month as nat, 2) + seq![45u8] + pad_dec(
        t.day as nat,
        2,
    ) + seq![84u8] + pad_dec(t.hour as nat, 2) + seq![58u8] + pad_dec(t.minute as nat, 2) + seq![58u8]
        + pad_dec(t.second as nat, 2) + seq![46u8] + pad_dec(t.mseconds as nat, 6)
}

impl Time {
    /// Appends the time as written.
    pub fn write_text(&self, out: &mut Vec<u8>)
        ensures
            final(out)@ == old(out)@ + time_text(*self),
    {
        write_padded(out, self.year as u64, 4);
        out.push(45);
        write_padded(out, self.month as u64, 2);
        out.push(45);
        write_padded(out, self.day as u64, 2);
        out.push(84);
        write_padded(out, self.hour as u64, 2);
        out.push(58);
        write_padded(out, self.minute as u64, 2);
        out.push(58);
        write_padded(out, self.second as u64, 2);
        out.push(46);
        write_padded(out, self.mseconds as u64, 6);
        assert(out@ =~= old(out)@ + time_text(*self));
    }

    /// The time as written.
    pub fn to_text(&self) -> (r: Vec<u8>)
        ensures
            r@ == time_text(*self),
    {
        let mut out: Vec<u8> = Vec::new();
        self.write_text(&mut out);
        assert(out@ =~= time_text(*self));
        out
    }
}


/// Fields within the widths that the text gives them.
pub open spec fn time_wf(t: Time) -> bool {
    t.year <= 9999 && t.month <= 99 && t.day <= 99 && t.hour <= 99 && t.minute <= 99 && t.second <= 99
        && t.mseconds <= 999999
}

proof fn lemma_pad_field(n: nat, w: nat, lo: nat)
    requires
        1 <= lo <= w <= 6,
        n < pow10(w),
    ensures
        pad_dec(n, w).len() == w,
        digits_between(pad_dec(n, w), lo, w),
        dec_value(pad_dec(n, w)) == n,
        lacks(pad_dec(n, w), 84u8) && lacks(pad_dec(n, w), 45u8) && lacks(pad_dec(n, w), 46u8)
            && lacks(pad_dec(n, w), 58u8) && lacks(pad_dec(n, w), 32u8) && lacks(pad_dec(n, w), 44u8)
            && lacks(pad_dec(n, w), 61u8),
{
    lemma_pad_dec(n, w);
    lemma_digits_lack(pad_dec(n, w), 84u8);
    lemma_digits_lack(pad_dec(n, w), 45u8);
    lemma_digits_lack(pad_dec(n, w), 46u8);
    lemma_digits_lack(pad_dec(n, w), 58u8);
    lemma_digits_lack(pad_dec(n, w), 32u8);
    lemma_digits_lack(pad_dec(n, w), 44u8);
    lemma_digits_lack(pad_dec(n, w), 61u8);
}

/// The text of a time reads back as that time; it holds no space, comma or
/// equals sign.
pub proof fn lemma_time_round_trip(t: Time)
    requires
        time_wf(t),
    ensures
        time_of(time_text(t)) == Some(t),
        lacks(time_text(t), 32u8),
        lacks(time_text(t), 44u8),
        lacks(time_text(t), 61u8),
{
    reveal_with_fuel(pow10, 7);
    let y = pad_dec(t.year as nat, 4);
    let mo = pad_dec(t.month as nat, 2);
    let d = pad_dec(t.day as nat, 2);
    let h = pad_dec(t.hour as nat, 2);
    let mi = pad_dec(t.minute as nat, 2);
    let sec = pad_dec(t.second as nat, 2);
    let us = pad_dec(t.mseconds as nat, 6);
    lemma_pad_field(t.year as nat, 4, 4);
    lemma_pad_field(t.month as nat, 2, 1);
    lemma_pad_field(t.day as nat, 2, 1);
    lemma_pad_field(t.hour as nat, 2, 1);
    lemma_pad_field(t.minute as nat, 2, 1);
    lemma_pad_field(t.second as nat, 2, 1);
    lemma_pad_field(t.mseconds as nat, 6, 6);
    let date = y + seq![45u8] + mo + seq![45u8] + d;
    let hms = h + seq![58u8] + mi + seq![58u8] + sec;
    let clock = hms + seq![46u8] + us;
    let text = time_text(t);
    assert(text =~= date + seq![84u8] + clock);
    lemma_join3(y, mo, d, seq![45u8]);
    lemma_join3(h, mi, sec, seq![58u8]);
    lemma_join2(hms, us, seq![46u8]);
    lemma_join2(date, clock, seq![84u8]);
    assert(lacks(date, 84u8) && lacks(clock, 84u8)) by {
        assert forall|i: int| 0 <= i < date.len() implies date[i] != 84u8 by {
            if i < 4 {
                assert(date[i] == y[i]);
            } else if 5 <= i < 7 {
                assert(date[i] == mo[i - 5]);
            } else if 8 <= i {
                assert(date[i] == d[i - 8]);
            }
        }
        assert forall|i: int| 0 <= i < clock.len() implies clock[i] != 84u8 by {
            if i < 2 {
                assert(clock[i] == h[i]);
            } else if 3 <= i < 5 {
                assert(clock[i] == mi[i - 3]);
            } else if 6 <= i < 8 {
                assert(clock[i] == sec[i - 6]);
            } else if 9 <= i {
                assert(clock[i] == us[i - 9]);
            }
        }
    }
    lemma_split_join(seq![date, clock], seq![84u8]);
    assert(seq![date, clock][0] == date);
    lemma_split_join(seq![y, mo, d], seq![45u8]);
    assert(lacks(hms, 46u8)) by {
        assert forall|i: int| 0 <= i < hms.len() implies hms[i] != 46u8 by {
            if i < 2 {
                assert(hms[i] == h[i]);
            } else if 3 <= i < 5 {
                assert(hms[i] == mi[i - 3]);
            } else if 6 <= i {
                assert(hms[i] == sec[i - 6]);
            }
        }
    }
    lemma_split_join(seq![hms, us], seq![46u8]);
    lemma_split_join(seq![h, mi, sec], seq![58u8]);
    assert(time_of_parts(date, clock) == Some(t));
    assert forall|b: u8| b == 32u8 || b == 44u8 || b == 61u8 implies lacks(text, b) by {
        assert forall|i: int| 0 <= i < text.len() implies text[i] != b by {
            if i < 4 {
                assert(text[i] == y[i]);
            } else if 5 <= i < 7 {
                assert(text[i] == mo[i - 5]);
            } else if 8 <= i < 10 {
                assert(text[i] == d[i - 8]);
            } else if 11 <= i < 13 {
                assert(text[i] == h[i - 11]);
            } else if 14 <= i < 16 {
                assert(text[i] == mi[i - 14]);
            } else if 17 <= i < 19 {
                assert(text[i] == sec[i - 17]);
            } else if 20 <= i {
                assert(text[i] == us[i - 20]);
            }
        }
    }
}


/// A parsed time's fields stay within the widths of its text.
pub proof fn lemma_time_parsed_wf(w: Seq<u8>)
    requires
        time_of(w) is Some,
    ensures
        time_wf(time_of(w)->0),
{
    let t = split_on(w, seq![84u8]);
    let s = split_on(w, seq![32u8]);
    if t.len() == 2 {
        lemma_time_parts_wf(t[0], t[1]);
    } else {
        lemma_time_parts_wf(s[0], s[1]);
    }
}

proof fn lemma_time_parts_wf(date: Seq<u8>, clock: Seq<u8>)
    requires
        time_of_parts(date, clock) is Some,
    ensures
        time_wf(time_of_parts(date, clock)->0),
{
    let d = split_on(date, seq![45u8]);
    let c = split_on(clock, seq![46u8]);
    let hms = split_on(c[0], seq![58u8]);
    reveal_with_fuel(pow10, 7);
    lemma_dec_bound(d[0], 4);
    lemma_dec_bound(d[1], 2);
    lemma_dec_bound(d[2], 2);
    lemma_dec_bound(hms[0], 2);
    lemma_dec_bound(hms[1], 2);
    lemma_dec_bound(hms[2], 2);
    if c.len() == 2 {
        lemma_dec_bound(c[1], 6);
    }
}

} // verus!
