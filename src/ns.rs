//! The consensus view of onion routers: their flags and the record the
//! daemon gives for each in `ns/id/...` and `ns/all`.
use vstd::prelude::*;
use vstd::string::StringSliceAdditionalSpecFns;

use crate::circuit::nickname_ok;
use crate::common::{
    port_of, target_of, target_of_parts, time_of, time_of_parts, HostOrAddr, HostView, IpAddr, Target,
    TargetView, Time,
};
use crate::encoding::{base64_decode, base64_decoded};
use crate::error::Error;
use crate::text::{
    bytes_of, check_alnum, copy_range, dec_value, digits_between, eq_bytes,
    parse_decimal, sep_of, split_bytes, split_on, to_array, record_lines, split_records,
    hex_lower, join_bytes, join_front, push_bytes,
};

verus! {

/// A consensus flag of an onion router.
#[derive(Debug, Clone, Copy, PartialEq, Eq, Structural)]
pub enum OnionRouterFlag {
    /// A directory authority.
    Authority,
    /// Believed useless as an exit node.
    BadExit,
    /// Preferred for exit circuits.
    Exit,
    /// Suitable for high-bandwidth circuits.
    Fast,
    /// Suitable as an entry guard.
    Guard,
    /// A hidden-service directory.
    HSDir,
    /// An Ed25519 key does not reflect the authorities' consensus.
    NoEdConsensus,
    /// Suitable for long-lived circuits.
    Stable,
    /// Should upload a new descriptor.
    StaleDesc,
    /// Currently usable over all its published ports.
    Running,
    /// Validated by the authorities.
    Valid,
    /// Implements the v2 directory protocol or higher.
    V2Dir,
}

impl OnionRouterFlag {
    /// Its token on the wire.
    pub open spec fn token(self) -> Seq<u8> {
        match self {
            OnionRouterFlag::Authority => "Authority".spec_bytes(),
            OnionRouterFlag::BadExit => "BadExit".spec_bytes(),
            OnionRouterFlag::Exit => "Exit".spec_bytes(),
            OnionRouterFlag::Fast => "Fast".spec_bytes(),
            OnionRouterFlag::Guard => "Guard".spec_bytes(),
            OnionRouterFlag::HSDir => "HSDir".spec_bytes(),
            OnionRouterFlag::NoEdConsensus => "NoEdConsensus".spec_bytes(),
            OnionRouterFlag::Stable => "Stable".spec_bytes(),
            OnionRouterFlag::StaleDesc => "StaleDesc".spec_bytes(),
            OnionRouterFlag::Running => "Running".spec_bytes(),
            OnionRouterFlag::Valid => "Valid".spec_bytes(),
            OnionRouterFlag::V2Dir => "V2Dir".spec_bytes(),
        }
    }

    /// The value whose token `w` is.
    pub open spec fn from_token(w: Seq<u8>) -> Option<Self> {
        if w == "Authority".spec_bytes() {
            Some(OnionRouterFlag::Authority)
        } else if w == "BadExit".spec_bytes() {
            Some(OnionRouterFlag::BadExit)
        } else if w == "Exit".spec_bytes() {
            Some(OnionRouterFlag::Exit)
        } else if w == "Fast".spec_bytes() {
            Some(OnionRouterFlag::Fast)
        } else if w == "Guard".spec_bytes() {
            Some(OnionRouterFlag::Guard)
        } else if w == "HSDir".spec_bytes() {
            Some(OnionRouterFlag::HSDir)
        } else if w == "NoEdConsensus".spec_bytes() {
            Some(OnionRouterFlag::NoEdConsensus)
        } else if w == "Stable".spec_bytes() {
            Some(OnionRouterFlag::Stable)
        } else if w == "StaleDesc".spec_bytes() {
            Some(OnionRouterFlag::StaleDesc)
        } else if w == "Running".spec_bytes() {
            Some(OnionRouterFlag::Running)
        } else if w == "Valid".spec_bytes() {
            Some(OnionRouterFlag::Valid)
        } else if w == "V2Dir".spec_bytes() {
            Some(OnionRouterFlag::V2Dir)
        } else {
            None
        }
    }

    /// The value whose token is the whole of `w`.
    pub fn parse(w: &[u8]) -> (r: Option<Self>)
        ensures
            r == Self::from_token(w@),
    {
        if eq_bytes(w, "Authority".as_bytes()) {
            Some(OnionRouterFlag::Authority)
        } else if eq_bytes(w, "BadExit".as_bytes()) {
            Some(OnionRouterFlag::BadExit)
        } else if eq_bytes(w, "Exit".as_bytes()) {
            Some(OnionRouterFlag::Exit)
        } else if eq_bytes(w, "Fast".as_bytes()) {
            Some(OnionRouterFlag::Fast)
        } else if eq_bytes(w, "Guard".as_bytes()) {
            Some(OnionRouterFlag::Guard)
        } else if eq_bytes(w, "HSDir".as_bytes()) {
            Some(OnionRouterFlag::HSDir)
        } else if eq_bytes(w, "NoEdConsensus".as_bytes()) {
            Some(OnionRouterFlag::NoEdConsensus)
        } else if eq_bytes(w, "Stable".as_bytes()) {
            Some(OnionRouterFlag::Stable)
        } else if eq_bytes(w, "StaleDesc".as_bytes()) {
            Some(OnionRouterFlag::StaleDesc)
        } else if eq_bytes(w, "Running".as_bytes()) {
            Some(OnionRouterFlag::Running)
        } else if eq_bytes(w, "Valid".as_bytes()) {
            Some(OnionRouterFlag::Valid)
        } else if eq_bytes(w, "V2Dir".as_bytes()) {
            Some(OnionRouterFlag::V2Dir)
        } else {
            None
        }
    }

    /// The token of this value.
    pub fn to_text(&self) -> (r: &'static [u8])
        ensures
            r@ == self.token(),
    {
        match self {
            OnionRouterFlag::Authority => "Authority".as_bytes(),
            OnionRouterFlag::BadExit => "BadExit".as_bytes(),
            OnionRouterFlag::Exit => "Exit".as_bytes(),
            OnionRouterFlag::Fast => "Fast".as_bytes(),
            OnionRouterFlag::Guard => "Guard".as_bytes(),
            OnionRouterFlag::HSDir => "HSDir".as_bytes(),
            OnionRouterFlag::NoEdConsensus => "NoEdConsensus".as_bytes(),
            OnionRouterFlag::Stable => "Stable".as_bytes(),
            OnionRouterFlag::StaleDesc => "StaleDesc".as_bytes(),
            OnionRouterFlag::Running => "Running".as_bytes(),
            OnionRouterFlag::Valid => "Valid".as_bytes(),
            OnionRouterFlag::V2Dir => "V2Dir".as_bytes(),
        }
    }
}

impl OnionRouterFlag {
    /// Position of the flag's bit.
    pub open spec fn index(self) -> u32 {
        match self {
            OnionRouterFlag::Authority => 0,
            OnionRouterFlag::BadExit => 1,
            OnionRouterFlag::Exit => 2,
            OnionRouterFlag::Fast => 3,
            OnionRouterFlag::Guard => 4,
            OnionRouterFlag::HSDir => 5,
            OnionRouterFlag::NoEdConsensus => 6,
            OnionRouterFlag::Stable => 7,
            OnionRouterFlag::StaleDesc => 8,
            OnionRouterFlag::Running => 9,
            OnionRouterFlag::Valid => 10,
            OnionRouterFlag::V2Dir => 11,
        }
    }

    pub fn bit_index(&self) -> (r: u32)
        ensures
            r == self.index(),
    {
        match self {
            OnionRouterFlag::Authority => 0,
            OnionRouterFlag::BadExit => 1,
            OnionRouterFlag::Exit => 2,
            OnionRouterFlag::Fast => 3,
            OnionRouterFlag::Guard => 4,
            OnionRouterFlag::HSDir => 5,
            OnionRouterFlag::NoEdConsensus => 6,
            OnionRouterFlag::Stable => 7,
            OnionRouterFlag::StaleDesc => 8,
            OnionRouterFlag::Running => 9,
            OnionRouterFlag::Valid => 10,
            OnionRouterFlag::V2Dir => 11,
        }
    }
}

/// The bit that stands for `f`.
pub open spec fn flag_bit(f: OnionRouterFlag) -> u32 {
    1u32 << f.index()
}

/// A set of onion-router flags, one bit per flag.
#[derive(Debug, Default, Clone, Copy, PartialEq, Eq)]
pub struct OnionRouterFlags {
    flags: u32,
}

proof fn lemma_bits(x: u32, y: u32, i: u32, j: u32) by (bit_vector)
    requires
        i < 12,
        j < 12,
    ensures
        ((x | (1u32 << i)) & (1u32 << j) != 0) == ((x & (1u32 << j) != 0) || i == j),
        ((x & (0xffff_ffffu32 ^ (1u32 << i))) & (1u32 << j) != 0) == ((x & (1u32 << j) != 0)
            && i != j),
        ((x | y) & (1u32 << j) != 0) == ((x & (1u32 << j) != 0) || (y & (1u32 << j) != 0)),
        ((x & y) & (1u32 << j) != 0) == ((x & (1u32 << j) != 0) && (y & (1u32 << j) != 0)),
        x < 4096 ==> (x | (1u32 << i)) < 4096,
        x < 4096 ==> (x & (0xffff_ffffu32 ^ (1u32 << i))) < 4096,
        x < 4096 && y < 4096 ==> (x | y) < 4096,
        x < 4096 ==> (x & y) < 4096,
        0u32 & (1u32 << j) == 0,
        ((x & (1u32 << j)) == (1u32 << j)) == (x & (1u32 << j) != 0),
{
}

proof fn lemma_index_injective(f: OnionRouterFlag, g: OnionRouterFlag)
    ensures
        f.index() < 12,
        (f.index() == g.index()) == (f == g),
{
}

impl View for OnionRouterFlags {
    type V = Set<OnionRouterFlag>;

    closed spec fn view(&self) -> Set<OnionRouterFlag> {
        Set::new(|f: OnionRouterFlag| self.flags & flag_bit(f) != 0)
    }
}

impl OnionRouterFlags {
    /// No bit is set but those of the twelve flags.
    pub closed spec fn wf(&self) -> bool {
        self.flags < 4096
    }

    /// The empty set.
    pub fn new() -> (r: OnionRouterFlags)
        ensures
            r.wf(),
            r@ == Set::<OnionRouterFlag>::empty(),
    {
        let r = OnionRouterFlags { flags: 0 };
        assert forall|f: OnionRouterFlag| !r@.contains(f) by {
            lemma_index_injective(f, f);
            lemma_bits(0, 0, 0, f.index());
        }
        assert(r@ =~= Set::<OnionRouterFlag>::empty());
        r
    }

    /// Adds `flag`.
    pub fn set(&mut self, flag: OnionRouterFlag)
        requires
            old(self).wf(),
        ensures
            final(self).wf(),
            final(self)@ == old(self)@.insert(flag),
    {
        let ghost x = self.flags;
        let i = flag.bit_index();
        proof {
            lemma_index_injective(flag, flag);
        }
        self.flags = self.flags | (1u32 << i);
        proof {
            lemma_bits(x, 0, i, 0);
            assert forall|g: OnionRouterFlag| #[trigger] self@.contains(g) == old(self)@.insert(flag).contains(g) by {
                lemma_index_injective(g, flag);
                lemma_bits(x, 0, i, g.index());
            }
        }
        assert(self@ =~= old(self)@.insert(flag));
    }

    /// Adds every flag of `other`.
    pub fn or(&mut self, other: OnionRouterFlags)
        requires
            old(self).wf(),
            other.wf(),
        ensures
            final(self).wf(),
            final(self)@ == old(self)@.union(other@),
    {
        let ghost x = self.flags;
        self.flags = self.flags | other.flags;
        proof {
            lemma_bits(x, other.flags, 0, 0);
            assert forall|g: OnionRouterFlag| #[trigger] self@.contains(g) == old(self)@.union(other@).contains(g) by {
                lemma_index_injective(g, g);
                lemma_bits(x, other.flags, 0, g.index());
            }
        }
        assert(self@ =~= old(self)@.union(other@));
    }

    /// Keeps only the flags that `other` has too.
    pub fn and(&mut self, other: OnionRouterFlags)
        requires
            old(self).wf(),
            other.wf(),
        ensures
            final(self).wf(),
            final(self)@ == old(self)@.intersect(other@),
    {
        let ghost x = self.flags;
        self.flags = self.flags & other.flags;
        proof {
            lemma_bits(x, other.flags, 0, 0);
            assert forall|g: OnionRouterFlag| #[trigger] self@.contains(g) == old(self)@.intersect(other@).contains(g) by {
                lemma_index_injective(g, g);
                lemma_bits(x, other.flags, 0, g.index());
            }
        }
        assert(self@ =~= old(self)@.intersect(other@));
    }

    /// Takes `flag` out.
    pub fn remove(&mut self, flag: OnionRouterFlag)
        requires
            old(self).wf(),
        ensures
            final(self).wf(),
            final(self)@ == old(self)@.remove(flag),
    {
        let ghost x = self.flags;
        let i = flag.bit_index();
        proof {
            lemma_index_injective(flag, flag);
        }
        self.flags = self.flags & (0xffff_ffffu32 ^ (1u32 << i));
        proof {
            lemma_bits(x, 0, i, 0);
            assert forall|g: OnionRouterFlag| #[trigger] self@.contains(g) == old(self)@.remove(flag).contains(g) by {
                lemma_index_injective(g, flag);
                lemma_bits(x, 0, i, g.index());
            }
        }
        assert(self@ =~= old(self)@.remove(flag));
    }

    /// Whether `flag` is in the set.
    pub fn is_set(&self, flag: OnionRouterFlag) -> (r: bool)
        ensures
            r == self@.contains(flag),
    {
        let i = flag.bit_index();
        proof {
            lemma_index_injective(flag, flag);
            lemma_bits(self.flags, 0, 0, i);
        }
        let b = 1u32 << i;
        self.flags & b == b
    }
}

/// An onion router as the consensus describes it.
#[derive(Debug, Clone, PartialEq, Eq)]
pub struct OnionRouter {
    pub nickname: Vec<u8>,
    pub identity: [u8; 20],
    pub digest: [u8; 20],
    pub publication: Time,
    pub target: Target,
    /// `None` where the record gives 0.
    pub directory_port: Option<u16>,
    pub advertise_ipv6: Option<([u16; 8], u16)>,
    pub flags: OnionRouterFlags,
    pub bandwidth: Option<u32>,
}

pub struct OnionRouterView {
    pub nickname: Seq<u8>,
    pub identity: Seq<u8>,
    pub digest: Seq<u8>,
    pub publication: Time,
    pub target: TargetView,
    pub directory_port: Option<u16>,
    pub advertise_ipv6: Option<(Seq<u16>, u16)>,
    pub flags: Set<OnionRouterFlag>,
    pub bandwidth: Option<u32>,
}

impl View for OnionRouter {
    type V = OnionRouterView;

    open spec fn view(&self) -> OnionRouterView {
        OnionRouterView {
            nickname: self.nickname@,
            identity: self.identity@,
            digest: self.digest@,
            publication: self.publication,
            target: self.target@,
            directory_port: self.directory_port,
            advertise_ipv6: match self.advertise_ipv6 {
                Some((g, p)) => Some((g@, p)),
                None => None,
            },
            flags: self.flags@,
            bandwidth: self.bandwidth,
        }
    }
}

/// Whether line `l` is tagged by the letter `tag` (`tag` alone or followed by a space).
pub open spec fn is_tagged(l: Seq<u8>, tag: u8) -> bool {
    l.len() >= 1 && l[0] == tag && (l.len() == 1 || l[1] == 32u8)
}

/// Twenty bytes written in base64.
pub open spec fn digest20_of(w: Seq<u8>) -> Option<Seq<u8>> {
    match base64_decoded(w) {
        Some(b) => if b.len() == 20 {
            Some(b)
        } else {
            None
        },
        None => None,
    }
}

/// The `a [V6]:PORT` line.
pub open spec fn a_line_of(l: Seq<u8>) -> Option<(Seq<u16>, u16)> {
    let w = split_on(l, seq![32u8]);
    if w.len() == 2 && w[0] == seq![97u8] && target_of(w[1]) is Some {
        match target_of(w[1])->0.addr {
            HostView::V6(g) => Some((g, target_of(w[1])->0.port)),
            _ => None,
        }
    } else {
        None
    }
}

/// The flags named by the words of an `s` line.
pub open spec fn flag_set(w: Seq<Seq<u8>>, n: int) -> Set<OnionRouterFlag> {
    Set::new(
        |f: OnionRouterFlag|
            exists|k: int| 1 <= k < n && OnionRouterFlag::from_token(#[trigger] w[k]) == Some(f),
    )
}

/// The `s <flag>...` line; every word must name a flag.
pub open spec fn s_line_of(l: Seq<u8>) -> Option<Set<OnionRouterFlag>> {
    let w = split_on(l, seq![32u8]);
    if w[0] == seq![115u8] && forall|k: int|
        1 <= k < w.len() ==> (#[trigger] OnionRouterFlag::from_token(w[k])) is Some {
        Some(flag_set(w, w.len() as int))
    } else {
        None
    }
}

/// The `w Bandwidth=<n> ...` line.
pub open spec fn w_line_of(l: Seq<u8>) -> Option<u32> {
    let w = split_on(l, seq![32u8]);
    if w.len() >= 2 && w[0] == seq![119u8] && w[1].len() >= 10 && w[1].subrange(0, 10)
        == "Bandwidth=".spec_bytes() && digits_between(w[1].subrange(10, w[1].len() as int), 1, 10)
        && dec_value(w[1].subrange(10, w[1].len() as int)) <= 0xffff_ffff {
        Some(dec_value(w[1].subrange(10, w[1].len() as int)) as u32)
    } else {
        None
    }
}

/// How many words an `r` line's publication time takes: one where date and
/// clock are joined by `T`, two where a space parts them.
pub open spec fn r_time_words(r: Seq<Seq<u8>>) -> int {
    if r.len() >= 5 && time_of(r[4]) is Some {
        1
    } else {
        2
    }
}

/// The publication time of an `r` line's words.
pub open spec fn r_publication(r: Seq<Seq<u8>>) -> Option<Time> {
    if r.len() < 6 {
        None
    } else if r_time_words(r) == 1 {
        time_of(r[4])
    } else {
        time_of_parts(r[4], r[5])
    }
}

/// The target of an `r` line's words: address and port as two words, or
/// joined by `:` as one.
pub open spec fn r_target(r: Seq<Seq<u8>>) -> Option<TargetView> {
    let t = 4 + r_time_words(r);
    let k = r.len() - t;
    if k == 3 {
        target_of_parts(r[t], r[t + 1])
    } else if k == 2 {
        target_of(r[t])
    } else {
        None
    }
}

/// The `r` line's fields: nickname, identity, digest, publication, target,
/// directory port.
pub open spec fn r_line_ok(l: Seq<u8>) -> bool {
    let r = split_on(l, seq![32u8]);
    7 <= r.len() <= 9 && r[0] == seq![114u8] && nickname_ok(r[1]) && digest20_of(r[2]) is Some
        && digest20_of(r[3]) is Some && r_publication(r) is Some && r_target(r) is Some && port_of(
        r[r.len() - 1],
    ) is Some
}

/// The router whose record starts at line `i`, and the line after it.
#[verifier::opaque]
pub open spec fn router_at(lines: Seq<Seq<u8>>, i: int) -> Option<(OnionRouterView, int)> {
    if 0 <= i < lines.len() && r_line_ok(lines[i]) {
        let r = split_on(lines[i], seq![32u8]);
        let j0 = i + 1;
        let has_a = j0 < lines.len() && is_tagged(lines[j0], 97u8);
        let j1 = if has_a {
            j0 + 1
        } else {
            j0
        };
        let has_w = j1 + 1 < lines.len() && is_tagged(lines[j1 + 1], 119u8);
        if (has_a ==> a_line_of(lines[j0]) is Some) && j1 < lines.len() && s_line_of(lines[j1]) is Some
            && (has_w ==> w_line_of(lines[j1 + 1]) is Some) {
            let dir = port_of(r[r.len() - 1])->0;
            Some(
                (
                    OnionRouterView {
                        nickname: r[1],
                        identity: digest20_of(r[2])->0,
                        digest: digest20_of(r[3])->0,
                        publication: r_publication(r)->0,
                        target: r_target(r)->0,
                        directory_port: if dir == 0 {
                            None
                        } else {
                            Some(dir)
                        },
                        advertise_ipv6: if has_a {
                            a_line_of(lines[j0])
                        } else {
                            None
                        },
                        flags: s_line_of(lines[j1])->0,
                        bandwidth: if has_w {
                            w_line_of(lines[j1 + 1])
                        } else {
                            None
                        },
                    },
                    if has_w {
                        j1 + 2
                    } else {
                        j1 + 1
                    },
                ),
            )
        } else {
            None
        }
    } else {
        None
    }
}

fn digest20(w: &[u8]) -> (r: Option<[u8; 20]>)
    ensures
        match r {
            Some(d) => digest20_of(w@) == Some(d@),
            None => digest20_of(w@) is None,
        },
{
    let b = match base64_decode(w) {
        Some(b) => b,
        None => {
            return None;
        },
    };
    if b.len() != 20 {
        return None;
    }
    let d: [u8; 20] = to_array(b.as_slice());
    Some(d)
}

fn is_tagged_exec(l: &[u8], tag: u8) -> (r: bool)
    ensures
        r == is_tagged(l@, tag),
{
    l.len() >= 1 && l[0] == tag && (l.len() == 1 || l[1] == 32)
}

fn a_line(l: &[u8]) -> (r: Option<([u16; 8], u16)>)
    ensures
        match r {
            Some((g, p)) => a_line_of(l@) == Some((g@, p)),
            None => a_line_of(l@) is None,
        },
{
    let w = split_bytes(l, sep_of(32).as_slice());
    let ghost wv = bytes_of(w@);
    assert(wv.len() == w@.len());
    if w.len() != 2 || w[0].len() != 1 || w[0][0] != 97 {
        proof {
            if w@.len() == 2 {
                assert(wv[0] == w@[0]@);
                if w@[0]@.len() == 1 {
                    assert(wv[0] != seq![97u8]);
                } else {
                    assert(wv[0].len() != seq![97u8].len());
                }
            }
        }
        return None;
    }
    assert(wv[0] == w@[0]@);
    assert(wv[0] =~= seq![97u8]);
    assert(wv[1] == w@[1]@);
    match Target::parse(w[1].as_slice()) {
        Some(t) => match t.addr {
            HostOrAddr::Addr(IpAddr::V6(g)) => Some((g, t.port)),
            _ => None,
        },
        None => None,
    }
}

fn s_line(l: &[u8]) -> (r: Option<OnionRouterFlags>)
    ensures
        match r {
            Some(f) => f.wf() && s_line_of(l@) == Some(f@),
            None => s_line_of(l@) is None,
        },
{
    let w = split_bytes(l, sep_of(32).as_slice());
    let ghost wv = bytes_of(w@);
    assert(wv.len() == w@.len());
    assert(wv.len() >= 1);
    assert(wv[0] == w@[0]@);
    if w[0].len() != 1 || w[0][0] != 115 {
        proof {
            if w@[0]@.len() == 1 {
                assert(wv[0] != seq![115u8]);
            } else {
                assert(wv[0].len() != seq![115u8].len());
            }
        }
        return None;
    }
    assert(wv[0] =~= seq![115u8]);
    let mut flags = OnionRouterFlags::new();
    let mut k: usize = 1;
    assert(flags@ =~= flag_set(wv, 1));
    while k < w.len()
        invariant
            1 <= k <= w@.len() == wv.len(),
            wv == bytes_of(w@),
            wv == split_on(l@, seq![32u8]),
            flags.wf(),
            flags@ == flag_set(wv, k as int),
            forall|j: int| 1 <= j < k ==> (#[trigger] OnionRouterFlag::from_token(wv[j])) is Some,
        decreases w@.len() - k,
    {
        assert(wv[k as int] == w@[k as int]@);
        match OnionRouterFlag::parse(w[k].as_slice()) {
            Some(f) => {
                let ghost before = flags@;
                flags.set(f);
                proof {
                    assert forall|g: OnionRouterFlag| #[trigger] flag_set(wv, k + 1).contains(g)
                        == before.insert(f).contains(g) by {
                        if flag_set(wv, k + 1).contains(g) {
                            let kk = choose|kk: int| 1 <= kk < k + 1 && OnionRouterFlag::from_token(
                                #[trigger] wv[kk],
                            ) == Some(g);
                            if kk < k {
                                assert(flag_set(wv, k as int).contains(g));
                            }
                        }
                        if before.contains(g) {
                            let kk = choose|kk: int| 1 <= kk < k && OnionRouterFlag::from_token(
                                #[trigger] wv[kk],
                            ) == Some(g);
                            assert(1 <= kk < k + 1);
                        }
                        if g == f {
                            assert(OnionRouterFlag::from_token(wv[k as int]) == Some(g));
                        }
                    }
                    assert(flags@ =~= flag_set(wv, k + 1));
                }
            },
            None => {
                return None;
            },
        }
        k = k + 1;
    }
    Some(flags)
}

fn w_line(l: &[u8]) -> (r: Option<u32>)
    ensures
        r == w_line_of(l@),
{
    let w = split_bytes(l, sep_of(32).as_slice());
    let ghost wv = bytes_of(w@);
    assert(wv.len() == w@.len());
    if w.len() < 2 {
        return None;
    }
    assert(wv[0] == w@[0]@);
    assert(wv[1] == w@[1]@);
    if w[0].len() != 1 || w[0][0] != 119 {
        proof {
            if wv[0] == seq![119u8] {
                assert(wv[0][0] == 119u8);
            }
        }
        return None;
    }
    if w[1].len() < 10 {
        return None;
    }
    assert(wv[0] =~= seq![119u8]);
    assert(wv[1] == w@[1]@);
    let word = w[1].as_slice();
    let key = copy_range(word, 0, 10);
    if !eq_bytes(key.as_slice(), "Bandwidth=".as_bytes()) {
        return None;
    }
    let num = copy_range(word, 10, word.len());
    match parse_decimal(num.as_slice(), 10, 0xffff_ffff) {
        Some(v) => Some(v as u32),
        None => None,
    }
}

/// The router whose record starts at line `i`, and the index of the line
/// after it.
fn router_at_exec(lines: &Vec<Vec<u8>>, i: usize) -> (r: Option<(OnionRouter, usize)>)
    requires
        i < lines@.len(),
    ensures
        match r {
            Some((o, j)) => router_at(bytes_of(lines@), i as int) == Some((o@, j as int)) && i < j
                <= lines@.len(),
            None => router_at(bytes_of(lines@), i as int) is None,
        },
{
    reveal(router_at);
    let n = lines.len();
    let ghost lv = bytes_of(lines@);
    assert(lv.len() == lines@.len());
    assert(lv[i as int] == lines@[i as int]@);
    let line = lines[i].as_slice();
    let r = split_bytes(line, sep_of(32).as_slice());
    let ghost rv = bytes_of(r@);
    assert(rv.len() == r@.len());
    let n = r.len();
    if n < 7 || n > 9 || r[0].len() != 1 || r[0][0] != 114 {
        proof {
            if 7 <= r@.len() <= 9 {
                assert(rv[0] == r@[0]@);
                if r@[0]@.len() == 1 {
                    assert(rv[0] != seq![114u8]);
                } else {
                    assert(rv[0].len() != seq![114u8].len());
                }
            }
        }
        return None;
    }
    assert forall|j: int| 0 <= j < n implies rv[j] == (#[trigger] r@[j])@ by {}
    assert(rv[0] =~= seq![114u8]);
    let nick = r[1].as_slice();
    if nick.len() == 0 || nick.len() > 19 || !check_alnum(nick) {
        return None;
    }
    let identity = digest20(r[2].as_slice());
    let digest = digest20(r[3].as_slice());
    let one_word = Time::parse(r[4].as_slice());
    let tw: usize = if one_word.is_some() {
        1
    } else {
        2
    };
    assert(tw as int == r_time_words(rv));
    let publication = if tw == 1 {
        one_word
    } else {
        Time::parse_parts(r[4].as_slice(), r[5].as_slice())
    };
    let t = 4 + tw;
    let k = n - t;
    let target = if k == 3 {
        Target::parse_parts(r[t].as_slice(), r[t + 1].as_slice())
    } else if k == 2 {
        Target::parse(r[t].as_slice())
    } else {
        None
    };
    let dir = crate::common::parse_port(r[n - 1].as_slice());
    let (identity, digest, publication, target, dir) = match (
        identity,
        digest,
        publication,
        target,
        dir,
    ) {
        (Some(a), Some(b), Some(c), Some(d), Some(e)) => (a, b, c, d, e),
        _ => {
            return None;
        },
    };
    let j0 = i + 1;
    let has_a = j0 < lines.len() && is_tagged_exec(lines[j0].as_slice(), 97);
    proof {
        if j0 < lines@.len() {
            assert(lv[j0 as int] == lines@[j0 as int]@);
        }
    }
    let mut advertise_ipv6: Option<([u16; 8], u16)> = None;
    if has_a {
        match a_line(lines[j0].as_slice()) {
            Some(a) => {
                advertise_ipv6 = Some(a);
            },
            None => {
                return None;
            },
        }
    }
    let j1 = if has_a {
        j0 + 1
    } else {
        j0
    };
    if j1 >= lines.len() {
        return None;
    }
    assert(lv[j1 as int] == lines@[j1 as int]@);
    let flags = match s_line(lines[j1].as_slice()) {
        Some(f) => f,
        None => {
            return None;
        },
    };
    let has_w = j1 + 1 < lines.len() && is_tagged_exec(lines[j1 + 1].as_slice(), 119);
    proof {
        if j1 + 1 < lines@.len() {
            assert(lv[j1 + 1] == lines@[j1 + 1]@);
        }
    }
    let mut bandwidth: Option<u32> = None;
    let mut next = j1 + 1;
    if has_w {
        match w_line(lines[j1 + 1].as_slice()) {
            Some(b) => {
                bandwidth = Some(b);
            },
            None => {
                return None;
            },
        }
        next = j1 + 2;
    }
    let o = OnionRouter {
        nickname: copy_range(nick, 0, nick.len()),
        identity,
        digest,
        publication,
        target,
        directory_port: if dir == 0 {
            None
        } else {
            Some(dir)
        },
        advertise_ipv6,
        flags,
        bandwidth,
    };
    assert(nick@.subrange(0, nick@.len() as int) =~= nick@);
    Some((o, next))
}

/// The routers whose records follow each other from line `i` to the last
/// line; `None` where a line starts no record.
pub open spec fn routers_from(lines: Seq<Seq<u8>>, i: int) -> Option<Seq<OnionRouterView>>
    decreases lines.len() - i,
{
    if i < 0 || i >= lines.len() {
        Some(Seq::empty())
    } else {
        match router_at(lines, i) {
            Some((o, j)) => if i < j <= lines.len() {
                match routers_from(lines, j) {
                    Some(rest) => Some(seq![o] + rest),
                    None => None,
                }
            } else {
                None
            },
            None => None,
        }
    }
}

/// `a` followed by the routers of `rest`, if any.
pub open spec fn prepend(a: Seq<OnionRouterView>, rest: Option<Seq<OnionRouterView>>) -> Option<
    Seq<OnionRouterView>,
> {
    match rest {
        Some(r) => Some(a + r),
        None => None,
    }
}

/// The routers that an `ns/all` value lists; none where it is empty.
pub open spec fn onion_routers_of(v: Seq<u8>) -> Option<Seq<OnionRouterView>> {
    routers_from(record_lines(v), 0)
}

/// The router that an `ns/id/...` value gives: exactly one record.
pub open spec fn onion_router_of(v: Seq<u8>) -> Option<OnionRouterView> {
    let l = record_lines(v);
    match router_at(l, 0) {
        Some((o, j)) => if j == l.len() {
            Some(o)
        } else {
            None
        },
        None => None,
    }
}

impl OnionRouter {
    /// The router that the `ns/id/...` value `v` gives.
    pub fn parse(v: &[u8]) -> (r: Option<OnionRouter>)
        ensures
            match r {
                Some(o) => onion_router_of(v@) == Some(o@),
                None => onion_router_of(v@) is None,
            },
    {
        let lines = split_records(v);
        assert(bytes_of(lines@).len() == lines@.len());
        if lines.len() == 0 {
            reveal(router_at);
            return None;
        }
        match router_at_exec(&lines, 0) {
            Some((o, j)) => if j == lines.len() {
                Some(o)
            } else {
                None
            },
            None => None,
        }
    }
}

/// The routers that the `ns/all` value `v` lists; none where it is empty;
/// a parsing error, holding the line, where a line starts no record.
pub fn parse_onion_routers(v: &[u8]) -> (r: Result<Vec<OnionRouter>, Error>)
    ensures
        match onion_routers_of(v@) {
            Some(xs) => r is Ok && r->Ok_0@.map_values(|o: OnionRouter| o@) == xs,
            None => r is Err && r->Err_0 is Parsing,
        },
{
    let lines = split_records(v);
    let ghost l = bytes_of(lines@);
    assert(l.len() == lines@.len());
    let mut out: Vec<OnionRouter> = Vec::new();
    let mut i: usize = 0;
    assert(out@.map_values(|o: OnionRouter| o@) =~= Seq::<OnionRouterView>::empty());
    assert(prepend(Seq::empty(), routers_from(l, 0)) =~= routers_from(l, 0)) by {
        match routers_from(l, 0) {
            Some(r) => {
                assert(Seq::<OnionRouterView>::empty() + r =~= r);
            },
            None => {},
        }
    }
    while i < lines.len()
        invariant
            l == bytes_of(lines@),
            l == record_lines(v@),
            l.len() == lines@.len(),
            i <= lines@.len(),
            onion_routers_of(v@) == prepend(out@.map_values(|o: OnionRouter| o@), routers_from(l, i as int)),
        decreases lines@.len() - i,
    {
        match router_at_exec(&lines, i) {
            Some((o, j)) => {
                let ghost before = out@.map_values(|o: OnionRouter| o@);
                out.push(o);
                assert(out@.map_values(|o: OnionRouter| o@) =~= before.push(o@));
                assert(prepend(before, routers_from(l, i as int)) =~= prepend(before.push(o@), routers_from(l, j as int))) by {
                    match routers_from(l, j as int) {
                        Some(rest) => {
                            assert(before + (seq![o@] + rest) =~= before.push(o@) + rest);
                        },
                        None => {},
                    }
                }
                i = j;
            },
            None => {
                let bad = copy_range(lines[i].as_slice(), 0, lines[i].len());
                return Err(Error::Parsing(bad));
            },
        }
    }
    assert(out@.map_values(|o: OnionRouter| o@) + Seq::<OnionRouterView>::empty() =~= out@.map_values(|o: OnionRouter| o@));
    Ok(out)
}

/// The flag at position `i` of the enumeration.
pub open spec fn flag_at(i: int) -> OnionRouterFlag {
    if i == 0 {
        OnionRouterFlag::Authority
    } else if i == 1 {
        OnionRouterFlag::BadExit
    } else if i == 2 {
        OnionRouterFlag::Exit
    } else if i == 3 {
        OnionRouterFlag::Fast
    } else if i == 4 {
        OnionRouterFlag::Guard
    } else if i == 5 {
        OnionRouterFlag::HSDir
    } else if i == 6 {
        OnionRouterFlag::NoEdConsensus
    } else if i == 7 {
        OnionRouterFlag::Stable
    } else if i == 8 {
        OnionRouterFlag::StaleDesc
    } else if i == 9 {
        OnionRouterFlag::Running
    } else if i == 10 {
        OnionRouterFlag::Valid
    } else {
        OnionRouterFlag::V2Dir
    }
}

fn flag_at_exec(i: usize) -> (r: OnionRouterFlag)
    ensures
        r == flag_at(i as int),
{
    if i == 0 {
        OnionRouterFlag::Authority
    } else if i == 1 {
        OnionRouterFlag::BadExit
    } else if i == 2 {
        OnionRouterFlag::Exit
    } else if i == 3 {
        OnionRouterFlag::Fast
    } else if i == 4 {
        OnionRouterFlag::Guard
    } else if i == 5 {
        OnionRouterFlag::HSDir
    } else if i == 6 {
        OnionRouterFlag::NoEdConsensus
    } else if i == 7 {
        OnionRouterFlag::Stable
    } else if i == 8 {
        OnionRouterFlag::StaleDesc
    } else if i == 9 {
        OnionRouterFlag::Running
    } else if i == 10 {
        OnionRouterFlag::Valid
    } else {
        OnionRouterFlag::V2Dir
    }
}

/// The names of the flags of `set` from position `i` on, in enumeration order.
pub open spec fn names_from(set: Set<OnionRouterFlag>, i: int) -> Seq<Seq<u8>>
    decreases 12 - i,
{
    if i < 0 || i >= 12 {
        Seq::empty()
    } else {
        let here = if set.contains(flag_at(i)) {
            seq![flag_at(i).token()]
        } else {
            Seq::<Seq<u8>>::empty()
        };
        here + names_from(set, i + 1)
    }
}

/// The names of the flags set, in enumeration order, joined by `|`.
pub open spec fn flags_names(set: Set<OnionRouterFlag>) -> Seq<u8> {
    join_front(names_from(set, 0), seq![124u8])
}

impl OnionRouterFlags {
    /// The names of the flags set, joined by `|`.
    pub fn to_text(&self) -> (r: Vec<u8>)
        ensures
            r@ == flags_names(self@),
    {
        let mut names: Vec<Vec<u8>> = Vec::new();
        let mut i: usize = 0;
        while i < 12
            invariant
                i <= 12,
                bytes_of(names@) + names_from(self@, i as int) == names_from(self@, 0),
            decreases 12 - i,
        {
            let f = flag_at_exec(i);
            let ghost before = bytes_of(names@);
            if self.is_set(f) {
                let t = f.to_text();
                let v = copy_range(t, 0, t.len());
                assert(v@ =~= f.token());
                names.push(v);
                assert(bytes_of(names@) =~= before.push(f.token()));
                assert(names_from(self@, i as int) =~= seq![f.token()] + names_from(self@, i + 1));
                assert(before + names_from(self@, i as int) =~= bytes_of(names@) + names_from(self@, i + 1));
            } else {
                assert(names_from(self@, i as int) =~= names_from(self@, i + 1));
            }
            i = i + 1;
        }
        assert(names_from(self@, 12) =~= Seq::<Seq<u8>>::empty());
        assert(bytes_of(names@) =~= names_from(self@, 0));
        join_bytes(&names, sep_of(124).as_slice())
    }
}

/// The bytes of `b` as lower-case hexadecimal, two digits each.
pub open spec fn hex_lower_text(b: Seq<u8>) -> Seq<u8> {
    Seq::new(
        2 * b.len(),
        |i: int|
            if i % 2 == 0 {
                hex_lower((b[i / 2] / 16) as nat)
            } else {
                hex_lower((b[i / 2] % 16) as nat)
            },
    )
}

/// The router as `$<identity in lower-case hex>~<nickname>`.
pub open spec fn router_text(o: OnionRouterView) -> Seq<u8> {
    seq![36u8] + hex_lower_text(o.identity) + seq![126u8] + o.nickname
}

impl OnionRouter {
    /// The router as `$<identity>~<nickname>`.
    pub fn to_text(&self) -> (r: Vec<u8>)
        ensures
            r@ == router_text(self@),
    {
        let mut out: Vec<u8> = Vec::new();
        out.push(36);
        let mut i: usize = 0;
        while i < 20
            invariant
                i <= 20,
                self.identity@.len() == 20,
                out@ =~= seq![36u8] + hex_lower_text(self.identity@).subrange(0, 2 * i),
            decreases 20 - i,
        {
            let b = self.identity[i];
            let hi = b / 16;
            let lo = b % 16;
            out.push(if hi < 10 {
                48 + hi
            } else {
                87 + hi
            });
            out.push(if lo < 10 {
                48 + lo
            } else {
                87 + lo
            });
            i = i + 1;
        }
        assert(hex_lower_text(self.identity@).subrange(0, 40) =~= hex_lower_text(self.identity@));
        out.push(126);
        push_bytes(&mut out, self.nickname.as_slice());
        assert(out@ =~= router_text(self@));
        out
    }
}

/// Setting a flag makes it present; removing it again makes it absent; the
/// union holds a flag exactly when one of the two sets does; and every
/// operation keeps the set within the twelve flags.
pub proof fn lemma_flag_laws(a: OnionRouterFlags, b: OnionRouterFlags, f: OnionRouterFlag)
    requires
        a.wf(),
        b.wf(),
    ensures
        a@.insert(f).contains(f),
        !a@.insert(f).remove(f).contains(f),
        a@.union(b@).contains(f) == (a@.contains(f) || b@.contains(f)),
        a@.intersect(b@).contains(f) == (a@.contains(f) && b@.contains(f)),
{
}

} // verus!
