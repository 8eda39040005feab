//! Streams: application connections carried over circuits.
use vstd::prelude::*;
use vstd::string::StringSliceAdditionalSpecFns;

use crate::common::{id_valid, target_of, CircuitID, StreamID, Target, TargetView};
use crate::error::Error;
use crate::text::{
    bytes_of, copy_range, eq_bytes, record_lines, sep_of, split_bytes, split_on, split_records,
};

verus! {

/// State of a stream.
#[derive(Debug, Clone, Copy, PartialEq, Eq, Structural)]
pub enum StreamStatus {
    /// New request to connect.
    New,
    /// New request to resolve an address.
    NewResolve,
    /// Address re-mapped to another.
    Remap,
    /// Sent a connect cell along a circuit.
    SentConnect,
    /// Sent a resolve cell along a circuit.
    SentResolve,
    /// Received a reply; stream established.
    Succeeded,
    /// Stream failed and not retriable.
    Failed,
    /// Stream closed.
    Closed,
    /// Detached from its circuit; still retriable.
    Detached,
    /// Waiting for the controller to attach it.
    ControllerWait,
}

impl StreamStatus {
    /// Its token on the wire.
    pub open spec fn token(self) -> Seq<u8> {
        match self {
            StreamStatus::New => "NEW".spec_bytes(),
            StreamStatus::NewResolve => "NEWRESOLVE".spec_bytes(),
            StreamStatus::Remap => "REMAP".spec_bytes(),
            StreamStatus::SentConnect => "SENTCONNECT".spec_bytes(),
            StreamStatus::SentResolve => "SENTRESOLVE".spec_bytes(),
            StreamStatus::Succeeded => "SUCCEEDED".spec_bytes(),
            StreamStatus::Failed => "FAILED".spec_bytes(),
            StreamStatus::Closed => "CLOSED".spec_bytes(),
            StreamStatus::Detached => "DETACHED".spec_bytes(),
            StreamStatus::ControllerWait => "CONTROLLER_WAIT".spec_bytes(),
        }
    }

    /// The value whose token `w` is.
    pub open spec fn from_token(w: Seq<u8>) -> Option<Self> {
        if w == "NEW".spec_bytes() {
            Some(StreamStatus::New)
        } else if w == "NEWRESOLVE".spec_bytes() {
            Some(StreamStatus::NewResolve)
        } else if w == "REMAP".spec_bytes() {
            Some(StreamStatus::Remap)
        } else if w == "SENTCONNECT".spec_bytes() {
            Some(StreamStatus::SentConnect)
        } else if w == "SENTRESOLVE".spec_bytes() {
            Some(StreamStatus::SentResolve)
        } else if w == "SUCCEEDED".spec_bytes() {
            Some(StreamStatus::Succeeded)
        } else if w == "FAILED".spec_bytes() {
            Some(StreamStatus::Failed)
        } else if w == "CLOSED".spec_bytes() {
            Some(StreamStatus::Closed)
        } else if w == "DETACHED".spec_bytes() {
            Some(StreamStatus::Detached)
        } else if w == "CONTROLLER_WAIT".spec_bytes() {
            Some(StreamStatus::ControllerWait)
        } else {
            None
        }
    }

    /// The value whose token is the whole of `w`.
    pub fn parse(w: &[u8]) -> (r: Option<Self>)
        ensures
            r == Self::from_token(w@),
    {
        if eq_bytes(w, "NEW".as_bytes()) {
            Some(StreamStatus::New)
        } else if eq_bytes(w, "NEWRESOLVE".as_bytes()) {
            Some(StreamStatus::NewResolve)
        } else if eq_bytes(w, "REMAP".as_bytes()) {
            Some(StreamStatus::Remap)
        } else if eq_bytes(w, "SENTCONNECT".as_bytes()) {
            Some(StreamStatus::SentConnect)
        } else if eq_bytes(w, "SENTRESOLVE".as_bytes()) {
            Some(StreamStatus::SentResolve)
        } else if eq_bytes(w, "SUCCEEDED".as_bytes()) {
            Some(StreamStatus::Succeeded)
        } else if eq_bytes(w, "FAILED".as_bytes()) {
            Some(StreamStatus::Failed)
        } else if eq_bytes(w, "CLOSED".as_bytes()) {
            Some(StreamStatus::Closed)
        } else if eq_bytes(w, "DETACHED".as_bytes()) {
            Some(StreamStatus::Detached)
        } else if eq_bytes(w, "CONTROLLER_WAIT".as_bytes()) {
            Some(StreamStatus::ControllerWait)
        } else {
            None
        }
    }

    /// The token of this value.
    pub fn to_text(&self) -> (r: &'static [u8])
        ensures
            r@ == self.token(),
    {
        match self {
            StreamStatus::New => "NEW".as_bytes(),
            StreamStatus::NewResolve => "NEWRESOLVE".as_bytes(),
            StreamStatus::Remap => "REMAP".as_bytes(),
            StreamStatus::SentConnect => "SENTCONNECT".as_bytes(),
            StreamStatus::SentResolve => "SENTRESOLVE".as_bytes(),
            StreamStatus::Succeeded => "SUCCEEDED".as_bytes(),
            StreamStatus::Failed => "FAILED".as_bytes(),
            StreamStatus::Closed => "CLOSED".as_bytes(),
            StreamStatus::Detached => "DETACHED".as_bytes(),
            StreamStatus::ControllerWait => "CONTROLLER_WAIT".as_bytes(),
        }
    }
}

/// A stream as the daemon describes it.
#[derive(Debug, Clone, PartialEq, Eq)]
pub struct Stream {
    pub id: StreamID,
    pub status: StreamStatus,
    /// `0` while the stream is attached to no circuit.
    pub circuit_id: CircuitID,
    pub target: Target,
}

pub struct StreamView {
    pub id: Seq<u8>,
    pub status: StreamStatus,
    pub circuit_id: Seq<u8>,
    pub target: TargetView,
}

impl View for Stream {
    type V = StreamView;

    open spec fn view(&self) -> StreamView {
        StreamView {
            id: self.id.0@,
            status: self.status,
            circuit_id: self.circuit_id.0@,
            target: self.target@,
        }
    }
}

/// The stream written on one line: `<id> <status> <circuit id> <target>`.
#[verifier::opaque]
pub open spec fn stream_of(line: Seq<u8>) -> Option<StreamView> {
    let w = split_on(line, seq![32u8]);
    if w.len() == 4 && id_valid(w[0]) && StreamStatus::from_token(w[1]) is Some && id_valid(w[2])
        && target_of(w[3]) is Some {
        Some(
            StreamView {
                id: w[0],
                status: StreamStatus::from_token(w[1])->0,
                circuit_id: w[2],
                target: target_of(w[3])->0,
            },
        )
    } else {
        None
    }
}

impl Stream {
    /// The stream written on the whole of `line`.
    pub fn parse(line: &[u8]) -> (r: Option<Stream>)
        ensures
            match r {
                Some(st) => stream_of(line@) == Some(st@),
                None => stream_of(line@) is None,
            },
    {
        reveal(stream_of);
        let words = split_bytes(line, sep_of(32).as_slice());
        let ghost w = bytes_of(words@);
        assert(w.len() == words@.len());
        if words.len() != 4 {
            return None;
        }
        assert(w[0] == words@[0]@);
        assert(w[1] == words@[1]@);
        assert(w[2] == words@[2]@);
        assert(w[3] == words@[3]@);
        let id = StreamID::parse(words[0].as_slice());
        let status = StreamStatus::parse(words[1].as_slice());
        let circuit_id = CircuitID::parse(words[2].as_slice());
        let target = Target::parse(words[3].as_slice());
        match (id, status, circuit_id, target) {
            (Some(id), Some(status), Some(circuit_id), Some(target)) => Some(
                Stream { id, status, circuit_id, target },
            ),
            _ => None,
        }
    }
}

/// The streams that a `stream-status` value lists, one per line; none where the value
/// is empty; `None` where a line is no stream.
pub open spec fn streams_of(v: Seq<u8>) -> Option<Seq<StreamView>> {
    let l = record_lines(v);
    if forall|i: int| 0 <= i < l.len() ==> (#[trigger] stream_of(l[i])) is Some {
        Some(l.map_values(|x: Seq<u8>| stream_of(x)->0))
    } else {
        None
    }
}

/// The streams that the `stream-status` value `v` lists; none where it is empty; a
/// parsing error, holding the line, where a line is no stream.
pub fn parse_streams(v: &[u8]) -> (r: Result<Vec<Stream>, Error>)
    ensures
        match streams_of(v@) {
            Some(xs) => r is Ok && r->Ok_0@.map_values(|x: Stream| x@) == xs,
            None => r is Err && r->Err_0 is Parsing,
        },
{
    let lines = split_records(v);
    let ghost l = bytes_of(lines@);
    let mut out: Vec<Stream> = Vec::new();
    let mut i: usize = 0;
    while i < lines.len()
        invariant
            i <= lines@.len() == l.len(),
            l == bytes_of(lines@),
            l == record_lines(v@),
            out@.len() == i,
            forall|j: int| 0 <= j < i ==> (#[trigger] stream_of(l[j])) is Some && out@[j]@ == stream_of(l[j])->0,
        decreases lines@.len() - i,
    {
        assert(l[i as int] == lines@[i as int]@);
        match Stream::parse(lines[i].as_slice()) {
            Some(x) => {
                out.push(x);
            },
            None => {
                let bad = copy_range(lines[i].as_slice(), 0, lines[i].len());
                return Err(Error::Parsing(bad));
            },
        }
        i = i + 1;
    }
    assert(out@.map_values(|x: Stream| x@) =~= l.map_values(|x: Seq<u8>| stream_of(x)->0));
    Ok(out)
}

} // verus!
