//! The typed command surface: the text of each command, and the typed
//! reading of each reply.
use vstd::prelude::*;
use vstd::string::StringSliceAdditionalSpecFns;

use crate::circuit::{circuit_of, circuits_of, parse_circuits, Circuit, CircuitView};
use crate::common::{CircuitID, StreamID};
use crate::conn::{info_tail, ok_end, Connection};
use crate::error::{is_server_response, Error};
use crate::ns::{
    onion_router_of, onion_routers_of, parse_onion_routers, OnionRouter,
    OnionRouterView,
};
use crate::protocol::Response;
use crate::stream::{parse_streams, stream_of, streams_of, Stream, StreamView};
use crate::protocol::{frame, joined_lines, lemma_reply_round_trip, no_lf, reply_text, Frame};
use crate::text::{
    bytes_of, copy_range, crlf, first_occ, lacks, lemma_first_occ_is, occurs_at, push_bytes,
    record_lines, skip_crlf,
};

verus! {

/// `parts` joined by `sep`.
pub open spec fn join(parts: Seq<Seq<u8>>, sep: Seq<u8>) -> Seq<u8>
    decreases parts.len(),
{
    if parts.len() == 0 {
        Seq::empty()
    } else if parts.len() == 1 {
        parts[0]
    } else {
        join(parts.drop_last(), sep) + sep + parts.last()
    }
}

/// Each of `parts` preceded by a space.
pub open spec fn spaced(parts: Seq<Seq<u8>>) -> Seq<u8>
    decreases parts.len(),
{
    if parts.len() == 0 {
        Seq::empty()
    } else {
        spaced(parts.drop_last()) + seq![32u8] + parts.last()
    }
}

/// `GETINFO <key>`.
pub fn get_info_command(key: &[u8]) -> (r: Vec<u8>)
    ensures
        r@ == "GETINFO ".spec_bytes() + key@,
{
    let mut r: Vec<u8> = Vec::new();
    push_bytes(&mut r, "GETINFO ".as_bytes());
    push_bytes(&mut r, key);
    r
}

/// `SETEVENTS` followed by each kind.
pub fn set_events_command(kinds: &Vec<Vec<u8>>) -> (r: Vec<u8>)
    ensures
        r@ == "SETEVENTS".spec_bytes() + spaced(bytes_of(kinds@)),
{
    let mut r: Vec<u8> = Vec::new();
    push_bytes(&mut r, "SETEVENTS".as_bytes());
    let mut i: usize = 0;
    while i < kinds.len()
        invariant
            i <= kinds@.len(),
            r@ == "SETEVENTS".spec_bytes() + spaced(bytes_of(kinds@).subrange(0, i as int)),
        decreases kinds@.len() - i,
    {
        let ghost ks = bytes_of(kinds@).subrange(0, i + 1);
        assert(ks.drop_last() =~= bytes_of(kinds@).subrange(0, i as int));
        assert(ks.last() == kinds@[i as int]@);
        r.push(32);
        push_bytes(&mut r, kinds[i].as_slice());
        i = i + 1;
        proof {
            assert(r@ =~= "SETEVENTS".spec_bytes() + spaced(bytes_of(kinds@).subrange(0, i as int)));
        }
    }
    assert(bytes_of(kinds@).subrange(0, i as int) =~= bytes_of(kinds@));
    r
}

/// `EXTENDCIRCUIT <id> <fp>,<fp>...`.
pub fn extend_circuit_command(id: &CircuitID, path: &Vec<Vec<u8>>) -> (r: Vec<u8>)
    requires
        path@.len() >= 1,
    ensures
        r@ == "EXTENDCIRCUIT ".spec_bytes() + id.0@ + seq![32u8] + join(bytes_of(path@), seq![44u8]),
{
    let mut r: Vec<u8> = Vec::new();
    push_bytes(&mut r, "EXTENDCIRCUIT ".as_bytes());
    push_bytes(&mut r, id.0.as_slice());
    r.push(32);
    let ghost head = r@;
    push_bytes(&mut r, path[0].as_slice());
    let mut i: usize = 1;
    assert(bytes_of(path@).subrange(0, 1) =~= seq![path@[0]@]);
    while i < path.len()
        invariant
            1 <= i <= path@.len(),
            r@ == head + join(bytes_of(path@).subrange(0, i as int), seq![44u8]),
        decreases path@.len() - i,
    {
        let ghost ps = bytes_of(path@).subrange(0, i + 1);
        assert(ps.drop_last() =~= bytes_of(path@).subrange(0, i as int));
        assert(ps.last() == path@[i as int]@);
        r.push(44);
        push_bytes(&mut r, path[i].as_slice());
        i = i + 1;
        assert(r@ =~= head + join(bytes_of(path@).subrange(0, i as int), seq![44u8]));
    }
    assert(bytes_of(path@).subrange(0, i as int) =~= bytes_of(path@));
    assert(head =~= "EXTENDCIRCUIT ".spec_bytes() + id.0@ + seq![32u8]);
    r
}

/// `ATTACHSTREAM <stream id> <circuit id>`.
pub fn attach_stream_command(stream_id: &StreamID, circuit_id: &CircuitID) -> (r: Vec<u8>)
    ensures
        r@ == "ATTACHSTREAM ".spec_bytes() + stream_id.0@ + seq![32u8] + circuit_id.0@,
{
    let mut r: Vec<u8> = Vec::new();
    push_bytes(&mut r, "ATTACHSTREAM ".as_bytes());
    push_bytes(&mut r, stream_id.0.as_slice());
    r.push(32);
    push_bytes(&mut r, circuit_id.0.as_slice());
    r
}

/// `SETCONF <key>=<value>`, or `SETCONF <key>` to reset it to its default.
pub fn set_conf_command(keyword: &[u8], value: Option<&[u8]>) -> (r: Vec<u8>)
    ensures
        r@ == "SETCONF ".spec_bytes() + keyword@ + match value {
            Some(v) => seq![61u8] + v@,
            None => Seq::empty(),
        },
{
    let mut r: Vec<u8> = Vec::new();
    push_bytes(&mut r, "SETCONF ".as_bytes());
    push_bytes(&mut r, keyword);
    match value {
        Some(v) => {
            r.push(61);
            push_bytes(&mut r, v);
            assert(r@ =~= "SETCONF ".spec_bytes() + keyword@ + (seq![61u8] + v@));
        },
        None => {
            assert(r@ =~= "SETCONF ".spec_bytes() + keyword@ + Seq::<u8>::empty());
        },
    }
    r
}

/// `GETCONF <key>`.
pub fn get_conf_command(keyword: &[u8]) -> (r: Vec<u8>)
    ensures
        r@ == "GETCONF ".spec_bytes() + keyword@,
{
    let mut r: Vec<u8> = Vec::new();
    push_bytes(&mut r, "GETCONF ".as_bytes());
    push_bytes(&mut r, keyword);
    r
}

/// The payload of a successful reply; another status is the error.
pub fn command_reply(response: &Response) -> (r: Result<Vec<u8>, Error>)
    ensures
        response.code == 250 ==> r is Ok && r->Ok_0@ == response.data@,
        response.code != 250 ==> r is Err && is_server_response(r->Err_0, response.code, response.data@),
{
    let d = copy_range(response.data.as_slice(), 0, response.data.len());
    assert(d@ =~= response.data@);
    if response.code == 250 {
        Ok(d)
    } else {
        Err(Error::ServerResponse(response.code, d))
    }
}

/// The value of a GETINFO reply for `key`, as `Connection::get_info` reads it.
pub open spec fn info_value(key: Seq<u8>, r: ResponseParts) -> Option<Seq<u8>> {
    let i = first_occ(r.1, seq![61u8], 0);
    if r.0 == 250 && i < r.1.len() && r.1.subrange(0, i) == key {
        Some(info_tail(r.1.subrange(i + 1, r.1.len() as int)))
    } else {
        None
    }
}

/// A reply's code and payload.
pub type ResponseParts = (u16, Seq<u8>);

pub open spec fn parts(response: &Response) -> ResponseParts {
    (response.code, response.data@)
}

/// The circuits of the reply to `GETINFO circuit-status`.
pub fn circuits_reply(response: &Response) -> (r: Result<Vec<Circuit>, Error>)
    ensures
        match info_value("circuit-status".spec_bytes(), parts(response)) {
            Some(v) => match circuits_of(v) {
                Some(xs) => r is Ok && r->Ok_0@.map_values(|c: Circuit| c@) == xs,
                None => r is Err && r->Err_0 is Parsing,
            },
            None => r is Err,
        },
{
    let v = Connection::get_info("circuit-status".as_bytes(), response)?;
    parse_circuits(v.as_slice())
}

/// The streams of the reply to `GETINFO stream-status`.
pub fn streams_reply(response: &Response) -> (r: Result<Vec<Stream>, Error>)
    ensures
        match info_value("stream-status".spec_bytes(), parts(response)) {
            Some(v) => match streams_of(v) {
                Some(xs) => r is Ok && r->Ok_0@.map_values(|s: Stream| s@) == xs,
                None => r is Err && r->Err_0 is Parsing,
            },
            None => r is Err,
        },
{
    let v = Connection::get_info("stream-status".as_bytes(), response)?;
    parse_streams(v.as_slice())
}

/// The routers of the reply to `GETINFO ns/all`.
pub fn all_onion_routers_reply(response: &Response) -> (r: Result<Vec<OnionRouter>, Error>)
    ensures
        match info_value("ns/all".spec_bytes(), parts(response)) {
            Some(v) => match onion_routers_of(v) {
                Some(xs) => r is Ok && r->Ok_0@.map_values(|o: OnionRouter| o@) == xs,
                None => r is Err && r->Err_0 is Parsing,
            },
            None => r is Err,
        },
{
    let v = Connection::get_info("ns/all".as_bytes(), response)?;
    parse_onion_routers(v.as_slice())
}

/// The router of the reply to `GETINFO <key>`, `key` being `ns/id/<id>`.
pub fn onion_router_reply(key: &[u8], response: &Response) -> (r: Result<OnionRouter, Error>)
    ensures
        match info_value(key@, parts(response)) {
            Some(v) => match onion_router_of(v) {
                Some(o) => r is Ok && r->Ok_0@ == o,
                None => r is Err && r->Err_0 is Parsing,
            },
            None => r is Err,
        },
{
    let v = Connection::get_info(key, response)?;
    match OnionRouter::parse(v.as_slice()) {
        Some(o) => Ok(o),
        None => Err(Error::Parsing(v)),
    }
}


/// The daemon's reply to `GETINFO <key>` when the value is empty
/// (`250-<key>=`, `250 OK`) frames to a payload whose value is empty, and an
/// empty `circuit-status`, `stream-status` or `ns/all` value lists nothing
/// and is no error.
pub proof fn lemma_empty_lists(key: Seq<u8>)
    requires
        lacks(key, 61u8),
        no_lf(key),
    ensures
        ({
            let d = key + seq![61u8] + ok_end();
            &&& frame(reply_text(250, seq![key.push(61u8), seq![79u8, 75u8]])) == (Frame::Complete {
                code: 250,
                data: d,
                len: reply_text(250, seq![key.push(61u8), seq![79u8, 75u8]]).len() as int,
            })
            &&& info_value(key, (250u16, d)) == Some(Seq::<u8>::empty())
        }),
        circuits_of(Seq::empty()) == Some(Seq::<CircuitView>::empty()),
        streams_of(Seq::empty()) == Some(Seq::<StreamView>::empty()),
        onion_routers_of(Seq::empty()) == Some(Seq::<OnionRouterView>::empty()),
{
    let ps = seq![key.push(61u8), seq![79u8, 75u8]];
    assert forall|i: int| 0 <= i < ps.len() implies no_lf(#[trigger] ps[i]) by {
        if i == 0 {
            assert forall|k: int| 0 <= k < ps[0].len() implies ps[0][k] != 10u8 by {
                if k < key.len() {
                    assert(ps[0][k] == key[k]);
                }
            }
        }
    }
    lemma_reply_round_trip(250, ps, Seq::empty());
    assert(reply_text(250, ps) + Seq::<u8>::empty() =~= reply_text(250, ps));
    let d = key + seq![61u8] + ok_end();
    let q = ps.drop_first();
    assert(q[0] == seq![79u8, 75u8]);
    assert(q.drop_first() =~= Seq::<Seq<u8>>::empty());
    assert(joined_lines(q.drop_first()) == Seq::<u8>::empty());
    assert(joined_lines(q) =~= seq![79u8, 75u8] + crlf());
    assert(joined_lines(ps) =~= d);
    assert(d.subrange(key.len() as int, key.len() as int + 1) =~= seq![61u8]);
    assert forall|j: int| 0 <= j < key.len() implies !occurs_at(d, seq![61u8], j) by {
        assert(d[j] == key[j]);
        assert(d.subrange(j, j + 1)[0] == d[j]);
    }
    lemma_first_occ_is(d, seq![61u8], 0, key.len() as int);
    assert(d.subrange(0, key.len() as int) =~= key);
    let tail = d.subrange(key.len() as int + 1, d.len() as int);
    assert(tail =~= ok_end());
    assert(tail.subrange(tail.len() - 6, tail.len() as int) =~= ok_end());
    assert(info_tail(tail) =~= Seq::<u8>::empty());
    let e = Seq::<u8>::empty();
    assert(skip_crlf(e) == e);
    assert(record_lines(e) =~= Seq::<Seq<u8>>::empty());
    assert(record_lines(e).map_values(|x: Seq<u8>| circuit_of(x)->0) =~= Seq::<CircuitView>::empty());
    assert(record_lines(e).map_values(|x: Seq<u8>| stream_of(x)->0) =~= Seq::<StreamView>::empty());
}

} // verus!
