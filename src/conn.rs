//! The session with the daemon, without its transport: bytes received are
//! handed in, commands to write are handed out. Asynchronous events (code
//! 650) are taken out of the reply stream and queued per kind.
use vstd::prelude::*;
use vstd::string::StringSliceAdditionalSpecFns;

use crate::auth::{
    auth_challenge_command, auth_challenge_text, authenticate_text, check_success, choose_auth_method,
    client_hash_key, null_authenticate_command, protocol_info_command, protocol_info_of,
    safe_cookie_authenticate, safe_cookie_input, server_hash_key, AuthChallengeResponse, AuthChoice,
    ProtocolInfo, auth_challenge_of, starts_with, starts_with_exec,
};
use crate::encoding::hmac_sha256;
use crate::error::{is_server_response, Error, ProtocolError};
use crate::protocol::{frame, read_response, Frame, Response};
use crate::text::{
    bytes_of, copy_range, crlf, crlf_bytes, eq_bytes, first_occ, find_from, push_bytes, sep_of,
};

verus! {

/// Subscribed event kinds in order of registration, each with its queue of
/// payloads, oldest first.
pub type EventsView = Seq<(Seq<u8>, Seq<Seq<u8>>)>;

/// A subscribed event kind and its pending payloads.
#[derive(Debug, Clone)]
pub struct EventQueue {
    pub kind: Vec<u8>,
    pub events: Vec<Vec<u8>>,
}

pub open spec fn queue_view(q: EventQueue) -> (Seq<u8>, Seq<Seq<u8>>) {
    (q.kind@, bytes_of(q.events@))
}

pub open spec fn queues_view(qs: Seq<EventQueue>) -> EventsView {
    qs.map_values(|q: EventQueue| queue_view(q))
}

pub open spec fn pair_view(p: (Vec<u8>, Vec<u8>)) -> (Seq<u8>, Seq<u8>) {
    (p.0@, p.1@)
}

/// The state of a session.
/// Where the handshake stands.
#[derive(Debug)]
pub enum AuthState {
    /// Nothing sent yet.
    Start,
    /// PROTOCOLINFO sent.
    AwaitInfo,
    /// Waiting for the cookie file's content and a client nonce.
    AwaitCookie,
    /// AUTHCHALLENGE sent with this cookie and nonce.
    AwaitChallenge { cookie: Vec<u8>, client_nonce: Vec<u8> },
    /// AUTHENTICATE sent.
    AwaitAuthenticated,
    /// The session is authenticated.
    Authenticated,
    /// The handshake failed.
    Failed,
}

/// What the handshake is handed.
pub enum AuthEvent {
    /// Begin the handshake.
    Start,
    /// The daemon's reply to the command last sent.
    Reply(Response),
    /// The cookie file's content and a fresh 64-byte client nonce.
    Cookie { cookie: Vec<u8>, client_nonce: Vec<u8> },
}

/// What the handshake asks for next.
#[derive(Debug, PartialEq, Eq)]
pub enum AuthAction {
    /// Send this command and hand back the reply.
    Send(Vec<u8>),
    /// Read the cookie file at this path, draw a 64-byte nonce from a secure
    /// generator, and hand both back.
    ReadCookie(Vec<u8>),
    /// The session is authenticated.
    Done,
}

pub struct Connection {
    buffer: Vec<u8>,
    async_events: Option<Vec<EventQueue>>,
    closed: bool,
    auth: AuthState,
}

pub struct ConnectionView {
    /// Bytes received and not yet framed.
    pub buffer: Seq<u8>,
    /// The subscriptions, if `SETEVENTS` ever succeeded.
    pub events: Option<EventsView>,
    /// Whether the session failed; it then takes no more commands.
    pub closed: bool,
}

impl View for Connection {
    type V = ConnectionView;

    closed spec fn view(&self) -> ConnectionView {
        ConnectionView {
            buffer: self.buffer@,
            events: match self.async_events {
                Some(qs) => Some(queues_view(qs@)),
                None => None,
            },
            closed: self.closed,
        }
    }
}

/// The bytes that send `cmd`: the command followed by CRLF unless it
/// already ends with one.
pub open spec fn command_text(cmd: Seq<u8>) -> Seq<u8> {
    if cmd.len() >= 2 && cmd.subrange(cmd.len() - 2, cmd.len() as int) == crlf() {
        cmd
    } else {
        cmd + crlf()
    }
}

/// One of the handshake's commands, which may be sent before it succeeds.
pub open spec fn handshake_command(cmd: Seq<u8>) -> bool {
    starts_with(cmd, "PROTOCOLINFO".spec_bytes()) || starts_with(cmd, "AUTHCHALLENGE".spec_bytes())
        || starts_with(cmd, "AUTHENTICATE".spec_bytes())
}

/// CRLF, `OK`, CRLF: the end line of a successful reply.
pub open spec fn ok_end() -> Seq<u8> {
    seq![13u8, 10u8, 79u8, 75u8, 13u8, 10u8]
}

/// The value of a GETINFO reply, from the text after its `=`: the reply's
/// final `OK` line and the line end before it are not part of it, nor is the
/// line end of a one-line reply.
pub open spec fn info_tail(t: Seq<u8>) -> Seq<u8> {
    if t.len() >= 6 && t.subrange(t.len() - 6, t.len() as int) == ok_end() {
        t.subrange(0, t.len() - 6)
    } else if t.len() >= 2 && t.subrange(t.len() - 2, t.len() as int) == crlf() {
        t.subrange(0, t.len() - 2)
    } else {
        t
    }
}

fn info_tail_exec(t: &[u8]) -> (r: Vec<u8>)
    ensures
        r@ == info_tail(t@),
{
    let n = t.len();
    let mut end: Vec<u8> = crlf_bytes();
    end.push(79);
    end.push(75);
    end.push(13);
    end.push(10);
    assert(end@ =~= ok_end());
    if n >= 6 && eq_bytes(copy_range(t, n - 6, n).as_slice(), end.as_slice()) {
        return copy_range(t, 0, n - 6);
    }
    if n >= 2 && t[n - 2] == 13 && t[n - 1] == 10 {
        assert(t@.subrange(n - 2, n as int) =~= crlf());
        return copy_range(t, 0, n - 2);
    }
    proof {
        if n >= 2 {
            assert(t@.subrange(n - 2, n as int)[0] == t@[n - 2]);
            assert(t@.subrange(n - 2, n as int)[1] == t@[n - 1]);
        }
    }
    copy_all(t)
}

/// Index of the subscription for `kind` at or after `i`, or -1.
pub open spec fn kind_index(ev: EventsView, kind: Seq<u8>, i: int) -> int
    decreases ev.len() - i,
{
    if i < 0 || i >= ev.len() {
        -1
    } else if ev[i].0 == kind {
        i
    } else {
        kind_index(ev, kind, i + 1)
    }
}

/// The payload of an event reply without its final CRLF.
pub open spec fn event_body(data: Seq<u8>) -> Seq<u8> {
    if data.len() >= 2 && data.subrange(data.len() - 2, data.len() as int) == crlf() {
        data.subrange(0, data.len() - 2)
    } else {
        data
    }
}

/// The subscriptions after an event reply with payload `data`: the first
/// word names the kind, the rest is queued for it; an event of a kind not
/// subscribed, or without a first word, is dropped.
pub open spec fn deliver(ev: Option<EventsView>, data: Seq<u8>) -> Option<EventsView> {
    let body = event_body(data);
    let sp = first_occ(body, seq![32u8], 0);
    match ev {
        None => None,
        Some(q) => if sp >= body.len() {
            Some(q)
        } else {
            let i = kind_index(q, body.subrange(0, sp), 0);
            if i < 0 {
                Some(q)
            } else {
                Some(q.update(i, (q[i].0, q[i].1.push(body.subrange(sp + 1, body.len() as int)))))
            }
        },
    }
}

/// What reading from the buffer comes to.
pub enum Pump {
    /// A reply other than an event, the bytes left after it, and the
    /// subscriptions after the events read before it.
    Reply { code: u16, data: Seq<u8>, rest: Seq<u8>, events: Option<EventsView> },
    /// No whole reply yet; the bytes left and the subscriptions.
    Waiting { rest: Seq<u8>, events: Option<EventsView> },
    /// The bytes are no reply.
    Failed(Frame),
}

/// Frames replies from `buf`, queueing events, up to the first other reply.
pub open spec fn pump(buf: Seq<u8>, ev: Option<EventsView>) -> Pump
    decreases buf.len(),
{
    match frame(buf) {
        Frame::Complete { code, data, len } => if 0 < len <= buf.len() {
            if code == 650 {
                pump(buf.subrange(len, buf.len() as int), deliver(ev, data))
            } else {
                Pump::Reply { code, data, rest: buf.subrange(len, buf.len() as int), events: ev }
            }
        } else {
            Pump::Failed(Frame::Malformed)
        },
        Frame::Incomplete => Pump::Waiting { rest: buf, events: ev },
        f => Pump::Failed(f),
    }
}

/// The subscriptions after `SETEVENTS` for `kinds` succeeded: each kind not
/// yet subscribed is added, with an empty queue, after those there are.
pub open spec fn subscribe(ev: EventsView, kinds: Seq<Seq<u8>>) -> EventsView
    decreases kinds.len(),
{
    if kinds.len() == 0 {
        ev
    } else {
        let k = kinds.last();
        let before = subscribe(ev, kinds.drop_last());
        if kind_index(before, k, 0) >= 0 {
            before
        } else {
            before.push((k, Seq::empty()))
        }
    }
}

/// Index of the first subscription with a pending event, at or after `i`, or -1.
pub open spec fn first_pending(ev: EventsView, i: int) -> int
    decreases ev.len() - i,
{
    if i < 0 || i >= ev.len() {
        -1
    } else if ev[i].1.len() > 0 {
        i
    } else {
        first_pending(ev, i + 1)
    }
}

proof fn lemma_kind_index_range(ev: EventsView, kind: Seq<u8>, i: int)
    requires
        0 <= i,
    ensures
        -1 <= kind_index(ev, kind, i) < ev.len(),
        kind_index(ev, kind, i) >= 0 ==> kind_index(ev, kind, i) >= i && ev[kind_index(ev, kind, i)].0
            == kind,
    decreases ev.len() - i,
{
    if i < ev.len() && ev[i].0 != kind {
        lemma_kind_index_range(ev, kind, i + 1);
    }
}

fn kind_index_exec(qs: &Vec<EventQueue>, kind: &[u8]) -> (r: Option<usize>)
    ensures
        match r {
            Some(i) => kind_index(queues_view(qs@), kind@, 0) == i as int,
            None => kind_index(queues_view(qs@), kind@, 0) == -1,
        },
{
    let ghost ev = queues_view(qs@);
    let mut i: usize = 0;
    while i < qs.len()
        invariant
            i <= qs@.len() == ev.len(),
            ev == queues_view(qs@),
            kind_index(ev, kind@, 0) == kind_index(ev, kind@, i as int),
        decreases qs@.len() - i,
    {
        assert(ev[i as int].0 == qs@[i as int].kind@);
        if eq_bytes(qs[i].kind.as_slice(), kind) {
            return Some(i);
        }
        i = i + 1;
    }
    None
}

fn copy_all(s: &[u8]) -> (r: Vec<u8>)
    ensures
        r@ == s@,
{
    let r = copy_range(s, 0, s.len());
    assert(s@.subrange(0, s@.len() as int) =~= s@);
    r
}

impl Connection {
    /// A session with nothing received and no subscription.
    pub fn new() -> (r: Connection)
        ensures
            r@.buffer == Seq::<u8>::empty(),
            r@.events is None,
            !r@.closed,
            r.auth_state() is Start,
    {
        let r = Connection {
            buffer: Vec::new(),
            async_events: None,
            closed: false,
            auth: AuthState::Start,
        };
        assert(r@.buffer =~= Seq::<u8>::empty());
        r
    }

    /// The bytes to write to send `cmd`; none once the session failed, and
    /// none but for the handshake's commands until it has succeeded.
    pub fn send_command(&self, cmd: &[u8]) -> (r: Result<Vec<u8>, Error>)
        ensures
            self@.closed ==> r == Err::<Vec<u8>, Error>(Error::Closed),
            !self@.closed && !(self.auth_state() is Authenticated) && !handshake_command(cmd@) ==> r
                == Err::<Vec<u8>, Error>(Error::Unauthenticated),
            !self@.closed && (self.auth_state() is Authenticated || handshake_command(cmd@)) ==> r is Ok
                && r->Ok_0@ == command_text(cmd@),
    {
        if self.closed {
            return Err(Error::Closed);
        }
        if !self.is_authenticated() && !(starts_with_exec(cmd, "PROTOCOLINFO".as_bytes())
            || starts_with_exec(cmd, "AUTHCHALLENGE".as_bytes()) || starts_with_exec(
            cmd,
            "AUTHENTICATE".as_bytes(),
        )) {
            return Err(Error::Unauthenticated);
        }
        let mut out = copy_all(cmd);
        let n = cmd.len();
        if n >= 2 && cmd[n - 2] == 13 && cmd[n - 1] == 10 {
            assert(cmd@.subrange(n - 2, n as int) =~= crlf());
            return Ok(out);
        }
        proof {
            if n >= 2 {
                assert(cmd@.subrange(n - 2, n as int)[0] == cmd@[n - 2]);
                assert(cmd@.subrange(n - 2, n as int)[1] == cmd@[n - 1]);
            }
        }
        push_bytes(&mut out, crlf_bytes().as_slice());
        Ok(out)
    }


    /// Where the handshake stands.
    pub closed spec fn auth_state(&self) -> AuthState {
        self.auth
    }

    /// Whether the handshake has succeeded.
    pub fn is_authenticated(&self) -> (r: bool)
        ensures
            r == self.auth_state() is Authenticated,
    {
        match self.auth {
            AuthState::Authenticated => true,
            _ => false,
        }
    }

    /// One step of the handshake: PROTOCOLINFO; then a bare AUTHENTICATE
    /// where NULL is offered, or SAFECOOKIE: the cookie and a nonce are asked
    /// for, AUTHCHALLENGE is sent, the daemon's hash is checked, and only
    /// then AUTHENTICATE is sent with the client hash. Any failure ends the
    /// handshake.
    pub fn authenticate(&mut self, event: AuthEvent) -> (r: Result<AuthAction, Error>)
        ensures
            final(self)@.buffer == old(self)@.buffer,
            final(self)@.events == old(self)@.events,
            final(self)@.closed == (old(self)@.closed || r is Err),
            r is Err ==> final(self).auth_state() is Failed,
            match (old(self).auth_state(), event) {
                (AuthState::Start, AuthEvent::Start) => r is Ok && r->Ok_0 is Send && r->Ok_0->Send_0@
                    == "PROTOCOLINFO 1".spec_bytes() && final(self).auth_state() is AwaitInfo,
                (AuthState::AwaitInfo, AuthEvent::Reply(resp)) => {
                    let pi = protocol_info_of(resp.data@);
                    if resp.code != 250 {
                        r is Err && is_server_response(r->Err_0, resp.code, resp.data@)
                    } else if pi is None {
                        r is Err && r->Err_0 is Parsing
                    } else if pi->0.auth_methods.contains(crate::auth::AuthMethods::Null) {
                        r is Ok && r->Ok_0 is Send && r->Ok_0->Send_0@ == "AUTHENTICATE".spec_bytes()
                            && final(self).auth_state() is AwaitAuthenticated
                    } else if pi->0.auth_methods.contains(crate::auth::AuthMethods::SafeCookie)
                        && pi->0.cookie_file is Some {
                        r is Ok && r->Ok_0 is ReadCookie && r->Ok_0->ReadCookie_0@ == pi->0.cookie_file->0
                            && final(self).auth_state() is AwaitCookie
                    } else {
                        r == Err::<AuthAction, Error>(Error::Unsupported)
                    }
                },
                (AuthState::AwaitCookie, AuthEvent::Cookie { cookie, client_nonce }) => r is Ok
                    && r->Ok_0 is Send && r->Ok_0->Send_0@ == auth_challenge_text(client_nonce@)
                    && final(self).auth_state() is AwaitChallenge,
                (AuthState::AwaitChallenge { cookie, client_nonce }, AuthEvent::Reply(resp)) => {
                    let ch = auth_challenge_of(resp.data@);
                    if resp.code != 250 {
                        r is Err && is_server_response(r->Err_0, resp.code, resp.data@)
                    } else if ch is None {
                        r is Err && r->Err_0 is Parsing
                    } else {
                        let hash_and_nonce = ch->0;
                        let input = safe_cookie_input(cookie@, client_nonce@, hash_and_nonce.1);
                        if hmac_sha256(server_hash_key(), input) == hash_and_nonce.0 {
                            r is Ok && r->Ok_0 is Send && r->Ok_0->Send_0@ == authenticate_text(
                                hmac_sha256(client_hash_key(), input),
                            ) && final(self).auth_state() is AwaitAuthenticated
                        } else {
                            r is Err && r->Err_0 is Protocol && r->Err_0->Protocol_0 is ServerHashMismatch
                        }
                    }
                },
                (AuthState::AwaitAuthenticated, AuthEvent::Reply(resp)) => if resp.code == 250 {
                    r == Ok::<AuthAction, Error>(AuthAction::Done) && final(self).auth_state() is Authenticated
                } else {
                    r is Err && is_server_response(r->Err_0, resp.code, resp.data@)
                },
                _ => r == Err::<AuthAction, Error>(Error::Protocol(ProtocolError::UnexpectedEvent)),
            },
    {
        let mut state = AuthState::Failed;
        core::mem::swap(&mut self.auth, &mut state);
        let r = match (state, event) {
            (AuthState::Start, AuthEvent::Start) => {
                self.auth = AuthState::AwaitInfo;
                Ok(AuthAction::Send(protocol_info_command()))
            },
            (AuthState::AwaitInfo, AuthEvent::Reply(resp)) => {
                match check_success(&resp) {
                    Err(e) => Err(e),
                    Ok(()) => match ProtocolInfo::parse(resp.data.as_slice()) {
                        Err(e) => Err(e),
                        Ok(pi) => match choose_auth_method(&pi) {
                            Ok(AuthChoice::Null) => {
                                self.auth = AuthState::AwaitAuthenticated;
                                Ok(AuthAction::Send(null_authenticate_command()))
                            },
                            Ok(AuthChoice::SafeCookie(path)) => {
                                self.auth = AuthState::AwaitCookie;
                                Ok(AuthAction::ReadCookie(path))
                            },
                            Err(e) => Err(e),
                        },
                    },
                }
            },
            (AuthState::AwaitCookie, AuthEvent::Cookie { cookie, client_nonce }) => {
                let cmd = auth_challenge_command(client_nonce.as_slice());
                self.auth = AuthState::AwaitChallenge { cookie, client_nonce };
                Ok(AuthAction::Send(cmd))
            },
            (AuthState::AwaitChallenge { cookie, client_nonce }, AuthEvent::Reply(resp)) => {
                match check_success(&resp) {
                    Err(e) => Err(e),
                    Ok(()) => match AuthChallengeResponse::parse(resp.data.as_slice()) {
                        Err(e) => Err(e),
                        Ok(ch) => match safe_cookie_authenticate(
                            cookie.as_slice(),
                            client_nonce.as_slice(),
                            &ch,
                        ) {
                            Ok(cmd) => {
                                self.auth = AuthState::AwaitAuthenticated;
                                Ok(AuthAction::Send(cmd))
                            },
                            Err(e) => Err(e),
                        },
                    },
                }
            },
            (AuthState::AwaitAuthenticated, AuthEvent::Reply(resp)) => {
                match check_success(&resp) {
                    Ok(()) => {
                        self.auth = AuthState::Authenticated;
                        Ok(AuthAction::Done)
                    },
                    Err(e) => Err(e),
                }
            },
            _ => Err(Error::Protocol(ProtocolError::UnexpectedEvent)),
        };
        if r.is_err() {
            self.closed = true;
        }
        r
    }

    /// Hands in bytes read from the transport.
    pub fn receive(&mut self, data: &[u8])
        ensures
            final(self)@.buffer == old(self)@.buffer + data@,
            final(self)@.events == old(self)@.events,
            final(self)@.closed == old(self)@.closed,
    {
        push_bytes(&mut self.buffer, data);
    }

    /// Marks the session failed, as after an error of its transport.
    pub fn close(&mut self)
        ensures
            final(self)@.closed,
            final(self)@.buffer == old(self)@.buffer,
            final(self)@.events == old(self)@.events,
    {
        self.closed = true;
    }

    fn deliver_exec(&mut self, data: &[u8])
        ensures
            final(self)@.closed == old(self)@.closed,
            final(self)@.buffer == old(self)@.buffer,
            final(self)@.events == deliver(old(self)@.events, data@),
    {
        let n = data.len();
        let body = if n >= 2 && data[n - 2] == 13 && data[n - 1] == 10 {
            assert(data@.subrange(n - 2, n as int) =~= crlf());
            copy_range(data, 0, n - 2)
        } else {
            proof {
                if n >= 2 {
                    assert(data@.subrange(n - 2, n as int)[0] == data@[n - 2]);
                    assert(data@.subrange(n - 2, n as int)[1] == data@[n - 1]);
                }
            }
            copy_all(data)
        };
        assert(body@ == crate::conn::event_body(data@));
        let sp = find_from(body.as_slice(), sep_of(32).as_slice(), 0);
        match &mut self.async_events {
            None => {},
            Some(qs) => {
                if sp >= body.len() {
                    return;
                }
                let kind = copy_range(body.as_slice(), 0, sp);
                let rest = copy_range(body.as_slice(), sp + 1, body.len());
                match kind_index_exec(qs, kind.as_slice()) {
                    None => {},
                    Some(i) => {
                        proof {
                            lemma_kind_index_range(queues_view(qs@), kind@, 0);
                        }
                        let ghost before = queues_view(qs@);
                        let mut q = qs[i].clone_queue();
                        q.events.push(rest);
                        let ghost qv = queue_view(q);
                        qs.set(i, q);
                        proof {
                            assert(bytes_of(q.events@) =~= before[i as int].1.push(rest@));
                            assert(queues_view(qs@) =~= before.update(
                                i as int,
                                (before[i as int].0, before[i as int].1.push(rest@)),
                            ));
                        }
                    },
                }
            },
        }
    }

    /// Frames what was received, queueing the events (code 650) it holds,
    /// up to the first other reply, which it returns; `None` while that
    /// reply has not wholly arrived. Bytes that are no reply close the
    /// session.
    pub fn next_response(&mut self) -> (r: Result<Option<Response>, Error>)
        ensures
            old(self)@.closed ==> r == Err::<Option<Response>, Error>(Error::Closed) && final(self)@
                == old(self)@,
            !old(self)@.closed ==> match pump(old(self)@.buffer, old(self)@.events) {
                Pump::Reply { code, data, rest, events } => r is Ok && r->Ok_0 is Some
                    && r->Ok_0->0.code == code && r->Ok_0->0.data@ == data && final(self)@.buffer
                    == rest && final(self)@.events == events,
                Pump::Waiting { rest, events } => r is Ok && r->Ok_0 is None && final(self)@.buffer
                    == rest && final(self)@.events == events,
                Pump::Failed(f) => r is Err && final(self)@.closed && match f {
                    Frame::Mismatch { first, other } => r->Err_0 == Error::Protocol(
                        ProtocolError::CodeMismatch { first, other },
                    ),
                    _ => r->Err_0 is Parsing,
                },
            },
            !old(self)@.closed && r is Ok ==> !final(self)@.closed,
    {
        if self.closed {
            return Err(Error::Closed);
        }
        loop
            invariant
                !self.closed,
                !old(self)@.closed,
                pump(old(self)@.buffer, old(self)@.events) == pump(self@.buffer, self@.events),
            decreases self@.buffer.len(),
        {
            match read_response(self.buffer.as_slice()) {
                Ok(Some((resp, len))) => {
                    if len == 0 || len > self.buffer.len() {
                        self.closed = true;
                        return Err(Error::Parsing(copy_all(self.buffer.as_slice())));
                    }
                    let rest = copy_range(self.buffer.as_slice(), len, self.buffer.len());
                    self.buffer = rest;
                    if resp.code == 650 {
                        self.deliver_exec(resp.data.as_slice());
                    } else {
                        return Ok(Some(resp));
                    }
                },
                Ok(None) => {
                    return Ok(None);
                },
                Err(e) => {
                    self.closed = true;
                    return Err(e);
                },
            }
        }
    }

    /// Records a `SETEVENTS` for `kinds` once the daemon has answered it
    /// with `response`: on success each kind gets a queue (queues already
    /// there are kept); otherwise the reply is returned as the error.
    pub fn handle_async_event(&mut self, kinds: &Vec<Vec<u8>>, response: &Response) -> (r: Result<(), Error>)
        ensures
            final(self)@.buffer == old(self)@.buffer,
            final(self)@.closed == old(self)@.closed,
            response.code == 250 ==> r is Ok && final(self)@.events == Some(
                subscribe(
                    match old(self)@.events {
                        Some(q) => q,
                        None => Seq::empty(),
                    },
                    bytes_of(kinds@),
                ),
            ),
            response.code != 250 ==> r is Err && is_server_response(r->Err_0, response.code, response.data@)
                && final(self)@.events == old(self)@.events,
    {
        if response.code != 250 {
            return Err(Error::ServerResponse(response.code, copy_all(response.data.as_slice())));
        }
        let mut qs: Vec<EventQueue> = match self.async_events.take() {
            Some(qs) => qs,
            None => Vec::new(),
        };
        let ghost start = queues_view(qs@);
        let mut i: usize = 0;
        while i < kinds.len()
            invariant
                i <= kinds@.len(),
                self.buffer == old(self).buffer,
                self.closed == old(self).closed,
                start == match old(self)@.events {
                    Some(q) => q,
                    None => Seq::empty(),
                },
                queues_view(qs@) == subscribe(start, bytes_of(kinds@).subrange(0, i as int)),
            decreases kinds@.len() - i,
        {
            let ghost ks = bytes_of(kinds@).subrange(0, i + 1);
            assert(ks.drop_last() =~= bytes_of(kinds@).subrange(0, i as int));
            assert(ks.last() == kinds@[i as int]@);
            match kind_index_exec(&qs, kinds[i].as_slice()) {
                Some(_) => {},
                None => {
                    let ghost before = queues_view(qs@);
                    let q = EventQueue { kind: copy_all(kinds[i].as_slice()), events: Vec::new() };
                    assert(bytes_of(q.events@) =~= Seq::<Seq<u8>>::empty());
                    qs.push(q);
                    assert(queues_view(qs@) =~= before.push((kinds@[i as int]@, Seq::empty())));
                },
            }
            i = i + 1;
        }
        assert(bytes_of(kinds@).subrange(0, i as int) =~= bytes_of(kinds@));
        self.async_events = Some(qs);
        Ok(())
    }

    /// Takes the oldest pending event of the first subscribed kind, in order
    /// of registration, that has one.
    pub fn consome_async_event(&mut self) -> (r: Option<(Vec<u8>, Vec<u8>)>)
        ensures
            final(self)@.buffer == old(self)@.buffer,
            final(self)@.closed == old(self)@.closed,
            match old(self)@.events {
                None => r is None && final(self)@.events is None,
                Some(ev) => {
                    let i = first_pending(ev, 0);
                    if i < 0 {
                        r is None && final(self)@.events == old(self)@.events
                    } else {
                        r is Some && pair_view(r->0) == (ev[i].0, ev[i].1[0])
                            && final(self)@.events == Some(ev.update(i, (ev[i].0, ev[i].1.drop_first())))
                    }
                },
            },
    {
        let mut qs = match self.async_events.take() {
            None => {
                return None;
            },
            Some(qs) => qs,
        };
        let ghost ev = queues_view(qs@);
        let mut i: usize = 0;
        while i < qs.len()
            invariant
                i <= qs@.len() == ev.len(),
                ev == queues_view(qs@),
                old(self)@.events == Some(ev),
                self.buffer == old(self).buffer,
                self.closed == old(self).closed,
                first_pending(ev, 0) == first_pending(ev, i as int),
            decreases qs@.len() - i,
        {
            if qs[i].events.len() > 0 {
                let mut q = qs[i].clone_queue();
                let first = q.events.remove(0);
                let kind = copy_all(q.kind.as_slice());
                qs.set(i, q);
                proof {
                    assert(bytes_of(q.events@) =~= ev[i as int].1.drop_first());
                    assert(queues_view(qs@) =~= ev.update(
                        i as int,
                        (ev[i as int].0, ev[i as int].1.drop_first()),
                    ));
                }
                self.async_events = Some(qs);
                return Some((kind, first));
            }
            i = i + 1;
        }
        self.async_events = Some(qs);
        None
    }

    /// The value that the GETINFO reply `response` gives for `key`.
    pub fn get_info(key: &[u8], response: &Response) -> (r: Result<Vec<u8>, Error>)
        ensures
            ({
                let d = response.data@;
                let i = first_occ(d, seq![61u8], 0);
                if response.code != 250 {
                    r is Err && is_server_response(r->Err_0, response.code, d)
                } else if i >= d.len() {
                    r is Err && r->Err_0 is Protocol && r->Err_0->Protocol_0 is NoKeyValue
                } else if d.subrange(0, i) != key@ {
                    r is Err && r->Err_0 is Protocol && r->Err_0->Protocol_0 is KeyMismatch
                } else {
                    r is Ok && r->Ok_0@ == info_tail(d.subrange(i + 1, d.len() as int))
                }
            }),
    {
        if response.code != 250 {
            return Err(Error::ServerResponse(response.code, copy_all(response.data.as_slice())));
        }
        let d = response.data.as_slice();
        let i = find_from(d, sep_of(61).as_slice(), 0);
        if i >= d.len() {
            return Err(Error::Protocol(ProtocolError::NoKeyValue(copy_all(d))));
        }
        let k = copy_range(d, 0, i);
        if !eq_bytes(k.as_slice(), key) {
            return Err(Error::Protocol(ProtocolError::KeyMismatch { expected: copy_all(key), received: k }));
        }
        let tail = copy_range(d, i + 1, d.len());
        Ok(info_tail_exec(tail.as_slice()))
    }
}

impl EventQueue {
    fn clone_queue(&self) -> (r: EventQueue)
        ensures
            queue_view(r) == queue_view(*self),
    {
        let mut events: Vec<Vec<u8>> = Vec::new();
        let mut i: usize = 0;
        while i < self.events.len()
            invariant
                i <= self.events@.len(),
                events@.len() == i,
                forall|j: int| 0 <= j < i ==> (#[trigger] events@[j])@ == self.events@[j]@,
            decreases self.events@.len() - i,
        {
            events.push(copy_all(self.events[i].as_slice()));
            i = i + 1;
        }
        let r = EventQueue { kind: copy_all(self.kind.as_slice()), events };
        assert(bytes_of(r.events@) =~= bytes_of(self.events@));
        r
    }
}

} // verus!
