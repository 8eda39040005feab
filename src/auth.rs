//! Authentication records: what PROTOCOLINFO reports and what AUTHCHALLENGE
//! answers.
use vstd::prelude::*;
use vstd::string::StringSliceAdditionalSpecFns;

use crate::encoding::{hmac, hmac_sha256};
use crate::error::{is_server_response, Error, ProtocolError};
use crate::protocol::Response;
use crate::text::{hex_encode, hex_upper, push_bytes, to_array, 
    all_hex, bytes_of, copy_range, crlf, crlf_bytes, eq_bytes, first_occ, find_from, hex_bytes_of,
    hex_decode, parse_quoted, quoted_of, sep_of, split_bytes, split_on,
};

verus! {

/// An authentication method that the daemon offers.
#[derive(Debug, Clone, Copy, PartialEq, Eq, Structural)]
pub enum AuthMethods {
    /// No authentication: a bare AUTHENTICATE suffices.
    Null,
    /// A password is required.
    HashedPassword,
    /// The cookie file's content is the secret.
    Cookie,
    /// Challenge and response over the cookie file and two nonces.
    SafeCookie,
}

impl AuthMethods {
    /// Its token on the wire.
    pub open spec fn token(self) -> Seq<u8> {
        match self {
            AuthMethods::Null => "NULL".spec_bytes(),
            AuthMethods::HashedPassword => "HASHEDPASSWORD".spec_bytes(),
            AuthMethods::Cookie => "COOKIE".spec_bytes(),
            AuthMethods::SafeCookie => "SAFECOOKIE".spec_bytes(),
        }
    }

    /// The value whose token `w` is.
    pub open spec fn from_token(w: Seq<u8>) -> Option<Self> {
        if w == "NULL".spec_bytes() {
            Some(AuthMethods::Null)
        } else if w == "HASHEDPASSWORD".spec_bytes() {
            Some(AuthMethods::HashedPassword)
        } else if w == "COOKIE".spec_bytes() {
            Some(AuthMethods::Cookie)
        } else if w == "SAFECOOKIE".spec_bytes() {
            Some(AuthMethods::SafeCookie)
        } else {
            None
        }
    }

    /// The value whose token is the whole of `w`.
    pub fn parse(w: &[u8]) -> (r: Option<Self>)
        ensures
            r == Self::from_token(w@),
    {
        if eq_bytes(w, "NULL".as_bytes()) {
            Some(AuthMethods::Null)
        } else if eq_bytes(w, "HASHEDPASSWORD".as_bytes()) {
            Some(AuthMethods::HashedPassword)
        } else if eq_bytes(w, "COOKIE".as_bytes()) {
            Some(AuthMethods::Cookie)
        } else if eq_bytes(w, "SAFECOOKIE".as_bytes()) {
            Some(AuthMethods::SafeCookie)
        } else {
            None
        }
    }

    /// The token of this value.
    pub fn to_text(&self) -> (r: &'static [u8])
        ensures
            r@ == self.token(),
    {
        match self {
            AuthMethods::Null => "NULL".as_bytes(),
            AuthMethods::HashedPassword => "HASHEDPASSWORD".as_bytes(),
            AuthMethods::Cookie => "COOKIE".as_bytes(),
            AuthMethods::SafeCookie => "SAFECOOKIE".as_bytes(),
        }
    }
}

/// `s` starts with `p`.
pub open spec fn starts_with(s: Seq<u8>, p: Seq<u8>) -> bool {
    s.len() >= p.len() && s.subrange(0, p.len() as int) == p
}

pub fn starts_with_exec(s: &[u8], p: &[u8]) -> (r: bool)
    ensures
        r == starts_with(s@, p@),
{
    if s.len() < p.len() {
        return false;
    }
    let head = copy_range(s, 0, p.len());
    eq_bytes(head.as_slice(), p)
}

/// What PROTOCOLINFO reports.
#[derive(Debug, Clone, PartialEq, Eq)]
pub struct ProtocolInfo {
    pub auth_methods: Vec<AuthMethods>,
    pub cookie_file: Option<Vec<u8>>,
    pub version: Vec<u8>,
}

pub struct ProtocolInfoView {
    pub auth_methods: Seq<AuthMethods>,
    pub cookie_file: Option<Seq<u8>>,
    pub version: Seq<u8>,
}

impl View for ProtocolInfo {
    type V = ProtocolInfoView;

    open spec fn view(&self) -> ProtocolInfoView {
        ProtocolInfoView {
            auth_methods: self.auth_methods@,
            cookie_file: match self.cookie_file {
                Some(c) => Some(c@),
                None => None,
            },
            version: self.version@,
        }
    }
}

/// The comma-separated methods.
pub open spec fn methods_of(w: Seq<u8>) -> Option<Seq<AuthMethods>> {
    let parts = split_on(w, seq![44u8]);
    if forall|i: int| 0 <= i < parts.len() ==> (#[trigger] AuthMethods::from_token(parts[i])) is Some {
        Some(parts.map_values(|p: Seq<u8>| AuthMethods::from_token(p)->0))
    } else {
        None
    }
}

/// The line `AUTH METHODS=<m>,<m>... [COOKIEFILE="<path>"]`.
pub open spec fn auth_line_of(l: Seq<u8>) -> Option<(Seq<AuthMethods>, Option<Seq<u8>>)> {
    let p = "AUTH METHODS=".spec_bytes();
    let c = "COOKIEFILE=".spec_bytes();
    if starts_with(l, p) {
        let rest = l.subrange(p.len() as int, l.len() as int);
        let sp = first_occ(rest, seq![32u8], 0);
        match methods_of(rest.subrange(0, sp)) {
            Some(m) => if sp >= rest.len() {
                Some((m, None))
            } else {
                let tail = rest.subrange(sp + 1, rest.len() as int);
                if starts_with(tail, c) && quoted_of(tail.subrange(c.len() as int, tail.len() as int)) is Some {
                    Some((m, quoted_of(tail.subrange(c.len() as int, tail.len() as int))))
                } else {
                    None
                }
            },
            None => None,
        }
    } else {
        None
    }
}

/// The line `VERSION Tor="<version>"`.
pub open spec fn version_line_of(l: Seq<u8>) -> Option<Seq<u8>> {
    let p = "VERSION Tor=".spec_bytes();
    if starts_with(l, p) {
        quoted_of(l.subrange(p.len() as int, l.len() as int))
    } else {
        None
    }
}

/// The PROTOCOLINFO reply text: an optional `PROTOCOLINFO 1` line, the
/// `AUTH` line, then the `VERSION` line.
pub open spec fn protocol_info_of(v: Seq<u8>) -> Option<ProtocolInfoView> {
    let lines = split_on(v, crlf());
    let k: int = if lines[0] == "PROTOCOLINFO 1".spec_bytes() {
        1
    } else {
        0
    };
    let a = auth_line_of(lines[k])->0;
    if k + 1 < lines.len() && auth_line_of(lines[k]) is Some && version_line_of(lines[k + 1]) is Some {
        Some(
            ProtocolInfoView {
                auth_methods: a.0,
                cookie_file: a.1,
                version: version_line_of(lines[k + 1])->0,
            },
        )
    } else {
        None
    }
}

fn parse_methods(w: &[u8]) -> (r: Option<Vec<AuthMethods>>)
    ensures
        match r {
            Some(m) => methods_of(w@) == Some(m@),
            None => methods_of(w@) is None,
        },
{
    let parts = split_bytes(w, sep_of(44).as_slice());
    let ghost g = bytes_of(parts@);
    let mut out: Vec<AuthMethods> = Vec::new();
    let mut i: usize = 0;
    while i < parts.len()
        invariant
            i <= parts@.len() == g.len(),
            g == bytes_of(parts@),
            g == split_on(w@, seq![44u8]),
            forall|j: int| 0 <= j < i ==> (#[trigger] AuthMethods::from_token(g[j])) is Some,
            out@ =~= g.subrange(0, i as int).map_values(|p: Seq<u8>| AuthMethods::from_token(p)->0),
        decreases parts@.len() - i,
    {
        assert(g[i as int] == parts@[i as int]@);
        match AuthMethods::parse(parts[i].as_slice()) {
            Some(m) => {
                out.push(m);
            },
            None => {
                return None;
            },
        }
        i = i + 1;
        assert(out@ =~= g.subrange(0, i as int).map_values(
            |p: Seq<u8>| AuthMethods::from_token(p)->0,
        ));
    }
    assert(g.subrange(0, i as int) =~= g);
    Some(out)
}

fn auth_line(l: &[u8]) -> (r: Option<(Vec<AuthMethods>, Option<Vec<u8>>)>)
    ensures
        match r {
            Some((m, c)) => auth_line_of(l@) == Some(
                (
                    m@,
                    match c {
                        Some(c) => Some(c@),
                        None => None,
                    },
                ),
            ),
            None => auth_line_of(l@) is None,
        },
{
    let p = "AUTH METHODS=".as_bytes();
    let c = "COOKIEFILE=".as_bytes();
    if !starts_with_exec(l, p) {
        return None;
    }
    let rest = copy_range(l, p.len(), l.len());
    let sp = find_from(rest.as_slice(), sep_of(32).as_slice(), 0);
    let m = match parse_methods(copy_range(rest.as_slice(), 0, sp).as_slice()) {
        Some(m) => m,
        None => {
            return None;
        },
    };
    if sp >= rest.len() {
        return Some((m, None));
    }
    let tail = copy_range(rest.as_slice(), sp + 1, rest.len());
    if !starts_with_exec(tail.as_slice(), c) {
        return None;
    }
    match parse_quoted(copy_range(tail.as_slice(), c.len(), tail.len()).as_slice()) {
        Some(q) => Some((m, Some(q))),
        None => None,
    }
}

fn version_line(l: &[u8]) -> (r: Option<Vec<u8>>)
    ensures
        match r {
            Some(v) => version_line_of(l@) == Some(v@),
            None => version_line_of(l@) is None,
        },
{
    let p = "VERSION Tor=".as_bytes();
    if !starts_with_exec(l, p) {
        return None;
    }
    parse_quoted(copy_range(l, p.len(), l.len()).as_slice())
}

impl ProtocolInfo {
    /// The PROTOCOLINFO reply text `v`.
    pub fn parse(v: &[u8]) -> (r: Result<ProtocolInfo, Error>)
        ensures
            match r {
                Ok(pi) => protocol_info_of(v@) == Some(pi@),
                Err(e) => protocol_info_of(v@) is None && e is Parsing && e->Parsing_0@ == v@,
            },
    {
        let lines = split_bytes(v, crlf_bytes().as_slice());
        let ghost l = bytes_of(lines@);
        assert(l.len() == lines@.len());
        assert(l[0] == lines@[0]@);
        let k: usize = if eq_bytes(lines[0].as_slice(), "PROTOCOLINFO 1".as_bytes()) {
            1
        } else {
            0
        };
        if k + 1 >= lines.len() {
            let d = copy_range(v, 0, v.len());
            assert(d@ =~= v@);
            return Err(Error::Parsing(d));
        }
        assert(l[k as int] == lines@[k as int]@);
        assert(l[k + 1] == lines@[k + 1]@);
        let auth = auth_line(lines[k].as_slice());
        let version = version_line(lines[k + 1].as_slice());
        match (auth, version) {
            (Some((auth_methods, cookie_file)), Some(version)) => Ok(
                ProtocolInfo { auth_methods, cookie_file, version },
            ),
            _ => {
                let d = copy_range(v, 0, v.len());
                assert(d@ =~= v@);
                Err(Error::Parsing(d))
            },
        }
    }
}


/// What AUTHCHALLENGE answers: the daemon's hash and nonce.
#[derive(Debug, Clone, PartialEq, Eq)]
pub struct AuthChallengeResponse {
    pub server_hash: [u8; 32],
    pub server_nonce: [u8; 32],
}

/// The hash and nonce of the reply text `v`, whose first line is
/// `AUTHCHALLENGE SERVERHASH=<64 hex> SERVERNONCE=<64 hex>`.
pub open spec fn auth_challenge_of(v: Seq<u8>) -> Option<(Seq<u8>, Seq<u8>)> {
    let line = split_on(v, crlf())[0];
    let w = split_on(line, seq![32u8]);
    let h = "SERVERHASH=".spec_bytes();
    let n = "SERVERNONCE=".spec_bytes();
    if w.len() == 3 && w[0] == "AUTHCHALLENGE".spec_bytes() && starts_with(w[1], h) && starts_with(
        w[2],
        n,
    ) {
        let hx = w[1].subrange(h.len() as int, w[1].len() as int);
        let nx = w[2].subrange(n.len() as int, w[2].len() as int);
        if hx.len() == 64 && all_hex(hx) && nx.len() == 64 && all_hex(nx) {
            Some((hex_bytes_of(hx), hex_bytes_of(nx)))
        } else {
            None
        }
    } else {
        None
    }
}

fn hex32(s: &[u8]) -> (r: Option<[u8; 32]>)
    ensures
        match r {
            Some(a) => s@.len() == 64 && all_hex(s@) && a@ == hex_bytes_of(s@),
            None => !(s@.len() == 64 && all_hex(s@)),
        },
{
    if s.len() != 64 {
        return None;
    }
    let b = match hex_decode(s) {
        Some(b) => b,
        None => {
            return None;
        },
    };
    let a: [u8; 32] = to_array(b.as_slice());
    Some(a)
}

impl AuthChallengeResponse {
    /// The AUTHCHALLENGE reply text `v`; any other text, a non-hex digit
    /// among them, is a parsing error.
    pub fn parse(v: &[u8]) -> (r: Result<AuthChallengeResponse, Error>)
        ensures
            match r {
                Ok(a) => auth_challenge_of(v@) == Some((a.server_hash@, a.server_nonce@)),
                Err(e) => auth_challenge_of(v@) is None && e is Parsing && e->Parsing_0@ == v@,
            },
    {
        let lines = split_bytes(v, crlf_bytes().as_slice());
        assert(bytes_of(lines@)[0] == lines@[0]@);
        let w = split_bytes(lines[0].as_slice(), sep_of(32).as_slice());
        let ghost wv = bytes_of(w@);
        assert(wv.len() == w@.len());
        let h = "SERVERHASH=".as_bytes();
        let n = "SERVERNONCE=".as_bytes();
        if w.len() == 3 {
            assert(wv[0] == w@[0]@);
            assert(wv[1] == w@[1]@);
            assert(wv[2] == w@[2]@);
            if eq_bytes(w[0].as_slice(), "AUTHCHALLENGE".as_bytes()) && starts_with_exec(
                w[1].as_slice(),
                h,
            ) && starts_with_exec(w[2].as_slice(), n) {
                let hx = copy_range(w[1].as_slice(), h.len(), w[1].len());
                let nx = copy_range(w[2].as_slice(), n.len(), w[2].len());
                match (hex32(hx.as_slice()), hex32(nx.as_slice())) {
                    (Some(server_hash), Some(server_nonce)) => {
                        return Ok(AuthChallengeResponse { server_hash, server_nonce });
                    },
                    _ => {},
                }
            }
        }
        let d = copy_range(v, 0, v.len());
        assert(d@ =~= v@);
        Err(Error::Parsing(d))
    }
}

/// The key of the hash that the controller sends.
pub open spec fn client_hash_key() -> Seq<u8> {
    "Tor safe cookie authentication controller-to-server hash".spec_bytes()
}

/// The key of the hash that the daemon sends.
pub open spec fn server_hash_key() -> Seq<u8> {
    "Tor safe cookie authentication server-to-controller hash".spec_bytes()
}

/// The text that both hashes are computed over.
pub open spec fn safe_cookie_input(cookie: Seq<u8>, client_nonce: Seq<u8>, server_nonce: Seq<u8>) -> Seq<u8> {
    cookie + client_nonce + server_nonce
}

/// `AUTHCHALLENGE SAFECOOKIE <nonce in hex>`.
pub open spec fn auth_challenge_text(client_nonce: Seq<u8>) -> Seq<u8> {
    "AUTHCHALLENGE SAFECOOKIE ".spec_bytes() + hex_upper(client_nonce)
}

/// `AUTHENTICATE <hash in hex>`.
pub open spec fn authenticate_text(client_hash: Seq<u8>) -> Seq<u8> {
    "AUTHENTICATE ".spec_bytes() + hex_upper(client_hash)
}

/// How to authenticate, as chosen from what the daemon offers.
#[derive(Debug, Clone, PartialEq, Eq)]
pub enum AuthChoice {
    /// A bare AUTHENTICATE.
    Null,
    /// SAFECOOKIE with the cookie at this path.
    SafeCookie(Vec<u8>),
}

/// `PROTOCOLINFO 1`, the first command of the handshake.
pub fn protocol_info_command() -> (r: Vec<u8>)
    ensures
        r@ == "PROTOCOLINFO 1".spec_bytes(),
{
    let mut r: Vec<u8> = Vec::new();
    push_bytes(&mut r, "PROTOCOLINFO 1".as_bytes());
    r
}

/// The method to use: NULL where offered; else SAFECOOKIE where offered with
/// a cookie file; anything else is not supported.
pub fn choose_auth_method(pi: &ProtocolInfo) -> (r: Result<AuthChoice, Error>)
    ensures
        pi@.auth_methods.contains(AuthMethods::Null) ==> r == Ok::<AuthChoice, Error>(AuthChoice::Null),
        !pi@.auth_methods.contains(AuthMethods::Null) && pi@.auth_methods.contains(AuthMethods::SafeCookie)
            ==> match pi@.cookie_file {
            Some(c) => r is Ok && r->Ok_0 is SafeCookie && r->Ok_0->SafeCookie_0@ == c,
            None => r == Err::<AuthChoice, Error>(Error::Unsupported),
        },
        !pi@.auth_methods.contains(AuthMethods::Null) && !pi@.auth_methods.contains(
            AuthMethods::SafeCookie,
        ) ==> r == Err::<AuthChoice, Error>(Error::Unsupported),
{
    let mut has_null = false;
    let mut has_safe = false;
    let mut i: usize = 0;
    while i < pi.auth_methods.len()
        invariant
            i <= pi.auth_methods@.len(),
            has_null == (exists|j: int| 0 <= j < i && pi.auth_methods@[j] == AuthMethods::Null),
            has_safe == (exists|j: int| 0 <= j < i && pi.auth_methods@[j] == AuthMethods::SafeCookie),
        decreases pi.auth_methods@.len() - i,
    {
        match pi.auth_methods[i] {
            AuthMethods::Null => {
                has_null = true;
            },
            AuthMethods::SafeCookie => {
                has_safe = true;
            },
            _ => {},
        }
        i = i + 1;
    }
    if has_null {
        Ok(AuthChoice::Null)
    } else if has_safe {
        match &pi.cookie_file {
            Some(c) => {
                let path = copy_range(c.as_slice(), 0, c.len());
                assert(c@.subrange(0, c@.len() as int) =~= c@);
                Ok(AuthChoice::SafeCookie(path))
            },
            None => Err(Error::Unsupported),
        }
    } else {
        Err(Error::Unsupported)
    }
}

/// `AUTHENTICATE` with no payload, for the NULL method.
pub fn null_authenticate_command() -> (r: Vec<u8>)
    ensures
        r@ == "AUTHENTICATE".spec_bytes(),
{
    let mut r: Vec<u8> = Vec::new();
    push_bytes(&mut r, "AUTHENTICATE".as_bytes());
    r
}

/// The AUTHCHALLENGE command that offers `client_nonce`.
pub fn auth_challenge_command(client_nonce: &[u8]) -> (r: Vec<u8>)
    ensures
        r@ == auth_challenge_text(client_nonce@),
{
    let mut r: Vec<u8> = Vec::new();
    push_bytes(&mut r, "AUTHCHALLENGE SAFECOOKIE ".as_bytes());
    let h = hex_encode(client_nonce);
    push_bytes(&mut r, h.as_slice());
    r
}

/// Whether `a` and `b` are equal, looking at every byte whatever the
/// differences found.
pub fn equal_constant_time(a: &[u8], b: &[u8]) -> (r: bool)
    ensures
        r == (a@ == b@),
{
    if a.len() != b.len() {
        return false;
    }
    let mut diff: u8 = 0;
    let mut i: usize = 0;
    assert(a@.subrange(0, 0) =~= b@.subrange(0, 0));
    while i < a.len()
        invariant
            i <= a@.len() == b@.len(),
            (diff == 0) == (a@.subrange(0, i as int) == b@.subrange(0, i as int)),
        decreases a@.len() - i,
    {
        let x = a[i];
        let y = b[i];
        let d = diff | (x ^ y);
        assert((d == 0) == (diff == 0 && x == y)) by (bit_vector)
            requires
                d == diff | (x ^ y),
        ;
        proof {
            if diff == 0 && x == y {
                assert(a@.subrange(0, i + 1) =~= a@.subrange(0, i as int).push(x));
                assert(b@.subrange(0, i + 1) =~= b@.subrange(0, i as int).push(y));
            } else if a@.subrange(0, i + 1) == b@.subrange(0, i + 1) {
                assert(a@.subrange(0, i as int) =~= a@.subrange(0, i + 1).subrange(0, i as int));
                assert(b@.subrange(0, i as int) =~= b@.subrange(0, i + 1).subrange(0, i as int));
                assert(a@.subrange(0, i + 1)[i as int] == x);
                assert(b@.subrange(0, i + 1)[i as int] == y);
            }
        }
        diff = d;
        i = i + 1;
    }
    assert(a@.subrange(0, i as int) =~= a@);
    assert(b@.subrange(0, i as int) =~= b@);
    diff == 0
}

/// The AUTHENTICATE command carrying `client_hash`, where the hash the
/// daemon sent is the one computed here; else a protocol error, and no
/// command.
pub fn verify_server_hash(computed: &[u8], received: &[u8], client_hash: &[u8]) -> (r: Result<
    Vec<u8>,
    Error,
>)
    ensures
        computed@ == received@ ==> r is Ok && r->Ok_0@ == authenticate_text(client_hash@),
        computed@ != received@ ==> r is Err && r->Err_0 is Protocol && r->Err_0->Protocol_0 is ServerHashMismatch,
{
    if !equal_constant_time(computed, received) {
        return Err(
            Error::Protocol(
                ProtocolError::ServerHashMismatch {
                    computed: copy_range(computed, 0, computed.len()),
                    received: copy_range(received, 0, received.len()),
                },
            ),
        );
    }
    let mut r: Vec<u8> = Vec::new();
    push_bytes(&mut r, "AUTHENTICATE ".as_bytes());
    let h = hex_encode(client_hash);
    push_bytes(&mut r, h.as_slice());
    Ok(r)
}

/// The SAFECOOKIE answer to the daemon's challenge: both HMAC-SHA256 hashes
/// are computed over cookie, client nonce and server nonce; where the
/// daemon's hash is the expected one, the AUTHENTICATE command with the
/// client hash; else a protocol error.
pub fn safe_cookie_authenticate(cookie: &[u8], client_nonce: &[u8], challenge: &AuthChallengeResponse) -> (r:
    Result<Vec<u8>, Error>)
    ensures
        ({
            let input = safe_cookie_input(cookie@, client_nonce@, challenge.server_nonce@);
            &&& hmac_sha256(server_hash_key(), input) == challenge.server_hash@ ==> r is Ok && r->Ok_0@
                == authenticate_text(hmac_sha256(client_hash_key(), input))
            &&& hmac_sha256(server_hash_key(), input) != challenge.server_hash@ ==> r is Err && r->Err_0 is Protocol
                && r->Err_0->Protocol_0 is ServerHashMismatch
        }),
{
    let mut input: Vec<u8> = Vec::new();
    push_bytes(&mut input, cookie);
    push_bytes(&mut input, client_nonce);
    push_bytes(&mut input, challenge.server_nonce.as_slice());
    let client_hash = hmac(input.as_slice(), "Tor safe cookie authentication controller-to-server hash".as_bytes());
    let computed = hmac(input.as_slice(), "Tor safe cookie authentication server-to-controller hash".as_bytes());
    verify_server_hash(computed.as_slice(), challenge.server_hash.as_slice(), client_hash.as_slice())
}

/// Success of a handshake step: the reply must have status 250.
pub fn check_success(response: &Response) -> (r: Result<(), Error>)
    ensures
        response.code == 250 <==> r is Ok,
        r is Err ==> is_server_response(r->Err_0, response.code, response.data@),
{
    if response.code == 250 {
        Ok(())
    } else {
        let d = copy_range(response.data.as_slice(), 0, response.data.len());
        assert(d@ =~= response.data@);
        Err(Error::ServerResponse(response.code, d))
    }
}

} // verus!
