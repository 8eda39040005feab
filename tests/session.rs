use tor_analyzer::auth::{
    auth_challenge_command, check_success, choose_auth_method, equal_constant_time,
    null_authenticate_command, protocol_info_command, safe_cookie_authenticate, verify_server_hash,
    AuthChallengeResponse, AuthChoice, AuthMethods, ProtocolInfo,
};
use tor_analyzer::common::{CircuitID, StreamID};
use tor_analyzer::conn::{AuthAction, AuthEvent, Connection};
use tor_analyzer::controller::{
    attach_stream_command, circuits_reply, command_reply, extend_circuit_command,
    get_conf_command, get_info_command, onion_router_reply, set_conf_command, set_events_command,
};
use tor_analyzer::error::{Error, ProtocolError};
use tor_analyzer::ns::{OnionRouterFlag, OnionRouterFlags};
use tor_analyzer::protocol::{read_response, Response};
use tor_analyzer::text::hex_encode;

fn b(s: &str) -> Vec<u8> {
    s.as_bytes().to_vec()
}

fn authenticated() -> Connection {
    let mut c = Connection::new();
    assert_eq!(c.authenticate(AuthEvent::Start), Ok(AuthAction::Send(b("PROTOCOLINFO 1"))));
    let info = Response {
        code: 250,
        data: b("PROTOCOLINFO 1\r\nAUTH METHODS=NULL\r\nVERSION Tor=\"0.4.8.9\"\r\nOK\r\n"),
    };
    assert_eq!(c.authenticate(AuthEvent::Reply(info)), Ok(AuthAction::Send(b("AUTHENTICATE"))));
    assert_eq!(
        c.authenticate(AuthEvent::Reply(Response { code: 250, data: b("OK\r\n") })),
        Ok(AuthAction::Done)
    );
    assert!(c.is_authenticated());
    c
}

const K_CLIENT: &[u8] = b"Tor safe cookie authentication controller-to-server hash";
const K_SERVER: &[u8] = b"Tor safe cookie authentication server-to-controller hash";

#[test]
fn framed_response() {
    let bytes = b"250-abc\r\n250-def\r\n250 ghi\r\n";
    let (r, n) = read_response(bytes).unwrap().unwrap();
    assert_eq!(r, Response { code: 250, data: b("abc\r\ndef\r\nghi\r\n") });
    assert_eq!(n, bytes.len());
}

#[test]
fn framed_multiline_body() {
    let bytes = b"250+circuit-status=\r\n1 BUILT\r\n2 BUILT\r\n.\r\n250 OK\r\nextra";
    let (r, n) = read_response(bytes).unwrap().unwrap();
    assert_eq!(r.code, 250);
    assert_eq!(r.data, b("circuit-status=\r\n1 BUILT\r\n2 BUILT\r\nOK\r\n"));
    assert_eq!(n, bytes.len() - 5);
}

#[test]
fn framing_waits_and_rejects() {
    assert_eq!(read_response(b"250-abc\r\n250 gh"), Ok(None));
    assert_eq!(read_response(b"25"), Ok(None));
    assert_eq!(read_response(b"2x0 abc\r\n"), Err(Error::Parsing(b("2x0 abc\r\n"))));
    assert_eq!(read_response(b"250*abc\r\n"), Err(Error::Parsing(b("250*abc\r\n"))));
    assert_eq!(
        read_response(b"250-abc\r\n251 def\r\n"),
        Err(Error::Protocol(ProtocolError::CodeMismatch { first: 250, other: 251 }))
    );
}

#[test]
fn framing_ignores_chunking() {
    let stream = b"250-abc\r\n250-def\r\n250 ghi\r\n";
    for cut in 0..stream.len() {
        let mut c = Connection::new();
        c.receive(&stream[..cut]);
        let first = c.next_response().unwrap();
        c.receive(&stream[cut..]);
        let r = match first {
            Some(r) => r,
            None => c.next_response().unwrap().unwrap(),
        };
        assert_eq!(r, Response { code: 250, data: b("abc\r\ndef\r\nghi\r\n") });
    }
}

#[test]
fn async_demultiplex() {
    let mut c = authenticated();
    let kinds = vec![b("CIRC")];
    assert_eq!(set_events_command(&kinds), b("SETEVENTS CIRC"));
    c.handle_async_event(&kinds, &Response { code: 250, data: b("OK\r\n") }).unwrap();
    assert_eq!(c.send_command(b"GETCONF SocksPort"), Ok(b("GETCONF SocksPort\r\n")));
    c.receive(b"650 CIRC 5 BUILT $AB\r\n250 OK\r\n");
    let r = c.next_response().unwrap().unwrap();
    assert_eq!(r, Response { code: 250, data: b("OK\r\n") });
    assert_eq!(c.consome_async_event(), Some((b("CIRC"), b("5 BUILT $AB"))));
    assert_eq!(c.consome_async_event(), None);
}

#[test]
fn events_of_unsubscribed_kinds_are_dropped() {
    let mut c = Connection::new();
    c.receive(b"650 CIRC 1 BUILT\r\n250 OK\r\n");
    assert_eq!(c.next_response().unwrap().unwrap().code, 250);
    assert_eq!(c.consome_async_event(), None);
    c.handle_async_event(&vec![b("CIRC"), b("STREAM")], &Response { code: 250, data: b("OK\r\n") })
        .unwrap();
    c.receive(b"650 STREAM 3 NEW\r\n650 ORCONN x\r\n650 CIRC 2 LAUNCHED\r\n650 STREAM 4 NEW\r\n");
    assert_eq!(c.next_response(), Ok(None));
    assert_eq!(c.consome_async_event(), Some((b("CIRC"), b("2 LAUNCHED"))));
    assert_eq!(c.consome_async_event(), Some((b("STREAM"), b("3 NEW"))));
    assert_eq!(c.consome_async_event(), Some((b("STREAM"), b("4 NEW"))));
    assert_eq!(c.consome_async_event(), None);
}

#[test]
fn set_events_failure_keeps_subscriptions() {
    let mut c = Connection::new();
    let r = c.handle_async_event(&vec![b("CIRC")], &Response { code: 552, data: b("Unrecognized\r\n") });
    assert_eq!(r, Err(Error::ServerResponse(552, b("Unrecognized\r\n"))));
    c.receive(b"650 CIRC 1 BUILT\r\n");
    assert_eq!(c.next_response(), Ok(None));
    assert_eq!(c.consome_async_event(), None);
}

#[test]
fn send_command_keeps_existing_crlf() {
    let c = authenticated();
    assert_eq!(c.send_command(b"PROTOCOLINFO 1\r\n"), Ok(b("PROTOCOLINFO 1\r\n")));
    assert_eq!(c.send_command(b""), Ok(b("\r\n")));
}

#[test]
fn get_info_reply() {
    let ok = Response { code: 250, data: b("version=0.4.5.7\r\nOK\r\n") };
    assert_eq!(Connection::get_info(b"version", &ok), Ok(b("0.4.5.7")));
    assert!(matches!(
        Connection::get_info(b"config-file", &ok),
        Err(Error::Protocol(ProtocolError::KeyMismatch { .. }))
    ));
    let no_pair = Response { code: 250, data: b("OK\r\n") };
    assert_eq!(
        Connection::get_info(b"version", &no_pair),
        Err(Error::Protocol(ProtocolError::NoKeyValue(b("OK\r\n"))))
    );
    let refused = Response { code: 552, data: b("Unrecognized key\r\n") };
    assert_eq!(
        Connection::get_info(b"version", &refused),
        Err(Error::ServerResponse(552, b("Unrecognized key\r\n")))
    );
    assert_eq!(get_info_command(b"ns/all"), b("GETINFO ns/all"));
}

#[test]
fn typed_replies() {
    let empty = Response { code: 250, data: b("circuit-status=\r\nOK\r\n") };
    assert_eq!(circuits_reply(&empty), Ok(vec![]));
    let one = Response { code: 250, data: b("circuit-status=\r\n5 BUILT\r\nOK\r\n") };
    let cs = circuits_reply(&one).unwrap();
    assert_eq!(cs.len(), 1);
    assert_eq!(cs[0].id, CircuitID(b("5")));
    let missing = Response { code: 250, data: b("ns/id/AB=\r\nOK\r\n") };
    assert_eq!(onion_router_reply(b"ns/id/AB", &missing), Err(Error::Parsing(b(""))));
}

#[test]
fn commands() {
    assert_eq!(
        extend_circuit_command(&CircuitID(b("0")), &vec![b("$AA"), b("$BB"), b("$CC")]),
        b("EXTENDCIRCUIT 0 $AA,$BB,$CC")
    );
    assert_eq!(extend_circuit_command(&CircuitID(b("12")), &vec![b("x")]), b("EXTENDCIRCUIT 12 x"));
    assert_eq!(
        attach_stream_command(&StreamID(b("7")), &CircuitID(b("12"))),
        b("ATTACHSTREAM 7 12")
    );
    assert_eq!(set_conf_command(b"SocksPort", Some(b"9150")), b("SETCONF SocksPort=9150"));
    assert_eq!(set_conf_command(b"SocksPort", None), b("SETCONF SocksPort"));
    assert_eq!(get_conf_command(b"SocksPort"), b("GETCONF SocksPort"));
    assert_eq!(
        command_reply(&Response { code: 250, data: b("EXTENDED 5\r\n") }),
        Ok(b("EXTENDED 5\r\n"))
    );
    assert_eq!(
        command_reply(&Response { code: 552, data: b("No such circuit\r\n") }),
        Err(Error::ServerResponse(552, b("No such circuit\r\n")))
    );
    assert_eq!(protocol_info_command(), b("PROTOCOLINFO 1"));
    assert_eq!(null_authenticate_command(), b("AUTHENTICATE"));
}

#[test]
fn hex_encoding() {
    assert_eq!(hex_encode(&[0x00, 0x1f, 0xab, 0xff]), b("001FABFF"));
    assert_eq!(hex_encode(&[]), b(""));
}

#[test]
fn flag_laws_on_values() {
    let mut a = OnionRouterFlags::new();
    assert!(!a.is_set(OnionRouterFlag::Guard));
    a.set(OnionRouterFlag::Guard);
    assert!(a.is_set(OnionRouterFlag::Guard));
    assert!(!a.is_set(OnionRouterFlag::Exit));
    a.remove(OnionRouterFlag::Guard);
    assert!(!a.is_set(OnionRouterFlag::Guard));
    let mut x = OnionRouterFlags::new();
    x.set(OnionRouterFlag::V2Dir);
    x.set(OnionRouterFlag::Fast);
    let mut y = OnionRouterFlags::new();
    y.set(OnionRouterFlag::Authority);
    y.set(OnionRouterFlag::Fast);
    let mut u = x;
    u.or(y);
    assert!(u.is_set(OnionRouterFlag::V2Dir));
    assert!(u.is_set(OnionRouterFlag::Authority));
    assert!(u.is_set(OnionRouterFlag::Fast));
    assert!(!u.is_set(OnionRouterFlag::Valid));
    let mut i = x;
    i.and(y);
    assert!(i.is_set(OnionRouterFlag::Fast));
    assert!(!i.is_set(OnionRouterFlag::V2Dir));
    assert!(!i.is_set(OnionRouterFlag::Authority));
}

#[test]
fn choose_method() {
    let mut pi = ProtocolInfo {
        auth_methods: vec![AuthMethods::Cookie, AuthMethods::SafeCookie],
        cookie_file: Some(b("/c")),
        version: b("1"),
    };
    assert_eq!(choose_auth_method(&pi), Ok(AuthChoice::SafeCookie(b("/c"))));
    pi.auth_methods.push(AuthMethods::Null);
    assert_eq!(choose_auth_method(&pi), Ok(AuthChoice::Null));
    pi.auth_methods = vec![AuthMethods::SafeCookie];
    pi.cookie_file = None;
    assert_eq!(choose_auth_method(&pi), Err(Error::Unsupported));
    pi.auth_methods = vec![AuthMethods::HashedPassword, AuthMethods::Cookie];
    assert_eq!(choose_auth_method(&pi), Err(Error::Unsupported));
}

fn handshake_values() -> (Vec<u8>, Vec<u8>, [u8; 32], Vec<u8>) {
    let cookie: Vec<u8> = (0x00u8..=0x1f).collect();
    let client_nonce: Vec<u8> = (0x20u8..=0x5f).collect();
    let server_nonce: [u8; 32] = core::array::from_fn(|i| 0xa0 + i as u8);
    let mut input = cookie.clone();
    input.extend_from_slice(&client_nonce);
    input.extend_from_slice(&server_nonce);
    (cookie, client_nonce, server_nonce, input)
}

#[test]
fn safe_cookie_handshake() {
    let (cookie, client_nonce, server_nonce, input) = handshake_values();
    let server_hash = hmac_sha256::HMAC::mac(&input, K_SERVER);
    let client_hash = hmac_sha256::HMAC::mac(&input, K_CLIENT);
    let challenge = auth_challenge_command(&client_nonce);
    let mut expected = b("AUTHCHALLENGE SAFECOOKIE ");
    for x in &client_nonce {
        expected.extend_from_slice(format!("{:02X}", x).as_bytes());
    }
    assert_eq!(challenge, expected);
    let acr = AuthChallengeResponse { server_hash, server_nonce };
    let cmd = safe_cookie_authenticate(&cookie, &client_nonce, &acr).unwrap();
    let mut expected = b("AUTHENTICATE ");
    for x in client_hash.iter() {
        expected.extend_from_slice(format!("{:02X}", x).as_bytes());
    }
    assert_eq!(cmd, expected);
}

#[test]
fn safe_cookie_rejects_perturbed_server_hash() {
    let (cookie, client_nonce, server_nonce, input) = handshake_values();
    let mut server_hash = hmac_sha256::HMAC::mac(&input, K_SERVER);
    server_hash[7] ^= 0x01;
    let acr = AuthChallengeResponse { server_hash, server_nonce };
    let r = safe_cookie_authenticate(&cookie, &client_nonce, &acr);
    assert!(matches!(r, Err(Error::Protocol(ProtocolError::ServerHashMismatch { .. }))));
}

#[test]
fn hmac_matches_rfc_4231_case_2() {
    let key = b"Jefe";
    let data = b"what do ya want for nothing?";
    let expected = "5BDCC146BF60754E6A042426089575C75A003F089D2739839DEC58B964EC3843";
    let mac = hmac_sha256::HMAC::mac(data, key);
    let cmd = verify_server_hash(&mac, &mac, &mac).unwrap();
    assert_eq!(cmd, b(&format!("AUTHENTICATE {}", expected)));
}

#[test]
fn constant_time_compare() {
    assert!(equal_constant_time(b"abc", b"abc"));
    assert!(!equal_constant_time(b"abc", b"abd"));
    assert!(!equal_constant_time(b"abc", b"ab"));
}

#[test]
fn success_check() {
    assert_eq!(check_success(&Response { code: 250, data: b("OK\r\n") }), Ok(()));
    assert_eq!(
        check_success(&Response { code: 515, data: b("Bad authentication\r\n") }),
        Err(Error::ServerResponse(515, b("Bad authentication\r\n")))
    );
}

#[test]
fn failed_session_refuses_commands() {
    let mut c = Connection::new();
    c.receive(b"25x OK\r\n");
    assert!(matches!(c.next_response(), Err(Error::Parsing(_))));
    assert_eq!(c.send_command(b"GETINFO version"), Err(Error::Closed));
    assert_eq!(c.next_response(), Err(Error::Closed));
    let mut d = Connection::new();
    d.close();
    assert_eq!(d.send_command(b"GETINFO version"), Err(Error::Closed));
}

#[test]
fn commands_wait_for_authentication() {
    let c = Connection::new();
    assert_eq!(c.send_command(b"GETINFO version"), Err(Error::Unauthenticated));
    assert_eq!(c.send_command(b"PROTOCOLINFO 1"), Ok(b("PROTOCOLINFO 1\r\n")));
    assert_eq!(authenticated().send_command(b"GETINFO version"), Ok(b("GETINFO version\r\n")));
}

fn safe_cookie_info() -> Response {
    Response {
        code: 250,
        data: b("PROTOCOLINFO 1\r\nAUTH METHODS=COOKIE,SAFECOOKIE COOKIEFILE=\"/run/tor/control.authcookie\"\r\nVERSION Tor=\"0.4.5.7\"\r\nOK\r\n"),
    }
}

fn challenge_reply(server_hash: &[u8], server_nonce: &[u8]) -> Response {
    let mut d = b("AUTHCHALLENGE SERVERHASH=");
    d.extend_from_slice(&hex_encode(server_hash));
    d.extend_from_slice(b" SERVERNONCE=");
    d.extend_from_slice(&hex_encode(server_nonce));
    d.extend_from_slice(b"\r\n");
    Response { code: 250, data: d }
}

#[test]
fn safe_cookie_handshake_through_session() {
    let (cookie, client_nonce, server_nonce, input) = handshake_values();
    let server_hash = hmac_sha256::HMAC::mac(&input, K_SERVER);
    let client_hash = hmac_sha256::HMAC::mac(&input, K_CLIENT);
    let mut c = Connection::new();
    c.authenticate(AuthEvent::Start).unwrap();
    assert_eq!(
        c.authenticate(AuthEvent::Reply(safe_cookie_info())),
        Ok(AuthAction::ReadCookie(b("/run/tor/control.authcookie")))
    );
    let mut expected = b("AUTHCHALLENGE SAFECOOKIE ");
    expected.extend_from_slice(&hex_encode(&client_nonce));
    assert_eq!(
        c.authenticate(AuthEvent::Cookie { cookie: cookie.clone(), client_nonce: client_nonce.clone() }),
        Ok(AuthAction::Send(expected))
    );
    let mut expected = b("AUTHENTICATE ");
    expected.extend_from_slice(&hex_encode(&client_hash));
    assert_eq!(
        c.authenticate(AuthEvent::Reply(challenge_reply(&server_hash, &server_nonce))),
        Ok(AuthAction::Send(expected))
    );
    assert_eq!(
        c.authenticate(AuthEvent::Reply(Response { code: 250, data: b("OK\r\n") })),
        Ok(AuthAction::Done)
    );
    assert!(c.is_authenticated());
}

#[test]
fn safe_cookie_perturbed_hash_aborts_before_authenticate() {
    let (cookie, client_nonce, server_nonce, input) = handshake_values();
    let mut server_hash = hmac_sha256::HMAC::mac(&input, K_SERVER);
    server_hash[0] ^= 0x80;
    let mut c = Connection::new();
    c.authenticate(AuthEvent::Start).unwrap();
    c.authenticate(AuthEvent::Reply(safe_cookie_info())).unwrap();
    c.authenticate(AuthEvent::Cookie { cookie, client_nonce }).unwrap();
    let r = c.authenticate(AuthEvent::Reply(challenge_reply(&server_hash, &server_nonce)));
    assert!(matches!(r, Err(Error::Protocol(ProtocolError::ServerHashMismatch { .. }))));
    assert!(!c.is_authenticated());
    assert_eq!(c.send_command(b"AUTHENTICATE 00"), Err(Error::Closed));
}

#[test]
fn handshake_rejects_out_of_order_events() {
    let mut c = Connection::new();
    let r = c.authenticate(AuthEvent::Reply(Response { code: 250, data: b("OK\r\n") }));
    assert_eq!(r, Err(Error::Protocol(ProtocolError::UnexpectedEvent)));
    let mut d = Connection::new();
    d.authenticate(AuthEvent::Start).unwrap();
    let r = d.authenticate(AuthEvent::Reply(Response { code: 515, data: b("Bad\r\n") }));
    assert_eq!(r, Err(Error::ServerResponse(515, b("Bad\r\n"))));
    let mut e = Connection::new();
    e.authenticate(AuthEvent::Start).unwrap();
    let info = Response {
        code: 250,
        data: b("AUTH METHODS=HASHEDPASSWORD\r\nVERSION Tor=\"1\"\r\n"),
    };
    assert_eq!(e.authenticate(AuthEvent::Reply(info)), Err(Error::Unsupported));
}

#[test]
fn get_info_multiline_value() {
    let mut c = Connection::new();
    c.receive(b"250+circuit-status=\r\n5 BUILT\r\n6 LAUNCHED\r\n.\r\n250 OK\r\n");
    let r = c.next_response().unwrap().unwrap();
    assert_eq!(Connection::get_info(b"circuit-status", &r), Ok(b("\r\n5 BUILT\r\n6 LAUNCHED")));
    assert_eq!(circuits_reply(&r).unwrap().len(), 2);
    let mut d = Connection::new();
    d.receive(b"250+circuit-status=\r\n.\r\n250 OK\r\n250-stream-status=\r\n250 OK\r\n");
    let r = d.next_response().unwrap().unwrap();
    assert_eq!(circuits_reply(&r), Ok(vec![]));
}

#[test]
fn authenticate_reply_failure_is_server_response() {
    let mut c = Connection::new();
    c.authenticate(AuthEvent::Start).unwrap();
    let info = Response {
        code: 250,
        data: b("PROTOCOLINFO 1\r\nAUTH METHODS=NULL\r\nVERSION Tor=\"1\"\r\nOK\r\n"),
    };
    c.authenticate(AuthEvent::Reply(info)).unwrap();
    let r = c.authenticate(AuthEvent::Reply(Response { code: 515, data: b("Authentication failed\r\n") }));
    assert_eq!(r, Err(Error::ServerResponse(515, b("Authentication failed\r\n"))));
    let mut d = Connection::new();
    d.authenticate(AuthEvent::Start).unwrap();
    let info = Response { code: 250, data: b("AUTH METHODS=SAFECOOKIE\r\nVERSION Tor=\"1\"\r\n") };
    assert_eq!(d.authenticate(AuthEvent::Reply(info)), Err(Error::Unsupported));
}
