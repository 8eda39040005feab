use tor_analyzer::auth::{AuthChallengeResponse, AuthMethods, ProtocolInfo};
use tor_analyzer::circuit::{
    parse_circuits, Circuit, CircuitBuildFlag, CircuitBuildFlags, CircuitPurpose, CircuitStatus,
    HsAddress, HsState, Path, Step,
};
use tor_analyzer::common::{CircuitID, HostOrAddr, IpAddr, StreamID, Target, Time};
use tor_analyzer::error::Error;
use tor_analyzer::ns::{parse_onion_routers, OnionRouter, OnionRouterFlag, OnionRouterFlags};
use tor_analyzer::stream::{parse_streams, Stream, StreamStatus};

fn b(s: &str) -> Vec<u8> {
    s.as_bytes().to_vec()
}

#[test]
fn protocol_info() {
    let pi = ProtocolInfo {
        auth_methods: vec![AuthMethods::Cookie, AuthMethods::SafeCookie],
        cookie_file: Some(b("/var/lib/tor/control_auth_cookie")),
        version: b("0.4.5.7"),
    };
    assert_eq!(
        ProtocolInfo::parse(
            b"AUTH METHODS=COOKIE,SAFECOOKIE COOKIEFILE=\"/var/lib/tor/control_auth_cookie\"\r\n\
            VERSION Tor=\"0.4.5.7\"\r\n"
        ),
        Ok(pi)
    );
}

#[test]
fn protocol_info_with_header_and_trailer() {
    let data = b"PROTOCOLINFO 1\r\nAUTH METHODS=NULL\r\nVERSION Tor=\"0.4.8.9\"\r\nOK\r\n";
    let pi = ProtocolInfo::parse(data).unwrap();
    assert_eq!(pi.auth_methods, vec![AuthMethods::Null]);
    assert_eq!(pi.cookie_file, None);
    assert_eq!(pi.version, b("0.4.8.9"));
}

#[test]
fn protocol_info_rejects_unknown_method() {
    let data = b"AUTH METHODS=MAGIC\r\nVERSION Tor=\"1\"\r\n";
    assert_eq!(ProtocolInfo::parse(data), Err(Error::Parsing(data.to_vec())));
}

#[test]
fn parse_circuit() {
    let input = "\r\n50 BUILT \
        $8737307DE84C2621E6399E99123967A9590297F2~Tor0x800,\
        $243996E46218666C1CADDE17B430EA7F95124F96~GoofyRooster,\
        $3A9443710224E5182895C342D1D36C1D460A1206~CanterSecure04 \
        BUILD_FLAGS=IS_INTERNAL,NEED_CAPACITY,NEED_UPTIME \
        PURPOSE=HS_CLIENT_REND HS_STATE=HSCR_JOINED \
        REND_QUERY=cflareub6dtu7nvs3kqmoigcjdwap2azrkx5zohb2yk7gqjkwoyotwqd \
        TIME_CREATED=2021-04-30T13:28:42.004916";

    let circuit = Circuit {
        id: CircuitID(b("50")),
        status: CircuitStatus::Built,
        path: Path(vec![
            Step {
                fingerprint: [
                    0x87, 0x37, 0x30, 0x7d, 0xe8, 0x4c, 0x26, 0x21, 0xe6, 0x39, 0x9e, 0x99, 0x12,
                    0x39, 0x67, 0xa9, 0x59, 0x02, 0x97, 0xf2,
                ],
                nickname: Some(b("Tor0x800")),
            },
            Step {
                fingerprint: [
                    0x24, 0x39, 0x96, 0xe4, 0x62, 0x18, 0x66, 0x6c, 0x1c, 0xad, 0xde, 0x17, 0xb4,
                    0x30, 0xea, 0x7f, 0x95, 0x12, 0x4f, 0x96,
                ],
                nickname: Some(b("GoofyRooster")),
            },
            Step {
                fingerprint: [
                    0x3a, 0x94, 0x43, 0x71, 0x02, 0x24, 0xe5, 0x18, 0x28, 0x95, 0xc3, 0x42, 0xd1,
                    0xd3, 0x6c, 0x1d, 0x46, 0x0a, 0x12, 0x06,
                ],
                nickname: Some(b("CanterSecure04")),
            },
        ]),
        build_flags: CircuitBuildFlags(vec![
            CircuitBuildFlag::IsInternal,
            CircuitBuildFlag::NeedCapacity,
            CircuitBuildFlag::NeedUptime,
        ]),
        purpose: Some(CircuitPurpose::HsClientRend),
        hs_state: Some(HsState::HSCRJoined),
        rend_query: Some(HsAddress::V3([
            0x11, 0x56, 0x08, 0x92, 0x81, 0xf0, 0xe7, 0x4f, 0xb6, 0xb2, 0xda, 0xa0, 0xc7, 0x20,
            0xc2, 0x48, 0xec, 0x07, 0xe8, 0x19, 0x8a, 0xaf, 0xdc, 0xb8, 0xe1, 0xd6, 0x15, 0xf3,
            0x41, 0x2a, 0xb3, 0xb0, 0xe9, 0xda, 0x03,
        ])),
        time_created: Some(Time {
            year: 2021,
            month: 4,
            day: 30,
            hour: 13,
            minute: 28,
            second: 42,
            mseconds: 4916,
        }),
        reason: None,
        socks_username: None,
        socks_password: None,
    };
    assert_eq!(Circuit::parse(input.as_bytes()), Some(circuit));
}

#[test]
fn circuit_scenario_two_steps() {
    let line = "50 BUILT $8737307DE84C2621E6399E99123967A9590297F2~Tor0x800,\
        $243996E46218666C1CADDE17B430EA7F95124F96~GoofyRooster \
        BUILD_FLAGS=IS_INTERNAL,NEED_CAPACITY PURPOSE=HS_CLIENT_REND HS_STATE=HSCR_JOINED \
        TIME_CREATED=2021-04-30T13:28:42.004916";
    let c = Circuit::parse(line.as_bytes()).unwrap();
    assert_eq!(c.id, CircuitID(b("50")));
    assert_eq!(c.status, CircuitStatus::Built);
    assert_eq!(c.path.0.len(), 2);
    assert_eq!(c.path.0[0].fingerprint[0], 0x87);
    assert_eq!(c.path.0[0].nickname, Some(b("Tor0x800")));
    assert_eq!(c.path.0[1].fingerprint[19], 0x96);
    assert_eq!(c.path.0[1].nickname, Some(b("GoofyRooster")));
    assert_eq!(
        c.build_flags,
        CircuitBuildFlags(vec![CircuitBuildFlag::IsInternal, CircuitBuildFlag::NeedCapacity])
    );
    assert_eq!(c.purpose, Some(CircuitPurpose::HsClientRend));
    assert_eq!(c.hs_state, Some(HsState::HSCRJoined));
    assert_eq!(
        c.time_created,
        Some(Time { year: 2021, month: 4, day: 30, hour: 13, minute: 28, second: 42, mseconds: 4916 })
    );
    assert_eq!(c.rend_query, None);
    assert_eq!(c.reason, None);
    assert_eq!(c.socks_username, None);
    assert_eq!(c.socks_password, None);
}

#[test]
fn circuit_without_steps_is_accepted() {
    let c = Circuit::parse(b"7 LAUNCHED BUILD_FLAGS=NEED_CAPACITY PURPOSE=GENERAL").unwrap();
    assert_eq!(c.path, Path(vec![]));
    assert_eq!(c.purpose, Some(CircuitPurpose::General));
    let bare = Circuit::parse(b"7 LAUNCHED").unwrap();
    assert_eq!(bare.path.0.len(), 0);
}

#[test]
fn path_with_only_a_comma_is_rejected() {
    assert_eq!(Path::parse(b","), None);
    assert_eq!(Circuit::parse(b"7 LAUNCHED ,"), None);
}

#[test]
fn circuit_keys_out_of_order_or_twice_are_rejected() {
    assert_eq!(Circuit::parse(b"7 BUILT PURPOSE=GENERAL BUILD_FLAGS=NEED_CAPACITY"), None);
    assert_eq!(Circuit::parse(b"7 BUILT PURPOSE=GENERAL PURPOSE=GENERAL"), None);
    assert_eq!(Circuit::parse(b"7 BUILT COLOR=RED"), None);
}

#[test]
fn circuit_reason_and_socks_fields() {
    let c = Circuit::parse(
        b"9 CLOSED PURPOSE=MEASURE_TIMEOUT REASON=FINISHED SOCKS_USERNAME=\"alice\" SOCKS_PASSWORD=\"x\\\"y\"",
    )
    .unwrap();
    assert_eq!(c.purpose, Some(CircuitPurpose::MeasureTimeout));
    assert_eq!(c.reason, Some(tor_analyzer::circuit::CircuitReason::Finished));
    assert_eq!(c.socks_username, Some(b("alice")));
    assert_eq!(c.socks_password, Some(b("x\"y")));
}

#[test]
fn hs_address_v2() {
    let a = HsAddress::parse(b"aaaaaaaaaaaaaaab").unwrap();
    assert_eq!(a, HsAddress::V2([0, 0, 0, 0, 0, 0, 0, 0, 0, 1]));
    assert_eq!(HsAddress::parse(b"AAAAAAAAAAAAAAAB"), Some(a));
    assert_eq!(HsAddress::parse(b"aaaaaaaaaaaaaaa1"), None);
}

#[test]
fn empty_lists_are_not_errors() {
    assert_eq!(parse_circuits(b""), Ok(vec![]));
    assert_eq!(parse_circuits(b"\r\n"), Ok(vec![]));
    assert_eq!(parse_streams(b""), Ok(vec![]));
    assert_eq!(parse_onion_routers(b""), Ok(vec![]));
}

#[test]
fn malformed_list_line_is_a_parsing_error() {
    assert_eq!(parse_circuits(b"\r\n5 BUILT\r\n6 SHINY"), Err(Error::Parsing(b("6 SHINY"))));
    assert_eq!(parse_streams(b"1 NEW 0"), Err(Error::Parsing(b("1 NEW 0"))));
    assert_eq!(parse_onion_routers(b"x"), Err(Error::Parsing(b("x"))));
}

#[test]
fn stream_record() {
    let v = b"\r\n12 SUCCEEDED 50 example.com:443\r\n13 NEW 0 [2001:db8::1]:80";
    let s = parse_streams(v).unwrap();
    assert_eq!(
        s,
        vec![
            Stream {
                id: StreamID(b("12")),
                status: StreamStatus::Succeeded,
                circuit_id: CircuitID(b("50")),
                target: Target { addr: HostOrAddr::Host(b("example.com")), port: 443 },
            },
            Stream {
                id: StreamID(b("13")),
                status: StreamStatus::New,
                circuit_id: CircuitID(b("0")),
                target: Target {
                    addr: HostOrAddr::Addr(IpAddr::V6([0x2001, 0xdb8, 0, 0, 0, 0, 0, 1])),
                    port: 80,
                },
            },
        ]
    );
}

#[test]
fn stream_status_tokens() {
    assert_eq!(StreamStatus::parse(b"NEWRESOLVE"), Some(StreamStatus::NewResolve));
    assert_eq!(StreamStatus::parse(b"CONTROLLER_WAIT"), Some(StreamStatus::ControllerWait));
    assert_eq!(StreamStatus::parse(b"NEWX"), None);
    assert_eq!(StreamStatus::Remap.to_text(), b"REMAP");
}

#[test]
fn identifiers() {
    assert_eq!(CircuitID::parse(b"0123456789abcdef"), Some(CircuitID(b("0123456789abcdef"))));
    assert_eq!(CircuitID::parse(b"0123456789abcdefg"), None);
    assert_eq!(CircuitID::parse(b""), None);
    assert_eq!(StreamID::parse(b"a-b"), None);
}

#[test]
fn time_forms() {
    let t = Time { year: 2021, month: 5, day: 1, hour: 1, minute: 11, second: 24, mseconds: 0 };
    assert_eq!(Time::parse(b"2021-05-01 01:11:24"), Some(t));
    assert_eq!(Time::parse(b"2021-05-01T01:11:24"), Some(t));
    assert_eq!(Time::parse(b"2021-05-01T01:11:24.000123").map(|t| t.mseconds), Some(123));
    assert_eq!(Time::parse(b"21-05-01T01:11:24"), None);
    assert_eq!(Time::parse(b"2021-05-01T01:11:24.123"), None);
}

#[test]
fn targets() {
    assert_eq!(
        Target::parse(b"185.80.30.102:9001"),
        Some(Target { addr: HostOrAddr::Addr(IpAddr::V4([185, 80, 30, 102])), port: 9001 })
    );
    assert_eq!(
        Target::parse(b"[::1]:9051"),
        Some(Target { addr: HostOrAddr::Addr(IpAddr::V6([0, 0, 0, 0, 0, 0, 0, 1])), port: 9051 })
    );
    assert_eq!(
        Target::parse_parts(b"localhost", b"9051"),
        Some(Target { addr: HostOrAddr::Host(b("localhost")), port: 9051 })
    );
    assert_eq!(Target::parse(b"host:65536"), None);
    assert_eq!(Target::parse(b"[1::2::3]:1"), None);
    assert_eq!(Target::parse(b"300.1.1.1:1").map(|t| t.addr), Some(HostOrAddr::Host(b("300.1.1.1"))));
}

#[test]
fn onion_router_record() {
    let input = "r Tor0x800 hzcwfehMJiHmOZ6ZEjlnqVkCl/I psMf4zW8kU7rScOKz7Qowqe63oc 2021-05-01 01:11:24 185.80.30.102 9001 9030\r\ns Running Valid\r\n";
    let or = OnionRouter::parse(input.as_bytes()).unwrap();
    assert_eq!(or.nickname, b("Tor0x800"));
    assert_eq!(
        or.identity,
        [
            0x87, 0x37, 0x30, 0x7d, 0xe8, 0x4c, 0x26, 0x21, 0xe6, 0x39, 0x9e, 0x99, 0x12, 0x39,
            0x67, 0xa9, 0x59, 0x02, 0x97, 0xf2,
        ]
    );
    assert_eq!(
        or.digest,
        [
            0xa6, 0xc3, 0x1f, 0xe3, 0x35, 0xbc, 0x91, 0x4e, 0xeb, 0x49, 0xc3, 0x8a, 0xcf, 0xb4,
            0x28, 0xc2, 0xa7, 0xba, 0xde, 0x87,
        ]
    );
    assert_eq!(
        or.publication,
        Time { year: 2021, month: 5, day: 1, hour: 1, minute: 11, second: 24, mseconds: 0 }
    );
    assert_eq!(
        or.target,
        Target { addr: HostOrAddr::Addr(IpAddr::V4([185, 80, 30, 102])), port: 9001 }
    );
    assert_eq!(or.directory_port, Some(9030));
    assert_eq!(or.advertise_ipv6, None);
    assert!(or.flags.is_set(OnionRouterFlag::Running));
    assert!(or.flags.is_set(OnionRouterFlag::Valid));
    assert!(!or.flags.is_set(OnionRouterFlag::Guard));
    assert_eq!(or.bandwidth, None);
}

#[test]
fn onion_router_list_with_optional_lines() {
    let v = "\r\nr A hzcwfehMJiHmOZ6ZEjlnqVkCl/I psMf4zW8kU7rScOKz7Qowqe63oc 2021-05-01 01:11:24 1.2.3.4 9001 0\r\n\
        a [2001:db8::2]:9002\r\ns Fast Guard Stable\r\nw Bandwidth=1200 Unmeasured=1\r\n\
        r B hzcwfehMJiHmOZ6ZEjlnqVkCl/I psMf4zW8kU7rScOKz7Qowqe63oc 2021-05-01T02:00:00 5.6.7.8 443 80\r\ns";
    let all = parse_onion_routers(v.as_bytes()).unwrap();
    assert_eq!(all.len(), 2);
    assert_eq!(all[0].nickname, b("A"));
    assert_eq!(all[0].directory_port, None);
    assert_eq!(all[0].advertise_ipv6, Some(([0x2001, 0xdb8, 0, 0, 0, 0, 0, 2], 9002)));
    assert!(all[0].flags.is_set(OnionRouterFlag::Guard));
    assert!(!all[0].flags.is_set(OnionRouterFlag::Exit));
    assert_eq!(all[0].bandwidth, Some(1200));
    assert_eq!(all[1].nickname, b("B"));
    assert_eq!(all[1].directory_port, Some(80));
    assert_eq!(all[1].flags, OnionRouterFlags::new());
}

#[test]
fn onion_router_unknown_flag_is_rejected() {
    let input = "r Tor0x800 hzcwfehMJiHmOZ6ZEjlnqVkCl/I psMf4zW8kU7rScOKz7Qowqe63oc 2021-05-01 01:11:24 185.80.30.102 9001 9030\r\ns Running Shiny\r\n";
    assert_eq!(OnionRouter::parse(input.as_bytes()), None);
}

#[test]
fn auth_challenge_parse() {
    let hash = "00112233445566778899AABBCCDDEEFF00112233445566778899aabbccddeeff";
    let nonce = "FFEEDDCCBBAA99887766554433221100FFEEDDCCBBAA99887766554433221100";
    let text = format!("AUTHCHALLENGE SERVERHASH={} SERVERNONCE={}\r\n", hash, nonce);
    let acr = AuthChallengeResponse::parse(text.as_bytes()).unwrap();
    assert_eq!(acr.server_hash[0], 0x00);
    assert_eq!(acr.server_hash[10], 0xaa);
    assert_eq!(acr.server_hash[31], 0xff);
    assert_eq!(acr.server_nonce[0], 0xff);
    assert_eq!(acr.server_nonce[31], 0x00);
}

#[test]
fn auth_challenge_non_hex_is_parsing_error() {
    let good = "00112233445566778899AABBCCDDEEFF00112233445566778899AABBCCDDEEFF";
    let bad = "0011223344556677889GAABBCCDDEEFF00112233445566778899AABBCCDDEEFF";
    let t1 = format!("AUTHCHALLENGE SERVERHASH={} SERVERNONCE={}\r\n", bad, good);
    let t2 = format!("AUTHCHALLENGE SERVERHASH={} SERVERNONCE={}\r\n", good, bad);
    assert_eq!(AuthChallengeResponse::parse(t1.as_bytes()), Err(Error::Parsing(t1.as_bytes().to_vec())));
    assert_eq!(AuthChallengeResponse::parse(t2.as_bytes()), Err(Error::Parsing(t2.as_bytes().to_vec())));
}

#[test]
fn circuit_line_with_leading_crlf() {
    let c = Circuit::parse(b"\r\n7 LAUNCHED").unwrap();
    assert_eq!(c.id, CircuitID(b("7")));
}

#[test]
fn protocol_info_unescapes_cookie_file() {
    let data = b"AUTH METHODS=SAFECOOKIE COOKIEFILE=\"/tmp/a\\\\b\\\"c\"\r\nVERSION Tor=\"0.4.5.7\"\r\n";
    let pi = ProtocolInfo::parse(data).unwrap();
    assert_eq!(pi.cookie_file, Some(b("/tmp/a\\b\"c")));
}

#[test]
fn onion_router_with_joined_target() {
    let input = "r Tor0x800 hzcwfehMJiHmOZ6ZEjlnqVkCl/I psMf4zW8kU7rScOKz7Qowqe63oc 2021-05-01T01:11:24 185.80.30.102:9001 0\r\na [2001:db8::1]:9001\r\ns Fast Guard\r\nw Bandwidth=1234\r\n";
    let or = OnionRouter::parse(input.as_bytes()).unwrap();
    assert_eq!(
        or.publication,
        Time { year: 2021, month: 5, day: 1, hour: 1, minute: 11, second: 24, mseconds: 0 }
    );
    assert_eq!(
        or.target,
        Target { addr: HostOrAddr::Addr(IpAddr::V4([185, 80, 30, 102])), port: 9001 }
    );
    assert_eq!(or.directory_port, None);
    assert_eq!(or.advertise_ipv6, Some(([0x2001, 0xdb8, 0, 0, 0, 0, 0, 1], 9001)));
    assert!(or.flags.is_set(OnionRouterFlag::Fast) && or.flags.is_set(OnionRouterFlag::Guard));
    assert_eq!(or.bandwidth, Some(1234));
}
