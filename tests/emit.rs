use tor_analyzer::circuit::{Circuit, HsAddress, Path, Step};
use tor_analyzer::common::{HostOrAddr, IpAddr, Target, Time};
use tor_analyzer::ns::{OnionRouter, OnionRouterFlag, OnionRouterFlags};

fn b(s: &str) -> Vec<u8> {
    s.as_bytes().to_vec()
}

#[test]
fn target_text_round_trip() {
    let cases = vec![
        (Target { addr: HostOrAddr::Host(b("example.com")), port: 443 }, "example.com:443"),
        (Target { addr: HostOrAddr::Addr(IpAddr::V4([185, 80, 30, 102])), port: 9001 }, "185.80.30.102:9001"),
        (
            Target { addr: HostOrAddr::Addr(IpAddr::V6([0x2001, 0xdb8, 0, 0, 0, 0, 0, 1])), port: 80 },
            "[2001:db8:0:0:0:0:0:1]:80",
        ),
        (Target { addr: HostOrAddr::Addr(IpAddr::V4([0, 0, 0, 0])), port: 0 }, "0.0.0.0:0"),
    ];
    for (t, text) in cases {
        assert_eq!(t.to_text(), b(text));
        assert_eq!(Target::parse(&t.to_text()), Some(t));
    }
}

#[test]
fn time_text() {
    let t = Time { year: 2021, month: 4, day: 30, hour: 13, minute: 28, second: 42, mseconds: 4916 };
    assert_eq!(t.to_text(), b("2021-04-30T13:28:42.004916"));
    assert_eq!(Time::parse(&t.to_text()), Some(t));
}

#[test]
fn circuit_text_round_trip() {
    let line = "50 BUILT $8737307DE84C2621E6399E99123967A9590297F2~Tor0x800,\
        $243996E46218666C1CADDE17B430EA7F95124F96=GoofyRooster \
        BUILD_FLAGS=IS_INTERNAL,NEED_CAPACITY PURPOSE=HS_CLIENT_REND HS_STATE=HSCR_JOINED \
        TIME_CREATED=2021-04-30 13:28:42 REASON=FINISHED";
    // A space inside TIME_CREATED splits the line: that form is not a circuit.
    assert_eq!(Circuit::parse(line.as_bytes()), None);
    let line = "50 BUILT $8737307DE84C2621E6399E99123967A9590297F2~Tor0x800,\
        $243996E46218666C1CADDE17B430EA7F95124F96=GoofyRooster \
        BUILD_FLAGS=IS_INTERNAL,NEED_CAPACITY PURPOSE=HS_CLIENT_REND HS_STATE=HSCR_JOINED \
        TIME_CREATED=2021-04-30T13:28:42 REASON=FINISHED SOCKS_USERNAME=\"u\"";
    let c = Circuit::parse(line.as_bytes()).unwrap();
    let text = c.to_text();
    assert_eq!(
        text,
        b("50 BUILT $8737307DE84C2621E6399E99123967A9590297F2~Tor0x800,\
        $243996E46218666C1CADDE17B430EA7F95124F96~GoofyRooster \
        BUILD_FLAGS=IS_INTERNAL,NEED_CAPACITY PURPOSE=HS_CLIENT_REND HS_STATE=HSCR_JOINED \
        TIME_CREATED=2021-04-30T13:28:42.000000 REASON=FINISHED SOCKS_USERNAME=\"u\"")
    );
    assert_eq!(Circuit::parse(&text), Some(c));
    let bare = Circuit::parse(b"3 LAUNCHED").unwrap();
    assert_eq!(bare.to_text(), b("3 LAUNCHED"));
}

#[test]
fn circuit_with_rend_query_round_trip() {
    let line = "7 BUILT REND_QUERY=cflareub6dtu7nvs3kqmoigcjdwap2azrkx5zohb2yk7gqjkwoyotwqd";
    let c = Circuit::parse(line.as_bytes()).unwrap();
    assert_eq!(c.to_text(), b(line));
}

#[test]
fn hs_address_text() {
    let a = HsAddress::V2([0, 0, 0, 0, 0, 0, 0, 0, 0, 1]);
    assert_eq!(a.to_text(), b("aaaaaaaaaaaaaaab"));
    assert_eq!(HsAddress::parse(&a.to_text()), Some(a));
}

#[test]
fn step_and_path_text() {
    let s1 = Step { fingerprint: [0xab; 20], nickname: None };
    let s2 = Step { fingerprint: [0x01; 20], nickname: Some(b("relay7")) };
    assert_eq!(s1.to_text(), b("$ABABABABABABABABABABABABABABABABABABABAB"));
    assert_eq!(s2.to_text(), b("$0101010101010101010101010101010101010101~relay7"));
    let p = Path(vec![s1, s2]);
    let text = p.to_text();
    assert_eq!(Path::parse(&text), Some(p));
}

#[test]
fn flags_text() {
    let mut f = OnionRouterFlags::new();
    assert_eq!(f.to_text(), b(""));
    f.set(OnionRouterFlag::Guard);
    f.set(OnionRouterFlag::Fast);
    f.set(OnionRouterFlag::V2Dir);
    assert_eq!(f.to_text(), b("Fast|Guard|V2Dir"));
}

#[test]
fn onion_router_text() {
    let input = "r Tor0x800 hzcwfehMJiHmOZ6ZEjlnqVkCl/I psMf4zW8kU7rScOKz7Qowqe63oc 2021-05-01 01:11:24 185.80.30.102 9001 9030\r\ns Running Valid\r\n";
    let or = OnionRouter::parse(input.as_bytes()).unwrap();
    assert_eq!(or.to_text(), b("$8737307de84c2621e6399e99123967a9590297f2~Tor0x800"));
    assert_eq!(or.flags.to_text(), b("Running|Valid"));
}
