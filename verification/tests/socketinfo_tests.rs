use socketutils::socketinfo::linuxsocket::AddressType::{IPV4, IPV6};
use socketutils::socketinfo::linuxsocket::{EndPoint, Protocol, SocketInfo};
use socketutils::socketinfo::linuxsocket_builder::{build_common_entry, ParseError, SocketInfoBuilder};
use socketutils::socketinfo::linuxsocket_utils::get_word_vector;
use socketutils::socketinfo::utils;

const INPUT: &str = "8: 1400000A:C4B2 5A131268:01BB 06 00000000:00000000 03:000001F6 00000000     0        0 0 3 0000000052f0bc2a";

fn expected_vector() -> Vec<&'static str> {
    Vec::from([
        "8:", "1400000A:C4B2", "5A131268:01BB", "06", "00000000:00000000", "03:000001F6",
        "00000000", "0", "0", "0", "3", "0000000052f0bc2a",
    ])
}

fn expected_socketinfo() -> SocketInfo {
    SocketInfo {
        protocol: Protocol::TCP,
        local_endpoint: EndPoint::new(vec![10, 0, 0, 20], 50354, IPV4),
        remote_endpoint: EndPoint::new(vec![104, 18, 19, 90], 443, IPV4),
        state: String::from("TIME_WAIT"),
        inode: 0,
        uid: 0,
    }
}

#[test]
fn test_split_text_by_words() {
    let sock_metadata = utils::split_text_by_words(INPUT);
    let expected = expected_vector();
    assert_eq!(sock_metadata.len(), expected.len());
    for (i, &expected_vec_data) in expected.iter().enumerate() {
        assert_eq!(sock_metadata[i], expected_vec_data);
    }
}

#[test]
fn test_socket_instanciation() {
    let socket_info = SocketInfo::builder(INPUT.to_string(), Protocol::TCP).build().unwrap();
    assert_eq!(socket_info, expected_socketinfo());
}

#[test]
fn get_word_vector_matches_split() {
    assert_eq!(get_word_vector(INPUT), expected_vector());
    assert_eq!(get_word_vector("  \t\n "), Vec::<&str>::new());
    assert_eq!(get_word_vector("a\u{3000}b\u{a0}\u{2028}c  d\r"), vec!["a", "b", "c", "d"]);
    assert_eq!(get_word_vector("héllo wörld"), vec!["héllo", "wörld"]);
}

#[test]
fn endpoint_text_ipv4() {
    let info = expected_socketinfo();
    assert_eq!(info.local_endpoint.to_string(), "10.0.0.20:50354");
    assert_eq!(info.remote_endpoint.to_string(), "104.18.19.90:443");
    assert_eq!(EndPoint::new(vec![0, 0, 0, 0], 0, IPV4).to_string(), "0.0.0.0:0");
    assert_eq!(EndPoint::new(vec![255, 255, 255, 255], 65535, IPV4).to_string(), "255.255.255.255:65535");
}

#[test]
fn endpoint_text_ipv6() {
    let e = EndPoint::new(vec![0, 0, 0, 0, 0, 0, 1, 0], 22, IPV6);
    assert_eq!(e.to_string(), "::::::1:22");
    let e = EndPoint::new(vec![0xfe80, 0, 0, 0, 0xabcd, 0x12, 0, 0x1], 443, IPV6);
    // the last character of the joined text is dropped
    assert_eq!(e.to_string(), "fe80::::abcd:12:::443");
    // an address of another length is joined with colons
    let e = EndPoint::new(vec![1, 2], 80, IPV4);
    assert_eq!(e.to_string(), "1::80");
    // four components are joined with dots whatever the type
    let e = EndPoint::new(vec![0xa, 0, 0xff, 1], 8, IPV6);
    assert_eq!(e.to_string(), "a..ff.1:8");
}

#[test]
fn test_socketinfobuilder() {
    let line = "0: 00000000000000000000000001000000:B2D4 00000000000000000000000001000000:0016 08 00000000:00000000 00:00000000 00000000  1000        0 24271887 1 0000000088a11a71 20 3 28 10 -1";
    let info = SocketInfoBuilder::new(line.to_string(), Protocol::TCP6).build().unwrap();
    assert_eq!(info.protocol, Protocol::TCP6);
    assert_eq!(info.state, "CLOSE_WAIT");
    assert_eq!(info.uid, 1000);
    assert_eq!(info.inode, 24271887);
    let little_endian = 1u16.to_be() != 1;
    let (local, remote) = if little_endian {
        (
            EndPoint::new(vec![0, 0, 0, 0, 0, 0, 1, 0], 0xB2D4, IPV6),
            EndPoint::new(vec![0, 0, 0, 0, 0, 0, 1, 0], 0x16, IPV6),
        )
    } else {
        (
            EndPoint::new(vec![0, 0, 0, 0, 0, 0, 0x100, 0], 0xB2D4, IPV6),
            EndPoint::new(vec![0, 0, 0, 0, 0, 0, 0x100, 0], 0x16, IPV6),
        )
    };
    assert_eq!(info.local_endpoint, local);
    assert_eq!(info.remote_endpoint, remote);
    if little_endian {
        assert_eq!(info.local_endpoint.to_string(), "::::::1:45780");
    }
}

#[test]
fn ipv6_words_are_converted_to_big_endian() {
    let line = "1: 1234ABCD000000000000000000000000:0050 00000000000000000000000000000000:0000 0A 0 0 0 7 0 99";
    let info = SocketInfo::builder(line.to_string(), Protocol::UDP6).build().unwrap();
    let little_endian = 1u16.to_be() != 1;
    let expected = if little_endian {
        vec![0x3412, 0xCDAB, 0, 0, 0, 0, 0, 0]
    } else {
        vec![0x1234, 0xABCD, 0, 0, 0, 0, 0, 0]
    };
    assert_eq!(info.local_endpoint, EndPoint::new(expected, 80, IPV6));
    assert_eq!(info.state, "LISTENING");
    assert_eq!(info.inode, 99);
    assert_eq!(info.uid, 7);
}

#[test]
fn endpoint_fields_take_digits_greedily() {
    // seven digits: the first three fields take two, the last one
    let line = "0: 1234567:1 0x1+2A0Xb3:+0xFFFF 01 x x x 0 x 5";
    let info = SocketInfo::builder(line.to_string(), Protocol::RAW).build().unwrap();
    assert_eq!(info.local_endpoint, EndPoint::new(vec![7, 0x56, 0x34, 0x12], 1, IPV4));
    assert_eq!(info.remote_endpoint, EndPoint::new(vec![3, 0xb, 0x2a, 1], 0xffff, IPV4));
    assert_eq!(info.state, "ESTABLISHED");
    assert_eq!(info.uid, 0);
    assert_eq!(info.inode, 5);
}

#[test]
fn state_names() {
    let names = [
        "UNKNOWN", "ESTABLISHED", "SYN_SENT", "SYN_RECV", "FIN_WAIT1", "FIN_WAIT2", "TIME_WAIT",
        "CLOSE", "CLOSE_WAIT", "LAST_ACK", "LISTENING", "CLOSING", "NEW_SYN_RECV", "UNKNOWN",
    ];
    for (code, name) in names.iter().enumerate() {
        let line = format!("0: 0100007F:0035 00000000:0000 {:02X} 0 0 0 0 0 12", code);
        let info = build_common_entry(&line).unwrap();
        assert_eq!(info.state, *name);
        assert_eq!(info.inode, 12);
        assert_eq!(info.protocol, Protocol::TCP);
        assert_eq!(info.local_endpoint, EndPoint::default());
    }
    let info = build_common_entry("0: a b 0xff 0 0 0 +3 0 +18446744073709551615").unwrap();
    assert_eq!(info.state, "UNKNOWN");
    assert_eq!(info.uid, 3);
    assert_eq!(info.inode, 18446744073709551615);
}

#[test]
fn malformed_records_are_refused() {
    let bad_state = "0: 0100007F:0035 00000000:0000 1FF 0 0 0 0 0 12";
    assert_eq!(build_common_entry(bad_state), Err(ParseError::MatchFailed));
    // the state does not read, so the short record is refused, not read past its end
    assert_eq!(build_common_entry("0: a b zz"), Err(ParseError::MatchFailed));
    let bad_inode = "0: 0100007F:0035 00000000:0000 0A 0 0 0 0 0 -1";
    assert_eq!(build_common_entry(bad_inode), Err(ParseError::MatchFailed));
    let long_inode = "0: 0100007F:0035 00000000:0000 0A 0 0 0 0 0 000000000000000000001";
    assert_eq!(build_common_entry(long_inode), Err(ParseError::MatchFailed));
    let too_big = "0: 0100007F:0035 00000000:0000 0A 0 0 0 0 0 18446744073709551616";
    assert_eq!(build_common_entry(too_big), Err(ParseError::MatchFailed));
    let bad_uid = "0: 0100007F:0035 00000000:0000 0A 0 0 0 u 0 1";
    assert_eq!(build_common_entry(bad_uid), Err(ParseError::MatchFailed));
    let bad_local = "0: 0100007F0:0035 00000000:0000 0A 0 0 0 0 0 1";
    assert_eq!(
        SocketInfo::builder(bad_local.to_string(), Protocol::UDP).build(),
        Err(ParseError::MatchFailed)
    );
    let bad_remote = "0: 0100007F:0035 00000000:00000 0A 0 0 0 0 0 1";
    assert_eq!(
        SocketInfo::builder(bad_remote.to_string(), Protocol::TCP).build(),
        Err(ParseError::MatchFailed)
    );
    // fewer than eight digits cannot fill the eight fields of an IPv6 address
    let short6 = "0: 0100007:0035 00000000:0000 0A 0 0 0 0 0 1";
    assert_eq!(
        SocketInfo::builder(short6.to_string(), Protocol::TCP6).build(),
        Err(ParseError::MatchFailed)
    );
    // eight digits read as IPv6 too: one digit per field
    let v4 = "0: 0100007F:0035 00000000:0000 0A 0 0 0 0 0 1";
    let info = SocketInfo::builder(v4.to_string(), Protocol::TCP6).build().unwrap();
    if 1u16.to_be() != 1 {
        assert_eq!(
            info.local_endpoint,
            EndPoint::new(vec![0, 0x100, 0, 0, 0, 0, 0x700, 0xF00], 0x35, IPV6)
        );
    }
    assert!(SocketInfo::builder(v4.to_string(), Protocol::TCP).build().is_ok());
}

#[test]
fn default_socket_info() {
    let d = SocketInfo::default();
    assert_eq!(d.protocol, Protocol::TCP);
    assert_eq!(d.state, "");
    assert_eq!(d.inode, 0);
    assert_eq!(d.uid, 0);
    assert_eq!(d.local_endpoint, EndPoint::new(vec![], 0, IPV4));
}

#[test]
fn both_endpoints_share_the_host_byte_order() {
    let line = "0: 000080FE00000000FF5A1200010000FE:0016 000080FE00000000FF5A1200010000FE:0017 0A 0 0 0 0 0 4";
    let a = SocketInfo::builder(line.to_string(), Protocol::TCP6).build().unwrap();
    let b = SocketInfo::builder(line.to_string(), Protocol::TCP6).build().unwrap();
    assert_eq!(a.local_endpoint, b.local_endpoint);
    let as_read: Vec<u16> = vec![0x0000, 0x80FE, 0x0000, 0x0000, 0xFF5A, 0x1200, 0x0100, 0x00FE];
    let words: Vec<u16> = as_read.iter().map(|w| w.to_be()).collect();
    assert_eq!(a.local_endpoint, EndPoint::new(words.clone(), 0x16, IPV6));
    assert_eq!(a.remote_endpoint, EndPoint::new(words, 0x17, IPV6));
    if 1u16.to_be() != 1 {
        assert_eq!(
            a.local_endpoint,
            EndPoint::new(vec![0, 0xFE80, 0, 0, 0x5AFF, 0x0012, 0x0001, 0xFE00], 0x16, IPV6)
        );
        assert_eq!(a.local_endpoint.to_string(), ":fe80:::5aff:12:1:fe0:22");
    }
}
