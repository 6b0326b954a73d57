use server_tools::proc_net::{parse_local_addr_v4, tcp_listeners_ipv4_from};

/// The same parse written with `std`'s `split` and `from_str_radix`.
fn std_parse(field: &str) -> Option<(String, u16)> {
    let mut parts = field.split(':');
    let ip_hex = parts.next()?;
    let port_hex = parts.next()?;
    if ip_hex.len() != 8 {
        return None;
    }
    let ip_u = u32::from_str_radix(ip_hex, 16).ok()?;
    let b = ip_u.to_le_bytes();
    let ip = format!("{}.{}.{}.{}", b[0], b[1], b[2], b[3]);
    let port = u16::from_str_radix(port_hex, 16).ok()?;
    Some((ip, port))
}

#[test]
fn parses_loopback_listener() {
    assert_eq!(parse_local_addr_v4("0100007F:1F90"), Some(("127.0.0.1".to_string(), 8080)));
    assert_eq!(parse_local_addr_v4("00000000:0016"), Some(("0.0.0.0".to_string(), 22)));
    assert_eq!(parse_local_addr_v4("0101A8C0:01bb"), Some(("192.168.1.1".to_string(), 443)));
}

#[test]
fn rejects_malformed_fields() {
    assert_eq!(parse_local_addr_v4("0100007F"), None);
    assert_eq!(parse_local_addr_v4(""), None);
    assert_eq!(parse_local_addr_v4("100007F:1F90"), None);
    assert_eq!(parse_local_addr_v4("0100007F:"), None);
    assert_eq!(parse_local_addr_v4("0100007G:0050"), None);
    assert_eq!(parse_local_addr_v4("0100007F:10000"), None);
    assert_eq!(parse_local_addr_v4("0100007F:+"), None);
    assert_eq!(parse_local_addr_v4("0100007F:-1"), None);
}

#[test]
fn accepts_what_from_str_radix_accepts() {
    assert_eq!(parse_local_addr_v4("+100007F:+50"), std_parse("+100007F:+50"));
    assert_eq!(parse_local_addr_v4("FFFFFFFF:FFFF:1"), Some(("255.255.255.255".to_string(), 65535)));
    assert_eq!(parse_local_addr_v4("0100007F:0000000050"), Some(("127.0.0.1".to_string(), 80)));
}

#[test]
fn agrees_with_std_parse() {
    let fields = [
        "0100007F:1F90", "0100007f:1f90", "+100007F:1F90", "++00007F:1F90", "0100007F:++1",
        "0100007F:1F90:0", "0100007F:", ":1F90", "é100007F:1F90", "0100007é:1", "0100007F:é",
        "01 0007F:1F90", "0100007F:FFFF", "0100007F:10000", "00000000:0", "FFFFFFFF:ffff",
        "-100007F:1", "0100007F:-0", "0100007F0:1", "0100007F:1F9 ", "::", "", "a:b:c",
    ];
    for f in fields {
        assert_eq!(parse_local_addr_v4(f), std_parse(f), "field {f:?}");
    }
}

const TABLE: &str = "  sl  local_address rem_address   st tx_queue rx_queue tr tm->when retrnsmt   uid  timeout inode
   0: 0100007F:1F90 00000000:0000 0A 00000000:00000000 00:00000000 00000000  1000        0 1 1 0000000000000000 100 0 0 10 0
   1: 00000000:0016 00000000:0000 0A 00000000:00000000 00:00000000 00000000     0        0 2 1 0000000000000000 100 0 0 10 0
   2: 0100007F:1F90 0100007F:C350 01 00000000:00000000 00:00000000 00000000  1000        0 3 1 0000000000000000 20 4 30 10 -1
   3: 0100007F:1F90 00000000:0000 0A 00000000:00000000 00:00000000 00000000  1000        0 4 1 0000000000000000 100 0 0 10 0
   4: 0101A8C0:0035 00000000:0000 0A 00000000:00000000 00:00000000 00000000   101        0 5 1 0000000000000000 100 0 0 10 0
";

#[test]
fn lists_distinct_listeners_sorted() {
    assert_eq!(
        tcp_listeners_ipv4_from(TABLE),
        vec!["0.0.0.0:22".to_string(), "127.0.0.1:8080".to_string(), "192.168.1.1:53".to_string()]
    );
}

#[test]
fn skips_header_short_rows_and_crlf() {
    assert_eq!(tcp_listeners_ipv4_from(""), Vec::<String>::new());
    assert_eq!(tcp_listeners_ipv4_from("0: 0100007F:1F90 x 0A\n"), Vec::<String>::new());
    assert_eq!(
        tcp_listeners_ipv4_from("header\r\n0: 0100007F:1F90 x 0A\r\n1: a b\r\n2: 0100007F:0050 x 0A"),
        vec!["127.0.0.1:80".to_string(), "127.0.0.1:8080".to_string()]
    );
    assert_eq!(tcp_listeners_ipv4_from("h\n0: 0100007F:1F90 x 0a\n"), Vec::<String>::new());
}

#[test]
fn written_addresses_parse_back() {
    for (b, p) in [([127u8, 0, 0, 1], 8080u16), ([0, 0, 0, 0], 0), ([255, 255, 255, 255], 65535), ([10, 1, 2, 254], 53)] {
        let s = format!("{:08X}:{:04X}", u32::from_le_bytes(b), p);
        assert_eq!(parse_local_addr_v4(&s), Some((format!("{}.{}.{}.{}", b[0], b[1], b[2], b[3]), p)));
    }
}

#[test]
fn final_line_without_newline_keeps_its_cr() {
    // A lone trailing `\r` stays on the last line; white space splitting drops it again.
    assert_eq!(tcp_listeners_ipv4_from("h\n0: 0100007F:0016 x 0A\r"), vec!["127.0.0.1:22".to_string()]);
}
