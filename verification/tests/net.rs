use ipgrep::needle::Needle;
use ipgrep::net::{Net, NetError};

#[test]
fn test_old_10_0_0_0_255_255_254_0() {
    let new = Net::from_str_unchecked("10.0.0.0/23");
    let old = Net::from_str_unchecked("10.0.0.0/255.255.254.0");
    let old2 = Net::from_str_unchecked("10.0.0.0/255.255.255.0");
    assert_eq!(old, new);
    assert_ne!(old, old2);
}

#[test]
fn test_v4_10_0_0_0_24() {
    let n = Net::from_str_unchecked("10.0.0.0/24");
    assert!(n.is_ipv4());
    assert!(!n.is_ipv6());
    assert!(!n.has_host_bits());
    assert_eq!(n.as_ip(), Net::from_str_unchecked("10.0.0.0/32"));
    assert_eq!(n.as_network(), n);
}

#[test]
fn test_v4_192_168_2_254_24() {
    let n = Net::from_str_unchecked("192.168.2.254/24");
    assert!(n.is_ipv4());
    assert!(!n.is_ipv6());
    assert!(n.has_host_bits());
    assert_eq!(n.as_ip(), Net::from_str_unchecked("192.168.2.254"));
    assert_eq!(n.as_network(), Net::from_str_unchecked("192.168.2.0/24"));
}

#[test]
fn test_v6_fe80_1_64() {
    let n = Net::from_str_unchecked("fe80::1/64");
    assert!(!n.is_ipv4());
    assert!(n.is_ipv6());
    assert!(n.has_host_bits());
    assert_eq!(n.as_ip(), Net::from_str_unchecked("fe80::1"));
    assert_eq!(n.as_network(), Net::from_str_unchecked("fe80::/64"));
}

#[test]
fn test_v6_0_24() {
    let n = Net::from_str_unchecked("::/24");
    assert!(!n.is_ipv4());
    assert!(n.is_ipv6());
    assert!(!n.has_host_bits());
    assert_eq!(n.as_ip(), Net::from_str_unchecked("::/128"));
    assert_eq!(n.as_network(), n);
}

#[test]
fn test_v6_2001_db8_29() {
    let n = Net::from_str_unchecked("2001:db8::/29"); // "/28" has hostbits
    assert!(!n.is_ipv4());
    assert!(n.is_ipv6());
    assert!(!n.has_host_bits());
    assert_eq!(n.as_ip(), Net::from_str_unchecked("2001:db8::"));
    assert_eq!(n.as_network(), n);
}

#[test]
fn test_needle_valid_ip() {
    let n = Needle::try_from("123.123.123.123").unwrap();
    assert_eq!(n.src, "123.123.123.123");
    assert_eq!(n.net, Net::from_str_unchecked("123.123.123.123/32"));
}

#[test]
fn test_needle_valid_net() {
    let n = Needle::try_from("88.99.128.0/17").unwrap();
    assert_eq!(n.src, "88.99.128.0/17");
    assert_eq!(n.net, Net::from_str_unchecked("88.99.128.0/17"));
}

#[test]
fn test_needle_valid_oldnet() {
    let n = Needle::try_from("192.168.32.0/255.255.224.0").unwrap();
    assert_eq!(n.src, "192.168.32.0/255.255.224.0");
    assert_eq!(n.net, Net::from_str_unchecked("192.168.32.0/19"));
}

#[test]
fn test_needle_rejects_host_bits() {
    match Needle::try_from("10.0.0.1/24") {
        Err(NetError::HostBitsSet(v)) => {
            assert_eq!(v, b"10.0.0.1/24".to_vec());
        }
        other => panic!("expected HostBitsSet, got {:?}", other),
    }
}

#[test]
fn test_needle_rejects_garbage() {
    match Needle::try_from("10.0.0.999") {
        Err(NetError::NotAnIp(v)) => {
            assert_eq!(v, b"10.0.0.999".to_vec());
        }
        other => panic!("expected NotAnIp, got {:?}", other),
    }
}

#[test]
fn test_try_from_rejects_out_of_range_octet() {
    assert!(Net::try_from(b"999.999.999.999").is_err());
    assert!(Net::try_from(b"256.0.0.1").is_err());
    assert!(Net::try_from(b"1.2.3.4.5").is_err());
    assert!(Net::try_from(b"01.2.3.4").is_err());
}

#[test]
fn test_try_from_rejects_bad_prefix_and_mask() {
    assert!(Net::try_from(b"1.2.3.4/33").is_err());
    assert!(Net::try_from(b"::1/129").is_err());
    assert!(Net::try_from(b"1.2.3.4/").is_err());
    // A non-contiguous netmask is a parse error.
    assert!(Net::try_from(b"1.2.3.0/255.0.255.0").is_err());
}

#[test]
fn test_try_from_v6_forms() {
    assert_eq!(
        Net::try_from(b"::").unwrap(),
        Net::from_str_unchecked("0:0:0:0:0:0:0:0")
    );
    assert_eq!(
        Net::try_from(b"::ffff:10.0.0.1").unwrap(),
        Net::from_str_unchecked("0:0:0:0:0:ffff:a00:1")
    );
    assert_eq!(
        Net::try_from(b"1:2:3:4:5:6:7:8").unwrap(),
        Net::from_str_unchecked("1:2:3:4:5:6:7:8")
    );
    assert!(Net::try_from(b"1:2:3:4:5:6:7:8:9").is_err());
    assert!(Net::try_from(b"1:::2").is_err());
    assert!(Net::try_from(b"1:2").is_err());
}

#[test]
fn test_to_text_canonical_forms() {
    let n = Net::from_str_unchecked("10.0.0.0/255.255.254.0");
    assert_eq!(n.to_text(), b"10.0.0.0/23".to_vec());

    let h = Net::from_str_unchecked("192.168.2.254");
    assert_eq!(h.to_text(), b"192.168.2.254/32".to_vec());

    let v6 = Net::from_str_unchecked("::1");
    assert_eq!(v6.to_text(), b"0:0:0:0:0:0:0:1/128".to_vec());

    let v6n = Net::from_str_unchecked("2001:db8::/32");
    assert_eq!(v6n.to_text(), b"2001:db8:0:0:0:0:0:0/32".to_vec());
}

#[test]
fn test_text_round_trip() {
    for s in [
        "10.0.0.0/255.255.254.0",
        "0.0.0.0/0",
        "255.255.255.255",
        "1.2.3.4/31",
        "::",
        "::/0",
        "fe80::1/64",
        "::ffff:10.20.30.40/96",
        "2001:db8::dead:beef",
    ] {
        let n = Net::from_str_unchecked(s);
        let text = n.to_text();
        let back = Net::try_from(text.as_slice()).unwrap();
        assert_eq!(back, n, "round trip through {:?}", String::from_utf8(text).unwrap());
    }
}
