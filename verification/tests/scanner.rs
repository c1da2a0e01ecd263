use ipgrep::matching::{AcceptSet, InterfaceMode};
use ipgrep::net::Net;
use ipgrep::scanner::{NetCandidate, NetCandidateScanner};

#[test]
fn test_interface_mode_treat_as_ip() {
    let acc = AcceptSet { ip: true, net: true, oldnet: false, iface: true };
    let ncs = NetCandidateScanner::new()
        .set_accept(acc)
        .set_interface_mode(InterfaceMode::TreatAsIp);
    let (res, _) = ncs.find_all(b"  ipv4.address1: \"10.20.30.123/24,10.20.30.1\"");
    assert_eq!(
        res,
        vec![
            NetCandidate { range: (18, 33), net: Net::from_str_unchecked("10.20.30.123") },
            NetCandidate { range: (34, 44), net: Net::from_str_unchecked("10.20.30.1") },
        ]
    );
}

#[test]
fn test_interface_mode_treat_as_network() {
    let acc = AcceptSet { ip: true, net: true, oldnet: false, iface: true };
    let ncs = NetCandidateScanner::new()
        .set_accept(acc)
        .set_interface_mode(InterfaceMode::TreatAsNetwork);
    let (res, _) = ncs.find_all(b"  ipv4.address1: \"10.20.30.123/24,10.20.30.1\"");
    assert_eq!(
        res,
        vec![
            NetCandidate { range: (18, 33), net: Net::from_str_unchecked("10.20.30.0/24") },
            NetCandidate { range: (34, 44), net: Net::from_str_unchecked("10.20.30.1") },
        ]
    );
}

#[test]
fn test_interface_mode_complain_and_skip() {
    let acc = AcceptSet { ip: true, net: true, oldnet: false, iface: true };
    let ncs = NetCandidateScanner::new()
        .set_accept(acc)
        .set_interface_mode(InterfaceMode::ComplainAndSkip);
    let (res, _) = ncs.find_all(b"  ipv4.address1: \"10.20.30.123/24,10.20.30.1\"");
    // NOTE: The skipped interface address is reported back to the caller,
    // which may log a complaint; see test_complain_reports_skipped.
    assert_eq!(
        res,
        vec![NetCandidate { range: (34, 44), net: Net::from_str_unchecked("10.20.30.1") }]
    );
}

#[test]
fn test_accept_only_ip() {
    let acc = AcceptSet { ip: true, net: false, oldnet: false, iface: false };
    let ncs = NetCandidateScanner::new().set_accept(acc);
    let (res, _) = ncs.find_all(b"x-11.22.0.0/16-x-12.34.56.78/24-x");
    assert_eq!(
        res,
        vec![
            NetCandidate { range: (2, 14), net: Net::from_str_unchecked("11.22.0.0") },
            NetCandidate { range: (17, 31), net: Net::from_str_unchecked("12.34.56.78") },
        ]
    );
}

#[test]
fn test_accept_only_net() {
    let acc = AcceptSet { ip: false, net: true, oldnet: false, iface: false };
    let ncs = NetCandidateScanner::new().set_accept(acc);

    // 11.22.0.0 is not a net
    // 12.34.56.78/24 is an interface
    let (res, _) = ncs.find_all(b"x-11.22.0.0-x-12.34.56.78/24-x");
    assert_eq!(res, vec![]);

    let (res, _) = ncs.find_all(b"x-0.0.0.0/0-x-12.34.0.0/24-x");
    assert_eq!(
        res,
        vec![
            NetCandidate { range: (2, 11), net: Net::from_str_unchecked("0.0.0.0/0") },
            NetCandidate { range: (14, 26), net: Net::from_str_unchecked("12.34.0.0/24") },
        ]
    );
}

#[test]
fn test_accept_only_oldnet_without_iface() {
    let acc = AcceptSet {
        ip: false,
        net: false,
        oldnet: true,
        iface: false, // relevant for net or oldnet
    };
    let ncs = NetCandidateScanner::new().set_accept(acc);

    let (res, _) = ncs.find_all(
        b"0.0.0.0/0     # no, a cidr \
          12.34.56.0/24 # no, a cidr \
          72.62.52.1    # no, an ip \
          3.3.3.3/8     # no, an iface \
          4.4.0.0/255.255.0.0  # yes, oldnet net \
          3.3.3.3/255.255.0.0  # no, oldnet iface \
          123.45.123.45 # no, another ip for good measure",
    );
    assert_eq!(
        res,
        vec![NetCandidate { range: (109, 128), net: Net::from_str_unchecked("4.4.0.0/16") }]
    );
}

#[test]
fn test_accept_only_oldnet_with_iface() {
    let acc = AcceptSet {
        ip: false,
        net: false,
        oldnet: true,
        iface: true, // relevant for net or oldnet
    };
    let ncs = NetCandidateScanner::new()
        .set_accept(acc)
        .set_interface_mode(InterfaceMode::TreatAsNetwork);

    let (res, _) = ncs.find_all(
        b"0.0.0.0/0     # no, a cidr \
          12.34.56.0/24 # no, a cidr \
          72.62.52.1    # no, an ip \
          3.3.3.3/8     # no, an iface \
          4.4.0.0/255.255.0.0  # yes, oldnet net \
          3.3.3.3/255.255.0.0  # yes, oldnet iface \
          123.45.123.45 # no, another ip for good measure",
    );
    assert_eq!(
        res,
        vec![
            NetCandidate { range: (109, 128), net: Net::from_str_unchecked("4.4.0.0/16") },
            NetCandidate { range: (148, 167), net: Net::from_str_unchecked("3.3.0.0/16") },
        ]
    );
}

fn default_policy_scanner() -> NetCandidateScanner {
    // The application's default: bare addresses, CIDR networks and
    // interface addresses, interfaces read as single hosts.
    let acc = AcceptSet { ip: true, net: true, oldnet: false, iface: true };
    NetCandidateScanner::new().set_accept(acc).set_interface_mode(InterfaceMode::TreatAsIp)
}

#[test]
fn test_plain_address_single_match() {
    let (res, skipped) = default_policy_scanner().find_all(b"plain 1.2.3.4 end");
    assert_eq!(
        res,
        vec![NetCandidate { range: (6, 13), net: Net::from_str_unchecked("1.2.3.4") }]
    );
    assert_eq!(skipped, vec![]);
}

#[test]
fn test_fifth_octet_rejected() {
    let (res, skipped) = default_policy_scanner().find_all(b"1.2.3.4.5");
    assert_eq!(res, vec![]);
    assert_eq!(skipped, vec![]);
}

#[test]
fn test_legacy_netmask_off_and_on() {
    let acc_nolegacy = AcceptSet { ip: true, net: true, oldnet: false, iface: true };
    let ncs = NetCandidateScanner::new().set_accept(acc_nolegacy);
    let (res, _) = ncs.find_all(b"128.128.0.0/255.255.0.0");
    assert_eq!(
        res,
        vec![
            NetCandidate { range: (0, 11), net: Net::from_str_unchecked("128.128.0.0") },
            NetCandidate { range: (12, 23), net: Net::from_str_unchecked("255.255.0.0") },
        ]
    );

    let acc_legacy = AcceptSet { ip: true, net: true, oldnet: true, iface: true };
    let ncs = NetCandidateScanner::new().set_accept(acc_legacy);
    let (res, _) = ncs.find_all(b"128.128.0.0/255.255.0.0");
    assert_eq!(
        res,
        vec![NetCandidate {
            range: (0, 23),
            net: Net::from_str_unchecked("128.128.0.0/16"),
        }]
    );
}

#[test]
fn test_complain_reports_skipped() {
    let acc = AcceptSet { ip: true, net: true, oldnet: false, iface: true };
    let ncs = NetCandidateScanner::new()
        .set_accept(acc)
        .set_interface_mode(InterfaceMode::ComplainAndSkip);
    let (res, skipped) = ncs.find_all(b"10.20.30.123/24");
    assert_eq!(res, vec![]);
    assert_eq!(
        skipped,
        vec![NetCandidate { range: (0, 15), net: Net::from_str_unchecked("10.20.30.123/24") }]
    );
    // The caller renders the diagnostic from the reported value.
    assert_eq!(skipped[0].net.to_text(), b"10.20.30.123/24".to_vec());
}

#[test]
fn test_family_filter() {
    let acc = AcceptSet { ip: true, net: true, oldnet: false, iface: true };
    let buf = b"10.0.0.1 and fe80::1 mixed";
    let v4only = NetCandidateScanner::new().set_accept(acc).ignore_ipv6(true);
    let (res, _) = v4only.find_all(buf);
    assert_eq!(
        res,
        vec![NetCandidate { range: (0, 8), net: Net::from_str_unchecked("10.0.0.1") }]
    );
    let v6only = NetCandidateScanner::new().set_accept(acc).ignore_ipv4(true);
    let (res, _) = v6only.find_all(buf);
    assert_eq!(
        res,
        vec![NetCandidate { range: (13, 20), net: Net::from_str_unchecked("fe80::1") }]
    );
}

#[test]
fn test_prefilter_finds_late_pattern() {
    // Would fail if the byte search missed an occurrence deep inside the
    // buffer or reported a wrong position.
    let mut buf = Vec::new();
    buf.extend_from_slice(&[b'x'; 300]);
    buf.extend_from_slice(b" 172.16.0.9 ");
    let (res, _) = default_policy_scanner().find_all(&buf);
    assert_eq!(
        res,
        vec![NetCandidate { range: (301, 311), net: Net::from_str_unchecked("172.16.0.9") }]
    );
}

#[test]
fn test_no_ip_shaped_text_yields_nothing() {
    let (res, skipped) = default_policy_scanner().find_all(b"no addresses here, 42 is a number");
    assert_eq!(res, vec![]);
    assert_eq!(skipped, vec![]);
}
