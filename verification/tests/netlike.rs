use std::str;

use ipgrep::netlike::NetLikeScanner;

fn collect_spans(mut sc: NetLikeScanner, input: &[u8]) -> Vec<String> {
    let mut got = Vec::new();
    while let Some((s, e)) = sc.next() {
        got.push(str::from_utf8(&input[s..e]).unwrap().to_string());
    }
    got
}

#[test]
fn scan_ip_like_runs() {
    let cases = [
        (
            // First one needs the "as &[u8]" to define the type.
            b"plain 1.2.3.4 end" as &[u8],
            &["1.2.3.4"][..],
            &["1.2.3.4"][..],
        ),
        (b"0.0.0.0", &["0.0.0.0"][..], &["0.0.0.0"][..]),
        (
            // Beware, these are illegal.
            b" 255.255.255.256. 312.34.56.781.",
            &["255.255.255.256", "312.34.56.781"][..],
            &["255.255.255.256", "312.34.56.781"][..],
        ),
        (
            b"cidr 1.2.3.0/24 mask 255.255.255.0 oldnet",
            &["1.2.3.0/24", "255.255.255.0"][..],
            &["1.2.3.0/24", "255.255.255.0"][..],
        ),
        (
            b"v6 ::1, ::ffff:10.0.0.1/127 and fd4e:3732:3033::1/64",
            &["::1", "::ffff:10.0.0.1/127", "fd4e:3732:3033::1/64"][..],
            &["::1", "::ffff:10.0.0.1/127", "fd4e:3732:3033::1/64"][..],
        ),
        (b"no match: 1.2.3.4.5 and garbage 12a3::zz", &[][..], &[][..]),
        (
            b"do match: 1.2.3.4. 5 and no garbage 12a3::def. zz",
            &["1.2.3.4", "12a3::def"][..],
            &["1.2.3.4", "12a3::def"][..],
        ),
        (
            b"bordering punctuation: [1.2.3.4],(::1)",
            &["1.2.3.4", "::1"][..],
            &["1.2.3.4", "::1"][..],
        ),
        (
            b"128.128.0.0/255.255.0.0 is old style netmask notation",
            &["128.128.0.0", "255.255.0.0"][..],
            &["128.128.0.0/255.255.0.0"][..],
        ),
        (
            b" ipv4.address1: \"10.20.30.123/24,10.20.30.1\"",
            &["10.20.30.123/24", "10.20.30.1"][..],
            &["10.20.30.123/24", "10.20.30.1"][..],
        ),
        (
            b"last on the line 100.200.300.400.",
            &["100.200.300.400"][..],
            &["100.200.300.400"][..],
        ),
        (
            b"multiple colons 1.1.1.1:2.2.2.2:3.3.3.3 end",
            &["1.1.1.1", "2.2.2.2", "3.3.3.3"][..],
            &["1.1.1.1", "2.2.2.2", "3.3.3.3"][..],
        ),
        (
            b"ports 1.2.3.4:17772 and 10.20.30.40:22",
            &["1.2.3.4", "10.20.30.40"][..],
            &["1.2.3.4", "10.20.30.40"][..],
        ),
        (
            b"ipv6 unaffected ::1:80 still valid",
            &["::1:80"][..],
            &["::1:80"][..],
        ),
        (
            b"100.200.300.400:80, 40.30.20.10:443",
            &["100.200.300.400", "40.30.20.10"][..],
            &["100.200.300.400", "40.30.20.10"][..],
        ),
        (
            b"range like: 192.168.0.0..192.168.2.255",
            &["192.168.0.0", "192.168.2.255"][..],
            &["192.168.0.0", "192.168.2.255"][..],
        ),
        (
            b"::Ffff:123.45.67.89/1",
            &["::Ffff:123.45.67.89/1"][..],
            &["::Ffff:123.45.67.89/1"][..],
        ),
        (
            b"/::fFfF:123.45.67.89/1.2.3.4.5/::/",
            &["::fFfF:123.45.67.89", "::"][..],
            &["::fFfF:123.45.67.89", "::"][..],
        ),
        (
            b"..1.2.3.4..5.6.7.8..",
            &["1.2.3.4", "5.6.7.8"][..],
            &["1.2.3.4", "5.6.7.8"][..],
        ),
        (b"1.2.3.4z", &[][..], &[][..]),
        (
            b"199.8.7.166.5/199.8.7.166/199.8.177/199.8/199",
            &["199.8.7.166"][..],
            &["199.8.7.166"][..],
        ),
        (
            // Provisional: the 'd' before the colons could arguably make
            // this a rejected word-embedded token; "::" matches for now.
            b"colons at the end::",
            &["::"][..],
            &["::"][..],
        ),
        (b"::/::", &["::", "::"][..], &["::", "::"][..]),
        (
            b"0.0.0.0/::/::",
            &["0.0.0.0", "::", "::"][..],
            &["0.0.0.0", "::", "::"][..],
        ),
        (b"[::255:255.0.0.4]", &["::255:255"][..], &["::255:255"][..]),
        (b"11.22.33.", &[][..], &[][..]),
        (
            // Provisional: whether "fec0::fee" should count as a fresh
            // candidate after the rejected suffix is an open question.
            b":255.255.0.0/24::fec0::fee",
            &["255.255.0.0/24", "fec0::fee"][..],
            &["255.255.0.0/24", "fec0::fee"][..],
        ),
        (
            // Provisional, as above.
            b":255.255.0.0::fec0::fee",
            &["255.255.0.0", "fec0::fee"][..],
            &["255.255.0.0", "fec0::fee"][..],
        ),
    ];

    for (input, expected, expected_with_oldnet) in cases {
        let got = collect_spans(NetLikeScanner::new(input), input);
        let got_with_oldnet = collect_spans(NetLikeScanner::new(input).with_oldnet(), input);

        assert_eq!(
            got,
            expected,
            "for input {:?}, expected {:?}, got {:?}",
            std::str::from_utf8(input).unwrap(),
            expected,
            got
        );
        assert_eq!(
            got_with_oldnet,
            expected_with_oldnet,
            "for (with oldnet) input {:?}, expected {:?}, got {:?}",
            std::str::from_utf8(input).unwrap(),
            expected_with_oldnet,
            got_with_oldnet
        );
    }
}
