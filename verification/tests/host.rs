use mpvremote::host::{allow_host, guard_host};

#[test]
fn addresses_and_localhost_pass() {
    for host in [
        "localhost",
        "localhost:8000",
        "127.0.0.1",
        "192.168.1.20:8000",
        "255.255.255.255",
        "0.0.0.0:1",
        "[::1]",
        "[::1]:8000",
        "[::1]:",
        "[::1]:80]",
        "[127.0.0.1]:8]",
        "[localhost]",
        "[localhost]:]",
        "[fe80::1:2]",
        "[192.168.1.1]",
        "[fe80::1]:80",
        "[1:2:3:4:5:6:7:8]:80",
        "[::ffff:192.168.1.1]:8000",
        "[::]:8000",
        "fe80::1:8000",
    ] {
        assert!(allow_host(host), "{host}");
        assert!(guard_host(Some(host.as_bytes())).is_none(), "{host}");
    }
}

#[test]
fn names_are_refused() {
    for host in [
        "",
        "evil.example",
        "evil.example:8000",
        "localhost.evil.example",
        "LOCALHOST",
        "127.0.0.1.evil.example:80",
        "1.2.3",
        "1.2.3.4.5",
        "256.1.1.1",
        "01.2.3.4",
        "1.2.3.4:80:80",
        "[evil]",
        "[::1",
        "::1]",
        "[]",
        "[evil]:80",
        "[1:2]",
        "[::1]]",
        "[::1]evil]",
        "[1:2:3:4:5:6:7:8:9]:80",
        "[1:2:3:4:5:6:7]:80",
        "[1::2::3]:80",
        "[12345::]:80",
        "[g::]:80",
        "[1:2:3:4:5:6:7::8]:80",
    ] {
        assert!(!allow_host(host), "{host}");
    }
}

#[test]
fn a_refused_host_is_told_so() {
    let refusal = guard_host(Some(b"evil.example:8000")).unwrap();
    assert_eq!(refusal.status, 403);
    assert_eq!(refusal.text, "bad host");
}

#[test]
fn no_host_passes_and_a_garbled_one_does_not() {
    assert!(guard_host(None).is_none());
    assert!(guard_host(Some(b"local\xffhost")).is_some());
    assert!(guard_host(Some(b"127.0.0.1\x00")).is_some());
}

#[test]
fn hosts_agree_with_the_standard_library() {
    let names = [
        "1.2.3.4", "1.2.3.256", "1.2.3", "00.1.1.1", "0.0.0.0", "1.2.3.4.", ".1.2.3", "1..2.3",
        "::", "::1", "1::", "1:2:3:4:5:6:7:8", "1:2:3:4:5:6:7::", "::2:3:4:5:6:7:8", ":::", ":",
        "1:2:3:4:5:6:7:8::", "::1.2.3.4", "1:2:3:4:5:6:1.2.3.4", "1:2:3:4:5:6:7:1.2.3.4",
        "1.2.3.4::", "1::1.2.3.4:5", "a:b:c:d:e:f:0:1", "A::F", "10000::", "1:2", "", "x",
    ];
    for name in names {
        let expected = name.parse::<core::net::IpAddr>().is_ok();
        assert_eq!(allow_host(&format!("{name}:80")), expected, "{name}");
        assert_eq!(allow_host(&format!("[{name}]:80")), expected, "{name}");
        assert_eq!(allow_host(&format!("[{name}]")), expected, "{name}");
    }
}

#[test]
fn the_port_makes_no_difference() {
    let names =
        ["localhost", "[localhost]", "1.2.3.4", "[1.2.3.4]", "evil", "[evil]", "[", "]", "[]", "", "[1", "a]b]"];
    for name in names {
        for port in ["", "80", "]", "8]", "[", "x]y]"] {
            assert_eq!(allow_host(name), allow_host(&format!("{name}:{port}")), "{name} {port}");
        }
    }
}
