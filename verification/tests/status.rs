use mpvremote::json::{Json, Number};
use mpvremote::lan::{addresses, local_ipv4s};
use mpvremote::qr::{code_text, qr};
use mpvremote::status::{
    banner, banner_with, check_daemon, describe, find_daemon, is_running, report, report_with,
    state_file, state_value, url_text, Daemon,
};

fn number(n: u64) -> Json {
    Json::Number(Number::PosInt(n))
}

fn texts(words: &[&str]) -> Vec<String> {
    words.iter().map(|w| w.to_string()).collect()
}

const IP_OUTPUT: &str = "\
2: enp3s0    inet 192.168.1.20/24 brd 192.168.1.255 scope global dynamic enp3s0\\       valid_lft 1sec
4: tun0    inet 10.8.0.2/24 scope global tun0
5: docker0    inet 172.17.0.1/16 brd 172.17.255.255 scope global docker0
6: br-12ab    inet 172.18.0.1/16 scope global br-12ab
7: wlan0    inet 192.168.1.21/24 scope global wlan0
";

#[test]
fn a_process_without_a_directory_does_not_run() {
    assert!(!is_running(u32::MAX));
}

#[test]
fn the_first_process_runs() {
    let init = std::path::Path::new("/proc/1").exists();
    assert_eq!(is_running(1), init);
}

#[test]
fn the_record_lies_in_the_runtime_directory() {
    assert_eq!(state_file(Some("/run/user/1000")), b"/run/user/1000/mpvremote.state");
    assert_eq!(state_file(Some("/run/")), b"/run/mpvremote.state");
    assert_eq!(state_file(Some("")), b"mpvremote.state");
    assert_eq!(state_file(None), b"/tmp/mpvremote.state");
}

#[test]
fn a_record_reads_back() {
    let state = state_value(8000, 4242);
    assert_eq!(describe(&state), Daemon { port: 8000, pid: 4242 });
}

#[test]
fn a_record_may_be_incomplete() {
    assert_eq!(describe(&Json::Null), Daemon { port: 0, pid: 0 });
    let state = Json::Object(vec![("pid".to_string(), number(7))]);
    assert_eq!(describe(&state), Daemon { port: 0, pid: 7 });
    let state = Json::Object(vec![("port".to_string(), Json::Str("80".to_string()))]);
    assert_eq!(describe(&state), Daemon { port: 0, pid: 0 });
}

#[test]
fn a_missing_record_is_reported() {
    assert_eq!(
        find_daemon(None, b"/tmp/mpvremote.state"),
        Err("mpvremote is not running (no state file at /tmp/mpvremote.state)".to_string())
    );
    assert_eq!(
        find_daemon(None, b"/tmp/\xff"),
        Err("mpvremote is not running (no state file at /tmp/\u{fffd})".to_string())
    );
}

#[test]
fn a_stale_record_is_reported() {
    let state = state_value(8000, u32::MAX);
    assert_eq!(
        find_daemon(Some(&state), b"x"),
        Err("mpvremote is not running (stale state file, pid 4294967295)".to_string())
    );
    assert_eq!(
        check_daemon(Daemon { port: 1, pid: 0 }, true),
        Err("mpvremote is not running (stale state file, pid 0)".to_string())
    );
    let state = Json::Object(vec![
        ("port".to_string(), number(8000)),
        ("pid".to_string(), number(4294967297)),
    ]);
    let stale = "mpvremote is not running (stale state file, pid 4294967297)".to_string();
    assert_eq!(find_daemon(Some(&state), b"x"), Err(stale.clone()));
    assert_eq!(check_daemon(describe(&state), true), Err(stale));
    let daemon = Daemon { port: 1, pid: 4294967295 };
    assert_eq!(check_daemon(daemon, true), Ok(daemon));
    let daemon = Daemon { port: 1, pid: 5 };
    assert_eq!(check_daemon(daemon, true), Ok(daemon));
}

#[test]
fn addresses_of_tunnels_and_containers_are_skipped() {
    assert_eq!(addresses(IP_OUTPUT), ["192.168.1.20", "192.168.1.21"]);
    assert_eq!(local_ipv4s(Some(IP_OUTPUT.as_bytes().to_vec())), ["192.168.1.20", "192.168.1.21"]);
    assert_eq!(local_ipv4s(None), Vec::<String>::new());
}

#[test]
fn odd_lines_have_no_address() {
    assert_eq!(addresses(""), Vec::<String>::new());
    assert_eq!(addresses("1:\n2: eth0\n3: eth0 inet\n4: eth0 inet6 ::1/64\n"), Vec::<String>::new());
    assert_eq!(addresses("1: eth0 inet 1.2.3.4\r\n"), ["1.2.3.4"]);
    assert_eq!(addresses("1: inet 1.2.3.4/8"), Vec::<String>::new());
    assert_eq!(addresses("1: inet inet 1.2.3.4/8"), ["1.2.3.4"]);
    assert_eq!(addresses("1: eth0 inet inet /8"), ["inet"]);
    assert_eq!(local_ipv4s(Some(b"1: \xff inet 1.2.3.4/8".to_vec())), ["1.2.3.4"]);
    assert_eq!(local_ipv4s(Some(b"1: e inet \xff/8".to_vec())), ["\u{fffd}"]);
}

#[test]
fn a_page_has_an_address() {
    assert_eq!(url_text("192.168.1.20", 8000), "http://192.168.1.20:8000");
    assert_eq!(url_text("h", u64::MAX), "http://h:18446744073709551615");
}

#[test]
fn a_report_names_every_address() {
    let ips = texts(&["192.168.1.20", "10.0.0.2"]);
    let daemon = Daemon { port: 8000, pid: 42 };
    assert_eq!(
        report_with(daemon, &ips, "CODE"),
        Ok("mpvremote running (pid 42)\n  http://192.168.1.20:8000\n  http://10.0.0.2:8000\n\
            \nCODE\n  http://192.168.1.20:8000\n"
            .to_string())
    );
    assert_eq!(report(daemon, &ips), report_with(daemon, &ips, &qr("http://192.168.1.20:8000")));
}

#[test]
fn a_machine_without_an_address_is_reported() {
    let expected = "mpvremote is running on port 8000, but no LAN address was found".to_string();
    assert_eq!(report(Daemon { port: 8000, pid: 42 }, &[]), Err(expected));
}

#[test]
fn the_start_message_shows_a_code_to_whoever_watches() {
    let ips = texts(&["10.0.0.2"]);
    assert_eq!(
        banner_with(8000, &ips, Some("CODE")),
        "mpvremote listening on port 8000 (all interfaces)\n  http://10.0.0.2:8000\n\
         \nCODE\nrun `mpvremote status` for the address and a QR code\n"
    );
    assert_eq!(banner(8000, &ips, true), banner_with(8000, &ips, Some(&qr("http://10.0.0.2:8000"))));
    assert_eq!(banner(8000, &ips, false), banner_with(8000, &ips, None));
    assert_eq!(
        banner(1, &[], true),
        "mpvremote listening on port 1 (all interfaces)\n\
         run `mpvremote status` for the address and a QR code\n"
    );
}

#[test]
fn a_code_is_drawn_in_half_blocks() {
    let code = qr("http://192.168.1.20:8000");
    let expected = qrcode::QrCode::new(b"http://192.168.1.20:8000")
        .unwrap()
        .render::<qrcode::render::unicode::Dense1x2>()
        .quiet_zone(true)
        .build();
    assert_eq!(code, expected);
    let lines: Vec<&str> = code.split('\n').collect();
    let width = lines[0].chars().count();
    assert!(lines.iter().all(|l| l.chars().count() == width));
    assert_eq!(lines.len(), (width + 1) / 2);
    assert!(code.contains('\u{2588}'));
    assert_ne!(qr("http://192.168.1.21:8000"), code);
}

#[test]
fn a_text_without_a_code_is_reported() {
    assert_eq!(qr(&"x".repeat(5000)), "(could not render QR: data too long)");
    assert_eq!(code_text(Err("why".to_string())), "(could not render QR: why)");
    assert_eq!(code_text(Ok("##".to_string())), "##");
}
