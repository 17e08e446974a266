use mpvremote::cli::{bind_address, help, mode, port, root, socket, Mode};

fn args(words: &[&str]) -> Vec<String> {
    words.iter().map(|w| w.to_string()).collect()
}

fn set(word: &str) -> Option<String> {
    Some(word.to_string())
}

#[test]
fn the_first_argument_selects_the_mode() {
    assert_eq!(mode(&args(&["mpvremote"])), Mode::Serve);
    assert_eq!(mode(&args(&[])), Mode::Serve);
    assert_eq!(mode(&args(&["mpvremote", "status"])), Mode::Status);
    assert_eq!(mode(&args(&["mpvremote", "qr"])), Mode::Status);
    assert_eq!(mode(&args(&["mpvremote", "--help"])), Mode::Help);
    assert_eq!(mode(&args(&["mpvremote", "-h"])), Mode::Help);
    assert_eq!(mode(&args(&["mpvremote", "--port", "status"])), Mode::Serve);
    assert_eq!(mode(&args(&["status"])), Mode::Serve);
}

#[test]
fn the_flag_wins_over_the_environment() {
    assert_eq!(port(&args(&["m"]), None), 8000);
    assert_eq!(port(&args(&["m"]), set("9000")), 9000);
    assert_eq!(port(&args(&["m", "--port", "7000"]), set("9000")), 7000);
    assert_eq!(port(&args(&["m", "-p", "65535"]), None), 65535);
    assert_eq!(port(&args(&["m", "--port", "0"]), set("9000")), 0);
}

#[test]
fn what_is_no_port_is_passed_over() {
    assert_eq!(port(&args(&["m", "--port"]), set("9000")), 9000);
    assert_eq!(port(&args(&["m", "--port", "65536"]), set("9000")), 9000);
    assert_eq!(port(&args(&["m", "--port", "x", "-p", "7000"]), None), 8000);
    assert_eq!(port(&args(&["m", "--port", "-p", "7000"]), None), 8000);
    assert_eq!(port(&args(&["m"]), set("")), 8000);
    assert_eq!(port(&args(&["m"]), set("-1")), 8000);
    assert_eq!(port(&args(&["m"]), set("80 ")), 8000);
}

#[test]
fn ports_read_as_numbers_do() {
    for text in ["0", "00", "80", "+80", "+", "", "-0", "65535", "65536", "99999999999", "8a", "８"] {
        let expected = text.parse::<u16>().unwrap_or(8000);
        assert_eq!(port(&args(&["m"]), set(text)), expected, "{text:?}");
    }
}

#[test]
fn settings_have_defaults() {
    assert_eq!(socket(None), "/tmp/mpvremote.sock");
    assert_eq!(socket(set("/run/mpv")), "/run/mpv");
    assert_eq!(root(set("/srv"), set("/home/u")), set("/srv"));
    assert_eq!(root(None, set("/home/u")), set("/home/u"));
    assert_eq!(root(None, None), None);
}

#[test]
fn the_server_listens_on_every_address() {
    assert_eq!(bind_address(8000), "0.0.0.0:8000");
    assert_eq!(bind_address(0), "0.0.0.0:0");
}

#[test]
fn help_names_the_modes_and_options() {
    assert_eq!(
        help(),
        "mpvremote               run the server (default)\n\
         mpvremote status | qr   show the running daemon's address + QR code\n\
         \noptions: --port <n>   (or MPVREMOTE_PORT, MPVREMOTE_SOCKET, MPVREMOTE_ROOT)\n"
    );
}
