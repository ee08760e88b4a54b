use clipaste::cli::{parse_command, Command};
use clipaste::clipboard::{encode_utf16_nul, is_image_only, normalized_message, window_message, ClipboardWatch, WindowMessage};
use clipaste::config::{find, hotkey_part, keycode, parse_hotkey, paste_hotkey_from_config, HotkeyPart};
use clipaste::format::{decimal_string, health_url, server_url, DEFAULT_PORT};
use clipaste::hotkey::{is_hotkey_press, needs_event_tap, tap_event, TapEvent, MOD_CMD, V_KEY};
use clipaste::shims::{profile_needs_path, remote_install_result, ssh_setup_script, wl_paste_shim, xclip_shim};
use clipaste::ssh_config::{extract_hostname, plan_remote_forward, ForwardPlan};
use clipaste::wsl::nameserver_address;

const FWD: &str = "RemoteForward 18340 127.0.0.1:18340";

fn written(p: ForwardPlan) -> String {
    match p {
        ForwardPlan::Write(s) => s,
        ForwardPlan::AlreadyConfigured => panic!("expected a new configuration"),
    }
}

fn args(v: &[&str]) -> Vec<String> {
    v.iter().map(|s| s.to_string()).collect()
}

#[test]
fn find_reads_key_value() {
    assert_eq!(find("a = 1\nkey = \"value\"\n", "key"), Some("value"));
    assert_eq!(find("  key=  x  \n", "key"), Some("x"));
    assert_eq!(find("key\t=\tv\r\n", "key"), Some("v"));
}

#[test]
fn find_first_line_wins() {
    assert_eq!(find("key = a\nkey = b", "key"), Some("a"));
}

#[test]
fn find_needs_equals_after_key() {
    assert_eq!(find("keyx = 1", "key"), None);
    assert_eq!(find("key 1", "key"), None);
    assert_eq!(find("", "key"), None);
    assert_eq!(find("other = key", "key"), None);
}

#[test]
fn find_strips_all_surrounding_quotes() {
    assert_eq!(find("key = \"\"\"q\"\"\"", "key"), Some("q"));
    assert_eq!(find("key = \"a b\"", "key"), Some("a b"));
}

#[test]
fn keycode_letters_and_digits() {
    assert_eq!(keycode("a"), Some(0x00));
    assert_eq!(keycode("v"), Some(0x09));
    assert_eq!(keycode("z"), Some(0x06));
    assert_eq!(keycode("0"), Some(0x1D));
    assert_eq!(keycode("9"), Some(0x19));
}

#[test]
fn keycode_rejects_others() {
    assert_eq!(keycode(""), None);
    assert_eq!(keycode("vx"), None);
    assert_eq!(keycode("f1"), None);
    assert_eq!(keycode("space"), None);
    assert_eq!(keycode("V"), None);
    assert_eq!(keycode("é"), None);
    assert_eq!(keycode("-"), None);
}

#[test]
fn hotkey_part_kinds() {
    assert!(matches!(hotkey_part("ctrl"), HotkeyPart::Modifier(0x40000)));
    assert!(matches!(hotkey_part("control"), HotkeyPart::Modifier(0x40000)));
    assert!(matches!(hotkey_part("command"), HotkeyPart::Modifier(0x100000)));
    assert!(matches!(hotkey_part("shift"), HotkeyPart::Modifier(0x20000)));
    assert!(matches!(hotkey_part("option"), HotkeyPart::Modifier(0x80000)));
    assert!(matches!(hotkey_part("v"), HotkeyPart::Key(Some(0x09))));
    assert!(matches!(hotkey_part("Ctrl"), HotkeyPart::Key(None)));
}

#[test]
fn parse_hotkey_combinations() {
    assert_eq!(parse_hotkey("ctrl+shift+v"), Some((0x60000, 0x09)));
    assert_eq!(parse_hotkey("Cmd + V"), Some((0x100000, 0x09)));
    assert_eq!(parse_hotkey("CTRL+V"), Some((0x40000, 0x09)));
    assert_eq!(parse_hotkey("alt+option+1"), Some((0x80000, 0x12)));
    assert_eq!(parse_hotkey("ctrl+a+b"), Some((0x40000, 0x0B)));
    assert_eq!(parse_hotkey("v"), Some((0, 0x09)));
}

#[test]
fn parse_hotkey_needs_a_key() {
    assert_eq!(parse_hotkey("ctrl+shift"), None);
    assert_eq!(parse_hotkey(""), None);
    assert_eq!(parse_hotkey("ctrl+v+"), None);
    assert_eq!(parse_hotkey("f1"), None);
    assert_eq!(parse_hotkey("ctrl+space"), None);
}

#[test]
fn hotkey_setting_invariance() {
    assert_eq!(parse_hotkey(" V + Shift+CTRL + ctrl"), Some((0x60000, 0x09)));
    assert_eq!(parse_hotkey(" V + Shift+CTRL + ctrl"), parse_hotkey("ctrl+shift+v"));
    assert_eq!(parse_hotkey("ctrl+ctrl+v"), parse_hotkey("ctrl+v"));
    assert_eq!(parse_hotkey("\tCoNtRoL +  v  "), parse_hotkey("control+v"));
    assert_eq!(parse_hotkey("a+ctrl+b"), Some((0x40000, 0x0B)));
}

#[test]
fn hotkey_modifier_order_does_not_matter() {
    assert_eq!(parse_hotkey("shift+ctrl+v"), parse_hotkey("ctrl+shift+v"));
    assert_eq!(parse_hotkey("v+ctrl"), parse_hotkey("ctrl+v"));
}

#[test]
fn paste_hotkey_platform_setting_first() {
    let c = "paste_hotkey = ctrl+v\npaste_hotkey_macos = cmd+shift+v\n";
    assert_eq!(paste_hotkey_from_config(c, true), Some((0x120000, 0x09)));
    assert_eq!(paste_hotkey_from_config(c, false), Some((0x40000, 0x09)));
    assert_eq!(paste_hotkey_from_config("paste_hotkey_windows = alt+p", false), Some((0x80000, 0x23)));
    assert_eq!(paste_hotkey_from_config("nothing here", true), None);
}

#[test]
fn extract_hostname_cases() {
    assert_eq!(extract_hostname("user@host"), "host");
    assert_eq!(extract_hostname("host"), "host");
    assert_eq!(extract_hostname("a@b@c"), "c");
    assert_eq!(extract_hostname("user@"), "");
}

#[test]
fn extract_hostname_twice_is_once() {
    let h = extract_hostname("me@box.example");
    assert_eq!(extract_hostname(&h), h);
}

#[test]
fn forward_into_empty_config() {
    let out = written(plan_remote_forward("", "user@server", DEFAULT_PORT));
    assert_eq!(
        out,
        format!("\n# clipaste remote paste\nHost clipaste-server\n    HostName server\n    {FWD}\n")
    );
}

#[test]
fn forward_after_hostname_of_matching_block() {
    let c = "Host myserver\n    HostName 1.2.3.4\n    User me\n";
    let out = written(plan_remote_forward(c, "myserver", DEFAULT_PORT));
    assert_eq!(out, format!("Host myserver\n    HostName 1.2.3.4\n    {FWD}\n    User me\n"));
}

#[test]
fn forward_after_host_line_without_hostname() {
    let c = "Host a b\n    User x\nHost c\n";
    let out = written(plan_remote_forward(c, "u@b", DEFAULT_PORT));
    assert_eq!(out, format!("Host a b\n    {FWD}\n    User x\nHost c\n"));
}

#[test]
fn forward_wildcard_block_is_passed_over() {
    let c = "Host *\n    HostName server\n";
    let out = written(plan_remote_forward(c, "server", DEFAULT_PORT));
    assert_eq!(out, format!("Host *\n    HostName server\n    {FWD}\n"));
    let c = "Host *\n    ForwardAgent yes\n";
    let out = written(plan_remote_forward(c, "srv", DEFAULT_PORT));
    assert!(out.starts_with("Host *\n    ForwardAgent yes\n\n# clipaste remote paste\n"));
}

#[test]
fn forward_no_matching_block_appends_one() {
    let c = "Host other\n    HostName 9.9.9.9\n";
    let out = written(plan_remote_forward(c, "srv", DEFAULT_PORT));
    assert_eq!(
        out,
        format!("Host other\n    HostName 9.9.9.9\n\n# clipaste remote paste\nHost clipaste-srv\n    HostName srv\n    {FWD}\n")
    );
}

#[test]
fn forward_crlf_lines() {
    let c = "Host s\r\n  HostName s\r\n";
    let out = written(plan_remote_forward(c, "s", DEFAULT_PORT));
    assert_eq!(out, format!("Host s\n  HostName s\n    {FWD}\n"));
}

#[test]
fn forward_already_present() {
    let c = format!("Host s\n  {FWD}\n");
    assert!(matches!(plan_remote_forward(&c, "s", DEFAULT_PORT), ForwardPlan::AlreadyConfigured));
}

#[test]
fn forward_present_in_other_block_does_not_count() {
    let c = format!("Host t\n  {FWD}\n");
    let out = written(plan_remote_forward(&c, "s", DEFAULT_PORT));
    assert!(out.ends_with("Host clipaste-s\n    HostName s\n    RemoteForward 18340 127.0.0.1:18340\n"));
}

#[test]
fn forward_second_run_is_already_configured() {
    for (c, h) in [
        ("", "user@server"),
        ("Host myserver\n    HostName 1.2.3.4\n", "myserver"),
        ("Host x\n  HostName y\nHost z\n", "y"),
        ("Host *\n", "srv"),
    ] {
        let out = written(plan_remote_forward(c, h, DEFAULT_PORT));
        assert!(matches!(plan_remote_forward(&out, h, DEFAULT_PORT), ForwardPlan::AlreadyConfigured));
    }
}

#[test]
fn forward_uses_given_port() {
    let out = written(plan_remote_forward("", "h", 7));
    assert!(out.ends_with("    RemoteForward 7 127.0.0.1:7\n"));
}

#[test]
fn nameserver_first_entry() {
    let c = "# generated\nnameserver 172.20.0.1\nnameserver 8.8.8.8\n";
    assert_eq!(nameserver_address(c), Some("172.20.0.1".to_string()));
    assert_eq!(nameserver_address("  nameserver   10.0.0.1 extra"), Some("10.0.0.1".to_string()));
    assert_eq!(nameserver_address("nameserver\nnameserver 1.1.1.1"), Some("1.1.1.1".to_string()));
    assert_eq!(nameserver_address("search lan\n"), None);
    assert_eq!(nameserver_address(""), None);
}

#[test]
fn shims_carry_the_url() {
    let url = "http://127.0.0.1:18340";
    let x = xclip_shim(url);
    assert!(x.contains("CLIPASTE_URL=\"http://127.0.0.1:18340\""));
    assert!(!x.contains("__CLIPASTE_URL__"));
    assert!(x.starts_with("#!/bin/bash\n"));
    let w = wl_paste_shim(url);
    assert!(w.contains("CLIPASTE_URL=\"http://127.0.0.1:18340\""));
    assert!(w.contains("--list-types"));
}

#[test]
fn setup_script_installs_both_shims() {
    let url = "http://127.0.0.1:18340";
    let s = ssh_setup_script(url);
    let expected = format!(
        "\nmkdir -p ~/.local/bin\ncat > ~/.local/bin/xclip << 'SHIMEOF'\n{}\nSHIMEOF\nchmod +x ~/.local/bin/xclip\n\ncat > ~/.local/bin/wl-paste << 'SHIMEOF'\n{}\nSHIMEOF\nchmod +x ~/.local/bin/wl-paste\n",
        xclip_shim(url),
        wl_paste_shim(url)
    );
    assert!(s.starts_with(&expected));
    assert!(s.ends_with("fi\necho \"OK\"\n"));
}

#[test]
fn profile_path_line() {
    assert!(profile_needs_path("export X=1\n"));
    assert!(!profile_needs_path("x\n# clipaste PATH\nexport PATH=\"$HOME/.local/bin:$PATH\"\n"));
    assert!(profile_needs_path(""));
}

#[test]
fn remote_install_outcome() {
    assert_eq!(remote_install_result(true, "warning"), Ok(()));
    assert_eq!(remote_install_result(false, "  bad host \n"), Err("bad host".to_string()));
}

#[test]
fn numbers_and_urls() {
    assert_eq!(decimal_string(0), "0");
    assert_eq!(decimal_string(18340), "18340");
    assert_eq!(decimal_string(u64::MAX), "18446744073709551615");
    let base = server_url("127.0.0.1", DEFAULT_PORT);
    assert_eq!(base, "http://127.0.0.1:18340");
    assert_eq!(health_url(&base), "http://127.0.0.1:18340/health");
    assert_eq!(server_url("172.20.0.1", 80), "http://172.20.0.1:80");
}

#[test]
fn utf16_with_terminator() {
    assert_eq!(encode_utf16_nul("PNG"), vec![80, 78, 71, 0]);
    assert_eq!(encode_utf16_nul(""), vec![0]);
    assert_eq!(encode_utf16_nul("é"), vec![0xE9, 0]);
    assert_eq!(encode_utf16_nul("a😀"), vec![0x61, 0xD83D, 0xDE00, 0]);
    let p = "C:\\Temp\\clipaste\\shot.png";
    let expect: Vec<u16> = p.encode_utf16().chain(std::iter::once(0)).collect();
    assert_eq!(encode_utf16_nul(p), expect);
}

#[test]
fn image_only_clipboard() {
    assert!(is_image_only(true, false, false, false));
    assert!(is_image_only(false, true, false, false));
    assert!(!is_image_only(true, true, true, false));
    assert!(!is_image_only(true, false, false, true));
    assert!(!is_image_only(false, false, false, false));
}

#[test]
fn clipboard_change_handled_once() {
    let mut w = ClipboardWatch::new();
    assert!(w.is_new_change(5));
    assert!(!w.is_new_change(5));
    assert!(w.is_new_change(6));
    assert!(!w.is_new_change(6));
    assert_eq!(w.last_seq, 6);
    let mut z = ClipboardWatch::new();
    assert!(!z.is_new_change(0));
}

#[test]
fn window_messages() {
    assert!(matches!(window_message(0x031D), WindowMessage::ClipboardUpdate));
    assert!(matches!(window_message(0x0002), WindowMessage::Destroy));
    assert!(matches!(window_message(0x0010), WindowMessage::Other));
}

#[test]
fn normalized_log_line() {
    assert_eq!(normalized_message("clipaste-1.png", 1234), "normalized clipaste-1.png (1234 bytes)");
}

#[test]
fn tap_events() {
    assert!(matches!(tap_event(10), TapEvent::KeyDown));
    assert!(matches!(tap_event(0xFFFFFFFE), TapEvent::Disabled));
    assert!(matches!(tap_event(11), TapEvent::Other));
}

#[test]
fn hotkey_press_matching() {
    assert!(is_hotkey_press(0x120100, 9, 0x120000, 9));
    assert!(is_hotkey_press(0x40000, 0x10009, 0x40000, 9));
    assert!(!is_hotkey_press(0x140000, 9, 0x40000, 9));
    assert!(!is_hotkey_press(0x40000, 8, 0x40000, 9));
}

#[test]
fn event_tap_needed() {
    assert!(!needs_event_tap(MOD_CMD, V_KEY));
    assert!(needs_event_tap(0x40000, V_KEY));
    assert!(needs_event_tap(MOD_CMD, 0x08));
}

#[test]
fn command_line() {
    assert!(matches!(parse_command(&args(&["clipaste", "--version"])), Command::Version));
    assert!(matches!(parse_command(&args(&["clipaste", "-v"])), Command::Version));
    assert!(matches!(parse_command(&args(&["clipaste", "-h"])), Command::Help));
    assert!(matches!(parse_command(&args(&["clipaste", "wsl-setup"])), Command::WslSetup));
    assert!(matches!(parse_command(&args(&["clipaste", "ssh-setup"])), Command::Help));
    assert!(matches!(parse_command(&args(&["clipaste", "ssh-setup", "-v"])), Command::Version));
    assert!(matches!(parse_command(&args(&["clipaste"])), Command::Run));
    match parse_command(&args(&["clipaste", "ssh-setup", "u@h"])) {
        Command::SshSetup(h) => assert_eq!(h, "u@h"),
        _ => panic!("expected ssh-setup"),
    }
}

fn dib_header(w: i32, h: i32, bits: u16, comp: u32, size: u32) -> Vec<u8> {
    let mut v = Vec::new();
    v.extend_from_slice(&size.to_le_bytes());
    v.extend_from_slice(&w.to_le_bytes());
    v.extend_from_slice(&h.to_le_bytes());
    v.extend_from_slice(&1u16.to_le_bytes());
    v.extend_from_slice(&bits.to_le_bytes());
    v.extend_from_slice(&comp.to_le_bytes());
    v.extend_from_slice(&[0u8; 20]);
    v
}

fn test_crc(d: &[u8]) -> u32 {
    let mut c: u32 = !0;
    for &x in d {
        c ^= x as u32;
        for _ in 0..8 {
            c = if c & 1 != 0 { (c >> 1) ^ 0xEDB8_8320 } else { c >> 1 };
        }
    }
    !c
}

fn test_adler(d: &[u8]) -> u32 {
    let (mut a, mut b) = (1u32, 0u32);
    for &x in d {
        a = (a + x as u32) % 65521;
        b = (b + a) % 65521;
    }
    (b << 16) | a
}

fn expected_png(w: u32, h: u32, lines: &[u8]) -> Vec<u8> {
    fn chunk(out: &mut Vec<u8>, ty: &[u8], data: &[u8]) {
        out.extend_from_slice(&(data.len() as u32).to_be_bytes());
        let mut td = ty.to_vec();
        td.extend_from_slice(data);
        out.extend_from_slice(&td);
        out.extend_from_slice(&test_crc(&td).to_be_bytes());
    }
    let mut out = vec![137, 80, 78, 71, 13, 10, 26, 10];
    let mut ihdr = Vec::new();
    ihdr.extend_from_slice(&w.to_be_bytes());
    ihdr.extend_from_slice(&h.to_be_bytes());
    ihdr.extend_from_slice(&[8, 2, 0, 0, 0]);
    chunk(&mut out, b"IHDR", &ihdr);
    let mut z = vec![0x78, 0x01];
    let mut rest = lines;
    loop {
        let n = rest.len().min(65535);
        let last = n == rest.len();
        z.push(if last { 1 } else { 0 });
        z.extend_from_slice(&(n as u16).to_le_bytes());
        z.extend_from_slice(&(!(n as u16)).to_le_bytes());
        z.extend_from_slice(&rest[..n]);
        rest = &rest[n..];
        if last {
            break;
        }
    }
    z.extend_from_slice(&test_adler(lines).to_be_bytes());
    chunk(&mut out, b"IDAT", &z);
    chunk(&mut out, b"IEND", &[]);
    out
}

#[test]
fn crc32_check_value() {
    assert_eq!(clipaste::png::crc32_of(b"123456789"), 0xCBF4_3926);
    assert_eq!(clipaste::png::crc32_of(b"IEND"), 0xAE42_6082);
}

#[test]
fn png_from_bottom_up_24_bit() {
    let mut dib = dib_header(2, 2, 24, 0, 40);
    dib.extend_from_slice(&[1, 2, 3, 4, 5, 6, 0, 0]);
    dib.extend_from_slice(&[7, 8, 9, 10, 11, 12, 0, 0]);
    let png = clipaste::png::dib_to_png(&dib).unwrap();
    let lines = [0, 9, 8, 7, 12, 11, 10, 0, 3, 2, 1, 6, 5, 4];
    assert_eq!(png, expected_png(2, 2, &lines));
    assert_eq!(&png[png.len() - 12..], &[0, 0, 0, 0, 73, 69, 78, 68, 0xAE, 0x42, 0x60, 0x82]);
}

#[test]
fn png_from_top_down_32_bit_bitfields() {
    let mut dib = dib_header(1, -2, 32, 3, 40);
    dib.extend_from_slice(&0x00FF_0000u32.to_le_bytes());
    dib.extend_from_slice(&0x0000_FF00u32.to_le_bytes());
    dib.extend_from_slice(&0x0000_00FFu32.to_le_bytes());
    dib.extend_from_slice(&[10, 20, 30, 255, 40, 50, 60, 255]);
    let png = clipaste::png::dib_to_png(&dib).unwrap();
    assert_eq!(png, expected_png(1, 2, &[0, 30, 20, 10, 0, 60, 50, 40]));
}

#[test]
fn png_of_large_image_uses_several_blocks() {
    let w = 200i32;
    let h = 120i32;
    let mut dib = dib_header(w, h, 24, 0, 40);
    let stride = (w as usize * 3 + 3) / 4 * 4;
    for i in 0..stride * h as usize {
        dib.push((i % 251) as u8);
    }
    let png = clipaste::png::dib_to_png(&dib).unwrap();
    let mut lines = Vec::new();
    for r in 0..h as usize {
        let src = 40 + (h as usize - 1 - r) * stride;
        lines.push(0);
        for p in 0..w as usize {
            let px = &dib[src + p * 3..src + p * 3 + 3];
            lines.extend_from_slice(&[px[2], px[1], px[0]]);
        }
    }
    assert!(lines.len() > 65535);
    assert_eq!(png, expected_png(w as u32, h as u32, &lines));
}

#[test]
fn png_rejects_unsupported_dibs() {
    assert_eq!(clipaste::png::dib_to_png(&[0u8; 10]), None);
    let mut dib = dib_header(1, 1, 8, 0, 40);
    dib.extend_from_slice(&[0; 4]);
    assert_eq!(clipaste::png::dib_to_png(&dib), None);
    let mut dib = dib_header(2, 2, 24, 0, 40);
    dib.extend_from_slice(&[0; 15]);
    assert_eq!(clipaste::png::dib_to_png(&dib), None);
    let mut dib = dib_header(0, 1, 24, 0, 40);
    dib.extend_from_slice(&[0; 4]);
    assert_eq!(clipaste::png::dib_to_png(&dib), None);
    let mut dib = dib_header(1, 1, 32, 3, 40);
    dib.extend_from_slice(&[0; 16]);
    assert_eq!(clipaste::png::dib_to_png(&dib), None);
    let mut dib = dib_header(1, 1, 24, 1, 40);
    dib.extend_from_slice(&[0; 4]);
    assert_eq!(clipaste::png::dib_to_png(&dib), None);
}
