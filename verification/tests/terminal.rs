use std::collections::HashSet;
use std::time::Duration;

use havn::parse_arg::CliArgs;
use havn::scanner::AllPortStatus;
use havn::terminal::{
    address_error_text, get_extra_ips, get_host_ip, get_scan_time, get_table, has_text,
    ms_to_string, name_and_target_text, spinner_frame, text_color, text_color_windows, Color,
    WindowsColor,
};

fn millis(d: Duration) -> String {
    ms_to_string(d.as_millis(), d.as_secs())
}

fn scan_time(result: &AllPortStatus, d: Duration, monochrome: bool) -> String {
    get_scan_time(result, d.as_millis(), d.as_secs(), monochrome)
}

#[test]
/// A duration is formatted into a "X.YYYs" string
fn test_terminal_ms_to_string() {
    assert_eq!(millis(Duration::from_millis(250)), "0.250s");
    assert_eq!(millis(Duration::from_millis(1000)), "1.000s");
    assert_eq!(millis(Duration::from_millis(1250)), "1.250s");
    assert_eq!(millis(Duration::from_millis(12_8250)), "128.250s");
}

#[test]
/// Short millisecond parts are padded with zeros, whole seconds are not padded
fn test_ms_to_string_padding() {
    assert_eq!(millis(Duration::from_millis(0)), "0.000s");
    assert_eq!(millis(Duration::from_millis(5)), "0.005s");
    assert_eq!(millis(Duration::from_millis(10_050)), "10.050s");
    assert_eq!(millis(Duration::from_micros(1_999_999)), "1.999s");
    assert_eq!(ms_to_string(500, 1), "1.000s");
    assert_eq!(ms_to_string(12_345, 1), "1.11345s");
}

#[test]
/// Generate extra ip function will either return None, or a String in format "Other IPs: xx"
fn test_terminal_generate_extra_ips() {
    let ip = "127.0.0.1".to_owned();
    let ips = vec![ip.clone()];
    assert!(get_extra_ips(&ips, &ip).is_none());

    let ip_2 = "255.255.255.255".to_owned();
    let ips = vec![ip.clone(), ip_2.clone()];
    let result = get_extra_ips(&ips, &ip);
    assert!(result.is_some());
    assert_eq!(result.unwrap(), "Other IPs: 255.255.255.255");

    let ip_3 = "7f:7e:7d:7c:7b:7a:79:78".to_owned();
    let ips = vec![ip.clone(), ip_2, ip_3];
    let result = get_extra_ips(&ips, &ip);
    assert!(result.is_some());
    assert_eq!(
        get_extra_ips(&ips, &ip).unwrap(),
        "Other IPs: 255.255.255.255, 7f:7e:7d:7c:7b:7a:79:78"
    );
}

#[test]
/// The scanned address never shows among the others, wherever it stands
fn test_extra_ips_skip_scanned() {
    let ips = vec!["10.0.0.1".to_owned(), "10.0.0.2".to_owned(), "10.0.0.3".to_owned()];
    assert_eq!(get_extra_ips(&ips, &"10.0.0.3".to_owned()).unwrap(), "Other IPs: 10.0.0.1, 10.0.0.2");
    assert_eq!(get_extra_ips(&ips, &"10.0.0.2".to_owned()).unwrap(), "Other IPs: 10.0.0.1, 10.0.0.3");
    assert_eq!(
        get_extra_ips(&ips, &"10.0.0.9".to_owned()).unwrap(),
        "Other IPs: 10.0.0.1, 10.0.0.2, 10.0.0.3"
    );
    assert!(get_extra_ips(&vec![], &"10.0.0.9".to_owned()).is_none());
}

#[test]
/// Get the IP and Address or just IP and a blank string, as well as the colorised port range
fn test_terminal_host_ip() {
    let cli_args = CliArgs::test_new("1".to_owned(), 512, None, false);
    let ip = "127.0.0.1".to_owned();
    assert_eq!(
        get_host_ip(&cli_args, &ip),
        ("127.0.0.1:".into(), "1".into(), String::new())
    );

    let cli_args = CliArgs::test_new("1-10000".to_owned(), 512, None, false);
    assert_eq!(
        get_host_ip(&cli_args, &ip),
        ("127.0.0.1:".into(), "1-10000".into(), String::new())
    );

    let cli_args = CliArgs::test_new("1-65535".to_owned(), 512, None, false);
    assert_eq!(
        get_host_ip(&cli_args, &ip),
        ("127.0.0.1:".into(), "1-65535".into(), String::new())
    );

    let cli_args = CliArgs::test_new("1".to_owned(), 512, Some("www.google.com"), false);
    assert_eq!(
        get_host_ip(&cli_args, &ip),
        ("127.0.0.1:".into(), "1".into(), String::from("www.google.com"))
    );

    let cli_args = CliArgs::test_new("1-10000".to_owned(), 512, Some("www.google.com"), false);
    assert_eq!(
        get_host_ip(&cli_args, &ip),
        ("127.0.0.1:".into(), "1-10000".into(), String::from("www.google.com"))
    );

    let cli_args = CliArgs::test_new("1-65535".to_owned(), 512, Some("www.google.com"), false);
    assert_eq!(
        get_host_ip(&cli_args, &ip),
        ("127.0.0.1:".into(), "1-65535".into(), String::from("www.google.com"))
    );
}

#[test]
/// Generate extra ip function will either return None, or a String in format "Other IPs: xx"
fn test_terminal_table() {
    let input = AllPortStatus::test_new(HashSet::new(), 10, 1, 0);
    assert!(get_table(&input, false).is_none());

    let input = AllPortStatus::test_new(HashSet::from([80]), 1, 80, 0);
    let result = get_table(&input, false);
    assert!(result.is_some());
    let result = result.unwrap();
    assert!(result.contains("PORT"));
    assert!(result.contains("DESCRIPTION"));
    assert!(result.contains("80 "));
    assert!(result.contains("http"));

    let input = AllPortStatus::test_new(HashSet::from([443, 6379, 32825]), 3, 32825, 0);
    let result = get_table(&input, false);
    assert!(result.is_some());
    let result = result.unwrap();
    assert!(result.contains("PORT"));
    assert!(result.contains("DESCRIPTION"));
    assert!(result.contains("443 "));
    assert!(result.contains("https"));
    assert!(result.contains("6379 "));
    assert!(result.contains("redis"));
    assert!(result.contains("32825 "));
    assert!(result.contains("unknown"));
}

#[test]
/// The whole table, with and without colours
fn test_table_exact() {
    let input = AllPortStatus::test_new(HashSet::from([6379, 443, 22]), 3, 6379, 0);
    assert_eq!(
        get_table(&input, true).unwrap(),
        "PORT  DESCRIPTION\n22    ssh\n443   https\n6379  redis"
    );
    assert_eq!(
        get_table(&input, false).unwrap(),
        "\x1b[4mPORT\x1b[0m  \x1b[4mDESCRIPTION\x1b[0m\n\x1b[33m22    ssh\x1b[0m\n\x1b[0m443   https\x1b[0m\n\x1b[33m6379  redis\x1b[0m"
    );
    // Not complete yet
    let input = AllPortStatus::test_new(HashSet::from([22]), 3, 6379, 1);
    assert!(get_table(&input, true).is_none());
}

#[test]
/// Generate extra ip function will either return None, or a String in format "Other IPs: xx"
fn test_terminal_scan_time() {
    let input = (
        AllPortStatus::test_new(HashSet::new(), 10, 1, 10),
        Duration::from_millis(100),
    );
    let result = scan_time(&input.0, input.1, false);
    assert!(result.contains("0 open"));
    assert!(result.contains("10 closed"));
    assert!(result.contains(", took 0.100s"));

    let input = (
        AllPortStatus::test_new(HashSet::from([1, 2, 3]), 10, 1, 6),
        Duration::from_millis(2500),
    );
    let result = scan_time(&input.0, input.1, false);
    assert!(result.contains("3 open"));
    assert!(result.contains("6 closed"));
    assert!(result.contains(", took 2.500s"));
}

#[test]
/// Test that escape codes are printed to output
fn test_terminal_monochrome_false() {
    let monochrome = false;
    let input = (
        AllPortStatus::test_new(HashSet::new(), 10, 1, 10),
        Duration::from_millis(100),
    );
    let result = scan_time(&input.0, input.1, monochrome);

    assert!(result.contains("\x1b[32m0 open\x1b[0m"));
    assert!(result.contains("\x1b[31m10 closed\x1b[0m"));

    let input = AllPortStatus::test_new(HashSet::from([443, 6379, 32825]), 3, 32825, 0);
    let result = get_table(&input, monochrome);
    assert!(result.is_some());
    let result = result.unwrap();

    assert!(result.contains("\x1b[33m443"));
    assert!(result.contains("https\x1b[0m"));

    assert!(result.contains("6379"));
    assert!(result.contains("redis"));

    assert!(result.contains("\x1b[33m32825"));
    assert!(result.contains("unknown\x1b[0m"));
}

#[test]
/// Test that escape codes are not printed to output
fn test_terminal_monochrome_true() {
    let monochrome = true;
    let input = (
        AllPortStatus::test_new(HashSet::new(), 10, 1, 10),
        Duration::from_millis(100),
    );
    let result = scan_time(&input.0, input.1, monochrome);

    assert!(!result.contains("\x1b[32m0 open\x1b[0m"));
    assert!(!result.contains("\x1b[31m10 closed\x1b[0m"));

    let input = AllPortStatus::test_new(HashSet::from([443, 6379, 32825]), 3, 32825, 0);
    let result = get_table(&input, monochrome);
    assert!(result.is_some());
    let result = result.unwrap();

    assert!(!result.contains("\x1b[33m443"));
    assert!(!result.contains("https\x1b[0m"));

    assert!(result.contains("6379"));
    assert!(result.contains("redis"));

    assert!(!result.contains("\x1b[33m32825"));
    assert!(!result.contains("unknown\x1b[0m"));
}

#[test]
/// Monochrome text holds no escape character at all
fn test_monochrome_plain() {
    let status = AllPortStatus::test_new(HashSet::from([1, 80]), 5, 80, 3);
    assert_eq!(scan_time(&status, Duration::from_millis(1_001), true), "2 open, 3 closed, took 1.001s");
    assert!(!get_table(&status, true).unwrap().contains('\x1b'));
    for c in [Color::Green, Color::Magenta, Color::Red, Color::Reset, Color::Underline, Color::Yellow] {
        assert_eq!(c.code(true), "");
        assert!(c.code(false).starts_with("\x1b["));
    }
}

#[test]
/// The colour setting follows the flag, and on Windows also the edition
fn test_text_color() {
    let mut args = CliArgs::test_new("1".to_owned(), 1, None, false);
    assert!(!text_color(&args));
    args.monochrome = true;
    assert!(text_color(&args));
    args.monochrome = false;
    assert_eq!(
        text_color_windows(&args, Some("Windows 10 Pro")),
        WindowsColor { monochrome: true, win_10: true }
    );
    assert_eq!(
        text_color_windows(&args, Some("Windows 11 Home")),
        WindowsColor { monochrome: false, win_10: false }
    );
    assert_eq!(text_color_windows(&args, None), WindowsColor { monochrome: false, win_10: false });
    args.monochrome = true;
    assert_eq!(
        text_color_windows(&args, Some("Windows 11 Home")),
        WindowsColor { monochrome: true, win_10: false }
    );
    assert!(has_text("abc Windows 11", "Windows 11"));
    assert!(!has_text("Windows 1", "Windows 11"));
    assert!(has_text("x", ""));
}

#[test]
/// The banner's bars are as wide as the widest line plus twenty
fn test_name_and_target() {
    let args = CliArgs::test_new("1-10".to_owned(), 1, Some("localhost"), false);
    let text = name_and_target_text(&args, &"127.0.0.1".to_owned(), true);
    let bar: String = std::iter::repeat('═').take(34).collect();
    assert_eq!(
        text,
        format!("{bar}\n|__|  /\\  \\  / |\\ | 127.0.0.1:1-10\n|  | /--\\  \\/  | \\| localhost\n{bar}")
    );
    let args = CliArgs::test_new("80".to_owned(), 1, Some("a-very-long-host-name.example"), false);
    let text = name_and_target_text(&args, &"10.0.0.1".to_owned(), false);
    let bar: String = std::iter::repeat('═').take(49).collect();
    assert!(text.starts_with(&format!("\x1b[35m{bar}\n")));
    assert!(text.ends_with(&format!("\x1b[35m{bar}\x1b[0m")));
    assert!(text.contains("\x1b[0m 10.0.0.1:\x1b[33m80\x1b[0m\n"));
}

#[test]
/// The address error names the address
fn test_address_error_text() {
    let args = CliArgs::test_new("1".to_owned(), 1, Some("no.such.host"), false);
    assert_eq!(address_error_text(&args, true), "Error with address: no.such.host");
    assert_eq!(address_error_text(&args, false), "\x1b[31mError with address: \x1b[0mno.such.host");
}

#[test]
/// Each spinner frame is one braille character followed by "scanning"
fn test_spinner_frame() {
    assert_eq!(spinner_frame(0, true), "⠋ scanning ");
    assert_eq!(spinner_frame(9, true), "⠏ scanning ");
    assert_eq!(spinner_frame(3, false), "\x1b[31m⠸\x1b[0m scanning ");
}

