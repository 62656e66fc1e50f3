//! The text the terminal shows: colours, the banner, the results table,
//! the totals line and the spinner.
use vstd::prelude::*;
use vstd::string::*;

use crate::parse_arg::CliArgs;
use crate::scanner::{ascending, port_description, AllPortStatus};
use crate::text::{
    chars_of, decimal, decimal_space_padded, decimal_zero_padded, pad_spaces, pad_zeros,
    push_decimal, push_repeat, repeat,
};

verus! {

/// Colorize the text using escape codes
#[derive(Debug, Clone, Copy, PartialEq, Eq)]
pub enum Color {
    Green,
    Magenta,
    Red,
    Reset,
    Underline,
    Yellow,
}

/// The escape code that selects a colour.
pub open spec fn escape_code(c: Color) -> Seq<char> {
    match c {
        Color::Green => "\x1b[32m"@,
        Color::Magenta => "\x1b[35m"@,
        Color::Red => "\x1b[31m"@,
        Color::Reset => "\x1b[0m"@,
        Color::Underline => "\x1b[4m"@,
        Color::Yellow => "\x1b[33m"@,
    }
}

/// The text that selects a colour: nothing in monochrome mode.
pub open spec fn color_text(c: Color, monochrome: bool) -> Seq<char> {
    if monochrome { Seq::empty() } else { escape_code(c) }
}

impl Color {
    /// The escape code of this colour, or nothing in monochrome mode.
    pub fn code(&self, monochrome: bool) -> (r: &'static str)
        ensures
            r@ == color_text(*self, monochrome),
    {
        if monochrome {
            proof {
                reveal_strlit("");
            }
            ""
        } else {
            match self {
                Color::Green => "\x1b[32m",
                Color::Magenta => "\x1b[35m",
                Color::Red => "\x1b[31m",
                Color::Reset => "\x1b[0m",
                Color::Underline => "\x1b[4m",
                Color::Yellow => "\x1b[33m",
            }
        }
    }
}

/// Whether text is shown without colours: as the `-m` flag says.
pub fn text_color(cli_args: &CliArgs) -> (monochrome: bool)
    ensures
        monochrome == cli_args.monochrome,
{
    cli_args.monochrome
}

/// `t` occurs in `s`.
pub open spec fn contains_text(s: Seq<char>, t: Seq<char>) -> bool {
    exists|i: int| 0 <= i <= s.len() - t.len() && #[trigger] s.subrange(i, i + t.len()) == t
}

/// Whether `t` occurs in `s`.
pub fn has_text(s: &str, t: &str) -> (r: bool)
    ensures
        r == contains_text(s@, t@),
{
    let sv = chars_of(s);
    let tv = chars_of(t);
    let n = sv.len();
    let m = tv.len();
    if m > n {
        return false;
    }
    let mut i: usize = 0;
    while i <= n - m
        invariant
            m <= n,
            n == s@.len(),
            m == t@.len(),
            sv@ == s@,
            tv@ == t@,
            forall|k: int| 0 <= k < i ==> #[trigger] s@.subrange(k, k + m) != t@,
        decreases n - m + 1 - i,
    {
        let mut j: usize = 0;
        let mut same = true;
        while j < m
            invariant
                i <= n - m,
                m <= n,
                n == s@.len(),
                m == t@.len(),
                sv@ == s@,
                tv@ == t@,
                j <= m,
                same <==> forall|l: int| 0 <= l < j ==> s@[i + l] == t@[l],
            decreases m - j,
        {
            if sv[i + j] != tv[j] {
                same = false;
            }
            j = j + 1;
        }
        if same {
            assert(s@.subrange(i as int, i + m) =~= t@);
            return true;
        }
        proof {
            assert forall|k: int| 0 <= k < i + 1 implies #[trigger] s@.subrange(k, k + m) != t@ by {
                if k == i {
                    let l = choose|l: int| 0 <= l < m && s@[i + l] != t@[l];
                    assert(s@.subrange(k, k + m)[l] != t@[l]);
                }
            }
        }
        i = i + 1;
    }
    false
}

/// The colour settings on Windows.
#[derive(Debug, Clone, Copy, PartialEq, Eq)]
pub struct WindowsColor {
    /// Text is shown without colours.
    pub monochrome: bool,
    /// The system is Windows 10 (an edition is known and it is not Windows 11).
    pub win_10: bool,
}

/// The colour settings on Windows, given the edition of the system: an
/// edition other than Windows 11 cannot show colours, and neither can a
/// scan with the `-m` flag.
pub fn text_color_windows(cli_args: &CliArgs, edition: Option<&str>) -> (r: WindowsColor)
    ensures
        r.win_10 == match edition {
            Some(e) => !contains_text(e@, "Windows 11"@),
            None => false,
        },
        r.monochrome == (r.win_10 || cli_args.monochrome),
{
    let win_10 = match edition {
        Some(e) => !has_text(e, "Windows 11"),
        None => false,
    };
    WindowsColor { monochrome: win_10 || cli_args.monochrome, win_10 }
}

/// The milliseconds beyond the whole seconds: `as_millis - as_secs * 1000`,
/// or zero when that is negative.
pub open spec fn sub_second_millis(as_millis: u128, as_secs: u64) -> nat {
    if as_millis >= as_secs * 1000 { (as_millis - as_secs * 1000) as nat } else { 0 }
}

/// A duration as "seconds.millisecondss", the milliseconds padded to three
/// digits with zeros.
pub open spec fn duration_text(as_millis: u128, as_secs: u64) -> Seq<char> {
    decimal(as_secs as nat) + "."@ + pad_zeros(decimal(sub_second_millis(as_millis, as_secs)), 3) + "s"@
}

/// Generate a string from a duration, given as its whole milliseconds and
/// its whole seconds, in format "x.xxxs"
pub fn ms_to_string(as_millis: u128, as_secs: u64) -> (r: String)
    requires
        as_secs * 1000 <= u64::MAX,
    ensures
        r@ == duration_text(as_millis, as_secs),
{
    let whole: u64 = as_secs * 1000;
    let rest: u128 = if as_millis >= whole as u128 { as_millis - whole as u128 } else { 0 };
    let mut r = String::new();
    push_decimal(&mut r, as_secs as u128);
    r.append(".");
    let millis = decimal_zero_padded(rest, 3);
    r.append(millis.as_str());
    r.append("s");
    assert(r@ =~= duration_text(as_millis, as_secs));
    r
}

/// The totals line: open and closed counts, and how long the scan took.
pub open spec fn scan_time_text(result: &AllPortStatus, as_millis: u128, as_secs: u64, monochrome: bool) -> Seq<char> {
    color_text(Color::Green, monochrome) + decimal(result.open_count() as nat) + " open"@
        + color_text(Color::Reset, monochrome) + ", "@ + color_text(Color::Red, monochrome)
        + decimal(result.closed as nat) + " closed"@ + color_text(Color::Reset, monochrome)
        + ", took "@ + duration_text(as_millis, as_secs)
}

/// Generate the string for scan_time function
pub fn get_scan_time(result: &AllPortStatus, as_millis: u128, as_secs: u64, monochrome: bool) -> (r: String)
    requires
        as_secs * 1000 <= u64::MAX,
    ensures
        r@ == scan_time_text(result, as_millis, as_secs, monochrome),
{
    let mut r = String::new();
    r.append(Color::Green.code(monochrome));
    push_decimal(&mut r, result.open_len() as u128);
    r.append(" open");
    r.append(Color::Reset.code(monochrome));
    r.append(", ");
    r.append(Color::Red.code(monochrome));
    push_decimal(&mut r, result.closed as u128);
    r.append(" closed");
    r.append(Color::Reset.code(monochrome));
    r.append(", took ");
    let took = ms_to_string(as_millis, as_secs);
    r.append(took.as_str());
    assert(r@ =~= scan_time_text(result, as_millis, as_secs, monochrome));
    r
}

/// The heading of the results table.
pub open spec fn table_header(monochrome: bool) -> Seq<char> {
    color_text(Color::Underline, monochrome) + "PORT"@ + color_text(Color::Reset, monochrome) + "  "@
        + color_text(Color::Underline, monochrome) + "DESCRIPTION"@ + color_text(Color::Reset, monochrome)
}

/// The colour of the row at `index`: every other row, from the first, is
/// yellow.
pub open spec fn row_color(index: int) -> Color {
    if index % 2 == 0 { Color::Yellow } else { Color::Reset }
}

/// One row of the results table: the port, left-aligned in five columns,
/// then its description.
pub open spec fn table_row(index: int, port: u16, monochrome: bool) -> Seq<char> {
    "\n"@ + color_text(row_color(index), monochrome) + pad_spaces(decimal(port as nat), 5) + " "@
        + port_description(port) + color_text(Color::Reset, monochrome)
}

/// The rows of the results table for `ports`, in order.
pub open spec fn table_rows(ports: Seq<u16>, monochrome: bool) -> Seq<char>
    decreases ports.len(),
{
    if ports.len() == 0 {
        Seq::empty()
    } else {
        table_rows(ports.drop_last(), monochrome) + table_row(ports.len() - 1, ports.last(), monochrome)
    }
}

/// The results table of the open ports `open`, in ascending order.
pub open spec fn table_text(open: Set<u16>, monochrome: bool) -> Seq<char> {
    table_header(monochrome) + table_rows(ascending(open), monochrome)
}

/// Generate the results table, when the scan is complete and found open
/// ports.
pub fn get_table(result: &AllPortStatus, monochrome: bool) -> (r: Option<String>)
    requires
        !result.open@.is_empty() ==> result.counts_fit(),
    ensures
        r is Some <==> !result.open@.is_empty() && result.is_complete(),
        r matches Some(t) ==> t@ == table_text(result.open@, monochrome),
{
    match result.get_all_open() {
        Some(ports) => {
            let ghost asc = ascending(result.open@);
            let mut output = String::new();
            output.append(Color::Underline.code(monochrome));
            output.append("PORT");
            output.append(Color::Reset.code(monochrome));
            output.append("  ");
            output.append(Color::Underline.code(monochrome));
            output.append("DESCRIPTION");
            output.append(Color::Reset.code(monochrome));
            proof {
                assert(output@ =~= table_header(monochrome) + table_rows(asc.take(0), monochrome));
            }
            let mut index: usize = 0;
            while index < ports.len()
                invariant
                    index <= ports@.len(),
                    ports@.len() == asc.len(),
                    forall|i: int| 0 <= i < ports@.len() ==> (#[trigger] ports@[i]).0 == asc[i]
                        && ports@[i].1@ == port_description(asc[i]),
                    output@ == table_header(monochrome) + table_rows(asc.take(index as int), monochrome),
                decreases ports@.len() - index,
            {
                let (port, desc) = ports[index];
                let color = if index % 2 == 0 { Color::Yellow } else { Color::Reset };
                let ghost before = output@;
                output.append("\n");
                output.append(color.code(monochrome));
                let padded = decimal_space_padded(port as u128, 5);
                output.append(padded.as_str());
                output.append(" ");
                output.append(desc);
                output.append(Color::Reset.code(monochrome));
                proof {
                    assert(asc.take(index + 1).drop_last() =~= asc.take(index as int));
                    assert(output@ =~= before + table_row(index as int, port, monochrome));
                }
                index = index + 1;
            }
            proof {
                assert(asc.take(index as int) =~= asc);
            }
            Some(output)
        },
        None => None,
    }
}

/// The addresses of `ips` other than `ip`, in order.
pub open spec fn other_ips(ips: Seq<Seq<char>>, ip: Seq<char>) -> Seq<Seq<char>>
    decreases ips.len(),
{
    if ips.len() == 0 {
        Seq::empty()
    } else {
        let others = other_ips(ips.drop_last(), ip);
        if ips.last() != ip { others.push(ips.last()) } else { others }
    }
}

/// Leaving out addresses never gives more of them.
proof fn lemma_other_ips_len(ips: Seq<Seq<char>>, ip: Seq<char>)
    ensures
        other_ips(ips, ip).len() <= ips.len(),
    decreases ips.len(),
{
    if ips.len() > 0 {
        lemma_other_ips_len(ips.drop_last(), ip);
    }
}

/// The line of other addresses never lists the scanned one, and lists
/// every other address of the host.
pub proof fn lemma_other_ips_exclude_scanned(ips: Seq<Seq<char>>, ip: Seq<char>)
    ensures
        forall|k: int| 0 <= k < other_ips(ips, ip).len() ==> #[trigger] other_ips(ips, ip)[k] != ip,
        forall|a: Seq<char>| #[trigger] ips.contains(a) && a != ip ==> other_ips(ips, ip).contains(a),
    decreases ips.len(),
{
    if ips.len() > 0 {
        let init = ips.drop_last();
        lemma_other_ips_exclude_scanned(init, ip);
        let o = other_ips(init, ip);
        assert forall|a: Seq<char>| #[trigger] ips.contains(a) && a != ip implies other_ips(ips, ip).contains(a) by {
            let k = choose|k: int| 0 <= k < ips.len() && ips[k] == a;
            if k == ips.len() - 1 {
                assert(other_ips(ips, ip)[o.len() as int] == a);
            } else {
                assert(init[k] == a);
                assert(init.contains(a));
                let j = choose|j: int| 0 <= j < o.len() && o[j] == a;
                assert(other_ips(ips, ip)[j] == a);
            }
        }
        assert forall|k: int| 0 <= k < other_ips(ips, ip).len() implies #[trigger] other_ips(ips, ip)[k] != ip by {
            if k < o.len() {
                assert(other_ips(ips, ip)[k] == o[k]);
            }
        }
    }
}

/// `parts` joined with `sep` between each two.
pub open spec fn joined(parts: Seq<Seq<char>>, sep: Seq<char>) -> Seq<char>
    decreases parts.len(),
{
    if parts.len() == 0 {
        Seq::empty()
    } else if parts.len() == 1 {
        parts[0]
    } else {
        joined(parts.drop_last(), sep) + sep + parts.last()
    }
}

/// The texts of a list of strings.
pub open spec fn texts(v: Seq<String>) -> Seq<Seq<char>> {
    v.map_values(|s: String| s@)
}

/// Generate the line of any additional IP addresses: when the host has more
/// than one address (`ips`), "Other IPs: " and those other than the scanned
/// one (`ip`), separated by commas.
pub fn get_extra_ips(ips: &Vec<String>, ip: &String) -> (r: Option<String>)
    ensures
        ips@.len() <= 1 ==> r is None,
        ips@.len() > 1 ==> (r matches Some(line)
            && line@ == "Other IPs: "@ + joined(other_ips(texts(ips@), ip@), ", "@)),
{
    if ips.len() > 1 {
        let mut output = String::new();
        output.append("Other IPs: ");
        let mut count: usize = 0;
        let mut i: usize = 0;
        proof {
            assert(texts(ips@).take(0) =~= Seq::<Seq<char>>::empty());
        }
        while i < ips.len()
            invariant
                i <= ips@.len(),
                count == other_ips(texts(ips@).take(i as int), ip@).len(),
                count <= i,
                output@ == "Other IPs: "@ + joined(other_ips(texts(ips@).take(i as int), ip@), ", "@),
            decreases ips@.len() - i,
        {
            let ghost before = other_ips(texts(ips@).take(i as int), ip@);
            proof {
                assert(texts(ips@).take(i + 1).drop_last() =~= texts(ips@).take(i as int));
            }
            if !(ips[i] == *ip) {
                if count > 0 {
                    output.append(", ");
                }
                output.append(ips[i].as_str());
                proof {
                    lemma_other_ips_len(texts(ips@).take(i as int), ip@);
                    let after = before.push(ips@[i as int]@);
                    assert(after.drop_last() =~= before);
                    if before.len() == 0 {
                        assert(joined(before, ", "@) =~= Seq::<char>::empty());
                    }
                }
                count = count + 1;
            }
            i = i + 1;
        }
        proof {
            assert(texts(ips@).take(i as int) =~= texts(ips@));
        }
        Some(output)
    } else {
        None
    }
}

/// The ports of a range as text: one port alone, or "start-end".
pub open spec fn ports_text(start: u16, end: u16) -> Seq<char> {
    if start == end {
        decimal(start as nat)
    } else {
        decimal(start as nat) + "-"@ + decimal(end as nat)
    }
}

/// The target shown beside the name: the address scanned with a colon, the
/// ports, and the name given when it is not the address itself.
pub open spec fn host_ip_text(address: Seq<char>, ip: Seq<char>, start: u16, end: u16) -> (Seq<char>, Seq<char>, Seq<char>) {
    if address == ip {
        (address + ":"@, ports_text(start, end), Seq::empty())
    } else {
        (ip + ":"@, ports_text(start, end), address)
    }
}

/// Generate information about the host/address/IP that will be scanned, to
/// be shown on two lines along with the application name; `ip` is the text
/// of the address scanned.
pub fn get_host_ip(cli_args: &CliArgs, ip: &String) -> (r: (String, String, String))
    ensures
        (r.0@, r.1@, r.2@) == host_ip_text(cli_args.address@, ip@, cli_args.port_range.start, cli_args.port_range.end),
{
    let start = cli_args.port_range.start;
    let end = cli_args.port_range.end;
    let mut ports = String::new();
    push_decimal(&mut ports, start as u128);
    if start != end {
        ports.append("-");
        push_decimal(&mut ports, end as u128);
    }
    proof {
        reveal_strlit("");
    }
    if cli_args.address == *ip {
        let mut first = cli_args.address.clone();
        first.append(":");
        (first, ports, String::new())
    } else {
        let mut first = ip.clone();
        first.append(":");
        (first, ports, cli_args.address.clone())
    }
}

/// The application name, in a small figlet font, beside the target.
pub open spec fn banner_text(target: (Seq<char>, Seq<char>, Seq<char>), monochrome: bool) -> Seq<char> {
    let (ip, ports, address) = target;
    let bar = repeat('\u{2550}', (if address.len() >= ip.len() + ports.len() { address.len() } else { ip.len() + ports.len() }) + 20);
    color_text(Color::Magenta, monochrome) + bar + "\n|__|  /\\  \\  / |\\ |"@ + color_text(Color::Reset, monochrome)
        + " "@ + ip + color_text(Color::Yellow, monochrome) + ports + color_text(Color::Reset, monochrome)
        + "\n"@ + color_text(Color::Magenta, monochrome) + "|  | /--\\  \\/  | \\|"@
        + color_text(Color::Reset, monochrome) + " "@ + address + "\n"@
        + color_text(Color::Magenta, monochrome) + bar + color_text(Color::Reset, monochrome)
}

/// The name of the application, using a small figlet font, beside the
/// target of the scan; `ip` is the text of the address scanned.
pub fn name_and_target_text(cli_args: &CliArgs, ip: &String, monochrome: bool) -> (r: String)
    requires
        cli_args.address@.len() + ip@.len() + 32 <= usize::MAX,
    ensures
        r@ == banner_text(
            host_ip_text(cli_args.address@, ip@, cli_args.port_range.start, cli_args.port_range.end),
            monochrome,
        ),
{
    let (ip_text, ports, address) = get_host_ip(cli_args, ip);
    let ghost target = (ip_text@, ports@, address@);
    let address_len = address.as_str().unicode_len();
    let ip_len = ip_text.as_str().unicode_len();
    let ports_len = ports.as_str().unicode_len();
    proof {
        crate::text::lemma_decimal_len(cli_args.port_range.start as nat);
        crate::text::lemma_decimal_len(cli_args.port_range.end as nat);
    }
    proof {
        reveal_strlit(":");
        reveal_strlit("-");
    }
    assert(ports@.len() <= 11);
    assert(ip_text@.len() + address@.len() <= cli_args.address@.len() + ip@.len() + 1);
    let widest = if address_len >= ip_len + ports_len { address_len } else { ip_len + ports_len };
    let mut bar = String::new();
    push_repeat(&mut bar, '\u{2550}', widest + 20);
    let mut r = String::new();
    r.append(Color::Magenta.code(monochrome));
    r.append(bar.as_str());
    r.append("\n|__|  /\\  \\  / |\\ |");
    r.append(Color::Reset.code(monochrome));
    r.append(" ");
    r.append(ip_text.as_str());
    r.append(Color::Yellow.code(monochrome));
    r.append(ports.as_str());
    r.append(Color::Reset.code(monochrome));
    r.append("\n");
    r.append(Color::Magenta.code(monochrome));
    r.append("|  | /--\\  \\/  | \\|");
    r.append(Color::Reset.code(monochrome));
    r.append(" ");
    r.append(address.as_str());
    r.append("\n");
    r.append(Color::Magenta.code(monochrome));
    r.append(bar.as_str());
    r.append(Color::Reset.code(monochrome));
    assert(r@ =~= banner_text(target, monochrome));
    r
}

/// The message for an address that cannot be scanned.
pub fn address_error_text(cli_args: &CliArgs, monochrome: bool) -> (r: String)
    ensures
        r@ == color_text(Color::Red, monochrome) + "Error with address: "@ + color_text(Color::Reset, monochrome)
            + cli_args.address@,
{
    let mut r = String::new();
    r.append(Color::Red.code(monochrome));
    r.append("Error with address: ");
    r.append(Color::Reset.code(monochrome));
    r.append(cli_args.address.as_str());
    r
}

/// The frames of the spinner's animation.
pub open spec fn frame_char(index: int) -> char {
    if index == 0 { '\u{280b}' }
    else if index == 1 { '\u{2819}' }
    else if index == 2 { '\u{2839}' }
    else if index == 3 { '\u{2838}' }
    else if index == 4 { '\u{283c}' }
    else if index == 5 { '\u{2834}' }
    else if index == 6 { '\u{2826}' }
    else if index == 7 { '\u{2827}' }
    else if index == 8 { '\u{2807}' }
    else { '\u{280f}' }
}

/// The number of frames of the spinner's animation.
pub const FRAME_COUNT: usize = 10;

/// The spinner's frame at `index`, in red, followed by "scanning".
pub fn spinner_frame(index: usize, monochrome: bool) -> (r: String)
    requires
        index < FRAME_COUNT,
    ensures
        r@ == color_text(Color::Red, monochrome) + seq![frame_char(index as int)]
            + color_text(Color::Reset, monochrome) + " scanning "@,
{
    let frame = match index {
        0 => '\u{280b}',
        1 => '\u{2819}',
        2 => '\u{2839}',
        3 => '\u{2838}',
        4 => '\u{283c}',
        5 => '\u{2834}',
        6 => '\u{2826}',
        7 => '\u{2827}',
        8 => '\u{2807}',
        _ => '\u{280f}',
    };
    let mut r = String::new();
    r.append(Color::Red.code(monochrome));
    r.push(frame);
    r.append(Color::Reset.code(monochrome));
    r.append(" scanning ");
    assert(r@ =~= color_text(Color::Red, monochrome) + seq![frame_char(index as int)]
        + color_text(Color::Reset, monochrome) + " scanning "@);
    r
}

/// `s` holds no escape character: it selects no colour.
pub open spec fn is_plain(s: Seq<char>) -> bool {
    forall|i: int| 0 <= i < s.len() ==> s[i] != '\x1b'
}

/// Text is plain exactly when both its pieces are.
pub broadcast proof fn lemma_plain_concat(a: Seq<char>, b: Seq<char>)
    ensures
        #[trigger] is_plain(a + b) <==> is_plain(a) && is_plain(b),
{
    assert forall|i: int| 0 <= i < a.len() implies (a + b)[i] == a[i] by {}
    assert forall|i: int| 0 <= i < b.len() implies (a + b)[a.len() + i] == b[i] by {}
    if is_plain(a) && is_plain(b) {
        assert forall|i: int| 0 <= i < (a + b).len() implies (a + b)[i] != '\x1b' by {
            if i >= a.len() {
                assert((a + b)[i] == b[i - a.len()]);
            }
        }
    }
    if is_plain(a + b) {
        assert forall|i: int| 0 <= i < b.len() implies b[i] != '\x1b' by {
            assert((a + b)[a.len() + i] == b[i]);
        }
    }
}

/// Numbers are plain.
proof fn lemma_decimal_plain(n: nat)
    ensures
        is_plain(decimal(n)),
    decreases n,
{
    if n >= 10 {
        lemma_decimal_plain(n / 10);
        let d = decimal(n / 10);
        assert forall|i: int| 0 <= i < decimal(n).len() implies decimal(n)[i] != '\x1b' by {
            if i < d.len() {
                assert(decimal(n)[i] == d[i]);
            }
        }
    }
}

/// Padded text is plain when the text is, and the padding is plain.
proof fn lemma_padding_plain(s: Seq<char>, width: nat)
    requires
        is_plain(s),
    ensures
        is_plain(pad_zeros(s, width)),
        is_plain(pad_spaces(s, width)),
{
    broadcast use lemma_plain_concat;

    if s.len() < width {
        let n = (width - s.len()) as nat;
        assert(is_plain(repeat('0', n)));
        assert(is_plain(repeat(' ', n)));
    }
}

/// In monochrome mode the totals line selects no colour.
pub proof fn lemma_monochrome_scan_time_is_plain(result: &AllPortStatus, as_millis: u128, as_secs: u64)
    ensures
        is_plain(scan_time_text(result, as_millis, as_secs, true)),
{
    reveal_strlit(" open");
    reveal_strlit(", ");
    reveal_strlit(" closed");
    reveal_strlit(", took ");
    reveal_strlit(".");
    reveal_strlit("s");
    lemma_decimal_plain(result.open_count() as nat);
    lemma_decimal_plain(result.closed as nat);
    lemma_decimal_plain(as_secs as nat);
    lemma_decimal_plain(sub_second_millis(as_millis, as_secs));
    lemma_padding_plain(decimal(sub_second_millis(as_millis, as_secs)), 3);
    broadcast use lemma_plain_concat;

    assert(is_plain(Seq::<char>::empty()));
    assert(is_plain(" open"@));
    assert(is_plain(", "@));
    assert(is_plain(" closed"@));
    assert(is_plain(", took "@));
    assert(is_plain("."@));
    assert(is_plain("s"@));
}

/// In monochrome mode the results table selects no colour, as long as no
/// port description holds an escape character.
pub proof fn lemma_monochrome_table_is_plain(open: Set<u16>)
    requires
        forall|p: u16| is_plain(#[trigger] port_description(p)),
    ensures
        is_plain(table_text(open, true)),
{
    reveal_strlit("PORT");
    reveal_strlit("DESCRIPTION");
    reveal_strlit("  ");
    broadcast use lemma_plain_concat;

    assert(is_plain(Seq::<char>::empty()));
    assert(is_plain("PORT"@));
    assert(is_plain("  "@));
    assert(is_plain("DESCRIPTION"@));
    lemma_table_rows_plain(ascending(open));
}

/// The monochrome rows are plain when the descriptions are.
proof fn lemma_table_rows_plain(ports: Seq<u16>)
    requires
        forall|p: u16| is_plain(#[trigger] port_description(p)),
    ensures
        is_plain(table_rows(ports, true)),
    decreases ports.len(),
{
    if ports.len() > 0 {
        lemma_table_rows_plain(ports.drop_last());
        let p = ports.last();
        reveal_strlit("\n");
        reveal_strlit(" ");
        broadcast use lemma_plain_concat;

        assert(is_plain(Seq::<char>::empty()));
        assert(is_plain("\n"@));
        assert(is_plain(" "@));
        assert(is_plain(port_description(p)));
        lemma_decimal_plain(p as nat);
        lemma_padding_plain(decimal(p as nat), 5);
    }
}

} // verus!
