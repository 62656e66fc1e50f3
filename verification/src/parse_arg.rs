//! Command-line arguments: which address, which ports, how many at once.
use vstd::prelude::*;

use crate::text::{chars_of, decimal, digit_char, first_index, first_index_of, is_first_index, lemma_first_index};

verus! {

/// The highest port scanned when the range gives no (valid) upper bound.
pub const PORT_UPPER_DEFAULT: u16 = 1000;

/// The arguments as given on the command line.
#[derive(Debug, Clone)]
pub struct Cli {
    /// The target to scan, accepts IP address or domain name
    pub address: String,
    /// Scan all ports, conflicts with "-p".
    pub all_ports: bool,
    /// Maximum number of concurrent requests.
    pub concurrent: u16,
    /// Ports to scan, accepts a range, or single port.
    pub ports: String,
    /// Monochrome mode - remove text colouring
    pub monochrome: bool,
    /// Maximum number of retry attempts per port.
    pub retry: u8,
    /// Timeout for port scanning in milliseconds.
    pub timeout: u32,
    /// Enable IPv6 scanning. Defaults to IPv4.
    pub ip_v6: bool,
}

/// The ports to scan: the bounds of the range, and the ports that are
/// still to be handed out.
#[derive(Debug, Clone)]
pub struct PortRange {
    pub start: u16,
    pub end: u16,
    pub ports: Vec<u16>,
}

/// The arguments the scanner works with.
#[derive(Debug, Clone)]
pub struct CliArgs {
    pub address: String,
    pub concurrent: u16,
    pub ip6: bool,
    pub monochrome: bool,
    pub port_range: PortRange,
    pub retry: u8,
    pub timeout: u32,
}

/// An ASCII decimal digit.
pub open spec fn is_digit(c: char) -> bool {
    '0' <= c <= '9'
}

/// The value of a sequence of decimal digits, most significant first.
pub open spec fn digits_value(s: Seq<char>) -> nat
    decreases s.len(),
{
    if s.len() == 0 {
        0
    } else {
        digits_value(s.drop_last()) * 10 + ((s.last() as int) - ('0' as int)) as nat
    }
}

/// The digits of a number text: the text without a leading `+`, unless the
/// `+` stands alone.
pub open spec fn number_digits(s: Seq<char>) -> Seq<char> {
    if s.len() > 1 && s[0] == '+' { s.drop_first() } else { s }
}

/// Every character of `s` is a decimal digit.
pub open spec fn all_digits(s: Seq<char>) -> bool {
    forall|i: int| 0 <= i < s.len() ==> is_digit(#[trigger] s[i])
}

/// What `str::parse::<u16>` gives for the characters `s`: an optional `+`
/// sign (not on its own), then at least one decimal digit, and nothing
/// else, with a value that fits in 16 bits.
pub open spec fn parse_u16(s: Seq<char>) -> Option<u16> {
    let digits = number_digits(s);
    if digits.len() > 0 && all_digits(digits) && digits_value(digits) <= u16::MAX {
        Some(digits_value(digits) as u16)
    } else {
        None
    }
}

/// The bounds of the range that the `-a` flag and the `-p` text select.
///
/// All ports with `-a`. Otherwise, a text with a hyphen is split at its
/// first hyphen: a bound that does not parse becomes 1 (lower) or
/// `PORT_UPPER_DEFAULT` (upper), and the two are put in order. A text with
/// no hyphen is a single port, or the default range when it does not parse.
pub open spec fn range_bounds(all_ports: bool, ports: Seq<char>) -> (u16, u16) {
    if all_ports {
        (1, u16::MAX)
    } else if ports.contains('-') {
        let k = first_index(ports, '-');
        let start = match parse_u16(ports.take(k)) { Some(v) => v, None => 1 };
        let end = match parse_u16(ports.skip(k + 1)) { Some(v) => v, None => PORT_UPPER_DEFAULT };
        if start <= end { (start, end) } else { (end, start) }
    } else {
        match parse_u16(ports) {
            Some(v) => (v, v),
            None => (1, PORT_UPPER_DEFAULT),
        }
    }
}

/// The ports from `start` to `end`, both included, in ascending order.
pub open spec fn port_seq(start: u16, end: u16) -> Seq<u16> {
    Seq::new((end - start + 1) as nat, |i: int| (start + i) as u16)
}

/// A larger prefix of digits never has a smaller value.
proof fn lemma_digits_value_mono(s: Seq<char>, i: int, j: int)
    requires
        0 <= i <= j <= s.len(),
        forall|k: int| 0 <= k < s.len() ==> is_digit(#[trigger] s[k]),
    ensures
        digits_value(s.take(i)) <= digits_value(s.take(j)),
    decreases j - i,
{
    if i < j {
        lemma_digits_value_mono(s, i, j - 1);
        assert(s.take(j).drop_last() =~= s.take(j - 1));
        assert(is_digit(s[j - 1]));
    }
}

/// Parse a port number as `str::parse::<u16>` does.
pub fn parse_port(s: &[char]) -> (r: Option<u16>)
    ensures
        r == parse_u16(s@),
{
    let n = s.len();
    let from: usize = if n > 1 && s[0] == '+' { 1 } else { 0 };
    let ghost digits = number_digits(s@);
    assert(digits =~= s@.skip(from as int));
    if from == n {
        return None;
    }
    let mut value: u32 = 0;
    let mut i: usize = from;
    while i < n
        invariant
            from <= i <= n,
            n == s@.len(),
            digits =~= s@.skip(from as int),
            digits == number_digits(s@),
            forall|k: int| 0 <= k < i - from ==> is_digit(#[trigger] digits[k]),
            value as nat == digits_value(digits.take(i - from)),
            value <= u16::MAX,
        decreases n - i,
    {
        let c = s[i];
        if !('0' <= c && c <= '9') {
            proof {
                assert(digits[i - from] == c);
                assert(!is_digit(digits[i - from]));
                assert(!all_digits(digits));
            }
            return None;
        }
        let d: u32 = (c as u32) - ('0' as u32);
        assert(digits.take(i - from + 1).drop_last() =~= digits.take(i - from));
        let next: u32 = value * 10 + d;
        if next > 65535 {
            proof {
                assert(digits_value(digits.take(i - from + 1)) == next);
                if all_digits(digits) {
                    lemma_digits_value_mono(digits, i - from + 1, digits.len() as int);
                    assert(digits.take(digits.len() as int) =~= digits);
                    assert(digits_value(digits) > u16::MAX);
                }
            }
            return None;
        }
        value = next;
        i = i + 1;
    }
    assert(digits.take(n - from) =~= digits);
    Some(value as u16)
}

/// All the ports from `start` to `end`, both included, in ascending order.
pub fn ports_between(start: u16, end: u16) -> (v: Vec<u16>)
    requires
        start <= end,
    ensures
        v@ == port_seq(start, end),
{
    let mut v: Vec<u16> = Vec::new();
    let mut p: u16 = start;
    loop
        invariant_except_break
            start <= p <= end,
            v@ == port_seq(start, end).take(p - start),
        ensures
            v@ == port_seq(start, end),
        decreases end - p,
    {
        v.push(p);
        if p == end {
            assert(v@ =~= port_seq(start, end));
            break;
        }
        p = p + 1;
        assert(v@ =~= port_seq(start, end).take(p - start));
    }
    v
}

impl PortRange {
    /// The range selected by the `-a` flag and the `-p` text of `cli`,
    /// with every port of it, from the lowest to the highest.
    pub fn from(cli: &Cli) -> (r: PortRange)
        ensures
            (r.start, r.end) == range_bounds(cli.all_ports, cli.ports@),
            r.start <= r.end,
            r.ports@ == port_seq(r.start, r.end),
    {
        let (start, end) = if cli.all_ports {
            (1u16, u16::MAX)
        } else {
            let text = chars_of(cli.ports.as_str());
            match first_index_of(&text, '-') {
                Some(k) => {
                    proof {
                        assert(text@.contains('-'));
                    }
                    let start = match parse_port(&text.as_slice()[0..k]) { Some(v) => v, None => 1 };
                    let end = match parse_port(&text.as_slice()[k + 1..text.len()]) {
                        Some(v) => v,
                        None => PORT_UPPER_DEFAULT,
                    };
                    if start <= end { (start, end) } else { (end, start) }
                },
                None => match parse_port(text.as_slice()) {
                    Some(v) => (v, v),
                    None => (1, PORT_UPPER_DEFAULT),
                },
            }
        };
        PortRange { start, end, ports: ports_between(start, end) }
    }
}

/// Reverse the order of the ports in `v`.
pub fn reverse_ports(v: &mut Vec<u16>)
    ensures
        final(v)@ == old(v)@.reverse(),
{
    let n = v.len();
    let mut i: usize = 0;
    while i < n / 2
        invariant
            n == v@.len(),
            n == old(v)@.len(),
            i <= n / 2,
            forall|k: int| 0 <= k < i ==> v@[k] == old(v)@[n - 1 - k],
            forall|k: int| 0 <= k < i ==> v@[n - 1 - k] == old(v)@[k],
            forall|k: int| i <= k < n - i ==> v@[k] == old(v)@[k],
        decreases n / 2 - i,
    {
        let a = v[i];
        let b = v[n - 1 - i];
        v.set(i, b);
        v.set(n - 1 - i, a);
        i = i + 1;
    }
    assert(v@ =~= old(v)@.reverse());
}

/// `u16::try_from(n).unwrap_or_default()`: `n` when it fits, else zero.
pub open spec fn u16_or_zero(n: nat) -> u16 {
    if n <= u16::MAX { n as u16 } else { 0 }
}

impl CliArgs {
    /// The arguments the scanner works with, from those given on the
    /// command line.
    pub fn new(cli: Cli) -> (r: CliArgs)
        ensures
            r.address == cli.address,
            r.concurrent == cli.concurrent,
            r.ip6 == cli.ip_v6,
            r.monochrome == cli.monochrome,
            r.retry == cli.retry,
            r.timeout == cli.timeout,
            (r.port_range.start, r.port_range.end) == range_bounds(cli.all_ports, cli.ports@),
            r.port_range.ports@ == port_seq(r.port_range.start, r.port_range.end),
    {
        let port_range = PortRange::from(&cli);
        CliArgs {
            address: cli.address,
            concurrent: cli.concurrent,
            ip6: cli.ip_v6,
            monochrome: cli.monochrome,
            port_range,
            retry: cli.retry,
            timeout: cli.timeout,
        }
    }

    /// Get the total number of ports to scan (zero when that does not fit
    /// in 16 bits).
    pub fn ports_len(&self) -> (r: u16)
        ensures
            r == u16_or_zero(self.port_range.ports@.len()),
    {
        let n = self.port_range.ports.len();
        if n <= 65535 {
            n as u16
        } else {
            0
        }
    }

    /// Remove the last entry from the ports vec
    pub fn ports_pop(&mut self) -> (r: Option<u16>)
        ensures
            old(self).port_range.ports@.len() == 0 ==> r is None && final(self).port_range.ports@ == old(self).port_range.ports@,
            old(self).port_range.ports@.len() > 0 ==> {
                &&& r == Some(old(self).port_range.ports@.last())
                &&& final(self).port_range.ports@ == old(self).port_range.ports@.drop_last()
            },
            final(self).address == old(self).address,
            final(self).concurrent == old(self).concurrent,
            final(self).ip6 == old(self).ip6,
            final(self).monochrome == old(self).monochrome,
            final(self).retry == old(self).retry,
            final(self).timeout == old(self).timeout,
            final(self).port_range.start == old(self).port_range.start,
            final(self).port_range.end == old(self).port_range.end,
    {
        self.port_range.ports.pop()
    }

    /// Split the ports vec at `concurrent`: when there are at least
    /// `concurrent` ports, the first `concurrent` stay, the rest are
    /// returned, and both are reversed, so that popping hands them out in
    /// order; otherwise all ports stay, reversed so that they too pop off in
    /// order, and nothing is returned.
    pub fn ports_split(&mut self) -> (r: Vec<u16>)
        ensures
            old(self).port_range.ports@.len() >= old(self).concurrent ==> {
                &&& final(self).port_range.ports@
                    == old(self).port_range.ports@.take(old(self).concurrent as int).reverse()
                &&& r@ == old(self).port_range.ports@.skip(old(self).concurrent as int).reverse()
            },
            old(self).port_range.ports@.len() < old(self).concurrent ==> {
                &&& final(self).port_range.ports@ == old(self).port_range.ports@.reverse()
                &&& r@ == Seq::<u16>::empty()
            },
            final(self).port_range.ports@.reverse() + r@.reverse() == old(self).port_range.ports@,
            final(self).address == old(self).address,
            final(self).concurrent == old(self).concurrent,
            final(self).ip6 == old(self).ip6,
            final(self).monochrome == old(self).monochrome,
            final(self).retry == old(self).retry,
            final(self).timeout == old(self).timeout,
            final(self).port_range.start == old(self).port_range.start,
            final(self).port_range.end == old(self).port_range.end,
    {
        let concurrent = self.concurrent as usize;
        if self.port_range.ports.len() >= concurrent {
            let mut output = self.port_range.ports.split_off(concurrent);
            reverse_ports(&mut output);
            reverse_ports(&mut self.port_range.ports);
            proof {
                assert(old(self).port_range.ports@.subrange(0, concurrent as int)
                    =~= old(self).port_range.ports@.take(concurrent as int));
                assert(old(self).port_range.ports@.subrange(concurrent as int, old(self).port_range.ports@.len() as int)
                    =~= old(self).port_range.ports@.skip(concurrent as int));
                assert(self.port_range.ports@.reverse() =~= old(self).port_range.ports@.take(concurrent as int));
                assert(output@.reverse() =~= old(self).port_range.ports@.skip(concurrent as int));
                assert(self.port_range.ports@.reverse() + output@.reverse() =~= old(self).port_range.ports@);
            }
            output
        } else {
            reverse_ports(&mut self.port_range.ports);
            proof {
                assert(old(self).port_range.ports@.reverse().reverse() =~= old(self).port_range.ports@);
                assert(Seq::<u16>::empty().reverse() =~= Seq::<u16>::empty());
                assert(self.port_range.ports@.reverse() + Seq::<u16>::empty()
                    =~= old(self).port_range.ports@);
            }
            Vec::new()
        }
    }

    /// Arguments for a scan of the `ports` text with `concurrent` requests
    /// at once, as the command line would give them with no other flag than
    /// the address and `-6`: one retry, a timeout of 1250 ms, colours on.
    /// Without an address the target is the loopback address of the chosen
    /// protocol.
    pub fn test_new(ports: String, concurrent: u16, address: Option<&str>, ip_v6: bool) -> (r: CliArgs)
        ensures
            r.address@ == match address {
                Some(a) => a@,
                None => if ip_v6 { "::1"@ } else { "127.0.0.1"@ },
            },
            r.concurrent == concurrent,
            r.ip6 == ip_v6,
            !r.monochrome,
            r.retry == 1,
            r.timeout == 1250,
            (r.port_range.start, r.port_range.end) == range_bounds(false, ports@),
            r.port_range.ports@ == port_seq(r.port_range.start, r.port_range.end),
    {
        let adr = if ip_v6 && address.is_none() { "::1" } else { "127.0.0.1" };
        let chosen: &str = match address {
            Some(a) => a,
            None => adr,
        };
        let cli = Cli {
            address: chosen.to_owned(),
            all_ports: false,
            concurrent,
            ip_v6,
            monochrome: false,
            ports,
            retry: 1,
            timeout: 1250,
        };
        CliArgs::new(cli)
    }
}

/// A decimal digit's character is a digit, and stands for its value.
proof fn lemma_digit_char(d: int)
    requires
        0 <= d < 10,
    ensures
        is_digit(digit_char(d)),
        (digit_char(d) as int) - ('0' as int) == d,
{
}

/// The decimal text of a number is all digits, and its value is the number.
pub proof fn lemma_decimal_digits(n: nat)
    ensures
        decimal(n).len() > 0,
        all_digits(decimal(n)),
        digits_value(decimal(n)) == n,
    decreases n,
{
    if n < 10 {
        lemma_digit_char(n as int);
        let s = decimal(n);
        assert(s.drop_last() =~= Seq::<char>::empty());
        assert(digits_value(s.drop_last()) == 0);
    } else {
        lemma_decimal_digits(n / 10);
        lemma_digit_char((n % 10) as int);
        let s = decimal(n);
        assert(s.drop_last() =~= decimal(n / 10));
        assert forall|i: int| 0 <= i < s.len() implies is_digit(#[trigger] s[i]) by {
            if i < s.len() - 1 {
                assert(s[i] == decimal(n / 10)[i]);
            }
        }
    }
}

/// A port number written in decimal parses back to that number.
pub proof fn lemma_parse_decimal(port: u16)
    ensures
        parse_u16(decimal(port as nat)) == Some(port),
{
    lemma_decimal_digits(port as nat);
    let s = decimal(port as nat);
    assert(is_digit(s[0]));
    assert(number_digits(s) == s);
}

/// With `-a`, every port is scanned, whatever the `-p` text says (clap
/// always fills it, with "-1000" by default): the range is 1 to 65535 and
/// holds all 65535 ports, each once, in order.
pub proof fn lemma_all_ports_ignores_text(ports: Seq<char>)
    ensures
        range_bounds(true, ports) == (1u16, u16::MAX),
        port_seq(1, u16::MAX).len() == 65535,
        forall|i: int| 0 <= i < 65535 ==> #[trigger] port_seq(1, u16::MAX)[i] == i + 1,
{
}

/// A range text "a-b" (split at its first hyphen) takes each bound on its
/// own: the lower from `a` (1 when it does not parse), the upper from `b`
/// (`PORT_UPPER_DEFAULT` when it does not parse), whatever the other one
/// is; the two are then put in order.
pub proof fn lemma_range_bounds_independent(a: Seq<char>, b: Seq<char>)
    requires
        !a.contains('-'),
    ensures
        ({
            let lo = match parse_u16(a) { Some(v) => v, None => 1u16 };
            let hi = match parse_u16(b) { Some(v) => v, None => PORT_UPPER_DEFAULT };
            range_bounds(false, a + seq!['-'] + b) == if lo <= hi { (lo, hi) } else { (hi, lo) }
        }),
{
    let t = a + seq!['-'] + b;
    let k = a.len() as int;
    assert(t[k] == '-');
    assert forall|j: int| 0 <= j < k implies t[j] != '-' by {
        assert(t[j] == a[j]);
        if t[j] == '-' {
            assert(a.contains('-'));
        }
    }
    assert(is_first_index(t, '-', k));
    lemma_first_index(t, '-', k);
    assert(t.contains('-'));
    assert(t.take(k) =~= a);
    assert(t.skip(k + 1) =~= b);
}

/// "-n" scans from 1 to n (as the default "-1000" scans 1 to 1000), "n-m"
/// scans between the two in either order, and "n" scans port n alone.
pub proof fn lemma_range_text_examples(n: u16, m: u16)
    ensures
        n >= 1 ==> range_bounds(false, seq!['-'] + decimal(n as nat)) == (1u16, n),
        range_bounds(false, decimal(n as nat) + seq!['-'] + decimal(m as nat))
            == if n <= m { (n, m) } else { (m, n) },
        range_bounds(false, decimal(n as nat)) == (n, n),
{
    lemma_parse_decimal(n);
    lemma_parse_decimal(m);
    lemma_decimal_digits(n as nat);
    let e = Seq::<char>::empty();
    assert(!e.contains('-'));
    assert(e + seq!['-'] + decimal(n as nat) =~= seq!['-'] + decimal(n as nat));
    assert(number_digits(e) == e);
    assert(parse_u16(e) is None);
    lemma_range_bounds_independent(e, decimal(n as nat));
    let d = decimal(n as nat);
    assert(!d.contains('-')) by {
        if d.contains('-') {
            let j = choose|j: int| 0 <= j < d.len() && d[j] == '-';
            assert(is_digit(d[j]));
        }
    }
    lemma_range_bounds_independent(d, decimal(m as nat));
}

} // verus!
