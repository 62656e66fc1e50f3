//! Tallying scan results, and the decisions of the two scanning passes.
use vstd::prelude::*;

use std::collections::HashSet;
use vstd::std_specs::iter::IteratorSpec;

use crate::parse_arg::{u16_or_zero, CliArgs};
use crate::port_descriptions::{description_map, unknown, PortDescriptions, TCP_PORTS};

verus! {

broadcast use vstd::std_specs::hash::group_hash_axioms;

/// The outcome of scanning one port.
#[derive(Debug, Clone, Copy, Hash, PartialEq, Eq)]
pub struct PortMessage {
    pub open: bool,
    pub port: u16,
}

/// The results of a scan so far: the open ports, how many ports are
/// closed, and how many ports the scan covers.
#[derive(Debug)]
pub struct AllPortStatus {
    pub open: HashSet<u16>,
    pub number_ports: u16,
    pub port_max: u16,
    pub closed: u16,
}

/// The open ports and the count of closed ports after recording `msgs`, in
/// order, on top of `open` and `closed`.
pub open spec fn tally(open: Set<u16>, closed: int, msgs: Seq<PortMessage>) -> (Set<u16>, int)
    decreases msgs.len(),
{
    if msgs.len() == 0 {
        (open, closed)
    } else {
        let (o, c) = tally(open, closed, msgs.drop_last());
        let m = msgs.last();
        if m.open { (o.insert(m.port), c) } else { (o, c + 1) }
    }
}

/// The description that the table of well-known TCP ports gives a port.
pub open spec fn port_description(port: u16) -> Seq<char> {
    let m = description_map(TCP_PORTS@);
    if m.contains_key(port) { m[port] } else { unknown() }
}

/// The state of the first pass right after it started.
pub struct FirstPass {
    /// The results so far (none yet).
    pub status: AllPortStatus,
    /// The ports held back, spawned one at a time as results come in: the
    /// next is the last.
    pub to_spawn: Vec<u16>,
    /// The ports to spawn at once, in this order.
    pub spawn_now: Vec<u16>,
}

/// What the first pass does after recording one result.
#[derive(Debug, Clone, Copy, PartialEq, Eq)]
pub struct FirstPassAction {
    /// Every port has reported: stop receiving.
    pub close: bool,
    /// The next held-back port to spawn, if any is left.
    pub spawn: Option<u16>,
}

/// One step of scanning a port.
#[derive(Debug, Clone, Copy, PartialEq, Eq)]
pub enum ScanStep {
    /// Send this result.
    Report(PortMessage),
    /// Try again, with this many retries left after the attempt.
    Retry(u8),
}

/// What follows an attempt to connect to `port` with `counter` retries
/// left: an open port is reported at once; a closed one is tried again
/// while retries are left, and reported closed when none are.
pub open spec fn next_scan_step(counter: u8, port: u16, connected: bool) -> ScanStep {
    if connected {
        ScanStep::Report(PortMessage { open: true, port })
    } else if counter > 0 {
        ScanStep::Retry((counter - 1) as u8)
    } else {
        ScanStep::Report(PortMessage { open: false, port })
    }
}

/// The result reported for `port` when the attempts to connect turn out as
/// `attempts` says, starting with `counter` retries; `None` when the
/// attempts run out before a result.
pub open spec fn scan_report(counter: u8, port: u16, attempts: Seq<bool>) -> Option<PortMessage>
    decreases attempts.len(),
{
    if attempts.len() == 0 {
        None
    } else {
        match next_scan_step(counter, port, attempts[0]) {
            ScanStep::Report(m) => Some(m),
            ScanStep::Retry(c) => scan_report(c, port, attempts.drop_first()),
        }
    }
}

/// A port is reported open exactly when one of its first `counter + 1`
/// attempts connects, and it is always reported once that many attempts
/// have been made: a scan with `retry` retries makes at most `retry + 1`
/// attempts.
pub proof fn lemma_scan_reports_open_iff_an_attempt_connects(counter: u8, port: u16, attempts: Seq<bool>)
    requires
        attempts.len() > counter,
    ensures
        scan_report(counter, port, attempts) == Some(PortMessage {
            open: exists|i: int| 0 <= i <= counter && #[trigger] attempts[i],
            port,
        }),
    decreases counter,
{
    if !attempts[0] && counter > 0 {
        let rest = attempts.drop_first();
        lemma_scan_reports_open_iff_an_attempt_connects((counter - 1) as u8, port, rest);
        if exists|i: int| 0 <= i <= counter - 1 && #[trigger] rest[i] {
            let i = choose|i: int| 0 <= i <= counter - 1 && #[trigger] rest[i];
            assert(attempts[i + 1]);
        }
        if exists|i: int| 0 <= i <= counter && #[trigger] attempts[i] {
            let i = choose|i: int| 0 <= i <= counter && #[trigger] attempts[i];
            assert(rest[i - 1]);
        }
    }
}

/// The ports that `msgs` report open.
pub open spec fn reported_open(msgs: Seq<PortMessage>) -> Set<u16> {
    Set::new(|p: u16| exists|i: int| 0 <= i < msgs.len() && msgs[i].open && msgs[i].port == p)
}

/// How many of `msgs` report a closed port.
pub open spec fn closed_reports(msgs: Seq<PortMessage>) -> nat
    decreases msgs.len(),
{
    if msgs.len() == 0 {
        0
    } else {
        closed_reports(msgs.drop_last()) + if msgs.last().open { 0nat } else { 1nat }
    }
}

/// Recording results adds exactly the ports reported open to the open
/// ports, and one to the closed count for each result of a closed port,
/// whatever the order.
pub proof fn lemma_tally_exact(open: Set<u16>, closed: int, msgs: Seq<PortMessage>)
    ensures
        tally(open, closed, msgs).0 == open + reported_open(msgs),
        tally(open, closed, msgs).1 == closed + closed_reports(msgs),
    decreases msgs.len(),
{
    if msgs.len() > 0 {
        let init = msgs.drop_last();
        lemma_tally_exact(open, closed, init);
        let m = msgs.last();
        assert forall|p: u16| #[trigger] reported_open(msgs).contains(p) <==> reported_open(init).contains(p)
            || (m.open && m.port == p) by {
            if reported_open(msgs).contains(p) {
                let i = choose|i: int| 0 <= i < msgs.len() && msgs[i].open && msgs[i].port == p;
                if i < init.len() {
                    assert(init[i] == msgs[i]);
                }
            }
            if reported_open(init).contains(p) {
                let i = choose|i: int| 0 <= i < init.len() && init[i].open && init[i].port == p;
                assert(msgs[i] == init[i]);
            }
            if m.open && m.port == p {
                assert(msgs[msgs.len() - 1] == m);
            }
        }
        assert(tally(open, closed, msgs).0 =~= open + reported_open(msgs));
    } else {
        assert(reported_open(msgs) =~= Set::<u16>::empty());
        assert(open + Set::<u16>::empty() =~= open);
    }
}

/// Recording, in order, one result for each port that the first pass found
/// open (each port once): the ports open after it are exactly those the
/// first pass found open and the new results report open; and the number
/// of ports counted stays the same: open and closed together are as many
/// as before.
pub proof fn lemma_second_pass_keeps_count(first_open: Set<u16>, first_closed: int, msgs: Seq<PortMessage>)
    requires
        msgs.map_values(|m: PortMessage| m.port).no_duplicates(),
        msgs.map_values(|m: PortMessage| m.port).to_set() == first_open,
    ensures
        tally(Set::empty(), first_closed, msgs).0 == first_open.intersect(reported_open(msgs)),
        tally(Set::empty(), first_closed, msgs).1 == first_closed + closed_reports(msgs),
        tally(Set::empty(), first_closed, msgs).0.subset_of(first_open),
        tally(Set::empty(), first_closed, msgs).0.finite(),
        tally(Set::empty(), first_closed, msgs).0.len() + tally(Set::empty(), first_closed, msgs).1
            == first_open.len() + first_closed,
{
    let ports = msgs.map_values(|m: PortMessage| m.port);
    lemma_tally_distinct(first_closed, msgs);
    ports.unique_seq_to_set();
    lemma_tally_exact(Set::empty(), first_closed, msgs);
    assert forall|p: u16| #[trigger] reported_open(msgs).contains(p) implies first_open.contains(p) by {
        let i = choose|i: int| 0 <= i < msgs.len() && msgs[i].open && msgs[i].port == p;
        assert(ports[i] == p);
    }
    assert(Set::<u16>::empty() + reported_open(msgs) =~= first_open.intersect(reported_open(msgs)));
}

/// When every port of the range reports once, in any order, the first pass
/// counts each port once: the open ports are exactly those reported open,
/// the closed count is the number reported closed, and open and closed
/// together are as many as the ports of the range.
pub proof fn lemma_first_pass_counts_every_port(ports: Seq<u16>, msgs: Seq<PortMessage>)
    requires
        ports.no_duplicates(),
        msgs.map_values(|m: PortMessage| m.port).no_duplicates(),
        msgs.map_values(|m: PortMessage| m.port).to_set() == ports.to_set(),
    ensures
        tally(Set::empty(), 0, msgs).0 == reported_open(msgs),
        tally(Set::empty(), 0, msgs).1 == closed_reports(msgs),
        tally(Set::empty(), 0, msgs).0.subset_of(ports.to_set()),
        tally(Set::empty(), 0, msgs).0.len() + tally(Set::empty(), 0, msgs).1 == ports.len(),
{
    lemma_second_pass_keeps_count(ports.to_set(), 0, msgs);
    ports.unique_seq_to_set();
    lemma_tally_exact(Set::empty(), 0, msgs);
    assert(Set::<u16>::empty() + reported_open(msgs) =~= reported_open(msgs));
}

/// Recording results for distinct ports on an empty start: the open ports
/// are among those of the results, and each result counts once.
proof fn lemma_tally_distinct(closed: int, msgs: Seq<PortMessage>)
    requires
        msgs.map_values(|m: PortMessage| m.port).no_duplicates(),
    ensures
        tally(Set::empty(), closed, msgs).0.subset_of(msgs.map_values(|m: PortMessage| m.port).to_set()),
        tally(Set::empty(), closed, msgs).0.finite(),
        tally(Set::empty(), closed, msgs).0.len() + tally(Set::empty(), closed, msgs).1 == closed + msgs.len(),
    decreases msgs.len(),
{
    if msgs.len() > 0 {
        let init = msgs.drop_last();
        let ports = msgs.map_values(|m: PortMessage| m.port);
        let init_ports = init.map_values(|m: PortMessage| m.port);
        assert(init_ports =~= ports.drop_last());
        assert(init_ports.no_duplicates());
        lemma_tally_distinct(closed, init);
        let (o, c) = tally(Set::empty(), closed, init);
        let m = msgs.last();
        assert(ports[msgs.len() - 1] == m.port);
        if o.contains(m.port) {
            assert(init_ports.to_set().contains(m.port));
            let k = choose|k: int| 0 <= k < init_ports.len() && init_ports[k] == m.port;
            assert(ports[k] == ports[msgs.len() - 1]);
        }
        assert forall|p: u16| #[trigger] init_ports.to_set().contains(p) implies ports.to_set().contains(p) by {
            let k = choose|k: int| 0 <= k < init_ports.len() && init_ports[k] == p;
            assert(ports[k] == p);
        }
        assert(ports.to_set().contains(m.port));
    }
}

/// The ports of `set`, each once, in the order the set is walked.
fn open_list(set: &HashSet<u16>) -> (r: Vec<u16>)
    ensures
        r@.to_set() == set@,
        r@.no_duplicates(),
{
    let mut ports: Vec<u16> = Vec::new();
    let keys_iter = set.iter();
    let ghost keys = keys_iter.remaining().unref();
    for port in it: keys_iter
        invariant
            ports@.len() == it.index(),
            forall|i: int| 0 <= i < ports@.len() ==> ports@[i] == *it.seq()[i],
            it.seq().unref() == keys,
            keys.to_set() == set@,
            keys.no_duplicates(),
    {
        ports.push(*port);
    }
    proof {
        assert(ports@ =~= keys);
    }
    ports
}

impl Clone for AllPortStatus {
    /// A copy with the same open ports and counts.
    fn clone(&self) -> (r: Self)
        ensures
            r.open@ == self.open@,
            r.number_ports == self.number_ports,
            r.port_max == self.port_max,
            r.closed == self.closed,
    {
        let ports = open_list(&self.open);
        let mut open: HashSet<u16> = HashSet::with_capacity(ports.len());
        let mut i: usize = 0;
        while i < ports.len()
            invariant
                i <= ports@.len(),
                open@ == ports@.take(i as int).to_set(),
            decreases ports@.len() - i,
        {
            open.insert(ports[i]);
            proof {
                assert(ports@.take(i + 1) =~= ports@.take(i as int).push(ports@[i as int]));
                let a = ports@.take(i as int);
                let b = ports@.take(i + 1);
                assert forall|x: u16| b.contains(x) <==> a.contains(x) || x == ports@[i as int] by {
                    if b.contains(x) {
                        let k = choose|k: int| 0 <= k < b.len() && b[k] == x;
                        if k < i {
                            assert(a[k] == x);
                        }
                    }
                    if a.contains(x) {
                        let k = choose|k: int| 0 <= k < a.len() && a[k] == x;
                        assert(b[k] == x);
                    }
                    if x == ports@[i as int] {
                        assert(b[i as int] == x);
                    }
                }
                assert(b.to_set() =~= a.to_set().insert(ports@[i as int]));
            }
            i = i + 1;
        }
        proof {
            assert(ports@.take(i as int) =~= ports@);
        }
        AllPortStatus { open, number_ports: self.number_ports, port_max: self.port_max, closed: self.closed }
    }
}

/// The ports below `bound` that are in `open`, in ascending order.
pub open spec fn ports_below(open: Set<u16>, bound: nat) -> Seq<u16>
    decreases bound,
{
    if bound == 0 {
        Seq::empty()
    } else {
        let lower = ports_below(open, (bound - 1) as nat);
        if open.contains((bound - 1) as u16) { lower.push((bound - 1) as u16) } else { lower }
    }
}

/// The ports in `open`, in ascending order.
pub open spec fn ascending(open: Set<u16>) -> Seq<u16> {
    ports_below(open, 65536)
}

/// `table` pairs each port of `ports` with its description, in order.
pub open spec fn is_described(table: Seq<(u16, &str)>, ports: Seq<u16>) -> bool {
    &&& table.len() == ports.len()
    &&& forall|i: int| 0 <= i < table.len() ==> (#[trigger] table[i]).0 == ports[i]
        && table[i].1@ == port_description(ports[i])
}

/// The ports below `bound` in `open` are listed in strictly ascending
/// order, and each port of `open` below `bound` is listed.
pub proof fn lemma_ports_below(open: Set<u16>, bound: nat)
    requires
        bound <= 65536,
    ensures
        forall|i: int, j: int| 0 <= i < j < ports_below(open, bound).len()
            ==> ports_below(open, bound)[i] < ports_below(open, bound)[j],
        forall|i: int| 0 <= i < ports_below(open, bound).len()
            ==> #[trigger] open.contains(ports_below(open, bound)[i]) && ports_below(open, bound)[i] < bound,
        forall|p: u16| p < bound && #[trigger] open.contains(p) ==> ports_below(open, bound).contains(p),
    decreases bound,
{
    if bound > 0 {
        let lower = ports_below(open, (bound - 1) as nat);
        lemma_ports_below(open, (bound - 1) as nat);
        let p = (bound - 1) as u16;
        assert(p as int == bound - 1);
        if open.contains(p) {
            let s = lower.push(p);
            assert(s[lower.len() as int] == p);
            assert forall|i: int, j: int| 0 <= i < j < s.len() implies s[i] < s[j] by {
                if j == lower.len() {
                    assert(open.contains(lower[i]));
                    assert(lower[i] < bound - 1);
                } else {
                    assert(s[i] == lower[i] && s[j] == lower[j]);
                }
            }
            assert forall|i: int| 0 <= i < s.len() implies #[trigger] open.contains(s[i]) && s[i] < bound by {
                if i < lower.len() {
                    assert(s[i] == lower[i]);
                    assert(open.contains(lower[i]));
                }
            }
            assert forall|q: u16| q < bound && #[trigger] open.contains(q) implies lower.push(p).contains(q) by {
                if q == p {
                    assert(lower.push(p)[lower.len() as int] == q);
                } else {
                    assert(lower.contains(q));
                    let k = choose|k: int| 0 <= k < lower.len() && lower[k] == q;
                    assert(lower.push(p)[k] == q);
                }
            }
        }
    }
}

/// The open ports in ascending order are sorted, and list each open port
/// exactly once.
pub proof fn lemma_ascending(open: Set<u16>)
    ensures
        forall|i: int, j: int| 0 <= i < j < ascending(open).len() ==> ascending(open)[i] < ascending(open)[j],
        forall|p: u16| ascending(open).contains(p) <==> open.contains(p),
        ascending(open).no_duplicates(),
{
    lemma_ports_below(open, 65536);
    assert forall|p: u16| ascending(open).contains(p) implies open.contains(p) by {
        let k = choose|k: int| 0 <= k < ascending(open).len() && ascending(open)[k] == p;
        assert(open.contains(ascending(open)[k]));
    }
}

impl AllPortStatus {
    /// The number of open ports, as `open_len` gives it.
    pub open spec fn open_count(&self) -> u16 {
        u16_or_zero(self.open@.len())
    }

    /// Every port of the scan has been recorded, as `complete` tells it.
    pub open spec fn is_complete(&self) -> bool {
        self.open_count() + self.closed == self.number_ports
    }

    /// `complete` can add the two counts without overflow.
    pub open spec fn counts_fit(&self) -> bool {
        self.open_count() + self.closed <= u16::MAX
    }

    /// The status at the start of a scan of the ports of `cli_args`.
    fn new(cli_args: &CliArgs) -> (r: AllPortStatus)
        ensures
            r.open@ == Set::<u16>::empty(),
            r.closed == 0,
            r.number_ports == u16_or_zero(cli_args.port_range.ports@.len()),
            r.port_max == cli_args.port_range.end,
    {
        AllPortStatus {
            closed: 0,
            number_ports: cli_args.ports_len(),
            open: HashSet::with_capacity(64),
            port_max: cli_args.port_range.end,
        }
    }

    /// The status for a second pass over the results of `value`: the same
    /// counts and range, with no open port yet.
    pub fn from(value: &Self) -> (r: AllPortStatus)
        ensures
            r.open@ == Set::<u16>::empty(),
            r.closed == value.closed,
            r.number_ports == value.number_ports,
            r.port_max == value.port_max,
    {
        AllPortStatus {
            closed: value.closed,
            number_ports: value.number_ports,
            open: HashSet::with_capacity(value.open_len() as usize),
            port_max: value.port_max,
        }
    }

    /// Get total number of open ports (zero when that does not fit in 16
    /// bits).
    pub fn open_len(&self) -> (r: u16)
        ensures
            r == self.open_count(),
    {
        let n = self.open.len();
        if n <= 65535 {
            n as u16
        } else {
            0
        }
    }

    /// Return true if all ports have been scanned
    pub fn complete(&self) -> (r: bool)
        requires
            self.counts_fit(),
        ensures
            r == self.is_complete(),
    {
        self.open_len() + self.closed == self.number_ports
    }

    /// Insert new port details, if open store the port, if closed just
    /// increase the counter.
    pub fn insert(&mut self, message: PortMessage)
        requires
            !message.open ==> old(self).closed < u16::MAX,
        ensures
            (final(self).open@, final(self).closed as int) == tally(
                old(self).open@,
                old(self).closed as int,
                seq![message],
            ),
            message.open ==> final(self).open@ == old(self).open@.insert(message.port)
                && final(self).closed == old(self).closed,
            !message.open ==> final(self).open@ == old(self).open@
                && final(self).closed == old(self).closed + 1,
            final(self).number_ports == old(self).number_ports,
            final(self).port_max == old(self).port_max,
    {
        proof {
            assert(seq![message].drop_last() =~= Seq::<PortMessage>::empty());
            assert(tally(old(self).open@, old(self).closed as int, Seq::<PortMessage>::empty())
                == (old(self).open@, old(self).closed as int));
        }
        if message.open {
            self.open.insert(message.port);
        } else {
            self.closed = self.closed + 1;
        }
    }

    /// The open ports with their descriptions, in ascending order of port,
    /// once the scan is complete and found at least one open port.
    pub fn get_all_open(&self) -> (r: Option<Vec<(u16, &'static str)>>)
        requires
            !self.open@.is_empty() ==> self.counts_fit(),
        ensures
            r is Some <==> !self.open@.is_empty() && self.is_complete(),
            r matches Some(v) ==> is_described(v@, ascending(self.open@)),
    {
        if !self.open.is_empty() && self.complete() {
            let port_details = PortDescriptions::new();
            let mut output: Vec<(u16, &'static str)> = Vec::new();
            let mut next: u32 = 0;
            while next <= 65535
                invariant
                    next <= 65536,
                    port_details@ == description_map(TCP_PORTS@),
                    is_described(output@, ports_below(self.open@, next as nat)),
                decreases 65536 - next,
            {
                let port = next as u16;
                let ghost lower = ports_below(self.open@, next as nat);
                if self.open.contains(&port) {
                    output.push((port, port_details.get(port)));
                    assert(ports_below(self.open@, next as nat + 1) == lower.push(port));
                }
                next = next + 1;
            }
            Some(output)
        } else {
            None
        }
    }

    /// Start the first pass over the ports of `cli_args`: split the ports
    /// at the number of concurrent requests, then take out every port kept
    /// in `cli_args` to spawn it at once. Either way every port of the range
    /// is handed out once and in order: first those to spawn at once, then
    /// the held-back ones, popped from the end.
    pub fn first_pass_start(cli_args: &mut CliArgs) -> (r: FirstPass)
        ensures
            r.status.open@ == Set::<u16>::empty(),
            r.status.closed == 0,
            r.status.number_ports == u16_or_zero(old(cli_args).port_range.ports@.len()),
            r.status.port_max == old(cli_args).port_range.end,
            old(cli_args).port_range.ports@.len() >= old(cli_args).concurrent ==> {
                &&& r.spawn_now@ == old(cli_args).port_range.ports@.take(old(cli_args).concurrent as int)
                &&& r.to_spawn@ == old(cli_args).port_range.ports@.skip(old(cli_args).concurrent as int).reverse()
            },
            old(cli_args).port_range.ports@.len() < old(cli_args).concurrent ==> {
                &&& r.spawn_now@ == old(cli_args).port_range.ports@
                &&& r.to_spawn@ == Seq::<u16>::empty()
            },
            r.spawn_now@ + r.to_spawn@.reverse() == old(cli_args).port_range.ports@,
            final(cli_args).port_range.ports@ == Seq::<u16>::empty(),
            final(cli_args).address == old(cli_args).address,
            final(cli_args).concurrent == old(cli_args).concurrent,
            final(cli_args).ip6 == old(cli_args).ip6,
            final(cli_args).monochrome == old(cli_args).monochrome,
            final(cli_args).retry == old(cli_args).retry,
            final(cli_args).timeout == old(cli_args).timeout,
            final(cli_args).port_range.start == old(cli_args).port_range.start,
            final(cli_args).port_range.end == old(cli_args).port_range.end,
    {
        let status = Self::new(cli_args);
        let to_spawn = cli_args.ports_split();
        let ghost kept = cli_args.port_range.ports@;
        let ghost start_args = *cli_args;
        let mut spawn_now: Vec<u16> = Vec::new();
        proof {
            assert(spawn_now@ + cli_args.port_range.ports@.reverse() =~= kept.reverse());
        }
        loop
            invariant_except_break
                spawn_now@ + cli_args.port_range.ports@.reverse() == kept.reverse(),
                cli_args.address == start_args.address,
                cli_args.concurrent == start_args.concurrent,
                cli_args.ip6 == start_args.ip6,
                cli_args.monochrome == start_args.monochrome,
                cli_args.retry == start_args.retry,
                cli_args.timeout == start_args.timeout,
                cli_args.port_range.start == start_args.port_range.start,
                cli_args.port_range.end == start_args.port_range.end,
            ensures
                spawn_now@ == kept.reverse(),
                cli_args.port_range.ports@ == Seq::<u16>::empty(),
                cli_args.address == start_args.address,
                cli_args.concurrent == start_args.concurrent,
                cli_args.ip6 == start_args.ip6,
                cli_args.monochrome == start_args.monochrome,
                cli_args.retry == start_args.retry,
                cli_args.timeout == start_args.timeout,
                cli_args.port_range.start == start_args.port_range.start,
                cli_args.port_range.end == start_args.port_range.end,
            decreases cli_args.port_range.ports@.len(),
        {
            let ghost before = cli_args.port_range.ports@;
            match cli_args.ports_pop() {
                Some(port) => {
                    spawn_now.push(port);
                    proof {
                        assert(before.reverse() =~= seq![port] + cli_args.port_range.ports@.reverse());
                        assert(spawn_now@ + cli_args.port_range.ports@.reverse()
                            =~= spawn_now@.drop_last() + before.reverse());
                    }
                },
                None => {
                    proof {
                        assert(cli_args.port_range.ports@.reverse() =~= Seq::<u16>::empty());
                        assert(spawn_now@ =~= spawn_now@ + Seq::<u16>::empty());
                    }
                    break;
                },
            }
        }
        proof {
            let ports = old(cli_args).port_range.ports@;
            let c = old(cli_args).concurrent as int;
            let handed = spawn_now@ + to_spawn@.reverse();
            if ports.len() >= c {
                assert(kept.reverse().reverse() =~= kept);
                assert(to_spawn@.reverse() =~= ports.skip(c));
                assert(handed =~= ports);
            } else {
                assert(kept.reverse().reverse() =~= kept);
                assert(handed =~= ports);
            }
        }
        FirstPass { status, to_spawn, spawn_now }
    }

    /// Record one result of the first pass, then tell whether every port
    /// has reported (time to stop receiving) and which held-back port, if
    /// any, to spawn next.
    pub fn first_pass_step(&mut self, to_spawn: &mut Vec<u16>, message: PortMessage) -> (r: FirstPassAction)
        requires
            !message.open ==> old(self).closed < u16::MAX,
            u16_or_zero(tally(old(self).open@, old(self).closed as int, seq![message]).0.len())
                + tally(old(self).open@, old(self).closed as int, seq![message]).1 <= u16::MAX,
        ensures
            (final(self).open@, final(self).closed as int) == tally(
                old(self).open@,
                old(self).closed as int,
                seq![message],
            ),
            final(self).number_ports == old(self).number_ports,
            final(self).port_max == old(self).port_max,
            r.close == final(self).is_complete(),
            old(to_spawn)@.len() == 0 ==> r.spawn is None && final(to_spawn)@ == old(to_spawn)@,
            old(to_spawn)@.len() > 0 ==> r.spawn == Some(old(to_spawn)@.last())
                && final(to_spawn)@ == old(to_spawn)@.drop_last(),
    {
        self.insert(message);
        let close = self.complete();
        let spawn = to_spawn.pop();
        FirstPassAction { close, spawn }
    }

    /// Start the second pass over the results of `first`: the status to
    /// fill, and the ports that `first` found open, each once, to scan
    /// again one after the other.
    pub fn second_pass_start(first: &Self) -> (r: (AllPortStatus, Vec<u16>))
        ensures
            r.0.open@ == Set::<u16>::empty(),
            r.0.closed == first.closed,
            r.0.number_ports == first.number_ports,
            r.0.port_max == first.port_max,
            r.1@.to_set() == first.open@,
            r.1@.no_duplicates(),
    {
        let validated = Self::from(first);
        let ports = open_list(&first.open);
        (validated, ports)
    }

    /// What follows an attempt to connect to `port` with `counter` retries
    /// left: report it open, try again, or report it closed.
    pub fn scan_step(counter: u8, port: u16, connected: bool) -> (r: ScanStep)
        ensures
            r == next_scan_step(counter, port, connected),
    {
        if connected {
            ScanStep::Report(PortMessage { open: true, port })
        } else if counter > 0 {
            ScanStep::Retry(counter - 1)
        } else {
            ScanStep::Report(PortMessage { open: false, port })
        }
    }

    /// Whether the scan needs a second pass: the first found open ports.
    pub fn needs_second_pass(&self) -> (r: bool)
        ensures
            r == (self.open_count() > 0),
    {
        self.open_len() > 0
    }

    /// A status with the given parts.
    pub fn test_new(open: HashSet<u16>, number_ports: u16, port_max: u16, closed: u16) -> (r: AllPortStatus)
        ensures
            r.open@ == open@,
            r.number_ports == number_ports,
            r.port_max == port_max,
            r.closed == closed,
    {
        AllPortStatus { open, number_ports, port_max, closed }
    }
}

} // verus!
