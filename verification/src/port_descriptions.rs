//! Descriptions of TCP ports, read from a table of "name,port" lines.
use vstd::prelude::*;

use std::collections::HashMap;

use crate::parse_arg::{lemma_parse_decimal, parse_port, parse_u16};
use crate::text::{chars_of, decimal, first_index, first_index_of, is_first_index, lemma_first_index};
use vstd::string::*;

verus! {

broadcast use vstd::std_specs::hash::group_hash_axioms;

/// The service names of well-known TCP ports, one "name,port" line each,
/// named as in the IANA service name registry, except port 43, shown as
/// "whois".
pub const TCP_PORTS: &'static str = "\
tcpmux,1\n\
echo,7\n\
discard,9\n\
systat,11\n\
daytime,13\n\
qotd,17\n\
chargen,19\n\
ftp-data,20\n\
ftp,21\n\
ssh,22\n\
telnet,23\n\
smtp,25\n\
time,37\n\
whois,43\n\
tacacs,49\n\
domain,53\n\
gopher,70\n\
finger,79\n\
http,80\n\
kerberos,88\n\
pop3,110\n\
sunrpc,111\n\
auth,113\n\
nntp,119\n\
ntp,123\n\
epmap,135\n\
netbios-ns,137\n\
netbios-dgm,138\n\
netbios-ssn,139\n\
imap,143\n\
snmp,161\n\
snmptrap,162\n\
bgp,179\n\
irc,194\n\
ldap,389\n\
https,443\n\
microsoft-ds,445\n\
kpasswd,464\n\
submissions,465\n\
exec,512\n\
login,513\n\
shell,514\n\
printer,515\n\
syslog-conn,601\n\
ipp,631\n\
ldaps,636\n\
rsync,873\n\
ftps-data,989\n\
ftps,990\n\
telnets,992\n\
imaps,993\n\
pop3s,995\n\
socks,1080\n\
openvpn,1194\n\
ms-sql-s,1433\n\
ms-sql-m,1434\n\
ncube-lm,1521\n\
pptp,1723\n\
radius,1812\n\
radius-acct,1813\n\
nfs,2049\n\
eforward,2181\n\
docker,2375\n\
docker-s,2376\n\
mysql,3306\n\
ms-wbt-server,3389\n\
svn,3690\n\
sip,5060\n\
sip-tls,5061\n\
postgresql,5432\n\
amqp,5672\n\
rfb,5900\n\
x11,6000\n\
redis,6379\n\
ircu,6667\n\
http-alt,8080\n\
pcsync-https,8443\n\
XmlIpcRegSvc,9092\n\
wap-wsp,9200\n\
git,9418\n\
memcache,11211\n\
mongodb,27017\n";

/// The pieces of `s` between newline characters, as `str::split('\n')`
/// gives them (always at least one).
pub open spec fn split_newlines(s: Seq<char>) -> Seq<Seq<char>>
    decreases s.len(),
{
    if s.len() == 0 {
        seq![Seq::<char>::empty()]
    } else {
        let pieces = split_newlines(s.drop_last());
        if s.last() == '\n' {
            pieces.push(Seq::<char>::empty())
        } else {
            pieces.update(pieces.len() - 1, pieces.last().push(s.last()))
        }
    }
}

/// A line without the carriage return before its newline.
pub open spec fn strip_cr(line: Seq<char>) -> Seq<char> {
    if line.len() > 0 && line.last() == '\r' { line.drop_last() } else { line }
}

/// The lines of `s`, as `str::lines` gives them: each line ended by a
/// newline loses it (and a carriage return before it), and a last line
/// without a newline counts only when it is not empty.
pub open spec fn lines(s: Seq<char>) -> Seq<Seq<char>> {
    let pieces = split_newlines(s);
    let ended = pieces.drop_last().map_values(|l: Seq<char>| strip_cr(l));
    if pieces.last().len() == 0 { ended } else { ended.push(pieces.last()) }
}

/// The port and name that a "name,port" line gives: the text before the
/// first comma is the name, the text after it must parse as a port.
pub open spec fn line_entry(line: Seq<char>) -> Option<(u16, Seq<char>)> {
    if line.contains(',') {
        let k = first_index(line, ',');
        match parse_u16(line.skip(k + 1)) {
            Some(port) => Some((port, line.take(k))),
            None => None,
        }
    } else {
        None
    }
}

/// The descriptions that the lines give, a later line for a port replacing
/// an earlier one.
pub open spec fn entries_map(lines: Seq<Seq<char>>) -> Map<u16, Seq<char>>
    decreases lines.len(),
{
    if lines.len() == 0 {
        Map::empty()
    } else {
        let m = entries_map(lines.drop_last());
        match line_entry(lines.last()) {
            Some((port, name)) => m.insert(port, name),
            None => m,
        }
    }
}

/// The descriptions that the table `text` gives.
pub open spec fn description_map(text: Seq<char>) -> Map<u16, Seq<char>> {
    entries_map(lines(text))
}

/// The text shown for a port without a description.
pub open spec fn unknown() -> Seq<char> {
    "unknown"@
}

/// Descriptions of a large range of ports, currently TCP only
pub struct PortDescriptions {
    tcp: HashMap<u16, &'static str>,
}

impl View for PortDescriptions {
    type V = Map<u16, Seq<char>>;

    closed spec fn view(&self) -> Map<u16, Seq<char>> {
        self.tcp@.map_values(|v: &str| v@)
    }
}

/// The descriptions a map of names gives.
pub open spec fn names_view(m: Map<u16, &str>) -> Map<u16, Seq<char>> {
    m.map_values(|v: &str| v@)
}

/// Adding one more line adds its entry, if it has one.
proof fn lemma_entries_map_push(done: Seq<Seq<char>>, line: Seq<char>)
    ensures
        entries_map(done.push(line)) == match line_entry(line) {
            Some((port, name)) => entries_map(done).insert(port, name),
            None => entries_map(done),
        },
{
    assert(done.push(line).drop_last() =~= done);
}

/// How the pieces between newlines grow by one character.
proof fn lemma_split_newlines_step(s: Seq<char>, i: int)
    requires
        0 <= i < s.len(),
    ensures
        s[i] == '\n' ==> split_newlines(s.take(i + 1)) == split_newlines(s.take(i)).push(Seq::<char>::empty()),
        s[i] != '\n' ==> split_newlines(s.take(i + 1)) == split_newlines(s.take(i)).update(
            split_newlines(s.take(i)).len() - 1,
            split_newlines(s.take(i)).last().push(s[i]),
        ),
{
    assert(s.take(i + 1).drop_last() =~= s.take(i));
    assert(s.take(i + 1).last() == s[i]);
}

/// Record the entry that the line `text[lo..hi]` gives, if any.
fn add_line(tcp: &mut HashMap<u16, &'static str>, text: &'static str, chars: &Vec<char>, lo: usize, hi: usize)
    requires
        chars@ == text@,
        lo <= hi <= chars@.len(),
    ensures
        names_view(final(tcp)@) == match line_entry(text@.subrange(lo as int, hi as int)) {
            Some((port, name)) => names_view(old(tcp)@).insert(port, name),
            None => names_view(old(tcp)@),
        },
{
    let ghost line = text@.subrange(lo as int, hi as int);
    let slice = &chars.as_slice()[lo..hi];
    assert(slice@ =~= line);
    match first_index_of(slice, ',') {
        Some(k) => {
            let name: &'static str = text.substring_char(lo, lo + k);
            let rest = &chars.as_slice()[lo + k + 1..hi];
            assert(rest@ =~= line.skip(k + 1));
            assert(name@ =~= line.take(k as int));
            match parse_port(rest) {
                Some(port) => {
                    tcp.insert(port, name);
                    assert(names_view(tcp@) =~= names_view(old(tcp)@).insert(port, name@));
                },
                None => {},
            }
        },
        None => {},
    }
}

impl PortDescriptions {
    /// Read a table of "name,port" lines: each line whose text after the
    /// first comma is a port number describes that port with the text
    /// before the comma; a later line for a port replaces an earlier one.
    pub fn from_table(text: &'static str) -> (r: PortDescriptions)
        ensures
            r@ == description_map(text@),
    {
        let chars = chars_of(text);
        let n = chars.len();
        let mut tcp: HashMap<u16, &'static str> = HashMap::new();
        let mut ls: usize = 0;
        let mut i: usize = 0;
        proof {
            assert(names_view(tcp@) =~= Map::<u16, Seq<char>>::empty());
            assert(text@.take(0) =~= Seq::<char>::empty());
            assert(text@.subrange(0, 0) =~= Seq::<char>::empty());
            assert(split_newlines(text@.take(0)).drop_last() =~= Seq::<Seq<char>>::empty());
            assert(split_newlines(text@.take(0)).drop_last().map_values(|l: Seq<char>| strip_cr(l))
                =~= Seq::<Seq<char>>::empty());
        }
        while i < n
            invariant
                ls <= i <= n,
                n == chars@.len(),
                chars@ == text@,
                split_newlines(text@.take(i as int)).len() >= 1,
                split_newlines(text@.take(i as int)).last() == text@.subrange(ls as int, i as int),
                names_view(tcp@) == entries_map(
                    split_newlines(text@.take(i as int)).drop_last().map_values(|l: Seq<char>| strip_cr(l)),
                ),
            decreases n - i,
        {
            let ghost pieces = split_newlines(text@.take(i as int));
            proof {
                lemma_split_newlines_step(text@, i as int);
            }
            if chars[i] == '\n' {
                let le: usize = if i > ls && chars[i - 1] == '\r' { i - 1 } else { i };
                proof {
                    assert(strip_cr(text@.subrange(ls as int, i as int)) =~= text@.subrange(ls as int, le as int));
                    let done = pieces.drop_last().map_values(|l: Seq<char>| strip_cr(l));
                    let next = split_newlines(text@.take(i + 1));
                    assert(next.drop_last() =~= pieces);
                    assert(next.drop_last().map_values(|l: Seq<char>| strip_cr(l))
                        =~= done.push(strip_cr(pieces.last())));
                    lemma_entries_map_push(done, strip_cr(pieces.last()));
                }
                add_line(&mut tcp, text, &chars, ls, le);
                ls = i + 1;
                proof {
                    assert(text@.subrange(ls as int, i + 1) =~= Seq::<char>::empty());
                }
            } else {
                proof {
                    let next = split_newlines(text@.take(i + 1));
                    assert(next.drop_last() =~= pieces.drop_last());
                    assert(text@.subrange(ls as int, i + 1) =~= text@.subrange(ls as int, i as int).push(text@[i as int]));
                }
            }
            i = i + 1;
        }
        proof {
            assert(text@.take(n as int) =~= text@);
        }
        let ghost pieces = split_newlines(text@);
        let ghost done = pieces.drop_last().map_values(|l: Seq<char>| strip_cr(l));
        if ls < n {
            proof {
                lemma_entries_map_push(done, pieces.last());
            }
            add_line(&mut tcp, text, &chars, ls, n);
        } else {
            assert(pieces.last().len() == 0);
        }
        PortDescriptions { tcp }
    }

    /// Build the descriptions from the table of well-known TCP ports.
    pub fn new() -> (r: PortDescriptions)
        ensures
            r@ == description_map(TCP_PORTS@),
    {
        Self::from_table(TCP_PORTS)
    }

    /// Get the description of a given port, "unknown" for ports with no
    /// description.
    pub fn get(&self, port: u16) -> (r: &'static str)
        ensures
            r@ == if self@.contains_key(port) { self@[port] } else { unknown() },
    {
        match self.tcp.get(&port) {
            Some(name) => *name,
            None => "unknown",
        }
    }
}

/// The text of `rows`, each followed by a newline.
pub open spec fn terminated(rows: Seq<Seq<char>>) -> Seq<char>
    decreases rows.len(),
{
    if rows.len() == 0 {
        Seq::empty()
    } else {
        terminated(rows.drop_last()) + rows.last() + seq!['\n']
    }
}

/// `line` can stand as one line of a table: no newline in it, and no
/// carriage return at its end.
pub open spec fn is_single_line(line: Seq<char>) -> bool {
    &&& !line.contains('\n')
    &&& !(line.len() > 0 && line.last() == '\r')
}

/// The pieces between newlines are never none at all.
proof fn lemma_split_newlines_nonempty(s: Seq<char>)
    ensures
        split_newlines(s).len() >= 1,
    decreases s.len(),
{
    if s.len() > 0 {
        lemma_split_newlines_nonempty(s.drop_last());
    }
}

/// Text without a newline only lengthens the last piece.
proof fn lemma_split_newlines_append(s: Seq<char>, t: Seq<char>)
    requires
        !t.contains('\n'),
    ensures
        split_newlines(s + t) == split_newlines(s).update(
            split_newlines(s).len() - 1,
            split_newlines(s).last() + t,
        ),
    decreases t.len(),
{
    lemma_split_newlines_nonempty(s);
    let p = split_newlines(s);
    if t.len() == 0 {
        assert(s + t =~= s);
        assert(p.last() + t =~= p.last());
        assert(p.update(p.len() - 1, p.last()) =~= p);
    } else {
        let u = t.drop_last();
        assert(!u.contains('\n')) by {
            if u.contains('\n') {
                let j = choose|j: int| 0 <= j < u.len() && u[j] == '\n';
                assert(t[j] == '\n');
            }
        }
        lemma_split_newlines_append(s, u);
        assert((s + t).drop_last() =~= s + u);
        assert((s + t).last() == t.last());
        assert(t.last() != '\n') by {
            if t.last() == '\n' {
                assert(t[t.len() - 1] == '\n');
            }
        }
        let q = split_newlines(s + u);
        assert(q.len() == p.len());
        assert(q.last() == p.last() + u);
        assert((p.last() + u).push(t.last()) =~= p.last() + t);
        assert(split_newlines(s + t) == q.update(q.len() - 1, q.last().push((s + t).last())));
        assert(split_newlines(s + t) =~= p.update(p.len() - 1, p.last() + t));
    }
}

/// Newline-ended rows split back into those rows, with one empty piece
/// after the last newline.
proof fn lemma_split_terminated(rows: Seq<Seq<char>>)
    requires
        forall|i: int| 0 <= i < rows.len() ==> !(#[trigger] rows[i]).contains('\n'),
    ensures
        split_newlines(terminated(rows)) == rows.push(Seq::<char>::empty()),
    decreases rows.len(),
{
    if rows.len() == 0 {
        assert(split_newlines(Seq::<char>::empty()) =~= seq![Seq::<char>::empty()]);
        assert(rows.push(Seq::<char>::empty()) =~= seq![Seq::<char>::empty()]);
    } else {
        let init = rows.drop_last();
        let l = rows.last();
        assert(!l.contains('\n')) by {
            assert(l == rows[rows.len() - 1]);
        }
        assert forall|i: int| 0 <= i < init.len() implies !(#[trigger] init[i]).contains('\n') by {
            assert(init[i] == rows[i]);
        }
        lemma_split_terminated(init);
        let base = terminated(init);
        lemma_split_newlines_append(base, l);
        let with_line = base + l;
        assert(Seq::<char>::empty() + l =~= l);
        assert(split_newlines(with_line) =~= init.push(l));
        assert(init.push(l) =~= rows);
        let whole = terminated(rows);
        assert(whole == with_line + seq!['\n']);
        assert(whole.drop_last() =~= with_line);
        assert(whole.last() == '\n');
    }
}

/// The rows of newline-ended rows are those rows: every one of them,
/// the last included, as `str::rows` gives them.
pub proof fn lemma_lines_of_terminated(rows: Seq<Seq<char>>)
    requires
        forall|i: int| 0 <= i < rows.len() ==> is_single_line(#[trigger] rows[i]),
    ensures
        lines(terminated(rows)) == rows,
{
    assert forall|i: int| 0 <= i < rows.len() implies !(#[trigger] rows[i]).contains('\n') by {
        assert(is_single_line(rows[i]));
    }
    lemma_split_terminated(rows);
    let pieces = rows.push(Seq::<char>::empty());
    assert(pieces.drop_last() =~= rows);
    assert forall|i: int| 0 <= i < rows.len() implies strip_cr(#[trigger] rows[i]) == rows[i] by {
        assert(is_single_line(rows[i]));
    }
    assert(rows.map_values(|l: Seq<char>| strip_cr(l)) =~= rows);
}

/// A last line without a newline counts as well, when it is not empty.
pub proof fn lemma_lines_of_unterminated(rows: Seq<Seq<char>>, last: Seq<char>)
    requires
        forall|i: int| 0 <= i < rows.len() ==> is_single_line(#[trigger] rows[i]),
        !last.contains('\n'),
        last.len() > 0,
    ensures
        lines(terminated(rows) + last) == rows.push(last),
{
    assert forall|i: int| 0 <= i < rows.len() implies !(#[trigger] rows[i]).contains('\n') by {
        assert(is_single_line(rows[i]));
    }
    lemma_split_terminated(rows);
    lemma_split_newlines_append(terminated(rows), last);
    let pieces = rows.push(last);
    assert(Seq::<char>::empty() + last =~= last);
    assert(rows.push(Seq::<char>::empty()).update(rows.len() as int, last) =~= pieces);
    assert(pieces.drop_last() =~= rows);
    assert forall|i: int| 0 <= i < rows.len() implies strip_cr(#[trigger] rows[i]) == rows[i] by {
        assert(is_single_line(rows[i]));
    }
    assert(rows.map_values(|l: Seq<char>| strip_cr(l)) =~= rows);
}

/// A "name,port" line, with no comma in the name, describes that port
/// with that name.
pub proof fn lemma_line_entry(name: Seq<char>, port: u16)
    requires
        !name.contains(','),
    ensures
        line_entry(name + seq![','] + decimal(port as nat)) == Some((port, name)),
{
    let line = name + seq![','] + decimal(port as nat);
    let k = name.len() as int;
    assert(line[k] == ',');
    assert forall|j: int| 0 <= j < k implies line[j] != ',' by {
        assert(line[j] == name[j]);
        if line[j] == ',' {
            assert(name.contains(','));
        }
    }
    assert(is_first_index(line, ',', k));
    lemma_first_index(line, ',', k);
    assert(line.contains(','));
    assert(line.take(k) =~= name);
    assert(line.skip(k + 1) =~= decimal(port as nat));
    lemma_parse_decimal(port);
}

/// The description of a port is the one its last line gives: when line
/// `i` describes `port` as `name` and no later line describes `port`, the
/// rows describe `port` as `name`.
pub proof fn lemma_last_line_wins(rows: Seq<Seq<char>>, i: int, port: u16, name: Seq<char>)
    requires
        0 <= i < rows.len(),
        line_entry(rows[i]) == Some((port, name)),
        forall|j: int| i < j < rows.len() ==> !(#[trigger] line_entry(rows[j]) matches Some((q, _)) && q == port),
    ensures
        entries_map(rows).contains_key(port),
        entries_map(rows)[port] == name,
    decreases rows.len(),
{
    let init = rows.drop_last();
    if i < rows.len() - 1 {
        assert forall|j: int| i < j < init.len() implies !(#[trigger] line_entry(init[j]) matches Some((q, _)) && q == port) by {
            assert(init[j] == rows[j]);
            assert(!(line_entry(rows[j]) matches Some((q, _)) && q == port));
        }
        assert(init[i] == rows[i]);
        lemma_last_line_wins(init, i, port, name);
        assert(!(line_entry(rows[rows.len() - 1]) matches Some((q, _)) && q == port));
    }
}

/// Every "name,port" line of a newline-ended table is read, the last one
/// included: a port described by line `i` and by no later line gets that
/// line's name from `from_table` (whose result is `description_map`).
pub proof fn lemma_table_describes_each_line(rows: Seq<Seq<char>>, i: int, name: Seq<char>, port: u16)
    requires
        forall|j: int| 0 <= j < rows.len() ==> is_single_line(#[trigger] rows[j]),
        0 <= i < rows.len(),
        rows[i] == name + seq![','] + decimal(port as nat),
        !name.contains(','),
        forall|j: int| i < j < rows.len() ==> !(#[trigger] line_entry(rows[j]) matches Some((q, _)) && q == port),
    ensures
        description_map(terminated(rows)).contains_key(port),
        description_map(terminated(rows))[port] == name,
{
    lemma_lines_of_terminated(rows);
    lemma_line_entry(name, port);
    lemma_last_line_wins(rows, i, port, name);
}

} // verus!
