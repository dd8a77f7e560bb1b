//! Listening sockets as `ss -tlnp` reports them.
use vstd::prelude::*;
use crate::filter::{dedupe_listeners, dedupe_spec, key_of, keys, dev_port, is_dev_port, process_owned_by_current_user};
use crate::proc::ProcTable;
use crate::project::{context_of, cwd_known, lemma_launch_pid_nearest, project_name, launch_is_readable, launch_readable, launch_pid, lossy_text, resolve_launch_context, utf8_lossy};
use crate::text::{
    chars_of, copy_range, dec, find, find_chars, lex_less, lex_lt, lines, matches_at, occurs_at, pad,
    parse_unsigned, split_lines, views,
    parse_unsigned_range, push_dec, push_padded, push_range, push_str, rfind_char, rfind_char_in,
    run_end, scan_run, starts_with, string_of, DIGIT, NONWS, NOT_QUOTE, WS, int_text, push_int,
};

verus! {

/// One dev server: a TCP port a process of the user listens on.
#[derive(Debug)]
pub struct Listener {
    pub port: u16,
    pub pid: u32,
    pub comm: String,
    pub address: String,
    pub project: String,
    pub cwd: String,
    pub launch_cmd: String,
}

/// A listener as the contracts see it: its text fields as characters.
pub struct ListenerView {
    pub port: u16,
    pub pid: u32,
    pub comm: Seq<char>,
    pub address: Seq<char>,
    pub project: Seq<char>,
    pub cwd: Seq<char>,
    pub launch_cmd: Seq<char>,
}

impl View for Listener {
    type V = ListenerView;

    open spec fn view(&self) -> ListenerView {
        ListenerView {
            port: self.port,
            pid: self.pid,
            comm: self.comm@,
            address: self.address@,
            project: self.project@,
            cwd: self.cwd@,
            launch_cmd: self.launch_cmd@,
        }
    }
}

/// The views of a sequence of listeners.
pub open spec fn lviews(s: Seq<Listener>) -> Seq<ListenerView> {
    s.map_values(|l: Listener| l@)
}

impl Clone for Listener {
    fn clone(&self) -> (r: Self)
        ensures
            r == *self,
    {
        Listener {
            port: self.port,
            pid: self.pid,
            comm: self.comm.clone(),
            address: self.address.clone(),
            project: self.project.clone(),
            cwd: self.cwd.clone(),
            launch_cmd: self.launch_cmd.clone(),
        }
    }
}

/// `:<port:<5>  <comm:<14>  pid <pid:<6>  <address>`.
pub open spec fn compact_text(l: Listener) -> Seq<char> {
    ":"@ + pad(dec(l.port as nat), 5) + "  "@ + pad(l.comm@, 14) + "  pid "@ + pad(
        dec(l.pid as nat),
        6,
    ) + "  "@ + l.address@
}

/// `:<port> · <project> · <comm> · pid <pid>`.
pub open spec fn tooltip_text(l: Listener) -> Seq<char> {
    ":"@ + dec(l.port as nat) + " · "@ + l.project@ + " · "@ + l.comm@ + " · pid "@ + dec(
        l.pid as nat,
    )
}

impl Listener {
    /// One terminal row for the listener.
    pub fn compact_line(&self) -> (r: String)
        ensures
            r@ == compact_text(*self),
    {
        let mut out: Vec<char> = Vec::new();
        push_str(&mut out, ":");
        let mut port: Vec<char> = Vec::new();
        push_dec(&mut port, self.port as u64);
        push_padded(&mut out, &port, 5);
        push_str(&mut out, "  ");
        let comm = chars_of(self.comm.as_str());
        push_padded(&mut out, &comm, 14);
        push_str(&mut out, "  pid ");
        let mut pid: Vec<char> = Vec::new();
        push_dec(&mut pid, self.pid as u64);
        push_padded(&mut out, &pid, 6);
        push_str(&mut out, "  ");
        push_str(&mut out, self.address.as_str());
        assert(out@ =~= compact_text(*self));
        string_of(&out)
    }

    /// The cells of the listener's row in the `status` table: `:<port>`,
    /// process name, pid and address.
    pub fn status_cells(&self) -> (r: Vec<String>)
        ensures
            r@.len() == 4,
            r@[0]@ == ":"@ + dec(self.port as nat),
            r@[1]@ == self.comm@,
            r@[2]@ == dec(self.pid as nat),
            r@[3]@ == self.address@,
    {
        let mut port: Vec<char> = Vec::new();
        push_str(&mut port, ":");
        push_dec(&mut port, self.port as u64);
        let mut pid: Vec<char> = Vec::new();
        push_dec(&mut pid, self.pid as u64);
        let mut cells: Vec<String> = Vec::new();
        cells.push(string_of(&port));
        cells.push(self.comm.clone());
        cells.push(string_of(&pid));
        cells.push(self.address.clone());
        cells
    }

    /// One line of the Waybar tooltip for the listener.
    pub fn tooltip_line(&self) -> (r: String)
        ensures
            r@ == tooltip_text(*self),
    {
        let mut out: Vec<char> = Vec::new();
        push_str(&mut out, ":");
        push_dec(&mut out, self.port as u64);
        push_str(&mut out, " · ");
        push_str(&mut out, self.project.as_str());
        push_str(&mut out, " · ");
        push_str(&mut out, self.comm.as_str());
        push_str(&mut out, " · pid ");
        push_dec(&mut out, self.pid as u64);
        assert(out@ =~= tooltip_text(*self));
        string_of(&out)
    }
}

/// The address and port of a `Local Address:Port` field of `ss`: `*` has
/// none; `[addr]:port` keeps the brackets; otherwise the address is what
/// precedes the last `:`.  The port must read as a `u16`.
pub open spec fn local_address_port(f: Seq<char>) -> Option<(Seq<char>, u16)> {
    if f == "*"@ {
        None
    } else if f.len() > 0 && f[0] == '[' {
        let rest = f.drop_first();
        match find(rest, "]:"@) {
            None => None,
            Some(e) => match parse_unsigned(rest.skip(e + 2), 65535) {
                Some(p) => Some((seq!['['] + rest.take(e) + seq![']'], p as u16)),
                None => None,
            },
        }
    } else {
        match rfind_char(f, ':') {
            None => None,
            Some(i) => match parse_unsigned(f.skip(i + 1), 65535) {
                Some(p) => Some((f.take(i), p as u16)),
                None => None,
            },
        }
    }
}

/// `[addr]:port`, `rest` being what follows the `[`.
fn bracketed_address_port(rest: &Vec<char>) -> (r: Option<(String, u16)>)
    ensures
        match r {
            Some((a, p)) => match find(rest@, "]:"@) {
                None => false,
                Some(e) => parse_unsigned(rest@.skip(e + 2), 65535) == Some(p as nat) && a@
                    == seq!['['] + rest@.take(e) + seq![']'],
            },
            None => match find(rest@, "]:"@) {
                None => true,
                Some(e) => parse_unsigned(rest@.skip(e + 2), 65535) is None,
            },
        },
{
    let pat = chars_of("]:");
    match find_chars(rest, &pat) {
        None => None,
        Some(e) => {
            assert(pat@.len() == 2) by {
                reveal_strlit("]:");
            }
            assert(rest@.subrange(e + 2, rest.len() as int) =~= rest@.skip(e + 2));
            match parse_unsigned_range(rest, e + 2, rest.len(), 65535) {
                None => None,
                Some(p) => {
                    let mut addr: Vec<char> = Vec::new();
                    addr.push('[');
                    push_range(&mut addr, rest, 0, e);
                    addr.push(']');
                    assert(addr@ =~= seq!['['] + rest@.take(e as int) + seq![']']);
                    Some((string_of(&addr), p as u16))
                },
            }
        },
    }
}

/// `addr:port`, split at the last `:`.
fn plain_address_port(v: &Vec<char>) -> (r: Option<(String, u16)>)
    ensures
        match r {
            Some((a, p)) => match rfind_char(v@, ':') {
                None => false,
                Some(i) => parse_unsigned(v@.skip(i + 1), 65535) == Some(p as nat) && a@ == v@.take(i),
            },
            None => match rfind_char(v@, ':') {
                None => true,
                Some(i) => parse_unsigned(v@.skip(i + 1), 65535) is None,
            },
        },
{
    match rfind_char_in(v, ':') {
        None => None,
        Some(i) => {
            assert(v@.subrange(i + 1, v.len() as int) =~= v@.skip(i + 1));
            match parse_unsigned_range(v, i + 1, v.len(), 65535) {
                None => None,
                Some(p) => {
                    let addr = copy_range(v, 0, i);
                    assert(addr@ =~= v@.take(i as int));
                    Some((string_of(&addr), p as u16))
                },
            }
        },
    }
}

/// Splits an `ss` local address field into address and port.
pub fn parse_local_address_port(field: &str) -> (r: Option<(String, u16)>)
    ensures
        match r {
            Some((a, p)) => local_address_port(field@) == Some((a@, p)),
            None => local_address_port(field@) is None,
        },
{
    let v = chars_of(field);
    proof {
        reveal_strlit("*");
    }
    if v.len() == 1 && v[0] == '*' {
        assert(v@ =~= "*"@);
        return None;
    }
    assert(v@ != "*"@);
    if v.len() > 0 && v[0] == '[' {
        let rest = copy_range(&v, 1, v.len());
        assert(rest@ =~= v@.drop_first());
        bracketed_address_port(&rest)
    } else {
        plain_address_port(&v)
    }
}

/// Where an `ss -tlnp` line matches the pattern
/// `^LISTEN\s+\d+\s+\d+\s+(\S+)\s+\S+\s+(?:users:)?\(\("([^"]+)",pid=(\d+)`
/// (`\d` and `\s` in their Unicode meaning): the bounds of the local address, of the
/// process name and of the pid.  Every repetition in the pattern is followed
/// by a character it cannot take, so each runs to the end of its class.
pub open spec fn ss_captures(s: Seq<char>) -> Option<(int, int, int, int, int, int)> {
    if !starts_with(s, "LISTEN"@) {
        None
    } else {
        let p0 = "LISTEN"@.len() as int;
        let a = run_end(s, p0, WS);
        let b = run_end(s, a, DIGIT);
        let c = run_end(s, b, WS);
        let d = run_end(s, c, DIGIT);
        let e = run_end(s, d, WS);
        let f = run_end(s, e, NONWS);
        let g = run_end(s, f, WS);
        let h = run_end(s, g, NONWS);
        let i = run_end(s, h, WS);
        let j = if occurs_at(s, "users:"@, i) {
            i + "users:"@.len()
        } else {
            i
        };
        let k = j + "((\""@.len();
        let m = run_end(s, k, NOT_QUOTE);
        let n = m + "\",pid="@.len();
        let o = run_end(s, n, DIGIT);
        if a == p0 || b == a || c == b || d == c || e == d || f == e || g == f || h == g || i == h
            || !occurs_at(s, "((\""@, j) || m == k || !occurs_at(s, "\",pid="@, m) || o == n {
            None
        } else {
            Some((e, f, k, m, n, o))
        }
    }
}

/// `ss_captures` on `v`.
fn ss_fields(v: &Vec<char>) -> (r: Option<(usize, usize, usize, usize, usize, usize)>)
    ensures
        match r {
            Some((e, f, k, m, n, o)) => ss_captures(v@) == Some(
                (e as int, f as int, k as int, m as int, n as int, o as int),
            ) && e <= f <= k <= m <= n <= o <= v.len(),
            None => ss_captures(v@) is None,
        },
{
    proof {
        reveal_strlit("LISTEN");
        reveal_strlit("users:");
        reveal_strlit("((\"");
        reveal_strlit("\",pid=");
    }
    let listen = chars_of("LISTEN");
    if !matches_at(v, 0, &listen) {
        return None;
    }
    let a = scan_run(v, 6, WS);
    let b = scan_run(v, a, DIGIT);
    let c = scan_run(v, b, WS);
    let d = scan_run(v, c, DIGIT);
    let e = scan_run(v, d, WS);
    let f = scan_run(v, e, NONWS);
    let g = scan_run(v, f, WS);
    let h = scan_run(v, g, NONWS);
    let i = scan_run(v, h, WS);
    if a == 6 || b == a || c == b || d == c || e == d || f == e || g == f || h == g || i == h {
        return None;
    }
    let users = chars_of("users:");
    let j = if matches_at(v, i, &users) {
        i + 6
    } else {
        i
    };
    let open = chars_of("((\"");
    if !matches_at(v, j, &open) {
        return None;
    }
    let k = j + 3;
    let m = scan_run(v, k, NOT_QUOTE);
    if m == k {
        return None;
    }
    let close = chars_of("\",pid=");
    if !matches_at(v, m, &close) {
        return None;
    }
    let n = m + 6;
    let o = scan_run(v, n, DIGIT);
    if o == n {
        return None;
    }
    Some((e, f, k, m, n, o))
}

/// Whether an `ss -tlnp` line is a listening socket with a process.
pub fn ss_line_matches(line: &str) -> (r: bool)
    ensures
        r == ss_captures(line@) is Some,
{
    let v = chars_of(line);
    ss_fields(&v).is_some()
}

// ---------------------------------------------------------------------
// From `ss` output to listeners
// ---------------------------------------------------------------------

/// The listener for `pid` on `port`, with what its launch context tells:
/// project, directory as shown and command line, or `?` for each.
pub open spec fn enriched(
    procs: &ProcTable,
    port: u16,
    pid: u32,
    comm: Seq<char>,
    address: Seq<char>,
) -> ListenerView {
    match launch_pid(procs, pid) {
        Some(c) => {
            let ctx = context_of(procs, c);
            ListenerView {
                port,
                pid,
                comm,
                address,
                project: ctx.2,
                cwd: ctx.1,
                launch_cmd: ctx.3,
            }
        },
        None => ListenerView {
            port,
            pid,
            comm,
            address,
            project: "?"@,
            cwd: "?"@,
            launch_cmd: "?"@,
        },
    }
}

/// Builds the listener for `pid` on `port`.
fn enrich_listener(procs: &ProcTable, port: u16, pid: u32, comm: String, address: String) -> (r:
    Listener)
    requires
        launch_readable(procs, pid),
    ensures
        r@ == enriched(procs, port, pid, comm@, address@),
{
    let (project, cwd, launch_cmd) = match resolve_launch_context(procs, pid) {
        Some(ctx) => (ctx.project, ctx.display_cwd, ctx.launch_cmd),
        None => {
            let q = chars_of("?");
            (string_of(&q), string_of(&q), string_of(&q))
        },
    };
    Listener { port, pid, comm, address, project, cwd, launch_cmd }
}

/// The listener an `ss` line stands for: it matches the pattern, its pid
/// reads as a non-zero number, its local address has a port, the port is a
/// dev port and the process belongs to the user.
pub open spec fn ss_line_listener(procs: &ProcTable, s: Seq<char>) -> Option<ListenerView> {
    match ss_captures(s) {
        None => None,
        Some((e, f, k, m, n, o)) => {
            let pid: nat = match parse_unsigned(s.subrange(n, o), u32::MAX as nat) {
                Some(v) => v,
                None => 0,
            };
            if pid == 0 {
                None
            } else {
                match local_address_port(s.subrange(e, f)) {
                    None => None,
                    Some((address, port)) => if !dev_port(port) || !procs.owned(pid as u32) {
                        None
                    } else {
                        Some(enriched(procs, port, pid as u32, s.subrange(k, m), address))
                    },
                }
            }
        }
    }
}

/// The listeners of the lines `ls`, in order.
pub open spec fn ss_candidates(procs: &ProcTable, ls: Seq<Seq<char>>) -> Seq<ListenerView>
    decreases ls.len(),
{
    if ls.len() == 0 {
        seq![]
    } else {
        let rest = ss_candidates(procs, ls.drop_first());
        match ss_line_listener(procs, ls[0]) {
            Some(l) => seq![l] + rest,
            None => rest,
        }
    }
}

/// Listener order: by port, then process name, then pid.
pub open spec fn listener_lt(a: ListenerView, b: ListenerView) -> bool {
    a.port < b.port || (a.port == b.port && (lex_lt(a.comm, b.comm) || (a.comm == b.comm && a.pid
        < b.pid)))
}

/// `x` placed after every element of `s` that it does not precede.
pub open spec fn insert_stable(s: Seq<ListenerView>, x: ListenerView) -> Seq<ListenerView>
    decreases s.len(),
{
    if s.len() == 0 {
        seq![x]
    } else if listener_lt(x, s.last()) {
        insert_stable(s.drop_last(), x).push(s.last())
    } else {
        s.push(x)
    }
}

/// The stable sort of `s` by `listener_lt` (what `sort_by` gives).
pub open spec fn sort_listeners(s: Seq<ListenerView>) -> Seq<ListenerView>
    decreases s.len(),
{
    if s.len() == 0 {
        seq![]
    } else {
        insert_stable(sort_listeners(s.drop_last()), s.last())
    }
}

/// The lines after the header line.
pub open spec fn after_header(ls: Seq<Seq<char>>) -> Seq<Seq<char>> {
    if ls.len() == 0 {
        ls
    } else {
        ls.drop_first()
    }
}

/// The dev servers in the output of `ss -tlnp`.
pub open spec fn listed(procs: &ProcTable, stdout: Seq<char>) -> Seq<ListenerView> {
    dedupe_spec(sort_listeners(ss_candidates(procs, after_header(lines(stdout)))))
}

/// Whether `a` sorts before `b`.
fn listener_less(a: &Listener, b: &Listener) -> (r: bool)
    ensures
        r == listener_lt(a@, b@),
{
    if a.port != b.port {
        return a.port < b.port;
    }
    let ac = chars_of(a.comm.as_str());
    let bc = chars_of(b.comm.as_str());
    if lex_less(&ac, &bc) {
        return true;
    }
    if lex_less(&bc, &ac) {
        return false;
    }
    proof {
        crate::text::lemma_lex_total(ac@, bc@);
    }
    a.pid < b.pid
}

proof fn lemma_insert_at(s: Seq<ListenerView>, x: ListenerView, j: int)
    requires
        0 <= j <= s.len(),
        forall|t: int| j <= t < s.len() ==> listener_lt(x, #[trigger] s[t]),
        j == 0 || !listener_lt(x, s[j - 1]),
    ensures
        insert_stable(s, x) == s.insert(j, x),
    decreases s.len(),
{
    if s.len() == 0 {
        assert(s.insert(j, x) =~= seq![x]);
    } else if j == s.len() {
        assert(s.insert(j, x) =~= s.push(x));
    } else {
        assert(listener_lt(x, s.last()));
        lemma_insert_at(s.drop_last(), x, j);
        assert(s.drop_last().insert(j, x).push(s.last()) =~= s.insert(j, x));
    }
}

/// Sorts listeners by port, process name and pid, keeping the order of
/// equal ones (`sort_by`).
pub fn sort_listeners_stable(items: &Vec<Listener>) -> (r: Vec<Listener>)
    ensures
        lviews(r@) == sort_listeners(lviews(items@)),
{
    let mut out: Vec<Listener> = Vec::new();
    let mut i: usize = 0;
    while i < items.len()
        invariant
            i <= items.len(),
            lviews(out@) == sort_listeners(lviews(items@).take(i as int)),
        decreases items.len() - i,
    {
        let x = items[i].clone();
        let mut j = out.len();
        while j > 0 && listener_less(&x, &out[j - 1])
            invariant
                j <= out.len(),
                forall|t: int| j <= t < out.len() ==> listener_lt(x@, #[trigger] out@[t]@),
            decreases j,
        {
            j = j - 1;
        }
        let ghost before = lviews(out@);
        proof {
            assert forall|t: int| j <= t < before.len() implies listener_lt(x@, #[trigger] before[t]) by {
                assert(before[t] == out@[t]@);
            }
            if j > 0 {
                assert(before[j - 1] == out@[j - 1]@);
            }
            lemma_insert_at(before, x@, j as int);
            let sq = lviews(items@).take(i + 1);
            assert(sq.drop_last() =~= lviews(items@).take(i as int));
            assert(sq.last() == x@);
        }
        out.insert(j, x);
        assert(lviews(out@) =~= before.insert(j as int, x@));
        i = i + 1;
    }
    assert(lviews(items@).take(items.len() as int) =~= lviews(items@));
    out
}

/// The port, pid, process name and address of an `ss` line that stands for
/// a listener, when it does.
fn shown_line(procs: &ProcTable, line: &Vec<char>) -> (r: Option<(u16, u32, String, String)>)
    ensures
        match r {
            Some((port, pid, comm, address)) => ss_line_listener(procs, line@) == Some(
                enriched(procs, port, pid, comm@, address@),
            ),
            None => ss_line_listener(procs, line@) is None,
        },
{
    let (e, f, k, m, n, o) = match ss_fields(line) {
        Some(c) => c,
        None => {
            return None;
        },
    };
    let pid: u32 = match parse_unsigned_range(line, n, o, 0xFFFF_FFFF) {
        Some(v) => v as u32,
        None => 0,
    };
    if pid == 0 {
        return None;
    }
    let local_chars = copy_range(line, e, f);
    let local = string_of(&local_chars);
    let (address, port) = match parse_local_address_port(local.as_str()) {
        Some(ap) => ap,
        None => {
            return None;
        },
    };
    if !is_dev_port(port) {
        return None;
    }
    if !process_owned_by_current_user(procs, pid) {
        return None;
    }
    let comm_chars = copy_range(line, k, m);
    let comm = string_of(&comm_chars);
    Some((port, pid, comm, address))
}

/// The project of the launch directory of the listener an `ss` line stands
/// for can be read (so when the line stands for none).
pub open spec fn line_readable(procs: &ProcTable, s: Seq<char>) -> bool {
    match ss_line_listener(procs, s) {
        Some(l) => launch_readable(procs, l.pid),
        None => true,
    }
}

/// Every line of the `ss` output that is shown has a readable launch
/// directory: the listing reads no other directory.
pub open spec fn listing_readable(procs: &ProcTable, stdout: Seq<char>) -> bool {
    forall|i: int|
        0 <= i < after_header(lines(stdout)).len() ==> line_readable(
            procs,
            #[trigger] after_header(lines(stdout))[i],
        )
}

/// The listener of one `ss` line, when it is one.
fn listener_of_line(procs: &ProcTable, line: &Vec<char>) -> (r: Option<Listener>)
    requires
        line_readable(procs, line@),
    ensures
        match r {
            Some(l) => ss_line_listener(procs, line@) == Some(l@),
            None => ss_line_listener(procs, line@) is None,
        },
{
    match shown_line(procs, line) {
        Some((port, pid, comm, address)) => Some(enrich_listener(procs, port, pid, comm, address)),
        None => None,
    }
}

/// Whether every shown line of the `ss` output has a readable launch
/// directory.
pub fn listing_is_readable(procs: &ProcTable, stdout: &str) -> (r: bool)
    ensures
        r == listing_readable(procs, stdout@),
{
    let v = chars_of(stdout);
    let ls = split_lines(&v);
    if ls.len() == 0 {
        return true;
    }
    let ghost rest = after_header(lines(stdout@));
    let mut i: usize = 1;
    while i < ls.len()
        invariant
            1 <= i <= ls.len(),
            views(ls@) == lines(stdout@),
            rest == after_header(lines(stdout@)),
            rest == views(ls@).drop_first(),
            forall|j: int| 0 <= j < i - 1 ==> line_readable(procs, #[trigger] rest[j]),
        decreases ls.len() - i,
    {
        assert(rest[i - 1] == ls@[i as int]@);
        match shown_line(procs, &ls[i]) {
            Some((_, pid, _, _)) => {
                if !launch_is_readable(procs, pid) {
                    assert(!line_readable(procs, rest[i - 1]));
                    return false;
                }
            },
            None => {},
        }
        i = i + 1;
    }
    true
}

/// Whether every shown line of the raw `ss` output has a readable launch
/// directory.
pub fn output_is_readable(procs: &ProcTable, stdout: &Vec<u8>) -> (r: bool)
    ensures
        r == listing_readable(procs, utf8_lossy(stdout@)),
{
    let text = lossy_text(stdout.as_slice());
    listing_is_readable(procs, text.as_str())
}

/// The dev servers in the output of `ss -tlnp`: the matching lines after
/// the header, sorted by port, process name and pid, one per port and pid.
pub fn parse_ss_output(procs: &ProcTable, stdout: &str) -> (r: Vec<Listener>)
    requires
        listing_readable(procs, stdout@),
    ensures
        lviews(r@) == listed(procs, stdout@),
{
    let v = chars_of(stdout);
    let ls = split_lines(&v);
    let mut cands: Vec<Listener> = Vec::new();
    if ls.len() == 0 {
        assert(after_header(lines(stdout@)) =~= Seq::<Seq<char>>::empty());
        assert(lviews(cands@) =~= Seq::<ListenerView>::empty());
        return cands;
    }
    let mut i: usize = 1;
    assert(after_header(views(ls@)) =~= views(ls@).skip(1));
    while i < ls.len()
        invariant
            1 <= i <= ls.len(),
            listing_readable(procs, stdout@),
            views(ls@) == lines(stdout@),
            ss_candidates(procs, after_header(lines(stdout@))) == lviews(cands@) + ss_candidates(
                procs,
                views(ls@).skip(i as int),
            ),
        decreases ls.len() - i,
    {
        let ghost rest = views(ls@).skip(i as int);
        assert(rest[0] == ls@[i as int]@);
        assert(rest.drop_first() =~= views(ls@).skip(i + 1));
        let ghost before = lviews(cands@);
        assert(line_readable(procs, ls@[i as int]@)) by {
            assert(after_header(lines(stdout@)) =~= views(ls@).skip(1));
            assert(after_header(lines(stdout@))[i - 1] == ls@[i as int]@);
        }
        match listener_of_line(procs, &ls[i]) {
            Some(l) => {
                cands.push(l);
                assert(lviews(cands@) =~= before.push(l@));
                assert(before.push(l@) + ss_candidates(procs, rest.drop_first()) =~= before + (seq![l@] + ss_candidates(procs, rest.drop_first())));
            },
            None => {},
        }
        i = i + 1;
    }
    assert(views(ls@).skip(i as int) =~= Seq::<Seq<char>>::empty());
    assert(lviews(cands@) + Seq::<ListenerView>::empty() =~= lviews(cands@));
    let sorted = sort_listeners_stable(&cands);
    dedupe_listeners(sorted)
}

/// The dev servers in the raw output of `ss -tlnp`, read as UTF-8 with
/// invalid sequences replaced.
pub fn listeners_from_output(procs: &ProcTable, stdout: &Vec<u8>) -> (r: Vec<Listener>)
    requires
        listing_readable(procs, utf8_lossy(stdout@)),
    ensures
        lviews(r@) == listed(procs, utf8_lossy(stdout@)),
{
    let text = lossy_text(stdout.as_slice());
    parse_ss_output(procs, text.as_str())
}

/// The dev servers in the raw output of `ss -tlnp`, or `None` when the
/// project of a shown listener's launch directory cannot be read.
pub fn readable_listeners(procs: &ProcTable, stdout: &Vec<u8>) -> (r: Option<Vec<Listener>>)
    ensures
        match r {
            Some(v) => listing_readable(procs, utf8_lossy(stdout@)) && lviews(v@) == listed(
                procs,
                utf8_lossy(stdout@),
            ),
            None => !listing_readable(procs, utf8_lossy(stdout@)),
        },
{
    if output_is_readable(procs, stdout) {
        Some(listeners_from_output(procs, stdout))
    } else {
        None
    }
}

/// The error when `ss` exits unsuccessfully: its exit code, `-1` without one.
pub fn ss_failure(code: Option<i32>) -> (r: String)
    ensures
        r@ == "ss exited with status "@ + int_text(
            match code {
                Some(c) => c as int,
                None => -1,
            },
        ),
{
    let mut out: Vec<char> = Vec::new();
    push_str(&mut out, "ss exited with status ");
    let c: i32 = match code {
        Some(c) => c,
        None => -1,
    };
    push_int(&mut out, c);
    string_of(&out)
}

// ---------------------------------------------------------------------
// What the listing keeps
// ---------------------------------------------------------------------

/// A listener the tool may show: a dev port, a real pid, and a process of
/// the user running the tool.
pub open spec fn shown(procs: &ProcTable, l: ListenerView) -> bool {
    dev_port(l.port) && l.pid != 0 && procs.owned(l.pid)
}

/// Every element of `s` satisfies `p`.
pub open spec fn all_sat(s: Seq<ListenerView>, p: spec_fn(ListenerView) -> bool) -> bool {
    forall|i: int| 0 <= i < s.len() ==> p(#[trigger] s[i])
}

/// No element sorts before an earlier one.
pub open spec fn listener_sorted(s: Seq<ListenerView>) -> bool {
    forall|i: int, j: int| 0 <= i < j < s.len() ==> !listener_lt(#[trigger] s[j], #[trigger] s[i])
}

proof fn lemma_candidates_shown(procs: &ProcTable, ls: Seq<Seq<char>>)
    ensures
        all_sat(ss_candidates(procs, ls), |l: ListenerView| shown(procs, l)),
    decreases ls.len(),
{
    if ls.len() > 0 {
        lemma_candidates_shown(procs, ls.drop_first());
        let rest = ss_candidates(procs, ls.drop_first());
        match ss_line_listener(procs, ls[0]) {
            Some(l) => {
                assert(shown(procs, l));
                let r = seq![l] + rest;
                assert forall|i: int| 0 <= i < r.len() implies shown(procs, #[trigger] r[i]) by {
                    if i > 0 {
                        assert(r[i] == rest[i - 1]);
                    }
                }
            },
            None => {},
        }
    }
}

proof fn lemma_insert_keeps(s: Seq<ListenerView>, x: ListenerView, p: spec_fn(ListenerView) -> bool)
    requires
        all_sat(s, p),
        p(x),
    ensures
        all_sat(insert_stable(s, x), p),
    decreases s.len(),
{
    if s.len() > 0 && listener_lt(x, s.last()) {
        let t = s.drop_last();
        assert(all_sat(t, p)) by {
            assert forall|i: int| 0 <= i < t.len() implies p(#[trigger] t[i]) by {
                assert(t[i] == s[i]);
            }
        }
        lemma_insert_keeps(t, x, p);
        assert(p(s[s.len() - 1]));
    }
}

proof fn lemma_sort_keeps(s: Seq<ListenerView>, p: spec_fn(ListenerView) -> bool)
    requires
        all_sat(s, p),
    ensures
        all_sat(sort_listeners(s), p),
    decreases s.len(),
{
    if s.len() > 0 {
        let t = s.drop_last();
        assert(all_sat(t, p)) by {
            assert forall|i: int| 0 <= i < t.len() implies p(#[trigger] t[i]) by {
                assert(t[i] == s[i]);
            }
        }
        lemma_sort_keeps(t, p);
        assert(p(s[s.len() - 1]));
        lemma_insert_keeps(sort_listeners(t), s.last(), p);
    }
}

proof fn lemma_dedupe_keeps(s: Seq<ListenerView>, p: spec_fn(ListenerView) -> bool)
    requires
        all_sat(s, p),
    ensures
        all_sat(dedupe_spec(s), p),
    decreases s.len(),
{
    if s.len() > 0 {
        let t = s.drop_last();
        assert(all_sat(t, p)) by {
            assert forall|i: int| 0 <= i < t.len() implies p(#[trigger] t[i]) by {
                assert(t[i] == s[i]);
            }
        }
        lemma_dedupe_keeps(t, p);
        assert(p(s[s.len() - 1]));
    }
}

/// Everything the listing shows is a TCP listener on a dev port
/// (1024–65535 without the system ports) of a process of the user running
/// the tool.
pub proof fn lemma_listed_are_dev_servers(procs: &ProcTable, stdout: Seq<char>)
    ensures
        forall|i: int|
            0 <= i < listed(procs, stdout).len() ==> shown(procs, #[trigger] listed(procs, stdout)[i]),
{
    let p = |l: ListenerView| shown(procs, l);
    let c = ss_candidates(procs, after_header(lines(stdout)));
    lemma_candidates_shown(procs, after_header(lines(stdout)));
    lemma_sort_keeps(c, p);
    lemma_dedupe_keeps(sort_listeners(c), p);
    assert forall|i: int| 0 <= i < listed(procs, stdout).len() implies shown(
        procs,
        #[trigger] listed(procs, stdout)[i],
    ) by {
        assert(p(listed(procs, stdout)[i]));
    }
}

/// `listener_lt` is a strict order whose incomparability is transitive:
/// not below is "at or above" in the order of port, name and pid.
proof fn lemma_lt_facts(a: ListenerView, b: ListenerView, c: ListenerView)
    ensures
        !listener_lt(a, a),
        listener_lt(a, b) ==> !listener_lt(b, a),
        !listener_lt(a, b) && !listener_lt(b, c) ==> !listener_lt(a, c),
        listener_lt(a, b) && listener_lt(b, c) ==> listener_lt(a, c),
{
    crate::text::lemma_lex_irreflexive(a.comm);
    crate::text::lemma_lex_total(a.comm, b.comm);
    crate::text::lemma_lex_total(b.comm, c.comm);
    crate::text::lemma_lex_total(a.comm, c.comm);
    if lex_lt(a.comm, b.comm) {
        crate::text::lemma_lex_asymmetric(a.comm, b.comm);
    }
    if lex_lt(b.comm, c.comm) {
        crate::text::lemma_lex_asymmetric(b.comm, c.comm);
    }
    if lex_lt(a.comm, c.comm) {
        crate::text::lemma_lex_asymmetric(a.comm, c.comm);
    }
    if lex_lt(a.comm, b.comm) && lex_lt(b.comm, c.comm) {
        crate::text::lemma_lex_transitive(a.comm, b.comm, c.comm);
    }
    if lex_lt(b.comm, a.comm) && lex_lt(c.comm, b.comm) {
        crate::text::lemma_lex_transitive(c.comm, b.comm, a.comm);
    }
    if lex_lt(c.comm, b.comm) && lex_lt(b.comm, a.comm) {
        crate::text::lemma_lex_transitive(c.comm, b.comm, a.comm);
    }
}

proof fn lemma_insert_sorted(s: Seq<ListenerView>, x: ListenerView)
    requires
        listener_sorted(s),
    ensures
        listener_sorted(insert_stable(s, x)),
        forall|y: ListenerView| insert_stable(s, x).contains(y) ==> y == x || s.contains(y),
    decreases s.len(),
{
    if s.len() == 0 {
    } else if listener_lt(x, s.last()) {
        let t = s.drop_last();
        let last = s.last();
        assert(listener_sorted(t)) by {
            assert forall|i: int, j: int| 0 <= i < j < t.len() implies !listener_lt(
                #[trigger] t[j],
                #[trigger] t[i],
            ) by {
                assert(t[i] == s[i] && t[j] == s[j]);
            }
        }
        lemma_insert_sorted(t, x);
        let u = insert_stable(t, x);
        let r = u.push(last);
        assert forall|i: int, j: int| 0 <= i < j < r.len() implies !listener_lt(
            #[trigger] r[j],
            #[trigger] r[i],
        ) by {
            if j == r.len() - 1 {
                assert(r[i] == u[i]);
                assert(u.contains(r[i]));
                assert(r[i] == x || t.contains(r[i]));
                if r[i] == x {
                    lemma_lt_facts(x, last, last);
                } else {
                    let k = choose|k: int| 0 <= k < t.len() && t[k] == r[i];
                    assert(s[k] == r[i]);
                    assert(!listener_lt(s[s.len() - 1], s[k]));
                }
            } else {
                assert(r[i] == u[i] && r[j] == u[j]);
            }
        }
        assert forall|y: ListenerView| r.contains(y) implies y == x || s.contains(y) by {
            let k = choose|k: int| 0 <= k < r.len() && r[k] == y;
            if k == r.len() - 1 {
                assert(s[s.len() - 1] == y);
            } else {
                assert(u[k] == y);
                assert(u.contains(y));
                if y != x {
                    assert(t.contains(y));
                    let m = choose|m: int| 0 <= m < t.len() && t[m] == y;
                    assert(s[m] == y);
                }
            }
        }
    } else {
        let r = s.push(x);
        assert forall|i: int, j: int| 0 <= i < j < r.len() implies !listener_lt(
            #[trigger] r[j],
            #[trigger] r[i],
        ) by {
            if j == r.len() - 1 {
                if i < s.len() - 1 {
                    assert(!listener_lt(s[s.len() - 1], s[i]));
                    lemma_lt_facts(x, s[s.len() - 1], s[i]);
                }
            } else {
                assert(r[i] == s[i] && r[j] == s[j]);
            }
        }
        assert forall|y: ListenerView| r.contains(y) implies y == x || s.contains(y) by {
            let k = choose|k: int| 0 <= k < r.len() && r[k] == y;
            if k < s.len() {
                assert(s[k] == y);
            }
        }
    }
}

proof fn lemma_sort_sorted(s: Seq<ListenerView>)
    ensures
        listener_sorted(sort_listeners(s)),
    decreases s.len(),
{
    if s.len() > 0 {
        lemma_sort_sorted(s.drop_last());
        lemma_insert_sorted(sort_listeners(s.drop_last()), s.last());
    }
}

proof fn lemma_dedupe_sorted_unique(s: Seq<ListenerView>)
    requires
        listener_sorted(s),
    ensures
        listener_sorted(dedupe_spec(s)),
        keys(dedupe_spec(s)).no_duplicates(),
        forall|y: ListenerView| dedupe_spec(s).contains(y) ==> s.contains(y),
    decreases s.len(),
{
    if s.len() > 0 {
        let t = s.drop_last();
        let last = s.last();
        assert(listener_sorted(t)) by {
            assert forall|i: int, j: int| 0 <= i < j < t.len() implies !listener_lt(
                #[trigger] t[j],
                #[trigger] t[i],
            ) by {
                assert(t[i] == s[i] && t[j] == s[j]);
            }
        }
        lemma_dedupe_sorted_unique(t);
        let r = dedupe_spec(t);
        if !keys(t).contains(key_of(last)) {
            let q = r.push(last);
            assert forall|i: int, j: int| 0 <= i < j < q.len() implies !listener_lt(
                #[trigger] q[j],
                #[trigger] q[i],
            ) by {
                if j == q.len() - 1 {
                    assert(q[i] == r[i]);
                    assert(r.contains(q[i]));
                    assert(t.contains(q[i]));
                    let k = choose|k: int| 0 <= k < t.len() && t[k] == q[i];
                    assert(s[k] == q[i]);
                    assert(!listener_lt(s[s.len() - 1], s[k]));
                } else {
                    assert(q[i] == r[i] && q[j] == r[j]);
                }
            }
            assert(keys(q) =~= keys(r).push(key_of(last)));
            assert forall|i: int| 0 <= i < keys(r).len() implies keys(r)[i] != key_of(last) by {
                assert(r.contains(r[i]));
                assert(t.contains(r[i]));
                let k = choose|k: int| 0 <= k < t.len() && t[k] == r[i];
                assert(keys(t)[k] == key_of(r[i]));
                assert(keys(r)[i] == key_of(r[i]));
            }
            assert forall|y: ListenerView| q.contains(y) implies s.contains(y) by {
                let k = choose|k: int| 0 <= k < q.len() && q[k] == y;
                if k == q.len() - 1 {
                    assert(s[s.len() - 1] == y);
                } else {
                    assert(r[k] == y);
                    assert(r.contains(y));
                    assert(t.contains(y));
                    let m = choose|m: int| 0 <= m < t.len() && t[m] == y;
                    assert(s[m] == y);
                }
            }
        } else {
            assert forall|y: ListenerView| r.contains(y) implies s.contains(y) by {
                assert(t.contains(y));
                let m = choose|m: int| 0 <= m < t.len() && t[m] == y;
                assert(s[m] == y);
            }
        }
    }
}

/// The listing comes sorted by port, then process name, then pid, and
/// holds each port and pid once.
pub proof fn lemma_listed_sorted_unique(procs: &ProcTable, stdout: Seq<char>)
    ensures
        listener_sorted(listed(procs, stdout)),
        keys(listed(procs, stdout)).no_duplicates(),
{
    let c = ss_candidates(procs, after_header(lines(stdout)));
    lemma_sort_sorted(c);
    lemma_dedupe_sorted_unique(sort_listeners(c));
}

/// The listing is ordered by port; listeners on one port by process name
/// (character by character); listeners on one port with one name by pid.
pub proof fn lemma_listed_by_port(procs: &ProcTable, stdout: Seq<char>, i: int, j: int)
    requires
        0 <= i < j < listed(procs, stdout).len(),
    ensures
        listed(procs, stdout)[i].port <= listed(procs, stdout)[j].port,
        listed(procs, stdout)[i].port == listed(procs, stdout)[j].port ==> !lex_lt(
            listed(procs, stdout)[j].comm,
            listed(procs, stdout)[i].comm,
        ),
        listed(procs, stdout)[i].port == listed(procs, stdout)[j].port && listed(procs, stdout)[i].comm
            == listed(procs, stdout)[j].comm ==> listed(procs, stdout)[i].pid <= listed(
            procs,
            stdout,
        )[j].pid,
{
    lemma_listed_sorted_unique(procs, stdout);
    let s = listed(procs, stdout);
    assert(!listener_lt(s[j], s[i]));
}

proof fn lemma_candidates_of_lines(procs: &ProcTable, ls: Seq<Seq<char>>)
    ensures
        forall|i: int|
            0 <= i < ls.len() && (#[trigger] ss_line_listener(procs, ls[i])) is Some ==> ss_candidates(
                procs,
                ls,
            ).contains(ss_line_listener(procs, ls[i])->0),
        forall|y: ListenerView|
            ss_candidates(procs, ls).contains(y) ==> exists|i: int|
                0 <= i < ls.len() && #[trigger] ss_line_listener(procs, ls[i]) == Some(y),
    decreases ls.len(),
{
    if ls.len() > 0 {
        let rest = ls.drop_first();
        lemma_candidates_of_lines(procs, rest);
        let c = ss_candidates(procs, ls);
        let rc = ss_candidates(procs, rest);
        assert forall|i: int|
            0 <= i < ls.len() && (#[trigger] ss_line_listener(procs, ls[i])) is Some implies c.contains(
                ss_line_listener(procs, ls[i])->0,
            ) by {
            let l = ss_line_listener(procs, ls[i])->0;
            if i == 0 {
                assert(c[0] == l);
            } else {
                assert(rest[i - 1] == ls[i]);
                assert(ss_line_listener(procs, rest[i - 1]) is Some);
                assert(rc.contains(l));
                let k = choose|k: int| 0 <= k < rc.len() && rc[k] == l;
                match ss_line_listener(procs, ls[0]) {
                    Some(h) => {
                        assert(c[k + 1] == l);
                    },
                    None => {
                        assert(c[k] == l);
                    },
                }
            }
        }
        assert forall|y: ListenerView| c.contains(y) implies exists|i: int|
            0 <= i < ls.len() && #[trigger] ss_line_listener(procs, ls[i]) == Some(y) by {
            let k = choose|k: int| 0 <= k < c.len() && c[k] == y;
            match ss_line_listener(procs, ls[0]) {
                Some(h) => {
                    if k == 0 {
                        assert(ss_line_listener(procs, ls[0]) == Some(y));
                    } else {
                        assert(rc[k - 1] == y);
                        assert(rc.contains(y));
                        let i = choose|i: int|
                            0 <= i < rest.len() && #[trigger] ss_line_listener(procs, rest[i]) == Some(y);
                        assert(rest[i] == ls[i + 1]);
                        assert(ss_line_listener(procs, ls[i + 1]) == Some(y));
                    }
                },
                None => {
                    assert(rc[k] == y);
                    assert(rc.contains(y));
                    let i = choose|i: int|
                        0 <= i < rest.len() && #[trigger] ss_line_listener(procs, rest[i]) == Some(y);
                    assert(rest[i] == ls[i + 1]);
                    assert(ss_line_listener(procs, ls[i + 1]) == Some(y));
                },
            }
        }
    }
}

proof fn lemma_insert_has(s: Seq<ListenerView>, x: ListenerView)
    ensures
        insert_stable(s, x).contains(x),
        forall|y: ListenerView| s.contains(y) ==> insert_stable(s, x).contains(y),
    decreases s.len(),
{
    if s.len() > 0 {
        let r = insert_stable(s, x);
        if listener_lt(x, s.last()) {
            let t = s.drop_last();
            lemma_insert_has(t, x);
            let u = insert_stable(t, x);
            assert(r == u.push(s.last()));
            let k = choose|k: int| 0 <= k < u.len() && u[k] == x;
            assert(r[k] == x);
            assert forall|y: ListenerView| s.contains(y) implies r.contains(y) by {
                let m = choose|m: int| 0 <= m < s.len() && s[m] == y;
                if m == s.len() - 1 {
                    assert(r[r.len() - 1] == y);
                } else {
                    assert(t[m] == y);
                    assert(t.contains(y));
                    let n = choose|n: int| 0 <= n < u.len() && u[n] == y;
                    assert(r[n] == y);
                }
            }
        } else {
            assert(r[r.len() - 1] == x);
            assert forall|y: ListenerView| s.contains(y) implies r.contains(y) by {
                let m = choose|m: int| 0 <= m < s.len() && s[m] == y;
                assert(r[m] == y);
            }
        }
    } else {
        assert(insert_stable(s, x)[0] == x);
    }
}

proof fn lemma_sort_same_members(s: Seq<ListenerView>)
    ensures
        forall|y: ListenerView| s.contains(y) <==> sort_listeners(s).contains(y),
    decreases s.len(),
{
    if s.len() > 0 {
        let t = s.drop_last();
        lemma_sort_same_members(t);
        lemma_sort_sorted(t);
        lemma_insert_has(sort_listeners(t), s.last());
        lemma_insert_sorted(sort_listeners(t), s.last());
        assert(sort_listeners(s) == insert_stable(sort_listeners(t), s.last()));
        assert forall|y: ListenerView| s.contains(y) implies sort_listeners(s).contains(y) by {
            let m = choose|m: int| 0 <= m < s.len() && s[m] == y;
            if m < s.len() - 1 {
                assert(t[m] == y);
                assert(t.contains(y));
                assert(sort_listeners(t).contains(y));
            } else {
                assert(y == s.last());
            }
        }
        assert forall|y: ListenerView| sort_listeners(s).contains(y) implies s.contains(y) by {
            if y != s.last() {
                assert(t.contains(y));
                let m = choose|m: int| 0 <= m < t.len() && t[m] == y;
                assert(s[m] == y);
            } else {
                assert(s[s.len() - 1] == y);
            }
        }
    }
}

proof fn lemma_dedupe_keeps_first(s: Seq<ListenerView>, j: int)
    requires
        0 <= j < s.len(),
    ensures
        exists|k: int, i: int|
            0 <= k < dedupe_spec(s).len() && 0 <= i <= j && dedupe_spec(s)[k] == s[i] && key_of(s[i])
                == key_of(s[j]),
    decreases s.len(),
{
    let t = s.drop_last();
    let r = dedupe_spec(t);
    let d = dedupe_spec(s);
    if j < s.len() - 1 {
        lemma_dedupe_keeps_first(t, j);
        let (k, i) = choose|k: int, i: int|
            0 <= k < r.len() && 0 <= i <= j && r[k] == t[i] && key_of(t[i]) == key_of(t[j]);
        assert(d[k] == s[i]);
    } else if keys(t).contains(key_of(s.last())) {
        let m = choose|m: int| 0 <= m < keys(t).len() && keys(t)[m] == key_of(s.last());
        assert(key_of(t[m]) == key_of(s[j]));
        lemma_dedupe_keeps_first(t, m);
        let (k, i) = choose|k: int, i: int|
            0 <= k < r.len() && 0 <= i <= m && r[k] == t[i] && key_of(t[i]) == key_of(t[m]);
        assert(d[k] == s[i]);
    } else {
        assert(d[r.len() as int] == s[j]);
    }
}

/// The listing lists every dev server the output shows, and only those:
/// for each line after the header that stands for a listener, the listing
/// has an entry with its port and pid, whose process name does not sort
/// after that line's (of several lines with one port and pid, the one with
/// the least name is kept); and each entry is the listener of some such line.
pub proof fn lemma_listed_complete(procs: &ProcTable, stdout: Seq<char>)
    ensures
        forall|i: int|
            0 <= i < after_header(lines(stdout)).len() && (#[trigger] ss_line_listener(
                procs,
                after_header(lines(stdout))[i],
            )) is Some ==> exists|k: int|
                0 <= k < listed(procs, stdout).len() && listed(procs, stdout)[k].port
                    == ss_line_listener(procs, after_header(lines(stdout))[i])->0.port && listed(
                    procs,
                    stdout,
                )[k].pid == ss_line_listener(procs, after_header(lines(stdout))[i])->0.pid
                    && !lex_lt(
                    ss_line_listener(procs, after_header(lines(stdout))[i])->0.comm,
                    listed(procs, stdout)[k].comm,
                ),
        forall|k: int|
            #![trigger listed(procs, stdout)[k]]
            0 <= k < listed(procs, stdout).len() ==> exists|i: int|
                0 <= i < after_header(lines(stdout)).len() && #[trigger] ss_line_listener(
                    procs,
                    after_header(lines(stdout))[i],
                ) == Some(listed(procs, stdout)[k]),
{
    let hs = after_header(lines(stdout));
    let c = ss_candidates(procs, hs);
    let s = sort_listeners(c);
    let d = listed(procs, stdout);
    lemma_candidates_of_lines(procs, hs);
    lemma_sort_same_members(c);
    lemma_sort_sorted(c);
    lemma_dedupe_sorted_unique(s);
    assert forall|i: int|
        0 <= i < hs.len() && (#[trigger] ss_line_listener(procs, hs[i])) is Some implies exists|k: int|
            0 <= k < d.len() && d[k].port == ss_line_listener(procs, hs[i])->0.port && d[k].pid
                == ss_line_listener(procs, hs[i])->0.pid && !lex_lt(
                ss_line_listener(procs, hs[i])->0.comm,
                d[k].comm,
            ) by {
        let l = ss_line_listener(procs, hs[i])->0;
        assert(c.contains(l));
        assert(s.contains(l));
        let j = choose|j: int| 0 <= j < s.len() && s[j] == l;
        lemma_dedupe_keeps_first(s, j);
        let (k, m) = choose|k: int, m: int|
            0 <= k < d.len() && 0 <= m <= j && d[k] == s[m] && key_of(s[m]) == key_of(s[j]);
        if m < j {
            assert(!listener_lt(s[j], s[m]));
        }
        assert(d[k].port == l.port && d[k].pid == l.pid);
        if lex_lt(l.comm, d[k].comm) {
            crate::text::lemma_lex_irreflexive(l.comm);
        }
    }
    assert forall|k: int| #![trigger d[k]] 0 <= k < d.len() implies exists|i: int|
        0 <= i < hs.len() && #[trigger] ss_line_listener(procs, hs[i]) == Some(d[k]) by {
        assert(d.contains(d[k]));
        assert(s.contains(d[k]));
        assert(c.contains(d[k]));
    }
}

/// A listener whose own working directory is known is described by its own
/// process: its directory as shown, the project there, and its own command
/// line (`?` when it has none), whatever its ancestors hold.
pub proof fn lemma_listener_own_context(
    procs: &ProcTable,
    port: u16,
    pid: u32,
    comm: Seq<char>,
    address: Seq<char>,
)
    requires
        cwd_known(procs, pid),
    ensures
        enriched(procs, port, pid, comm, address).cwd == procs.procs@[pid].cwd->0.shown@,
        enriched(procs, port, pid, comm, address).project == project_name(procs.procs@[pid].cwd->0),
        enriched(procs, port, pid, comm, address).launch_cmd == match procs.procs@[pid].cmdline {
            Some(c) => c@,
            None => "?"@,
        },
        enriched(procs, port, pid, comm, address).port == port,
        enriched(procs, port, pid, comm, address).pid == pid,
        enriched(procs, port, pid, comm, address).comm == comm,
        enriched(procs, port, pid, comm, address).address == address,
{
    lemma_launch_pid_nearest(procs, pid);
}

} // verus!
