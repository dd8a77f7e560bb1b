//! One-line descriptions of kill targets for the terminal and the panels.
use vstd::prelude::*;
use crate::group::{KillTarget, KillTargetView};
use crate::listener::{lviews, ListenerView};
use crate::text::{
    chars_of, dec, increasing, join, lemma_sorted_numbers, lemma_sorted_strings, lex_sorted, pad,
    push_chars, push_dec, push_join, push_padded, push_str, sorted_members, sorted_numbers, sorted_strings,
    sorted_unique, string_of, views,
};

verus! {

broadcast use vstd::std_specs::hash::group_hash_axioms;

/// `:<port>` for each listener.
pub open spec fn port_labels(ls: Seq<ListenerView>) -> Seq<Seq<char>> {
    ls.map_values(|l: ListenerView| ":"@ + dec(l.port as nat))
}

/// The address of each listener.
pub open spec fn address_labels(ls: Seq<ListenerView>) -> Seq<Seq<char>> {
    ls.map_values(|l: ListenerView| l.address)
}

/// The target's distinct ports, ascending as text, joined by commas.
pub open spec fn ports_text(t: KillTargetView) -> Seq<char> {
    join(sorted_strings(port_labels(t.listeners).to_set()), ","@)
}

/// The target's distinct addresses, ascending, joined by `, `.
pub open spec fn addresses_text(t: KillTargetView) -> Seq<char> {
    join(sorted_strings(address_labels(t.listeners).to_set()), ", "@)
}

/// `pid <pid>` for a single process, else `pids ` and the ascending pids
/// joined by commas.
pub open spec fn pid_summary_text(t: KillTargetView) -> Seq<char> {
    let q = sorted_numbers(t.all_pid_set());
    if q.len() == 1 {
        "pid "@ + dec(q[0] as nat)
    } else {
        "pids "@ + join(q.map_values(|p: u32| dec(p as nat)), ","@)
    }
}

/// Nothing for a single process; else the number of related workers, of
/// ports, or of processes.
pub open spec fn process_note_text(t: KillTargetView) -> Seq<char> {
    let count = t.all_pid_set().len();
    if count <= 1 {
        seq![]
    } else if t.extra_pids.len() > 0 {
        "+"@ + dec(t.extra_pids.len()) + " related"@
    } else if t.listeners.len() > 1 {
        dec(t.listeners.len()) + " ports"@
    } else {
        dec(count) + " procs"@
    }
}

/// The first listener's process name, or `?`.
pub open spec fn primary_comm_text(t: KillTargetView) -> Seq<char> {
    if t.listeners.len() > 0 {
        t.listeners[0].comm
    } else {
        "?"@
    }
}

/// The first listener's project, or `?`.
pub open spec fn primary_project_text(t: KillTargetView) -> Seq<char> {
    if t.listeners.len() > 0 {
        t.listeners[0].project
    } else {
        "?"@
    }
}

/// The first listener's working directory, or `?`.
pub open spec fn primary_cwd_text(t: KillTargetView) -> Seq<char> {
    if t.listeners.len() > 0 {
        t.listeners[0].cwd
    } else {
        "?"@
    }
}

/// `<ports:<18>  <comm:<14>  <pids:<18>  <addresses>`.
pub open spec fn cli_text(t: KillTargetView) -> Seq<char> {
    pad(ports_text(t), 18) + "  "@ + pad(primary_comm_text(t), 14) + "  "@ + pad(
        pid_summary_text(t),
        18,
    ) + "  "@ + addresses_text(t)
}

/// `<ports>  <project> (<comm>)`.
pub open spec fn panel_label_text(t: KillTargetView) -> Seq<char> {
    ports_text(t) + "  "@ + primary_project_text(t) + " ("@ + primary_comm_text(t) + ")"@
}

/// The working directory, followed by the process note when there is one.
pub open spec fn panel_detail_text(t: KillTargetView) -> Seq<char> {
    let note = process_note_text(t);
    if note.len() == 0 {
        primary_cwd_text(t)
    } else {
        primary_cwd_text(t) + "  "@ + note
    }
}

/// The distinct strings of `items`, ascending, joined by `sep`.
fn sorted_join(items: &Vec<Vec<char>>, sep: &str) -> (r: Vec<char>)
    ensures
        r@ == join(sorted_strings(views(items@).to_set()), sep@),
{
    let sorted = sorted_unique(items);
    proof {
        lemma_sorted_strings(views(sorted@));
    }
    let mut out: Vec<char> = Vec::new();
    push_join(&mut out, &sorted, sep);
    out
}

fn format_ports(target: &KillTarget) -> (r: Vec<char>)
    ensures
        r@ == ports_text(target@),
{
    let ghost lv = lviews(target.listeners@);
    let mut labels: Vec<Vec<char>> = Vec::new();
    let mut i: usize = 0;
    while i < target.listeners.len()
        invariant
            i <= target.listeners.len(),
            lv == lviews(target.listeners@),
            views(labels@) == port_labels(lv.take(i as int)),
        decreases target.listeners.len() - i,
    {
        let mut l: Vec<char> = Vec::new();
        push_str(&mut l, ":");
        push_dec(&mut l, target.listeners[i].port as u64);
        let ghost before = views(labels@);
        labels.push(l);
        proof {
            assert(lv[i as int].port == target.listeners@[i as int].port);
            assert(views(labels@) =~= before.push(":"@ + dec(lv[i as int].port as nat)));
            assert(lv.take(i + 1) =~= lv.take(i as int).push(lv[i as int]));
            assert(port_labels(lv.take(i + 1)) =~= port_labels(lv.take(i as int)).push(
                ":"@ + dec(lv[i as int].port as nat),
            ));
        }
        i = i + 1;
    }
    assert(lv.take(target.listeners.len() as int) =~= lv);
    sorted_join(&labels, ",")
}

fn format_addresses(target: &KillTarget) -> (r: Vec<char>)
    ensures
        r@ == addresses_text(target@),
{
    let ghost lv = lviews(target.listeners@);
    let mut labels: Vec<Vec<char>> = Vec::new();
    let mut i: usize = 0;
    while i < target.listeners.len()
        invariant
            i <= target.listeners.len(),
            lv == lviews(target.listeners@),
            views(labels@) == address_labels(lv.take(i as int)),
        decreases target.listeners.len() - i,
    {
        let l = chars_of(target.listeners[i].address.as_str());
        let ghost before = views(labels@);
        labels.push(l);
        proof {
            assert(lv[i as int].address == target.listeners@[i as int].address@);
            assert(views(labels@) =~= before.push(lv[i as int].address));
            assert(lv.take(i + 1) =~= lv.take(i as int).push(lv[i as int]));
            assert(address_labels(lv.take(i + 1)) =~= address_labels(lv.take(i as int)).push(
                lv[i as int].address,
            ));
        }
        i = i + 1;
    }
    assert(lv.take(target.listeners.len() as int) =~= lv);
    sorted_join(&labels, ", ")
}

fn format_pid_summary(target: &KillTarget) -> (r: Vec<char>)
    ensures
        r@ == pid_summary_text(target@),
{
    let all = target.all_pids();
    let q = sorted_members(&all);
    proof {
        lemma_sorted_numbers(q@);
    }
    let mut out: Vec<char> = Vec::new();
    if q.len() == 1 {
        push_str(&mut out, "pid ");
        push_dec(&mut out, q[0] as u64);
    } else {
        let mut parts: Vec<Vec<char>> = Vec::new();
        let mut i: usize = 0;
        while i < q.len()
            invariant
                i <= q.len(),
                views(parts@) == q@.take(i as int).map_values(|p: u32| dec(p as nat)),
            decreases q.len() - i,
        {
            let mut d: Vec<char> = Vec::new();
            push_dec(&mut d, q[i] as u64);
            let ghost before = views(parts@);
            parts.push(d);
            proof {
                assert(views(parts@) =~= before.push(dec(q@[i as int] as nat)));
                assert(q@.take(i + 1) =~= q@.take(i as int).push(q@[i as int]));
                assert(q@.take(i + 1).map_values(|p: u32| dec(p as nat)) =~= q@.take(
                    i as int,
                ).map_values(|p: u32| dec(p as nat)).push(dec(q@[i as int] as nat)));
            }
            i = i + 1;
        }
        assert(q@.take(q.len() as int) =~= q@);
        push_str(&mut out, "pids ");
        push_join(&mut out, &parts, ",");
    }
    out
}

fn format_process_note(target: &KillTarget) -> (r: Vec<char>)
    ensures
        r@ == process_note_text(target@),
{
    let all = target.all_pids();
    let count = all.len();
    let mut out: Vec<char> = Vec::new();
    if count <= 1 {
        return out;
    }
    let workers = target.extra_pids.len();
    if workers > 0 {
        push_str(&mut out, "+");
        push_dec(&mut out, workers as u64);
        push_str(&mut out, " related");
    } else if target.listeners.len() > 1 {
        push_dec(&mut out, target.listeners.len() as u64);
        push_str(&mut out, " ports");
    } else {
        push_dec(&mut out, count as u64);
        push_str(&mut out, " procs");
    }
    out
}

fn primary_comm(target: &KillTarget) -> (r: Vec<char>)
    ensures
        r@ == primary_comm_text(target@),
{
    if target.listeners.len() > 0 {
        chars_of(target.listeners[0].comm.as_str())
    } else {
        chars_of("?")
    }
}

fn primary_project(target: &KillTarget) -> (r: Vec<char>)
    ensures
        r@ == primary_project_text(target@),
{
    if target.listeners.len() > 0 {
        chars_of(target.listeners[0].project.as_str())
    } else {
        chars_of("?")
    }
}

fn primary_cwd(target: &KillTarget) -> (r: Vec<char>)
    ensures
        r@ == primary_cwd_text(target@),
{
    if target.listeners.len() > 0 {
        chars_of(target.listeners[0].cwd.as_str())
    } else {
        chars_of("?")
    }
}

impl KillTarget {
    /// Compact single-line row for the terminal.
    pub fn cli_line(&self) -> (r: String)
        ensures
            r@ == cli_text(self@),
    {
        let ports = format_ports(self);
        let comm = primary_comm(self);
        let pid_summary = format_pid_summary(self);
        let address = format_addresses(self);
        let mut out: Vec<char> = Vec::new();
        push_padded(&mut out, &ports, 18);
        push_str(&mut out, "  ");
        push_padded(&mut out, &comm, 14);
        push_str(&mut out, "  ");
        push_padded(&mut out, &pid_summary, 18);
        push_str(&mut out, "  ");
        push_chars(&mut out, &address);
        string_of(&out)
    }

    /// Menu title in the panels.
    pub fn panel_label(&self) -> (r: String)
        ensures
            r@ == panel_label_text(self@),
    {
        let ports = format_ports(self);
        let comm = primary_comm(self);
        let project = primary_project(self);
        let mut out: Vec<char> = Vec::new();
        push_chars(&mut out, &ports);
        push_str(&mut out, "  ");
        push_chars(&mut out, &project);
        push_str(&mut out, " (");
        push_chars(&mut out, &comm);
        push_str(&mut out, ")");
        string_of(&out)
    }

    /// Menu subtitle in the panels.
    pub fn panel_detail(&self) -> (r: String)
        ensures
            r@ == panel_detail_text(self@),
    {
        let cwd = primary_cwd(self);
        let note = format_process_note(self);
        let mut out: Vec<char> = Vec::new();
        push_chars(&mut out, &cwd);
        if note.len() > 0 {
            push_str(&mut out, "  ");
            push_chars(&mut out, &note);
        }
        string_of(&out)
    }
}

/// The detail of a target is its working directory, followed for a target
/// of several processes by a count: of its related workers when it has
/// some; else of its listeners when it has several (a target with several
/// processes, no related workers and several listeners counts its
/// listeners, not its processes); else of its processes.
pub proof fn lemma_detail_counts(t: KillTargetView)
    ensures
        t.all_pid_set().len() <= 1 ==> panel_detail_text(t) == primary_cwd_text(t),
        t.all_pid_set().len() > 1 && t.extra_pids.len() > 0 ==> panel_detail_text(t)
            == primary_cwd_text(t) + "  "@ + ("+"@ + dec(t.extra_pids.len()) + " related"@),
        t.all_pid_set().len() > 1 && t.extra_pids.len() == 0 && t.listeners.len() > 1
            ==> panel_detail_text(t) == primary_cwd_text(t) + "  "@ + dec(t.listeners.len())
            + " ports"@,
        t.all_pid_set().len() > 1 && t.extra_pids.len() == 0 && t.listeners.len() <= 1
            ==> panel_detail_text(t) == primary_cwd_text(t) + "  "@ + dec(t.all_pid_set().len())
            + " procs"@,
{
    reveal_strlit(" ports");
    reveal_strlit(" related");
    reveal_strlit(" procs");
    assert((dec(t.listeners.len()) + " ports"@).len() > 0);
    assert(("+"@ + dec(t.extra_pids.len()) + " related"@).len() > 0);
    assert((dec(t.all_pid_set().len()) + " procs"@).len() > 0);
}

} // verus!
