//! What the terminal picker stops for the rows the user selected.
use vstd::prelude::*;
use std::collections::HashSet;
use crate::group::{add_all, KillTarget};
use crate::listener::Listener;
use crate::text::{dec, push_dec, push_str, string_of};

verus! {

/// The position of the first target among whose listeners `pid` is.
pub open spec fn first_target_with(ts: Seq<KillTarget>, pid: u32) -> Option<int>
    decreases ts.len(),
{
    if ts.len() == 0 {
        None
    } else if ts[0]@.listener_pid_set().contains(pid) {
        Some(0)
    } else {
        match first_target_with(ts.drop_first(), pid) {
            Some(k) => Some(k + 1),
            None => None,
        }
    }
}

/// What selecting row `i` stops: every pid of the first target holding that
/// row's process; nothing for a row that is not there.
pub open spec fn selection_pids(ls: Seq<Listener>, ts: Seq<KillTarget>, i: int) -> Set<u32> {
    if 0 <= i < ls.len() {
        match first_target_with(ts, ls[i].pid) {
            Some(k) => ts[k]@.all_pid_set(),
            None => Set::empty(),
        }
    } else {
        Set::empty()
    }
}

/// What the selected rows stop together.
pub open spec fn selected_pids(ls: Seq<Listener>, ts: Seq<KillTarget>, sel: Seq<usize>) -> Set<u32>
    decreases sel.len(),
{
    if sel.len() == 0 {
        Set::empty()
    } else {
        selected_pids(ls, ts, sel.drop_last()).union(selection_pids(ls, ts, sel.last() as int))
    }
}

proof fn lemma_first_target_with(ts: Seq<KillTarget>, pid: u32, k: int)
    requires
        0 <= k <= ts.len(),
        forall|j: int| 0 <= j < k ==> !(#[trigger] ts[j]@.listener_pid_set().contains(pid)),
    ensures
        k < ts.len() && ts[k]@.listener_pid_set().contains(pid) ==> first_target_with(ts, pid) == Some(k),
        k == ts.len() ==> first_target_with(ts, pid) is None,
    decreases k,
{
    if k > 0 {
        let rest = ts.drop_first();
        assert forall|j: int| 0 <= j < k - 1 implies !(#[trigger] rest[j]@.listener_pid_set().contains(pid)) by {
            assert(rest[j] == ts[j + 1]);
        }
        lemma_first_target_with(rest, pid, k - 1);
    }
}

/// The pids to stop for the selected rows: for each row, all the processes
/// of the group its process belongs to.
pub fn pids_for_selections(listeners: &[Listener], targets: &[KillTarget], selections: &[usize]) -> (r:
    HashSet<u32>)
    ensures
        r@ == selected_pids(listeners@, targets@, selections@),
{
    let mut pids: HashSet<u32> = HashSet::new();
    let mut s: usize = 0;
    while s < selections.len()
        invariant
            s <= selections.len(),
            pids@ == selected_pids(listeners@, targets@, selections@.take(s as int)),
        decreases selections.len() - s,
    {
        let index = selections[s];
        let ghost before = pids@;
        proof {
            let t = selections@.take(s + 1);
            assert(t.drop_last() =~= selections@.take(s as int));
            assert(t.last() == index);
        }
        if index < listeners.len() {
            let pid = listeners[index].pid;
            let mut t: usize = 0;
            let mut found = false;
            while t < targets.len()
                invariant_except_break
                    !found,
                    pids@ == before,
                invariant
                    t <= targets.len(),
                    index < listeners@.len(),
                    pid == listeners@[index as int].pid,
                    forall|j: int| 0 <= j < t ==> !(#[trigger] targets@[j]@.listener_pid_set().contains(pid)),
                ensures
                    found ==> pids@ == before.union(selection_pids(listeners@, targets@, index as int)),
                    !found ==> pids@ == before && t == targets.len(),
                decreases targets.len() - t,
            {
                let lp = targets[t].listener_pids();
                if lp.contains(&pid) {
                    let all = targets[t].all_pids();
                    add_all(&mut pids, &all);
                    proof {
                        lemma_first_target_with(targets@, pid, t as int);
                    }
                    found = true;
                    break;
                }
                t = t + 1;
            }
            if !found {
                proof {
                    lemma_first_target_with(targets@, pid, targets@.len() as int);
                    assert(pids@ =~= before.union(Set::empty()));
                }
            }
        } else {
            assert(pids@ =~= before.union(Set::empty()));
        }
        s = s + 1;
    }
    assert(selections@.take(selections.len() as int) =~= selections@);
    pids
}

/// Where the terminal picker stands.
#[derive(Debug, Clone, Copy, PartialEq, Eq, Structural)]
pub enum PickerState {
    /// The listing is being read.
    Start,
    /// The user is choosing rows.
    Choosing,
    /// The user is asked to confirm.
    Confirming,
    /// The chosen processes are being stopped.
    Stopping,
    /// Nothing more to do.
    Finished,
}

/// What the outside work the picker asked for came to.
#[derive(Debug, Clone, Copy)]
pub enum PickerEvent {
    /// The listing holds this many dev servers.
    Listed(usize),
    /// The user chose this many rows.
    Chosen(usize),
    /// The user answered the confirmation.
    Answered(bool),
    /// This many processes were stopped.
    Stopped(u32),
}

/// What the picker asks for next.
#[derive(Debug)]
pub enum PickerAction {
    /// Let the user choose rows.
    Choose,
    /// Ask the user this question.
    Confirm(String),
    /// Stop the chosen processes and refresh Waybar.
    Stop,
    /// Print these lines; the picker is done.
    Print(Vec<String>),
}

/// The events the picker expects in each state.
pub open spec fn picker_expects(state: PickerState, event: PickerEvent) -> bool {
    match (state, event) {
        (PickerState::Start, PickerEvent::Listed(_)) => true,
        (PickerState::Choosing, PickerEvent::Chosen(_)) => true,
        (PickerState::Confirming, PickerEvent::Answered(_)) => true,
        (PickerState::Stopping, PickerEvent::Stopped(_)) => true,
        _ => false,
    }
}

/// The lines of a `Print` action.
pub open spec fn printed(a: PickerAction) -> Seq<Seq<char>> {
    match a {
        PickerAction::Print(v) => v@.map_values(|s: String| s@),
        _ => seq![],
    }
}

fn one_line(s: String) -> (r: Vec<String>)
    ensures
        r@.map_values(|t: String| t@) == seq![s@],
{
    let ghost t = s@;
    let mut v: Vec<String> = Vec::new();
    v.push(s);
    assert(v@.map_values(|t: String| t@) =~= seq![t]);
    v
}

/// The picker's next state and request, from where it stands and what came
/// back: with nothing listed it reports that and stops; with no row chosen
/// or the question declined it is cancelled; once confirmed it stops the
/// chosen processes and reports how many.
pub fn picker_step(state: PickerState, event: PickerEvent) -> (r: (PickerState, PickerAction))
    requires
        picker_expects(state, event),
    ensures
        match event {
            PickerEvent::Listed(n) => if n == 0 {
                r.0 == PickerState::Finished && r.1 is Print && printed(r.1) == seq![
                    "No dev servers running."@,
                    "Ports scanned: TCP 1024–65535 (system ports excluded)."@,
                ]
            } else {
                r.0 == PickerState::Choosing && r.1 is Choose
            },
            PickerEvent::Chosen(k) => if k == 0 {
                r.0 == PickerState::Finished && r.1 is Print && printed(r.1) == seq!["Cancelled."@]
            } else {
                r.0 == PickerState::Confirming && (r.1 matches PickerAction::Confirm(q) && q@ == "Kill "@
                    + dec(k as nat) + " server(s)?"@)
            },
            PickerEvent::Answered(yes) => if yes {
                r.0 == PickerState::Stopping && r.1 is Stop
            } else {
                r.0 == PickerState::Finished && r.1 is Print && printed(r.1) == seq!["Cancelled."@]
            },
            PickerEvent::Stopped(n) => r.0 == PickerState::Finished && r.1 is Print && printed(r.1)
                == seq!["Killed "@ + dec(n as nat) + " process(es)."@],
        },
{
    match event {
        PickerEvent::Listed(n) => {
            if n == 0 {
                let mut v: Vec<String> = Vec::new();
                v.push("No dev servers running.".to_owned());
                v.push("Ports scanned: TCP 1024–65535 (system ports excluded).".to_owned());
                assert(v@.map_values(|t: String| t@) =~= seq![
                    "No dev servers running."@,
                    "Ports scanned: TCP 1024–65535 (system ports excluded)."@,
                ]);
                (PickerState::Finished, PickerAction::Print(v))
            } else {
                (PickerState::Choosing, PickerAction::Choose)
            }
        },
        PickerEvent::Chosen(k) => {
            if k == 0 {
                (PickerState::Finished, PickerAction::Print(one_line("Cancelled.".to_owned())))
            } else {
                let mut q: Vec<char> = Vec::new();
                push_str(&mut q, "Kill ");
                push_dec(&mut q, k as u64);
                push_str(&mut q, " server(s)?");
                (PickerState::Confirming, PickerAction::Confirm(string_of(&q)))
            }
        },
        PickerEvent::Answered(yes) => {
            if yes {
                (PickerState::Stopping, PickerAction::Stop)
            } else {
                (PickerState::Finished, PickerAction::Print(one_line("Cancelled.".to_owned())))
            }
        },
        PickerEvent::Stopped(n) => {
            let mut m: Vec<char> = Vec::new();
            push_str(&mut m, "Killed ");
            push_dec(&mut m, n as u64);
            push_str(&mut m, " process(es).");
            (PickerState::Finished, PickerAction::Print(one_line(string_of(&m))))
        },
    }
}

} // verus!
