//! Which menu `port-killer menu` opens, in a build without the GTK window.
use vstd::prelude::*;
use crate::display::panel_label_text;
use crate::group::{tviews, KillTarget, KillTargetView};
use crate::text::{dec, push_dec, push_str, string_of};

verus! {

broadcast use vstd::std_specs::hash::group_hash_axioms;

/// What the menu command does.
#[derive(Debug)]
pub enum MenuAction {
    /// Run the terminal picker.
    Interactive,
    /// Give up with this message.
    Fail(String),
}

/// The dropdown: without the GTK window, the terminal picker when there is
/// a terminal.
pub fn run_dropdown(interactive: bool) -> (r: MenuAction)
    ensures
        interactive ==> r is Interactive,
        !interactive ==> (r matches MenuAction::Fail(m) && m@
            == "built without GUI; use port-killer menu --tui"@),
{
    if interactive {
        MenuAction::Interactive
    } else {
        MenuAction::Fail("built without GUI; use port-killer menu --tui".to_owned())
    }
}

/// The full window: without the GTK window, the same as the dropdown.
pub fn run_window(interactive: bool) -> (r: MenuAction)
    ensures
        interactive ==> r is Interactive,
        !interactive ==> (r matches MenuAction::Fail(m) && m@
            == "built without GUI; use port-killer menu --tui"@),
{
    run_dropdown(interactive)
}

/// `menu`: the terminal picker when asked for; the window when asked for;
/// the dropdown on a graphical display; else the terminal picker on a
/// terminal; else an error.
pub fn run_menu(tui: bool, window: bool, display: bool, interactive: bool) -> (r: MenuAction)
    ensures
        tui ==> r is Interactive,
        !tui && interactive ==> r is Interactive,
        !tui && !interactive && (window || display) ==> (r matches MenuAction::Fail(m) && m@
            == "built without GUI; use port-killer menu --tui"@),
        !tui && !interactive && !window && !display ==> (r matches MenuAction::Fail(m) && m@
            == "no display available — use port-killer menu --tui from a terminal"@),
{
    if tui {
        return MenuAction::Interactive;
    }
    if window {
        return run_window(interactive);
    }
    if display {
        return run_dropdown(interactive);
    }
    if interactive {
        return MenuAction::Interactive;
    }
    MenuAction::Fail("no display available — use port-killer menu --tui from a terminal".to_owned())
}

/// The dropdown's height for `count` targets: 64 points a row, at least
/// 180 and at most 420.
pub fn dropdown_height(count: usize) -> (r: i32)
    requires
        count * 64 <= i32::MAX,
    ensures
        r == (if count * 64 < 180 {
            180
        } else if count * 64 > 420 {
            420
        } else {
            count * 64
        }),
{
    let h = (count as i32) * 64;
    if h < 180 {
        180
    } else if h > 420 {
        420
    } else {
        h
    }
}

/// The question before one target of the dropdown is stopped.
pub fn confirm_one_text(target: &KillTarget) -> (r: String)
    ensures
        r@ == "Stop "@ + panel_label_text(target@) + "?"@,
{
    let label = target.panel_label();
    let mut out: Vec<char> = Vec::new();
    push_str(&mut out, "Stop ");
    push_str(&mut out, label.as_str());
    push_str(&mut out, "?");
    string_of(&out)
}

/// How many processes the targets `ts` stop, counted target by target.
pub open spec fn process_total(ts: Seq<KillTargetView>) -> nat
    decreases ts.len(),
{
    if ts.len() == 0 {
        0
    } else {
        process_total(ts.drop_last()) + ts.last().all_pid_set().len()
    }
}

/// The question before the targets the window's user selected are stopped:
/// how many groups, and how many processes in all.
pub fn confirm_many_text(selected: &[KillTarget]) -> (r: String)
    requires
        process_total(tviews(selected@)) <= usize::MAX,
    ensures
        r@ == "Stop "@ + dec(selected@.len() as nat) + " group(s) ("@ + dec(
            process_total(tviews(selected@)),
        ) + " process(es) total)?"@,
{
    let mut total: usize = 0;
    let mut i: usize = 0;
    while i < selected.len()
        invariant
            i <= selected.len(),
            process_total(tviews(selected@)) <= usize::MAX,
            total == process_total(tviews(selected@).take(i as int)),
        decreases selected.len() - i,
    {
        proof {
            lemma_process_total_prefix(tviews(selected@), i as int + 1);
            let t = tviews(selected@).take(i + 1);
            assert(t.drop_last() =~= tviews(selected@).take(i as int));
        }
        let n = selected[i].all_pids().len();
        total = total + n;
        i = i + 1;
    }
    assert(tviews(selected@).take(selected.len() as int) =~= tviews(selected@));
    let mut out: Vec<char> = Vec::new();
    push_str(&mut out, "Stop ");
    push_dec(&mut out, selected.len() as u64);
    push_str(&mut out, " group(s) (");
    push_dec(&mut out, total as u64);
    push_str(&mut out, " process(es) total)?");
    string_of(&out)
}

/// The count of a prefix is at most the count of the whole.
proof fn lemma_process_total_prefix(ts: Seq<KillTargetView>, k: int)
    requires
        0 <= k <= ts.len(),
    ensures
        process_total(ts.take(k)) <= process_total(ts),
    decreases ts.len(),
{
    if k < ts.len() {
        assert(ts.drop_last().take(k) =~= ts.take(k));
        lemma_process_total_prefix(ts.drop_last(), k);
    } else {
        assert(ts.take(k) =~= ts);
    }
}

} // verus!
