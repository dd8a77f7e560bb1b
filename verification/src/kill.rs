//! Stopping processes: the decisions between the owner check, the signals
//! and the check whether a process survived them.
//!
//! A [`KillRun`] says what to do next ([`KillRun::next_action`]) and takes
//! back what came of it ([`KillRun::step`]); the caller performs the checks
//! and sends the signals.
use vstd::prelude::*;
use std::collections::HashSet;
use crate::text::{
    dec, int_text, lemma_sorted_numbers, push_chars, push_dec, push_int, push_str, sorted_members,
    sorted_numbers, string_of,
};

verus! {

/// Why a process was not stopped.
#[derive(Debug)]
pub enum KillError {
    /// The process belongs to another user.
    NotOwned(u32),
    /// The signal could not be delivered.
    SignalFailed { pid: u32, message: String },
}

/// The message of an error.
pub open spec fn error_text(e: KillError) -> Seq<char> {
    match e {
        KillError::NotOwned(pid) => "refusing to kill pid "@ + dec(pid as nat)
            + ": not owned by current user"@,
        KillError::SignalFailed { pid, message } => "failed to kill pid "@ + dec(pid as nat) + ": "@
            + message@,
    }
}

impl KillError {
    /// The message shown for the error.
    pub fn message(&self) -> (r: String)
        ensures
            r@ == error_text(*self),
    {
        let mut out: Vec<char> = Vec::new();
        match self {
            KillError::NotOwned(pid) => {
                push_str(&mut out, "refusing to kill pid ");
                push_dec(&mut out, *pid as u64);
                push_str(&mut out, ": not owned by current user");
            },
            KillError::SignalFailed { pid, message } => {
                push_str(&mut out, "failed to kill pid ");
                push_dec(&mut out, *pid as u64);
                push_str(&mut out, ": ");
                let m: Vec<char> = crate::text::chars_of(message.as_str());
                push_chars(&mut out, &m);
            },
        }
        string_of(&out)
    }
}

/// What came of running `kill` with a signal.
#[derive(Debug)]
pub enum SignalOutcome {
    /// `kill` exited successfully.
    Delivered,
    /// `kill` exited unsuccessfully, with this exit code when it had one.
    Exited(Option<i32>),
    /// `kill` could not be started; the reason.
    NotStarted(String),
}

/// The answer to the last action.
#[derive(Debug)]
pub enum KillEvent {
    /// The process is the user's own.
    Owner(bool),
    /// The signal was sent.
    Signalled(SignalOutcome),
    /// The process still exists.
    Running(bool),
}

/// What to do next.
#[derive(Debug, PartialEq, Eq, Structural)]
pub enum KillAction {
    /// Check that the process belongs to the user.
    CheckOwner(u32),
    /// Send `signal` to the process.
    Signal { pid: u32, signal: i32 },
    /// Check whether the process still exists.
    CheckRunning(u32),
    /// Nothing: the run is over; [`KillRun::finish`] gives its result.
    Done,
}

/// Where a run stands.
#[derive(Debug)]
pub enum KillStage {
    /// About to check the owner of the current process.
    CheckOwner,
    /// About to send the first signal to the current process.
    FirstSignal,
    /// About to check whether the current process survived SIGTERM.
    CheckRunning,
    /// About to send SIGKILL to the current process.
    KillSignal,
    /// Every process was stopped; how many.
    Killed(u32),
    /// The process belongs to another user; nothing more was done.
    Refused(u32),
    /// A signal to the process failed; nothing more was done.
    Failed(u32, SignalOutcome),
}

/// The stopping of a list of processes, one after the other, with the
/// first failure ending it.
#[derive(Debug)]
pub struct KillRun {
    /// The processes, in the order they are stopped.
    pub pids: Vec<u32>,
    /// Send SIGKILL at once instead of SIGTERM first.
    pub force: bool,
    /// The current process.
    pub index: usize,
    /// How many processes were stopped so far.
    pub killed: u32,
    pub stage: KillStage,
}

/// The stage is one that works on the current process.
pub open spec fn active(st: KillStage) -> bool {
    match st {
        KillStage::CheckOwner | KillStage::FirstSignal | KillStage::CheckRunning
        | KillStage::KillSignal => true,
        _ => false,
    }
}

impl KillRun {
    /// The run is consistent: one process at a time, each counted once
    /// stopped, and a finished run that stopped them all counts them all.
    pub open spec fn wf(self) -> bool {
        &&& self.pids.len() <= u32::MAX
        &&& self.index <= self.pids.len()
        &&& self.killed == self.index
        &&& active(self.stage) ==> self.index < self.pids.len()
        &&& self.stage matches KillStage::Killed(n) ==> n == self.pids.len() && self.index
            == self.pids.len()
        &&& self.stage matches KillStage::Failed(_, o) ==> !(o is Delivered)
    }

    /// The process being worked on.
    pub open spec fn current(self) -> u32 {
        self.pids@[self.index as int]
    }

    /// The action the run asks for.
    pub open spec fn action(self) -> KillAction {
        match self.stage {
            KillStage::CheckOwner => KillAction::CheckOwner(self.current()),
            KillStage::FirstSignal => KillAction::Signal {
                pid: self.current(),
                signal: if self.force {
                    9
                } else {
                    15
                },
            },
            KillStage::CheckRunning => KillAction::CheckRunning(self.current()),
            KillStage::KillSignal => KillAction::Signal { pid: self.current(), signal: 9 },
            _ => KillAction::Done,
        }
    }

    /// The run with the current process counted as stopped.
    pub open spec fn advanced(self) -> KillRun {
        let i = (self.index + 1) as usize;
        let k = (self.killed + 1) as u32;
        KillRun {
            pids: self.pids,
            force: self.force,
            index: i,
            killed: k,
            stage: if i >= self.pids.len() {
                KillStage::Killed(k)
            } else {
                KillStage::CheckOwner
            },
        }
    }

    /// The run with its stage replaced.
    pub open spec fn at(self, stage: KillStage) -> KillRun {
        KillRun { pids: self.pids, force: self.force, index: self.index, killed: self.killed, stage }
    }

    /// The run after the answer `e` to its action; an answer that does not
    /// fit the action leaves it as it is.
    pub open spec fn next(self, e: KillEvent) -> KillRun {
        match (self.stage, e) {
            (KillStage::CheckOwner, KillEvent::Owner(true)) => self.at(KillStage::FirstSignal),
            (KillStage::CheckOwner, KillEvent::Owner(false)) => self.at(
                KillStage::Refused(self.current()),
            ),
            (KillStage::FirstSignal, KillEvent::Signalled(o)) => match o {
                SignalOutcome::Delivered => if self.force {
                    self.advanced()
                } else {
                    self.at(KillStage::CheckRunning)
                },
                _ => self.at(KillStage::Failed(self.current(), o)),
            },
            (KillStage::CheckRunning, KillEvent::Running(true)) => self.at(KillStage::KillSignal),
            (KillStage::CheckRunning, KillEvent::Running(false)) => self.advanced(),
            (KillStage::KillSignal, KillEvent::Signalled(o)) => match o {
                SignalOutcome::Delivered => self.advanced(),
                _ => self.at(KillStage::Failed(self.current(), o)),
            },
            _ => self,
        }
    }

    /// A fresh run over `pids`.
    pub open spec fn fresh(pids: Vec<u32>, force: bool) -> KillRun {
        KillRun {
            pids,
            force,
            index: 0,
            killed: 0,
            stage: if pids.len() == 0 {
                KillStage::Killed(0)
            } else {
                KillStage::CheckOwner
            },
        }
    }

    /// What the run asks for next.
    pub fn next_action(&self) -> (r: KillAction)
        requires
            self.wf(),
        ensures
            r == self.action(),
    {
        match &self.stage {
            KillStage::CheckOwner => KillAction::CheckOwner(self.pids[self.index]),
            KillStage::FirstSignal => {
                let signal: i32 = if self.force {
                    9
                } else {
                    15
                };
                KillAction::Signal { pid: self.pids[self.index], signal }
            },
            KillStage::CheckRunning => KillAction::CheckRunning(self.pids[self.index]),
            KillStage::KillSignal => KillAction::Signal { pid: self.pids[self.index], signal: 9 },
            _ => KillAction::Done,
        }
    }

    /// Counts the current process as stopped and moves to the next one.
    fn advance(&mut self)
        requires
            old(self).wf(),
            active(old(self).stage),
        ensures
            *final(self) == old(self).advanced(),
    {
        self.index = self.index + 1;
        self.killed = self.killed + 1;
        if self.index >= self.pids.len() {
            self.stage = KillStage::Killed(self.killed);
        } else {
            self.stage = KillStage::CheckOwner;
        }
    }

    /// Takes the answer to the last action.
    pub fn step(&mut self, event: KillEvent)
        requires
            old(self).wf(),
        ensures
            *final(self) == old(self).next(event),
            final(self).wf(),
    {
        let ghost e = event;
        match event {
            KillEvent::Owner(owned) => {
                if let KillStage::CheckOwner = self.stage {
                    if owned {
                        self.stage = KillStage::FirstSignal;
                    } else {
                        self.stage = KillStage::Refused(self.pids[self.index]);
                    }
                }
            },
            KillEvent::Signalled(outcome) => {
                match self.stage {
                    KillStage::FirstSignal => {
                        match outcome {
                            SignalOutcome::Delivered => {
                                if self.force {
                                    self.advance();
                                } else {
                                    self.stage = KillStage::CheckRunning;
                                }
                            },
                            _ => {
                                self.stage = KillStage::Failed(self.pids[self.index], outcome);
                            },
                        }
                    },
                    KillStage::KillSignal => {
                        match outcome {
                            SignalOutcome::Delivered => {
                                self.advance();
                            },
                            _ => {
                                self.stage = KillStage::Failed(self.pids[self.index], outcome);
                            },
                        }
                    },
                    _ => {},
                }
            },
            KillEvent::Running(running) => {
                if let KillStage::CheckRunning = self.stage {
                    if running {
                        self.stage = KillStage::KillSignal;
                    } else {
                        self.advance();
                    }
                }
            },
        }
    }

    /// The result of a finished run: how many processes were stopped, or
    /// why the run stopped early.
    pub fn finish(self) -> (r: Option<Result<u32, KillError>>)
        requires
            self.wf(),
        ensures
            match self.stage {
                KillStage::Killed(n) => r == Some(Ok::<u32, KillError>(n)),
                KillStage::Refused(p) => r == Some(Err::<u32, KillError>(KillError::NotOwned(p))),
                KillStage::Failed(p, o) => r matches Some(Err(KillError::SignalFailed { pid, message }))
                    && pid == p && message@ == failure_text(o),
                _ => r is None,
            },
    {
        match self.stage {
            KillStage::Killed(n) => Some(Ok(n)),
            KillStage::Refused(p) => Some(Err(KillError::NotOwned(p))),
            KillStage::Failed(p, o) => {
                let message = failure_message(o);
                Some(Err(KillError::SignalFailed { pid: p, message }))
            },
            _ => None,
        }
    }
}

/// Why a signal failed, as the error message says it.
pub open spec fn failure_text(o: SignalOutcome) -> Seq<char> {
    match o {
        SignalOutcome::Exited(code) => "kill exited with status "@ + int_text(
            match code {
                Some(c) => c as int,
                None => -1,
            },
        ),
        SignalOutcome::NotStarted(m) => m@,
        SignalOutcome::Delivered => seq![],
    }
}

fn failure_message(o: SignalOutcome) -> (r: String)
    ensures
        r@ == failure_text(o),
{
    match o {
        SignalOutcome::Exited(code) => {
            let mut out: Vec<char> = Vec::new();
            push_str(&mut out, "kill exited with status ");
            let c: i32 = match code {
                Some(c) => c,
                None => -1,
            };
            push_int(&mut out, c);
            string_of(&out)
        },
        SignalOutcome::NotStarted(m) => m,
        SignalOutcome::Delivered => String::new(),
    }
}

/// Every element is strictly above every later one.
pub open spec fn decreasing(s: Seq<u32>) -> bool {
    forall|i: int, j: int| 0 <= i < j < s.len() ==> #[trigger] s[i] > #[trigger] s[j]
}

/// Starts stopping `pids`, highest pid first; each process gets SIGTERM,
/// and SIGKILL when it survives it (or SIGKILL at once when `force`).
pub fn kill_pids(pids: &HashSet<u32>, force: bool) -> (r: KillRun)
    requires
        pids@.len() <= u32::MAX,
    ensures
        r == KillRun::fresh(r.pids, force),
        r.pids@ == sorted_numbers(pids@).reverse(),
        decreasing(r.pids@),
        r.pids@.to_set() == pids@,
        r.wf(),
{
    let q = sorted_members(pids);
    proof {
        lemma_sorted_numbers(q@);
        q@.unique_seq_to_set();
        assert(q@.no_duplicates()) by {
            assert forall|i: int, j: int| 0 <= i < q@.len() && 0 <= j < q@.len() && i != j implies q@[i]
                != q@[j] by {
                if i < j {
                    assert(q@[i] < q@[j]);
                } else {
                    assert(q@[j] < q@[i]);
                }
            }
        }
    }
    let mut ordered: Vec<u32> = Vec::new();
    let mut i: usize = q.len();
    while i > 0
        invariant
            i <= q.len(),
            ordered@.len() == q.len() - i,
            forall|t: int| 0 <= t < ordered@.len() ==> ordered@[t] == q@[q.len() - 1 - t],
        decreases i,
    {
        i = i - 1;
        ordered.push(q[i]);
    }
    proof {
        assert(ordered@ =~= q@.reverse());
        assert forall|a: int, b: int| 0 <= a < b < ordered@.len() implies #[trigger] ordered@[a]
            > #[trigger] ordered@[b] by {
            assert(q@[q.len() - 1 - b] < q@[q.len() - 1 - a]);
        }
        assert forall|x: u32| ordered@.to_set().contains(x) <==> q@.to_set().contains(x) by {
            if ordered@.contains(x) {
                let t = choose|t: int| 0 <= t < ordered@.len() && ordered@[t] == x;
                assert(q@[q.len() - 1 - t] == x);
            }
            if q@.contains(x) {
                let t = choose|t: int| 0 <= t < q@.len() && q@[t] == x;
                assert(ordered@[q.len() - 1 - t] == x);
            }
        }
        assert(ordered@.to_set() =~= pids@);
    }
    let stage = if ordered.len() == 0 {
        KillStage::Killed(0)
    } else {
        KillStage::CheckOwner
    };
    KillRun { pids: ordered, force, index: 0, killed: 0, stage }
}

/// Starts stopping the single process `pid`.
pub fn kill_process(pid: u32, force: bool) -> (r: KillRun)
    ensures
        r == KillRun::fresh(r.pids, force),
        r.pids@ == seq![pid],
        r.wf(),
{
    let mut pids: Vec<u32> = Vec::new();
    pids.push(pid);
    KillRun { pids, force, index: 0, killed: 0, stage: KillStage::CheckOwner }
}

/// The run after the answers `es`, in order.
pub open spec fn after(s: KillRun, es: Seq<KillEvent>) -> KillRun
    decreases es.len(),
{
    if es.len() == 0 {
        s
    } else {
        after(s, es.drop_last()).next(es.last())
    }
}

/// The answer `e` is of the kind the run's action asks for.
pub open spec fn fits(s: KillRun, e: KillEvent) -> bool {
    match (s.stage, e) {
        (KillStage::CheckOwner, KillEvent::Owner(_)) => true,
        (KillStage::FirstSignal, KillEvent::Signalled(_)) => true,
        (KillStage::CheckRunning, KillEvent::Running(_)) => true,
        (KillStage::KillSignal, KillEvent::Signalled(_)) => true,
        _ => false,
    }
}

/// The stage is one reached after the current process's owner check
/// was answered `true`.
pub open spec fn confirmed(st: KillStage) -> bool {
    match st {
        KillStage::FirstSignal | KillStage::CheckRunning | KillStage::KillSignal => true,
        _ => false,
    }
}

/// Every answer keeps a run consistent, its processes and its `force`, and
/// never moves it back to an earlier process.
pub proof fn lemma_next_keeps_wf(s: KillRun, e: KillEvent)
    requires
        s.wf(),
    ensures
        s.next(e).wf(),
        s.next(e).pids == s.pids,
        s.next(e).force == s.force,
        s.next(e).index >= s.index,
{
}

/// A run stays consistent whatever the answers.
pub proof fn lemma_after_keeps_wf(s: KillRun, es: Seq<KillEvent>)
    requires
        s.wf(),
    ensures
        after(s, es).wf(),
        after(s, es).pids == s.pids,
        after(s, es).force == s.force,
        after(s, es).index >= s.index,
    decreases es.len(),
{
    if es.len() > 0 {
        lemma_after_keeps_wf(s, es.drop_last());
        lemma_next_keeps_wf(after(s, es.drop_last()), es.last());
    }
}

/// A finished run ignores every further answer: after the first failure
/// nothing more is done.
pub proof fn lemma_done_is_final(s: KillRun, e: KillEvent)
    requires
        s.wf(),
        s.action() == KillAction::Done,
    ensures
        s.next(e) == s,
{
}

/// An answer of the wrong kind changes nothing.
pub proof fn lemma_unfit_answer_ignored(s: KillRun, e: KillEvent)
    requires
        !fits(s, e),
    ensures
        s.next(e) == s,
{
}

/// Without `force`, each process first gets SIGTERM, right after its owner
/// check was answered `true`, and SIGKILL only right after it was found to
/// have survived.
pub proof fn lemma_sigkill_only_after_survival(s: KillRun, e: KillEvent)
    requires
        s.wf(),
        !s.force,
        fits(s, e),
    ensures
        s.next(e).action() matches KillAction::Signal { pid, signal } ==> (signal == 15 && s.action()
            == KillAction::CheckOwner(pid) && e matches KillEvent::Owner(true)) || (signal == 9
            && s.action() == KillAction::CheckRunning(pid) && e matches KillEvent::Running(true)),
{
}

/// In a run in a confirmed stage, some earlier answer was `true` to the
/// owner check of its current process.
proof fn lemma_confirmed_has_check(s: KillRun, es: Seq<KillEvent>)
    requires
        s == KillRun::fresh(s.pids, s.force),
        s.wf(),
    ensures
        confirmed(after(s, es).stage) ==> exists|k: int|
            0 <= k < es.len() && #[trigger] after(s, es.take(k)).action() == KillAction::CheckOwner(
                after(s, es).current(),
            ) && es[k] matches KillEvent::Owner(true),
    decreases es.len(),
{
    if es.len() > 0 {
        let pre = es.drop_last();
        let e = es.last();
        let s1 = after(s, pre);
        lemma_confirmed_has_check(s, pre);
        lemma_after_keeps_wf(s, pre);
        let s2 = s1.next(e);
        assert(after(s, es) == s2);
        assert forall|k: int| 0 <= k < pre.len() implies #[trigger] after(s, es.take(k)) == after(
            s,
            pre.take(k),
        ) by {
            assert(es.take(k) =~= pre.take(k));
        }
        if confirmed(s2.stage) {
            if s1.stage is CheckOwner {
                let k = pre.len() as int;
                assert(es.take(k) =~= pre);
                assert(after(s, es.take(k)).action() == KillAction::CheckOwner(s2.current()));
            } else {
                assert(confirmed(s1.stage));
                assert(s2.index == s1.index);
                let k = choose|k: int|
                    0 <= k < pre.len() && #[trigger] after(s, pre.take(k)).action()
                        == KillAction::CheckOwner(s1.current()) && pre[k] matches KillEvent::Owner(true);
                assert(after(s, es.take(k)) == after(s, pre.take(k)));
                assert(es[k] == pre[k]);
            }
        }
    }
}

/// A run started by `kill_pids` or `kill_process` asks to signal a process
/// only after the check that the process is the user's own was answered
/// `true`: other users' processes are never signalled.
pub proof fn lemma_signal_only_after_owner_check(s: KillRun, es: Seq<KillEvent>)
    requires
        s == KillRun::fresh(s.pids, s.force),
        s.wf(),
    ensures
        after(s, es).action() matches KillAction::Signal { pid, signal } ==> exists|k: int|
            0 <= k < es.len() && #[trigger] after(s, es.take(k)).action() == KillAction::CheckOwner(
                pid,
            ) && es[k] matches KillEvent::Owner(true),
{
    lemma_confirmed_has_check(s, es);
}

/// Along any answers, the owner checks of a run started by `kill_pids` name
/// its processes from the highest pid down.
pub proof fn lemma_owner_checks_descend(s: KillRun, es: Seq<KillEvent>, j: int, k: int, p: u32, q: u32)
    requires
        s.wf(),
        decreasing(s.pids@),
        0 <= j <= k <= es.len(),
        after(s, es.take(j)).action() == KillAction::CheckOwner(p),
        after(s, es.take(k)).action() == KillAction::CheckOwner(q),
    ensures
        p >= q,
{
    let a = es.take(j);
    let b = es.take(k);
    lemma_after_keeps_wf(s, a);
    lemma_after_keeps_wf(s, b);
    lemma_prefix_le(s, b, j);
    assert(b.take(j) =~= a);
    let sa = after(s, a);
    let sb = after(s, b);
    if sa.index < sb.index {
        assert(s.pids@[sa.index as int] > s.pids@[sb.index as int]);
    }
}

/// The index after a prefix is at most the index after all the answers.
proof fn lemma_prefix_le(s: KillRun, es: Seq<KillEvent>, j: int)
    requires
        s.wf(),
        0 <= j <= es.len(),
    ensures
        after(s, es.take(j)).index <= after(s, es).index,
    decreases es.len() - j,
{
    if j < es.len() {
        lemma_prefix_le(s, es, j + 1);
        let t = es.take(j + 1);
        assert(t.drop_last() =~= es.take(j));
        lemma_after_keeps_wf(s, es.take(j));
        lemma_next_keeps_wf(after(s, es.take(j)), t.last());
    } else {
        assert(es.take(j) =~= es);
    }
}

} // verus!
