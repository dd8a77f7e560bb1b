//! Kill targets: listeners grouped with the processes that belong to them.
use vstd::prelude::*;
use std::collections::HashSet;
use vstd::std_specs::iter::IteratorSpec;
use crate::listener::{lviews, Listener, ListenerView};
use crate::proc::{connected_listener_components, precedes, user_owned_descendants, ProcTable};

verus! {

broadcast use {vstd::std_specs::hash::group_hash_axioms, vstd::seq::Seq::lemma_push_to_set_commute};

/// Listeners to stop together, with the user's processes below them.
#[derive(Debug)]
pub struct KillTarget {
    pub listeners: Vec<Listener>,
    /// User-owned worker/child processes not listening on a dev port.
    pub extra_pids: HashSet<u32>,
}

/// A kill target as the contracts see it.
#[verifier::ext_equal]
pub struct KillTargetView {
    pub listeners: Seq<ListenerView>,
    pub extra_pids: Set<u32>,
}

impl View for KillTarget {
    type V = KillTargetView;

    open spec fn view(&self) -> KillTargetView {
        KillTargetView { listeners: lviews(self.listeners@), extra_pids: self.extra_pids@ }
    }
}

/// The views of a sequence of targets.
pub open spec fn tviews(s: Seq<KillTarget>) -> Seq<KillTargetView> {
    s.map_values(|t: KillTarget| t@)
}

/// The pids of `s`.
pub open spec fn pids_of(s: Seq<ListenerView>) -> Set<u32> {
    s.map_values(|l: ListenerView| l.pid).to_set()
}

impl KillTargetView {
    /// The pids of the target's listeners.
    pub open spec fn listener_pid_set(self) -> Set<u32> {
        pids_of(self.listeners)
    }

    /// Every pid the target stops.
    pub open spec fn all_pid_set(self) -> Set<u32> {
        self.listener_pid_set().union(self.extra_pids)
    }
}

/// The members of `s`, one by one, added to `out`.
pub(crate) fn add_all(out: &mut HashSet<u32>, s: &HashSet<u32>)
    ensures
        final(out)@ == old(out)@.union(s@),
{
    let ghost start = out@;
    let ghost all = vstd::std_specs::hash::spec_hash_keys_iter(s).remaining();
    let ghost mut seen: Seq<u32> = Seq::empty();
    for x in it: s.iter()
        invariant
            it.seq() == all,
            all.unref().to_set() == s@,
            seen == it.seq().take(it.index() as int).unref(),
            out@ == start.union(seen.to_set()),
    {
        out.insert(*x);
        proof {
            let prev = seen;
            seen = seen.push(*x);
            assert(seen =~= it.seq().take(it.index() + 1).unref());
            assert(out@ =~= start.union(seen.to_set()));
        }
    }
    proof {
        assert(all.take(all.len() as int) =~= all);
        assert(out@ =~= start.union(s@));
    }
}

/// The pids of `listeners`.
fn pid_set(listeners: &Vec<Listener>) -> (r: HashSet<u32>)
    ensures
        r@ == pids_of(lviews(listeners@)),
{
    let mut pids: HashSet<u32> = HashSet::new();
    let mut i: usize = 0;
    while i < listeners.len()
        invariant
            i <= listeners.len(),
            pids@ == pids_of(lviews(listeners@).take(i as int)),
        decreases listeners.len() - i,
    {
        pids.insert(listeners[i].pid);
        proof {
            let s = lviews(listeners@);
            assert(s.take(i + 1) =~= s.take(i as int).push(s[i as int]));
            assert(s.take(i + 1).map_values(|l: ListenerView| l.pid) =~= s.take(i as int).map_values(
                |l: ListenerView| l.pid,
            ).push(s[i as int].pid));
        }
        i = i + 1;
    }
    assert(lviews(listeners@).take(listeners.len() as int) =~= lviews(listeners@));
    pids
}

impl KillTarget {
    /// The pids of the target's listeners.
    pub fn listener_pids(&self) -> (r: HashSet<u32>)
        ensures
            r@ == self@.listener_pid_set(),
    {
        pid_set(&self.listeners)
    }

    /// Every pid the target stops: its listeners and their related processes.
    pub fn all_pids(&self) -> (r: HashSet<u32>)
        ensures
            r@ == self@.all_pid_set(),
    {
        let mut pids = self.listener_pids();
        add_all(&mut pids, &self.extra_pids);
        pids
    }
}

/// Port first, then pid.
pub open spec fn key_lt(a: ListenerView, b: ListenerView) -> bool {
    a.port < b.port || (a.port == b.port && a.pid < b.pid)
}

/// `x` placed after every element of `s` that it does not precede by port and pid.
pub open spec fn insert_by_key(s: Seq<ListenerView>, x: ListenerView) -> Seq<ListenerView>
    decreases s.len(),
{
    if s.len() == 0 {
        seq![x]
    } else if key_lt(x, s.last()) {
        insert_by_key(s.drop_last(), x).push(s.last())
    } else {
        s.push(x)
    }
}

/// The listeners of `ls` whose pid is in `comp`, stably sorted by port and pid.
pub open spec fn group_listeners(ls: Seq<ListenerView>, comp: Set<u32>) -> Seq<ListenerView>
    decreases ls.len(),
{
    if ls.len() == 0 {
        seq![]
    } else {
        let r = group_listeners(ls.drop_last(), comp);
        if comp.contains(ls.last().pid) {
            insert_by_key(r, ls.last())
        } else {
            r
        }
    }
}

/// `d` is an owned descendant of some member of `roots`.
pub open spec fn reached_from(procs: &ProcTable, roots: Set<u32>, d: u32) -> bool {
    exists|p: u32| roots.contains(p) && #[trigger] procs.is_owned_descendant(p, d)
}

/// The owned descendants of `roots` that are not among the listener pids `lp`.
pub open spec fn extra_pid_set(procs: &ProcTable, roots: Set<u32>, lp: Set<u32>) -> Set<u32> {
    Set::new(|d: u32| !lp.contains(d) && reached_from(procs, roots, d))
}

/// The target of the group `comp` of the listeners `ls`.
pub open spec fn target_for(procs: &ProcTable, ls: Seq<ListenerView>, comp: Set<u32>) -> KillTargetView {
    KillTargetView {
        listeners: group_listeners(ls, comp),
        extra_pids: extra_pid_set(procs, comp, pids_of(ls)),
    }
}

/// The port of the target's first listener; `u16::MAX` when it has none.
pub open spec fn first_port(t: KillTargetView) -> u16 {
    if t.listeners.len() > 0 {
        t.listeners[0].port
    } else {
        u16::MAX
    }
}

/// `x` placed after every target of `s` whose first port is not above its own.
pub open spec fn insert_target(s: Seq<KillTargetView>, x: KillTargetView) -> Seq<KillTargetView>
    decreases s.len(),
{
    if s.len() == 0 {
        seq![x]
    } else if first_port(x) < first_port(s.last()) {
        insert_target(s.drop_last(), x).push(s.last())
    } else {
        s.push(x)
    }
}

/// `s` stably sorted by first port.
pub open spec fn sort_targets(s: Seq<KillTargetView>) -> Seq<KillTargetView>
    decreases s.len(),
{
    if s.len() == 0 {
        seq![]
    } else {
        insert_target(sort_targets(s.drop_last()), s.last())
    }
}

/// The targets of the groups `comps` of the listeners `ls`, in order of their
/// first port (groups with the same first port stay in the order of `comps`).
pub open spec fn kill_targets_for(procs: &ProcTable, ls: Seq<ListenerView>, comps: Seq<Set<u32>>) -> Seq<
    KillTargetView,
> {
    sort_targets(group_targets(procs, ls, comps))
}

/// The target of each group of `comps`, in the order of `comps`.
pub open spec fn group_targets(procs: &ProcTable, ls: Seq<ListenerView>, comps: Seq<Set<u32>>) -> Seq<
    KillTargetView,
> {
    comps.map_values(|c: Set<u32>| target_for(procs, ls, c))
}

/// The members of `s` that are not in `skip`, added to `out`.
fn add_unlisted(out: &mut HashSet<u32>, s: &HashSet<u32>, skip: &HashSet<u32>)
    ensures
        final(out)@ == old(out)@.union(s@.difference(skip@)),
{
    let ghost start = out@;
    let ghost all = vstd::std_specs::hash::spec_hash_keys_iter(s).remaining();
    let ghost mut seen: Seq<u32> = Seq::empty();
    for x in it: s.iter()
        invariant
            it.seq() == all,
            all.unref().to_set() == s@,
            seen == it.seq().take(it.index() as int).unref(),
            out@ == start.union(seen.to_set().difference(skip@)),
    {
        if !skip.contains(x) {
            out.insert(*x);
        }
        proof {
            seen = seen.push(*x);
            assert(seen =~= it.seq().take(it.index() + 1).unref());
            assert(out@ =~= start.union(seen.to_set().difference(skip@)));
        }
    }
    proof {
        assert(all.take(all.len() as int) =~= all);
        assert(out@ =~= start.union(s@.difference(skip@)));
    }
}

/// The user's processes below the group `component` that are not listeners
/// themselves.
fn collect_extra_pids(procs: &ProcTable, component: &HashSet<u32>, all_listener_pids: &HashSet<u32>) -> (r:
    HashSet<u32>)
    ensures
        r@ == extra_pid_set(procs, component@, all_listener_pids@),
{
    let ghost lp = all_listener_pids@;
    let mut extra: HashSet<u32> = HashSet::new();
    let ghost all = vstd::std_specs::hash::spec_hash_keys_iter(component).remaining();
    let ghost mut seen: Seq<u32> = Seq::empty();
    proof {
        assert(extra@ =~= extra_pid_set(procs, seen.to_set(), lp));
    }
    for pid in it: component.iter()
        invariant
            it.seq() == all,
            all.unref().to_set() == component@,
            lp == all_listener_pids@,
            seen == it.seq().take(it.index() as int).unref(),
            extra@ == extra_pid_set(procs, seen.to_set(), lp),
    {
        let descendants = user_owned_descendants(procs, *pid);
        let ghost before = extra@;
        add_unlisted(&mut extra, &descendants, all_listener_pids);
        proof {
            let old_seen = seen;
            seen = seen.push(*pid);
            assert(seen =~= it.seq().take(it.index() + 1).unref());
            assert forall|d: u32| extra@.contains(d) == extra_pid_set(procs, seen.to_set(), lp).contains(d) by {
                if extra@.contains(d) && !before.contains(d) {
                    assert(procs.is_owned_descendant(*pid, d));
                    assert(seen.to_set().contains(*pid));
                    assert(reached_from(procs, seen.to_set(), d));
                }
                if before.contains(d) {
                    let p = choose|p: u32| old_seen.to_set().contains(p) && #[trigger] procs.is_owned_descendant(p, d);
                    assert(seen.to_set().contains(p));
                    assert(reached_from(procs, seen.to_set(), d));
                }
                if extra_pid_set(procs, seen.to_set(), lp).contains(d) {
                    let p = choose|p: u32| seen.to_set().contains(p) && #[trigger] procs.is_owned_descendant(p, d);
                    if p != *pid {
                        assert(old_seen.to_set().contains(p));
                        assert(reached_from(procs, old_seen.to_set(), d));
                    } else {
                        assert(descendants@.contains(d));
                    }
                }
            }
            assert(extra@ =~= extra_pid_set(procs, seen.to_set(), lp));
        }
    }
    proof {
        assert(all.take(all.len() as int) =~= all);
        assert(extra_pid_set(procs, seen.to_set(), lp) =~= extra_pid_set(procs, component@, lp));
    }
    extra
}

/// Whether `a` sorts before `b` by port and pid.
fn key_less(a: &Listener, b: &Listener) -> (r: bool)
    ensures
        r == key_lt(a@, b@),
{
    a.port < b.port || (a.port == b.port && a.pid < b.pid)
}

proof fn lemma_insert_by_key_at(s: Seq<ListenerView>, x: ListenerView, j: int)
    requires
        0 <= j <= s.len(),
        forall|t: int| j <= t < s.len() ==> key_lt(x, #[trigger] s[t]),
        j == 0 || !key_lt(x, s[j - 1]),
    ensures
        insert_by_key(s, x) == s.insert(j, x),
    decreases s.len(),
{
    if s.len() == 0 {
        assert(s.insert(j, x) =~= seq![x]);
    } else if j == s.len() {
        assert(s.insert(j, x) =~= s.push(x));
    } else {
        assert(key_lt(x, s.last()));
        lemma_insert_by_key_at(s.drop_last(), x, j);
        assert(s.drop_last().insert(j, x).push(s.last()) =~= s.insert(j, x));
    }
}

/// The listeners whose pid is in `comp`, sorted by port and pid.
fn listeners_in(listeners: &Vec<Listener>, comp: &HashSet<u32>) -> (r: Vec<Listener>)
    ensures
        lviews(r@) == group_listeners(lviews(listeners@), comp@),
{
    let ghost lv = lviews(listeners@);
    let mut out: Vec<Listener> = Vec::new();
    let mut i: usize = 0;
    while i < listeners.len()
        invariant
            i <= listeners.len(),
            lv == lviews(listeners@),
            lviews(out@) == group_listeners(lv.take(i as int), comp@),
        decreases listeners.len() - i,
    {
        proof {
            let sq = lv.take(i + 1);
            assert(sq.drop_last() =~= lv.take(i as int));
            assert(sq.last() == listeners@[i as int]@);
        }
        if comp.contains(&listeners[i].pid) {
            let x = listeners[i].clone();
            let mut j = out.len();
            while j > 0 && key_less(&x, &out[j - 1])
                invariant
                    j <= out.len(),
                    forall|t: int| j <= t < out.len() ==> key_lt(x@, #[trigger] out@[t]@),
                decreases j,
            {
                j = j - 1;
            }
            let ghost before = lviews(out@);
            proof {
                assert forall|t: int| j <= t < before.len() implies key_lt(x@, #[trigger] before[t]) by {
                    assert(before[t] == out@[t]@);
                }
                if j > 0 {
                    assert(before[j - 1] == out@[j - 1]@);
                }
                lemma_insert_by_key_at(before, x@, j as int);
            }
            out.insert(j, x);
            assert(lviews(out@) =~= before.insert(j as int, x@));
        }
        i = i + 1;
    }
    assert(lv.take(listeners.len() as int) =~= lv);
    out
}

/// The port of the target's first listener; `u16::MAX` when it has none.
fn target_first_port(t: &KillTarget) -> (r: u16)
    ensures
        r == first_port(t@),
{
    if t.listeners.len() > 0 {
        t.listeners[0].port
    } else {
        u16::MAX
    }
}

proof fn lemma_insert_target_at(s: Seq<KillTargetView>, x: KillTargetView, j: int)
    requires
        0 <= j <= s.len(),
        forall|t: int| j <= t < s.len() ==> first_port(x) < first_port(#[trigger] s[t]),
        j == 0 || !(first_port(x) < first_port(s[j - 1])),
    ensures
        insert_target(s, x) == s.insert(j, x),
    decreases s.len(),
{
    if s.len() == 0 {
        assert(s.insert(j, x) =~= seq![x]);
    } else if j == s.len() {
        assert(s.insert(j, x) =~= s.push(x));
    } else {
        assert(first_port(x) < first_port(s.last()));
        lemma_insert_target_at(s.drop_last(), x, j);
        assert(s.drop_last().insert(j, x).push(s.last()) =~= s.insert(j, x));
    }
}

/// Groups the listeners into kill targets: one per group of listener
/// processes joined by parent links, each with its listeners sorted by port
/// and pid and the user's other processes below it, ordered by first port.
pub fn build_kill_targets(procs: &ProcTable, listeners: Vec<Listener>) -> (r: Vec<KillTarget>)
    ensures
        exists|comps: Seq<Set<u32>>|
            procs.components_of(pids_of(lviews(listeners@)), comps) && tviews(r@) == kill_targets_for(
                procs,
                lviews(listeners@),
                comps,
            ),
{
    let ghost lv = lviews(listeners@);
    if listeners.len() == 0 {
        proof {
            let comps = Seq::<Set<u32>>::empty();
            assert(pids_of(lv) =~= Set::<u32>::empty());
            assert(procs.components_of(pids_of(lv), comps));
            assert(tviews(Seq::<KillTarget>::empty()) =~= kill_targets_for(procs, lv, comps));
        }
        return Vec::new();
    }
    let listener_pids = pid_set(&listeners);
    let components = connected_listener_components(procs, &listener_pids);
    let ghost cs = components@.map_values(|s: HashSet<u32>| s@);
    let ghost f = |c: Set<u32>| target_for(procs, lv, c);
    let mut targets: Vec<KillTarget> = Vec::new();
    let mut i: usize = 0;
    while i < components.len()
        invariant
            i <= components.len(),
            lv == lviews(listeners@),
            listener_pids@ == pids_of(lv),
            cs == components@.map_values(|s: HashSet<u32>| s@),
            f == (|c: Set<u32>| target_for(procs, lv, c)),
            tviews(targets@) == sort_targets(cs.take(i as int).map_values(f)),
        decreases components.len() - i,
    {
        let group = listeners_in(&listeners, &components[i]);
        let extra = collect_extra_pids(procs, &components[i], &listener_pids);
        let t = KillTarget { listeners: group, extra_pids: extra };
        proof {
            assert(cs[i as int] == components@[i as int]@);
            assert(t@ == target_for(procs, lv, cs[i as int]));
        }
        let fp = target_first_port(&t);
        let mut j = targets.len();
        while j > 0 && fp < target_first_port(&targets[j - 1])
            invariant
                j <= targets.len(),
                fp == first_port(t@),
                forall|k: int| j <= k < targets.len() ==> first_port(t@) < first_port(#[trigger] targets@[k]@),
            decreases j,
        {
            j = j - 1;
        }
        let ghost before = tviews(targets@);
        proof {
            assert forall|k: int| j <= k < before.len() implies first_port(t@) < first_port(#[trigger] before[k]) by {
                assert(before[k] == targets@[k]@);
            }
            if j > 0 {
                assert(before[j - 1] == targets@[j - 1]@);
            }
            lemma_insert_target_at(before, t@, j as int);
            let sq = cs.take(i + 1).map_values(f);
            assert(sq.drop_last() =~= cs.take(i as int).map_values(f));
            assert(sq.last() == t@);
        }
        targets.insert(j, t);
        assert(tviews(targets@) =~= before.insert(j as int, t@));
        i = i + 1;
    }
    proof {
        assert(cs.take(components.len() as int) =~= cs);
        assert(cs.map_values(f) =~= cs.map_values(|c: Set<u32>| target_for(procs, lv, c)));
        assert(procs.components_of(pids_of(lv), cs));
        assert(tviews(targets@) == kill_targets_for(procs, lv, cs));
    }
    targets
}


/// Every pid the targets `ts` stop.
pub open spec fn targets_pid_set(ts: Seq<KillTarget>) -> Set<u32>
    decreases ts.len(),
{
    if ts.len() == 0 {
        Set::empty()
    } else {
        targets_pid_set(ts.drop_last()).union(ts.last()@.all_pid_set())
    }
}

/// Every pid the targets stop together (the window's "kill selected").
pub fn targets_pids(targets: &[KillTarget]) -> (r: HashSet<u32>)
    ensures
        r@ == targets_pid_set(targets@),
{
    let mut pids: HashSet<u32> = HashSet::new();
    let mut i: usize = 0;
    while i < targets.len()
        invariant
            i <= targets.len(),
            pids@ == targets_pid_set(targets@.take(i as int)),
        decreases targets.len() - i,
    {
        let all = targets[i].all_pids();
        add_all(&mut pids, &all);
        proof {
            let t = targets@.take(i + 1);
            assert(t.drop_last() =~= targets@.take(i as int));
            assert(t.last() == targets@[i as int]);
        }
        i = i + 1;
    }
    assert(targets@.take(targets.len() as int) =~= targets@);
    pids
}

// ---------------------------------------------------------------------
// How the targets divide the listeners
// ---------------------------------------------------------------------

proof fn lemma_insert_by_key_members(s: Seq<ListenerView>, x: ListenerView)
    ensures
        insert_by_key(s, x).to_multiset() =~= s.to_multiset().insert(x),
    decreases s.len(),
{
    broadcast use vstd::seq_lib::group_to_multiset_ensures;
    if s.len() == 0 {
        assert(seq![x] =~= Seq::<ListenerView>::empty().push(x));
    } else if key_lt(x, s.last()) {
        lemma_insert_by_key_members(s.drop_last(), x);
        assert(s.drop_last().push(s.last()) =~= s);
    }
}

proof fn lemma_group_members(ls: Seq<ListenerView>, comp: Set<u32>)
    ensures
        forall|y: ListenerView|
            group_listeners(ls, comp).contains(y) <==> (ls.contains(y) && comp.contains(y.pid)),
    decreases ls.len(),
{
    broadcast use vstd::seq_lib::group_to_multiset_ensures;
    if ls.len() > 0 {
        let t = ls.drop_last();
        lemma_group_members(t, comp);
        assert(t.push(ls.last()) =~= ls);
        let r = group_listeners(t, comp);
        if comp.contains(ls.last().pid) {
            lemma_insert_by_key_members(r, ls.last());
            assert forall|y: ListenerView| group_listeners(ls, comp).contains(y) <==> (ls.contains(y)
                && comp.contains(y.pid)) by {
                assert(group_listeners(ls, comp).to_multiset().count(y) == r.to_multiset().insert(
                    ls.last(),
                ).count(y));
                assert(ls.to_multiset().count(y) == t.to_multiset().insert(ls.last()).count(y));
            }
        } else {
            assert forall|y: ListenerView| group_listeners(ls, comp).contains(y) <==> (ls.contains(y)
                && comp.contains(y.pid)) by {
                assert(ls.to_multiset().count(y) == t.to_multiset().insert(ls.last()).count(y));
            }
        }
    }
}

/// The pids of the listeners in the group `comp` are `comp`, for a group
/// of listener pids.
proof fn lemma_group_pids(ls: Seq<ListenerView>, comp: Set<u32>)
    requires
        comp.subset_of(pids_of(ls)),
    ensures
        pids_of(group_listeners(ls, comp)) == comp,
{
    lemma_group_members(ls, comp);
    let g = group_listeners(ls, comp);
    let gp = g.map_values(|l: ListenerView| l.pid);
    let lp = ls.map_values(|l: ListenerView| l.pid);
    assert(pids_of(g) == gp.to_set());
    assert(pids_of(ls) == lp.to_set());
    assert forall|p: u32| pids_of(g).contains(p) implies comp.contains(p) by {
        assert(gp.contains(p));
        let i = choose|i: int| 0 <= i < gp.len() && #[trigger] gp[i] == p;
        assert(gp[i] == g[i].pid);
        assert(g.contains(g[i]));
        assert(group_listeners(ls, comp).contains(g[i]));
        assert(ls.contains(g[i]) && comp.contains(g[i].pid));
    }
    assert forall|p: u32| comp.contains(p) implies pids_of(g).contains(p) by {
        assert(pids_of(ls).contains(p));
        assert(lp.contains(p));
        let i = choose|i: int| 0 <= i < lp.len() && #[trigger] lp[i] == p;
        assert(lp[i] == ls[i].pid);
        assert(ls.contains(ls[i]));
        assert(g.contains(ls[i]));
        let j = choose|j: int| 0 <= j < g.len() && g[j] == ls[i];
        assert(gp[j] == p);
        assert(gp.contains(p));
    }
    assert(pids_of(g) =~= comp);
}

proof fn lemma_insert_target_members(s: Seq<KillTargetView>, x: KillTargetView)
    ensures
        insert_target(s, x).to_multiset() =~= s.to_multiset().insert(x),
    decreases s.len(),
{
    broadcast use vstd::seq_lib::group_to_multiset_ensures;
    if s.len() == 0 {
        assert(seq![x] =~= Seq::<KillTargetView>::empty().push(x));
    } else if first_port(x) < first_port(s.last()) {
        lemma_insert_target_members(s.drop_last(), x);
        assert(s.drop_last().push(s.last()) =~= s);
    }
}

proof fn lemma_sort_targets_members(s: Seq<KillTargetView>)
    ensures
        sort_targets(s).to_multiset() =~= s.to_multiset(),
    decreases s.len(),
{
    broadcast use vstd::seq_lib::group_to_multiset_ensures;
    if s.len() > 0 {
        lemma_sort_targets_members(s.drop_last());
        lemma_insert_target_members(sort_targets(s.drop_last()), s.last());
        assert(s.drop_last().push(s.last()) =~= s);
    }
}

/// The targets of the groups: each holds exactly its group's pids as
/// listener pids, and no two are alike.
proof fn lemma_group_targets(procs: &ProcTable, ls: Seq<ListenerView>, comps: Seq<Set<u32>>)
    requires
        procs.components_of(pids_of(ls), comps),
    ensures
        forall|a: int|
            0 <= a < comps.len() ==> #[trigger] group_targets(procs, ls, comps)[a].listener_pid_set()
                == comps[a],
        group_targets(procs, ls, comps).no_duplicates(),
{
    let l = pids_of(ls);
    let s = group_targets(procs, ls, comps);
    assert forall|a: int| 0 <= a < s.len() implies #[trigger] s[a].listener_pid_set() == comps[a] by {
        assert(comps[a].subset_of(l));
        lemma_group_pids(ls, comps[a]);
    }
    assert forall|a: int, b: int| 0 <= a < s.len() && 0 <= b < s.len() && a != b implies s[a] != s[b] by {
        if s[a] == s[b] {
            assert(s[a].listener_pid_set() == comps[a]);
            assert(s[b].listener_pid_set() == comps[b]);
            assert(comps[a] != Set::<u32>::empty());
            if !(exists|y: u32| comps[a].contains(y)) {
                assert(comps[a] =~= Set::<u32>::empty());
            }
            if a < b {
                assert(precedes(comps[a], comps[b]));
                let w = choose|w: u32| comps[a].contains(w) && forall|y: u32| comps[b].contains(y) ==> w < y;
                assert(comps[b].contains(w));
            } else {
                assert(precedes(comps[b], comps[a]));
                let w = choose|w: u32| comps[b].contains(w) && forall|y: u32| comps[a].contains(y) ==> w < y;
                assert(comps[a].contains(w));
            }
        }
    }
}

/// The sorted targets are the targets of the groups, each once.
proof fn lemma_sorted_targets(s: Seq<KillTargetView>)
    requires
        s.no_duplicates(),
    ensures
        sort_targets(s).no_duplicates(),
        forall|k: int|
            0 <= k < sort_targets(s).len() ==> exists|a: int|
                0 <= a < s.len() && #[trigger] s[a] == #[trigger] sort_targets(s)[k],
        forall|a: int| 0 <= a < s.len() ==> sort_targets(s).contains(#[trigger] s[a]),
{
    broadcast use vstd::seq_lib::group_to_multiset_ensures;
    let t = sort_targets(s);
    lemma_sort_targets_members(s);
    s.lemma_multiset_has_no_duplicates();
    assert forall|x: KillTargetView| t.to_multiset().contains(x) implies t.to_multiset().count(x) == 1 by {
        assert(s.to_multiset().contains(x));
    }
    t.lemma_multiset_has_no_duplicates_conv();
    assert forall|k: int| 0 <= k < t.len() implies exists|a: int|
        0 <= a < s.len() && #[trigger] s[a] == #[trigger] t[k] by {
        assert(t.contains(t[k]));
        assert(t.to_multiset().count(t[k]) > 0);
        assert(s.to_multiset().count(t[k]) > 0);
        assert(s.contains(t[k]));
    }
    assert forall|a: int| 0 <= a < s.len() implies t.contains(#[trigger] s[a]) by {
        assert(s.contains(s[a]));
        assert(s.to_multiset().count(s[a]) > 0);
        assert(t.to_multiset().count(s[a]) > 0);
    }
}

/// Every listener pid is among the listener pids of exactly one kill
/// target, which holds no other pids; and the related processes of a target
/// are never listener processes.
pub proof fn lemma_targets_partition(procs: &ProcTable, ls: Seq<ListenerView>, comps: Seq<Set<u32>>)
    requires
        procs.components_of(pids_of(ls), comps),
    ensures
        forall|p: u32|
            pids_of(ls).contains(p) ==> exists|k: int|
                0 <= k < kill_targets_for(procs, ls, comps).len() && #[trigger] kill_targets_for(
                    procs,
                    ls,
                    comps,
                )[k].listener_pid_set().contains(p),
        forall|k1: int, k2: int, p: u32|
            0 <= k1 < kill_targets_for(procs, ls, comps).len() && 0 <= k2 < kill_targets_for(
                procs,
                ls,
                comps,
            ).len() && k1 != k2 && #[trigger] kill_targets_for(procs, ls, comps)[k1].listener_pid_set().contains(
                p,
            ) ==> !#[trigger] kill_targets_for(procs, ls, comps)[k2].listener_pid_set().contains(p),
        forall|k: int|
            0 <= k < kill_targets_for(procs, ls, comps).len() ==> #[trigger] kill_targets_for(
                procs,
                ls,
                comps,
            )[k].listener_pid_set().subset_of(pids_of(ls)),
        forall|k: int, p: u32|
            0 <= k < kill_targets_for(procs, ls, comps).len() && #[trigger] kill_targets_for(
                procs,
                ls,
                comps,
            )[k].extra_pids.contains(p) ==> !pids_of(ls).contains(p),
{
    let l = pids_of(ls);
    let s = group_targets(procs, ls, comps);
    let t = kill_targets_for(procs, ls, comps);
    lemma_group_targets(procs, ls, comps);
    lemma_sorted_targets(s);
    assert forall|p: u32| l.contains(p) implies exists|k: int|
        0 <= k < t.len() && #[trigger] t[k].listener_pid_set().contains(p) by {
        let a = choose|a: int| 0 <= a < comps.len() && #[trigger] comps[a].contains(p);
        assert(s[a].listener_pid_set() == comps[a]);
        assert(t.contains(s[a]));
        let k = choose|k: int| 0 <= k < t.len() && t[k] == s[a];
        assert(t[k].listener_pid_set().contains(p));
    }
    assert forall|k1: int, k2: int, p: u32|
        0 <= k1 < t.len() && 0 <= k2 < t.len() && k1 != k2 && #[trigger] t[k1].listener_pid_set().contains(p)
            implies !#[trigger] t[k2].listener_pid_set().contains(p) by {
        let a = choose|a: int| 0 <= a < s.len() && #[trigger] s[a] == #[trigger] t[k1];
        let b = choose|b: int| 0 <= b < s.len() && #[trigger] s[b] == #[trigger] t[k2];
        assert(t[k1] != t[k2]);
        assert(s[a].listener_pid_set() == comps[a]);
        assert(s[b].listener_pid_set() == comps[b]);
        if t[k2].listener_pid_set().contains(p) {
            assert(l.contains(p));
            assert(forall|y: u32| l.contains(y) ==> (comps[a].contains(y) <==> procs.connected(l, p, y)));
            assert(forall|y: u32| l.contains(y) ==> (comps[b].contains(y) <==> procs.connected(l, p, y)));
            assert(forall|y: u32| comps[a].contains(y) ==> l.contains(y));
            assert(forall|y: u32| comps[b].contains(y) ==> l.contains(y));
            assert(comps[a] =~= comps[b]);
        }
    }
    assert forall|k: int| 0 <= k < t.len() implies #[trigger] t[k].listener_pid_set().subset_of(l) by {
        let a = choose|a: int| 0 <= a < s.len() && #[trigger] s[a] == #[trigger] t[k];
        assert(s[a].listener_pid_set() == comps[a]);
    }
    assert forall|k: int, p: u32| 0 <= k < t.len() && #[trigger] t[k].extra_pids.contains(p) implies !l.contains(p) by {
        let a = choose|a: int| 0 <= a < s.len() && #[trigger] s[a] == #[trigger] t[k];
        assert(s[a] == target_for(procs, ls, comps[a]));
    }
}

} // verus!
