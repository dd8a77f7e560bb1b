//! A snapshot of the process table and the parent/child relations the
//! grouping of listeners rests on.
use vstd::prelude::*;
use std::collections::{HashMap, HashSet};
use vstd::std_specs::iter::IteratorSpec;
use crate::filter::process_owned_by_current_user;
use crate::project::ProjectDir;
use crate::text::{
    chars_of, increasing, index_of_or_len, insert_sorted, parse_unsigned, parse_unsigned_range,
    scan_char, sorted_members, split_words, words,
};

verus! {

broadcast use {vstd::std_specs::hash::group_hash_axioms, vstd::seq::Seq::lemma_push_to_set_commute};

/// The two fields of `/proc/<pid>/stat` the library reads.
#[derive(Clone, Copy, Debug, PartialEq, Eq, Structural)]
pub struct ProcStat {
    pub ppid: u32,
    pub pgid: u32,
}

/// What the library knows of one process.
pub struct ProcInfo {
    /// Parent and process group, when `/proc/<pid>/stat` could be read and parsed.
    pub stat: Option<ProcStat>,
    /// The first number of the `Uid:` line of `/proc/<pid>/status`,
    /// or `u32::MAX` when it could not be read.
    pub uid: u32,
    /// The working directory, when it could be resolved.
    pub cwd: Option<ProjectDir>,
    /// The command line as shown (see `cmdline_from_raw`), when there is one.
    pub cmdline: Option<String>,
}

/// The processes of the machine, keyed by pid, and the user the tool runs as.
pub struct ProcTable {
    /// The first number of the `Uid:` line of the tool's own status,
    /// or `u32::MAX` when it could not be read.
    pub self_uid: u32,
    pub procs: HashMap<u32, ProcInfo>,
}

/// Some member of `a` is below every member of `b`.
pub open spec fn precedes(a: Set<u32>, b: Set<u32>) -> bool {
    exists|x: u32| a.contains(x) && forall|y: u32| b.contains(y) ==> x < y
}

impl ProcTable {
    /// The parent of `pid`, when its stat is known.
    pub open spec fn parent_of(&self, pid: u32) -> Option<u32> {
        if self.procs@.contains_key(pid) {
            match self.procs@[pid].stat {
                Some(st) => Some(st.ppid),
                None => None,
            }
        } else {
            None
        }
    }

    /// The process group of `pid`, when its stat is known.
    pub open spec fn group_of(&self, pid: u32) -> Option<u32> {
        if self.procs@.contains_key(pid) {
            match self.procs@[pid].stat {
                Some(st) => Some(st.pgid),
                None => None,
            }
        } else {
            None
        }
    }

    /// The owner of `pid`; `u32::MAX` when unknown.
    pub open spec fn uid_of(&self, pid: u32) -> u32 {
        if self.procs@.contains_key(pid) {
            self.procs@[pid].uid
        } else {
            u32::MAX
        }
    }

    /// `pid` belongs to the user running the tool: both its owner and the
    /// tool's own user are known (`u32::MAX` is no one's uid) and they agree.
    pub open spec fn owned(&self, pid: u32) -> bool {
        self.self_uid != u32::MAX && self.uid_of(pid) == self.self_uid
    }

    /// The parent chain of `pid` walked for at most `fuel` steps: each
    /// parent in turn, stopping before pid 0, before a parent not owned by
    /// the user, and at a process whose parent is unknown.
    pub open spec fn chain(&self, pid: u32, fuel: nat) -> Seq<u32>
        decreases fuel,
    {
        if fuel == 0 {
            seq![]
        } else {
            match self.parent_of(pid) {
                None => seq![],
                Some(p) => if p == 0 || !self.owned(p) {
                    seq![]
                } else {
                    seq![p] + self.chain(p, (fuel - 1) as nat)
                },
            }
        }
    }

    /// The ancestors of `pid` the tool walks: the chain bounded by the number
    /// of processes in the table, which a chain without a cycle never reaches.
    pub open spec fn ancestors_of(&self, pid: u32) -> Seq<u32> {
        self.chain(pid, self.procs@.len())
    }

    /// `c` is a process of the table whose parent is `p`.
    pub open spec fn is_child(&self, c: u32, p: u32) -> bool {
        self.parent_of(c) == Some(p)
    }

    /// `path` goes down from `root` one child at a time.
    pub open spec fn descent(&self, root: u32, path: Seq<u32>) -> bool {
        &&& path.len() > 0
        &&& forall|i: int|
            0 <= i < path.len() ==> self.is_child(
                #[trigger] path[i],
                if i == 0 {
                    root
                } else {
                    path[i - 1]
                },
            )
    }

    /// `d` is reached from `root` by such a descent, whoever owns the
    /// processes on the way.
    pub open spec fn is_descendant(&self, root: u32, d: u32) -> bool {
        exists|path: Seq<u32>| self.descent(root, path) && path.last() == d
    }

    /// `d` is a descendant of `root` other than `root`, owned by the user.
    pub open spec fn is_owned_descendant(&self, root: u32, d: u32) -> bool {
        d != root && self.owned(d) && self.is_descendant(root, d)
    }

    /// `a` and `b` are both listeners and one of them is among the ancestors
    /// the tool walks from the other.
    pub open spec fn linked(&self, l: Set<u32>, a: u32, b: u32) -> bool {
        &&& l.contains(a)
        &&& l.contains(b)
        &&& (self.ancestors_of(a).contains(b) || self.ancestors_of(b).contains(a))
    }

    /// Steps `i` and `i + 1` of `path` are linked.
    pub open spec fn adjacent(&self, l: Set<u32>, path: Seq<u32>, i: int) -> bool {
        self.linked(l, path[i], path[i + 1])
    }

    /// `path` is a non-empty walk through listeners along links.
    pub open spec fn link_path(&self, l: Set<u32>, path: Seq<u32>) -> bool {
        &&& path.len() > 0
        &&& forall|i: int| 0 <= i < path.len() ==> l.contains(#[trigger] path[i])
        &&& forall|i: int| 0 <= i < path.len() - 1 ==> #[trigger] self.adjacent(l, path, i)
    }

    /// `a` and `b` lie in one group: a walk along links joins them.
    pub open spec fn connected(&self, l: Set<u32>, a: u32, b: u32) -> bool {
        exists|path: Seq<u32>| self.link_path(l, path) && path[0] == a && path.last() == b
    }

    /// `comps` are the groups of the listener pids `l`: each is a non-empty
    /// set of listeners, every listener is in one, two listeners share a group
    /// exactly when they are connected, and the groups come in increasing order
    /// of their smallest pid.
    pub open spec fn components_of(&self, l: Set<u32>, comps: Seq<Set<u32>>) -> bool {
        &&& forall|k: int| 0 <= k < comps.len() ==> #[trigger] comps[k] != Set::<u32>::empty()
        &&& forall|k: int, a: u32| 0 <= k < comps.len() && #[trigger] comps[k].contains(a) ==> l.contains(a)
        &&& forall|a: u32| l.contains(a) ==> exists|k: int| 0 <= k < comps.len() && #[trigger] comps[k].contains(a)
        &&& forall|k: int, a: u32, b: u32|
            0 <= k < comps.len() && #[trigger] comps[k].contains(a) && l.contains(b) ==> (
            #[trigger] comps[k].contains(b) <==> self.connected(l, a, b))
        &&& forall|k1: int, k2: int|
            0 <= k1 < k2 < comps.len() ==> #[trigger] precedes(comps[k1], comps[k2])
    }

    /// The uid recorded for `pid`.
    pub fn uid(&self, pid: u32) -> (r: u32)
        ensures
            r == self.uid_of(pid),
    {
        match self.procs.get(&pid) {
            Some(info) => info.uid,
            None => u32::MAX,
        }
    }

    /// The stat recorded for `pid`.
    pub fn stat(&self, pid: u32) -> (r: Option<ProcStat>)
        ensures
            r matches Some(st) ==> self.parent_of(pid) == Some(st.ppid) && self.group_of(pid) == Some(
                st.pgid,
            ),
            r is None ==> self.parent_of(pid) is None && self.group_of(pid) is None,
    {
        match self.procs.get(&pid) {
            Some(info) => info.stat,
            None => None,
        }
    }
}

/// The parent of `pid` (`/proc/<pid>/stat`, fourth field).
pub fn ppid(procs: &ProcTable, pid: u32) -> (r: Option<u32>)
    ensures
        r == procs.parent_of(pid),
{
    match procs.stat(pid) {
        Some(st) => Some(st.ppid),
        None => None,
    }
}

/// The process group of `pid` (`/proc/<pid>/stat`, fifth field).
pub fn pgid(procs: &ProcTable, pid: u32) -> (r: Option<u32>)
    ensures
        r == procs.group_of(pid),
{
    match procs.stat(pid) {
        Some(st) => Some(st.pgid),
        None => None,
    }
}

/// Immediate parent chain up to the first process not owned by the current user.
pub fn ancestors(procs: &ProcTable, pid: u32) -> (r: Vec<u32>)
    ensures
        r@ == procs.ancestors_of(pid),
{
    let limit = procs.procs.len();
    let mut chain: Vec<u32> = Vec::new();
    let mut current = pid;
    let mut fuel = limit;
    while fuel > 0
        invariant
            fuel <= limit,
            limit == procs.procs@.len(),
            procs.ancestors_of(pid) == chain@ + procs.chain(current, fuel as nat),
        ensures
            procs.ancestors_of(pid) == chain@,
        decreases fuel,
    {
        match ppid(procs, current) {
            None => {
                assert(chain@ + Seq::<u32>::empty() =~= chain@);
                break;
            },
            Some(parent) => {
                if parent == 0 || !process_owned_by_current_user(procs, parent) {
                    assert(chain@ + Seq::<u32>::empty() =~= chain@);
                    break;
                }
                chain.push(parent);
                assert(procs.ancestors_of(pid) =~= chain@ + procs.chain(parent, (fuel - 1) as nat));
                current = parent;
                fuel = fuel - 1;
            },
        }
    }
    chain
}

/// The processes whose parent is `parent_pid`, in increasing pid order.
pub fn direct_children(procs: &ProcTable, parent_pid: u32) -> (r: Vec<u32>)
    ensures
        increasing(r@),
        forall|c: u32| r@.contains(c) <==> procs.is_child(c, parent_pid),
{
    let mut children: Vec<u32> = Vec::new();
    let ghost all = vstd::std_specs::hash::spec_keys_iter(&procs.procs).remaining();
    let ghost mut seen: Seq<u32> = Seq::empty();
    for pid in it: procs.procs.keys()
        invariant
            it.seq() == all,
            all.unref().to_set() == procs.procs@.dom(),
            all.no_duplicates(),
            seen == it.seq().take(it.index() as int).unref(),
            increasing(children@),
            forall|c: u32|
                children@.contains(c) <==> (seen.contains(c) && procs.is_child(c, parent_pid)),
    {
        let ghost old_children = children@;
        let ghost before = seen;
        let p = *pid;
        if ppid(procs, p) == Some(parent_pid) {
            insert_sorted(&mut children, p);
        }
        proof {
            seen = seen.push(p);
            assert(seen =~= it.seq().take(it.index() as int + 1).unref());
            assert(!before.contains(p)) by {
                if before.contains(p) {
                    let t = choose|t: int| 0 <= t < before.len() && before[t] == p;
                    assert(all[t] == all[it.index() as int]);
                }
            }
            assert forall|c: u32|
                children@.contains(c) <==> (seen.contains(c) && procs.is_child(c, parent_pid)) by {
                assert(seen.contains(c) <==> before.contains(c) || c == p) by {
                    if seen.contains(c) && c != p {
                        let t = choose|t: int| 0 <= t < seen.len() && seen[t] == c;
                        assert(before[t] == c);
                    }
                    if before.contains(c) {
                        let t = choose|t: int| 0 <= t < before.len() && before[t] == c;
                        assert(seen[t] == c);
                    }
                    assert(seen[before.len() as int] == p);
                }
                assert(old_children.contains(c) == old_children.to_set().contains(c));
                assert(children@.contains(c) == children@.to_set().contains(c));
            }
        }
    }
    proof {
        assert(all.take(all.len() as int) =~= all);
        assert forall|c: u32| children@.contains(c) <==> procs.is_child(c, parent_pid) by {
            if procs.is_child(c, parent_pid) {
                assert(procs.procs@.dom().contains(c));
                assert(all.unref().to_set().contains(c));
            }
        }
    }
    children
}

/// Every child of `root` is in `seen`, and every child of a member of `seen`
/// is too: then every descendant is in `seen`.
proof fn lemma_descent_closed(procs: &ProcTable, root: u32, seen: Set<u32>, path: Seq<u32>)
    requires
        procs.descent(root, path),
        forall|c: u32| procs.is_child(c, root) ==> seen.contains(c),
        forall|y: u32, c: u32| seen.contains(y) && #[trigger] procs.is_child(c, y) ==> seen.contains(c),
    ensures
        seen.contains(path.last()),
    decreases path.len(),
{
    if path.len() == 1 {
        assert(procs.is_child(path[0], root));
    } else {
        let prefix = path.drop_last();
        assert forall|i: int| 0 <= i < prefix.len() implies procs.is_child(
            #[trigger] prefix[i],
            if i == 0 {
                root
            } else {
                prefix[i - 1]
            },
        ) by {
            assert(prefix[i] == path[i]);
            if i > 0 {
                assert(prefix[i - 1] == path[i - 1]);
            }
            assert(procs.is_child(
                path[i],
                if i == 0 {
                    root
                } else {
                    path[i - 1]
                },
            ));
        }
        lemma_descent_closed(procs, root, seen, prefix);
        let k = path.len() - 1;
        assert(procs.is_child(
            path[k],
            if k == 0 {
                root
            } else {
                path[k - 1]
            },
        ));
    }
}

/// A child of `root`, or of a descendant of `root`, is a descendant of
/// `root`.
proof fn lemma_descent_extend(procs: &ProcTable, root: u32, x: u32, c: u32, from_root: bool)
    requires
        procs.is_child(c, x),
        from_root ==> x == root,
        !from_root ==> procs.is_descendant(root, x),
    ensures
        procs.is_descendant(root, c),
{
    if from_root {
        let path = seq![c];
        assert(procs.is_child(
            path[0],
            root,
        ));
        assert(procs.descent(root, path));
        assert(path.last() == c);
    } else {
        let p = choose|p: Seq<u32>| procs.descent(root, p) && p.last() == x;
        let path = p.push(c);
        assert forall|i: int| 0 <= i < path.len() implies procs.is_child(
            #[trigger] path[i],
            if i == 0 {
                root
            } else {
                path[i - 1]
            },
        ) by {
            if i < p.len() {
                assert(path[i] == p[i]);
                if i > 0 {
                    assert(path[i - 1] == p[i - 1]);
                }
                assert(procs.is_child(
                    p[i],
                    if i == 0 {
                        root
                    } else {
                        p[i - 1]
                    },
                ));
            } else {
                assert(path[i] == c);
                assert(path[i - 1] == p[p.len() - 1]);
            }
        }
        assert(procs.descent(root, path));
        assert(path.last() == c);
    }
}

/// All user-owned descendants of `root`, excluding `root` itself, also those
/// below a process of another user.
pub fn user_owned_descendants(procs: &ProcTable, root: u32) -> (r: HashSet<u32>)
    ensures
        forall|d: u32| r@.contains(d) <==> procs.is_owned_descendant(root, d),
{
    let mut seen: HashSet<u32> = HashSet::new();
    let mut order: Vec<u32> = Vec::new();
    order.push(root);
    let mut head: usize = 0;
    let ghost dom = procs.procs@.dom();
    while head < order.len()
        invariant
            dom == procs.procs@.dom(),
            dom.finite(),
            order.len() >= 1,
            order@[0] == root,
            head <= order.len(),
            seen@ == order@.skip(1).to_set(),
            order@.skip(1).no_duplicates(),
            forall|y: u32| #[trigger] seen@.contains(y) ==> dom.contains(y) && procs.is_descendant(root, y),
            forall|t: int, c: u32|
                0 <= t < head && #[trigger] procs.is_child(c, order@[t]) ==> seen@.contains(c),
        decreases dom.len() + 1 - head,
    {
        let x = order[head];
        proof {
            if head > 0 {
                assert(order@.skip(1)[head - 1] == x);
                assert(seen@.contains(x));
                assert(procs.is_descendant(root, x));
            }
        }
        let children = direct_children(procs, x);
        let mut j: usize = 0;
        while j < children.len()
            invariant
                dom == procs.procs@.dom(),
                dom.finite(),
                order.len() >= 1,
                order@[0] == root,
                head < order.len(),
                order@[head as int] == x,
                head == 0 || seen@.contains(x),
                head != 0 ==> procs.is_descendant(root, x),
                j <= children.len(),
                forall|c: u32| children@.contains(c) <==> procs.is_child(c, x),
                seen@ == order@.skip(1).to_set(),
                order@.skip(1).no_duplicates(),
                forall|y: u32|
                    #[trigger] seen@.contains(y) ==> dom.contains(y) && procs.is_descendant(root, y),
                forall|t: int, c: u32|
                    0 <= t < head && #[trigger] procs.is_child(c, order@[t]) ==> seen@.contains(c),
                forall|t: int| 0 <= t < j ==> seen@.contains(#[trigger] children@[t]),
            decreases children.len() - j,
        {
            let c = children[j];
            assert(children@.contains(c));
            assert(procs.is_child(c, x));
            let ghost old_order = order@;
            if seen.insert(c) {
                order.push(c);
                proof {
                    assert(order@.skip(1) =~= old_order.skip(1).push(c));
                    lemma_descent_extend(procs, root, x, c, head == 0);
                    assert(dom.contains(c));
                    assert(order@.skip(1).no_duplicates()) by {
                        assert(!old_order.skip(1).contains(c));
                    }
                    assert forall|t: int, c2: u32|
                        0 <= t < head && #[trigger] procs.is_child(c2, order@[t]) implies seen@.contains(
                        c2,
                    ) by {
                        assert(order@[t] == old_order[t]);
                    }
                }
            }
            j = j + 1;
        }
        proof {
            assert forall|c: u32| procs.is_child(c, x) implies seen@.contains(c) by {
                assert(children@.contains(c));
                let t = choose|t: int| 0 <= t < children.len() && children@[t] == c;
            }
            assert(seen@.len() == order.len() - 1) by {
                order@.skip(1).unique_seq_to_set();
            }
            vstd::set_lib::lemma_len_subset(seen@, dom);
        }
        head = head + 1;
    }
    proof {
        assert forall|d: u32| procs.is_descendant(root, d) implies seen@.contains(d) by {
            let p = choose|p: Seq<u32>| procs.descent(root, p) && p.last() == d;
            assert forall|y: u32, c: u32| seen@.contains(y) && #[trigger] procs.is_child(c, y) implies seen@.contains(
                c,
            ) by {
                let t = choose|t: int| 0 <= t < order@.skip(1).len() && order@.skip(1)[t] == y;
                assert(order@[t + 1] == y);
            }
            assert forall|c: u32| procs.is_child(c, root) implies seen@.contains(c) by {
                assert(order@[0] == root);
            }
            lemma_descent_closed(procs, root, seen@, p);
        }
    }
    // Keep the user's own processes among them.
    let ghost keep = |d: u32| d != root && procs.owned(d);
    let mut out: HashSet<u32> = HashSet::new();
    let mut k: usize = 1;
    assert(order@.subrange(1, 1).to_set().filter(keep) =~= Set::<u32>::empty());
    while k < order.len()
        invariant
            1 <= k <= order.len(),
            order@[0] == root,
            keep == (|d: u32| d != root && procs.owned(d)),
            out@ == order@.subrange(1, k as int).to_set().filter(keep),
        decreases order.len() - k,
    {
        let y = order[k];
        let ghost before = out@;
        if y != root && process_owned_by_current_user(procs, y) {
            out.insert(y);
        }
        proof {
            let s1 = order@.subrange(1, k as int);
            let s2 = order@.subrange(1, k + 1);
            assert(s2 =~= s1.push(y));
            assert(s2.to_set() == s1.to_set().insert(y));
            assert(out@ =~= s2.to_set().filter(keep));
        }
        k = k + 1;
    }
    proof {
        assert(order@.subrange(1, order.len() as int) =~= order@.skip(1));
        assert forall|d: u32| out@.contains(d) <==> procs.is_owned_descendant(root, d) by {
            assert(seen@.contains(d) <==> order@.skip(1).to_set().contains(d));
            assert(seen@.contains(d) <==> procs.is_descendant(root, d));
        }
    }
    out
}

// ---------------------------------------------------------------------
// Groups of listeners joined by parent/child links
// ---------------------------------------------------------------------

proof fn lemma_connected_refl(procs: &ProcTable, l: Set<u32>, a: u32)
    requires
        l.contains(a),
    ensures
        procs.connected(l, a, a),
{
    let p = seq![a];
    assert(procs.link_path(l, p));
    assert(p[0] == a && p.last() == a);
}

proof fn lemma_linked_connected(procs: &ProcTable, l: Set<u32>, a: u32, b: u32)
    requires
        procs.linked(l, a, b),
    ensures
        procs.connected(l, a, b),
{
    let p = seq![a, b];
    assert(procs.adjacent(l, p, 0));
    assert forall|i: int| 0 <= i < p.len() implies l.contains(#[trigger] p[i]) by {
        if i == 0 {
        } else {
            assert(p[1] == b);
        }
    }
    assert(procs.link_path(l, p));
    assert(p[0] == a && p.last() == b);
}

proof fn lemma_connected_sym(procs: &ProcTable, l: Set<u32>, a: u32, b: u32)
    requires
        procs.connected(l, a, b),
    ensures
        procs.connected(l, b, a),
{
    let p = choose|p: Seq<u32>| procs.link_path(l, p) && p[0] == a && p.last() == b;
    let n = p.len();
    let r = Seq::new(n, |i: int| p[n - 1 - i]);
    assert forall|i: int| 0 <= i < r.len() implies l.contains(#[trigger] r[i]) by {
        assert(r[i] == p[n - 1 - i]);
    }
    assert forall|i: int| 0 <= i < r.len() - 1 implies #[trigger] procs.adjacent(l, r, i) by {
        let k = n - 1 - i;
        assert(r[i] == p[k]);
        assert(r[i + 1] == p[k - 1]);
        assert(procs.adjacent(l, p, k - 1));
    }
    assert(procs.link_path(l, r));
    assert(r[0] == b && r.last() == a);
}

proof fn lemma_connected_trans(procs: &ProcTable, l: Set<u32>, a: u32, b: u32, c: u32)
    requires
        procs.connected(l, a, b),
        procs.connected(l, b, c),
    ensures
        procs.connected(l, a, c),
{
    let p1 = choose|p: Seq<u32>| procs.link_path(l, p) && p[0] == a && p.last() == b;
    let p2 = choose|p: Seq<u32>| procs.link_path(l, p) && p[0] == b && p.last() == c;
    let q = p2.skip(1);
    let path = p1 + q;
    let n1 = p1.len() as int;
    assert forall|i: int| 0 <= i < path.len() implies l.contains(#[trigger] path[i]) by {
        if i < n1 {
            assert(path[i] == p1[i]);
        } else {
            assert(path[i] == p2[i - n1 + 1]);
        }
    }
    assert forall|i: int| 0 <= i < path.len() - 1 implies #[trigger] procs.adjacent(l, path, i) by {
        if i < n1 - 1 {
            assert(path[i] == p1[i] && path[i + 1] == p1[i + 1]);
            assert(procs.adjacent(l, p1, i));
        } else if i == n1 - 1 {
            assert(path[i] == p2[0] && path[i + 1] == p2[1]);
            assert(procs.adjacent(l, p2, 0));
        } else {
            let k = i - n1 + 1;
            assert(path[i] == p2[k] && path[i + 1] == p2[k + 1]);
            assert(procs.adjacent(l, p2, k));
        }
    }
    assert(procs.link_path(l, path));
    assert(path[0] == a);
    if p2.len() == 1 {
        assert(path =~= p1);
    } else {
        assert(path.last() == p2.last());
    }
}

/// The position of `x` in `m`.
fn position(m: &Vec<u32>, x: u32) -> (r: Option<usize>)
    ensures
        r matches Some(j) ==> j < m.len() && m@[j as int] == x,
        r is None ==> !m@.contains(x),
{
    let mut j: usize = 0;
    while j < m.len()
        invariant
            j <= m.len(),
            forall|t: int| 0 <= t < j ==> m@[t] != x,
        decreases m.len() - j,
    {
        if m[j] == x {
            return Some(j);
        }
        j = j + 1;
    }
    None
}

/// One pair `(i, j)` for each listener `m[j]` among the ancestors of `m[i]`.
fn link_edges(procs: &ProcTable, m: &Vec<u32>) -> (edges: Vec<(usize, usize)>)
    requires
        increasing(m@),
    ensures
        forall|k: int|
            0 <= k < edges.len() ==> (#[trigger] edges@[k]).0 < m.len() && edges@[k].1 < m.len()
                && procs.ancestors_of(m@[edges@[k].0 as int]).contains(m@[edges@[k].1 as int]),
        forall|i: int, j: int|
            0 <= i < m.len() && 0 <= j < m.len() && #[trigger] procs.ancestors_of(m@[i]).contains(
                #[trigger] m@[j],
            ) ==> exists|k: int| 0 <= k < edges.len() && edges@[k] == (i as usize, j as usize),
{
    let mut edges: Vec<(usize, usize)> = Vec::new();
    let mut i: usize = 0;
    while i < m.len()
        invariant
            i <= m.len(),
            increasing(m@),
            forall|k: int|
                0 <= k < edges.len() ==> (#[trigger] edges@[k]).0 < m.len() && edges@[k].1 < m.len()
                    && procs.ancestors_of(m@[edges@[k].0 as int]).contains(
                    m@[edges@[k].1 as int],
                ),
            forall|i2: int, j: int|
                0 <= i2 < i && 0 <= j < m.len() && #[trigger] procs.ancestors_of(m@[i2]).contains(
                    #[trigger] m@[j],
                ) ==> exists|k: int| 0 <= k < edges.len() && edges@[k] == (i2 as usize, j as usize),
        decreases m.len() - i,
    {
        let anc = ancestors(procs, m[i]);
        let mut t: usize = 0;
        while t < anc.len()
            invariant
                i < m.len(),
                t <= anc.len(),
                anc@ == procs.ancestors_of(m@[i as int]),
                increasing(m@),
                forall|k: int|
                    0 <= k < edges.len() ==> (#[trigger] edges@[k]).0 < m.len() && edges@[k].1
                        < m.len() && procs.ancestors_of(m@[edges@[k].0 as int]).contains(
                        m@[edges@[k].1 as int],
                    ),
                forall|i2: int, j: int|
                    0 <= i2 < i && 0 <= j < m.len() && #[trigger] procs.ancestors_of(
                        m@[i2],
                    ).contains(#[trigger] m@[j]) ==> exists|k: int|
                        0 <= k < edges.len() && edges@[k] == (i2 as usize, j as usize),
                forall|t2: int, j: int|
                    0 <= t2 < t && 0 <= j < m.len() && #[trigger] anc@[t2] == #[trigger] m@[j] ==> exists|k: int|
                        0 <= k < edges.len() && edges@[k] == (i, j as usize),
            decreases anc.len() - t,
        {
            match position(m, anc[t]) {
                Some(j) => {
                    let ghost before = edges@;
                    edges.push((i, j));
                    proof {
                        assert(anc@.contains(anc@[t as int]));
                        assert(edges@[before.len() as int] == (i, j));
                        assert forall|i2: int, j2: int|
                            0 <= i2 < i && 0 <= j2 < m.len() && #[trigger] procs.ancestors_of(
                                m@[i2],
                            ).contains(#[trigger] m@[j2]) implies exists|k: int|
                                0 <= k < edges.len() && edges@[k] == (i2 as usize, j2 as usize) by {
                            let k = choose|k: int|
                                0 <= k < before.len() && before[k] == (i2 as usize, j2 as usize);
                            assert(edges@[k] == before[k]);
                        }
                        assert forall|t2: int, j2: int|
                            0 <= t2 < t + 1 && 0 <= j2 < m.len() && #[trigger] anc@[t2] == #[trigger] m@[j2]
                                implies exists|k: int|
                                0 <= k < edges.len() && edges@[k] == (i, j2 as usize) by {
                            if t2 == t {
                                if j2 != j {
                                    assert(m@[j2 as int] == m@[j as int]);
                                    if j2 < j {
                                        assert(m@[j2 as int] < m@[j as int]);
                                    } else {
                                        assert(m@[j as int] < m@[j2 as int]);
                                    }
                                }
                                assert(edges@[before.len() as int] == (i, j2 as usize));
                            } else {
                                let k = choose|k: int|
                                    0 <= k < before.len() && before[k] == (i, j2 as usize);
                                assert(edges@[k] == before[k]);
                            }
                        }
                    }
                },
                None => {
                    proof {
                        assert forall|t2: int, j2: int|
                            0 <= t2 < t + 1 && 0 <= j2 < m.len() && #[trigger] anc@[t2] == #[trigger] m@[j2]
                                implies exists|k: int|
                                0 <= k < edges.len() && edges@[k] == (i, j2 as usize) by {
                            if t2 == t {
                                assert(m@.contains(m@[j2 as int]));
                            }
                        }
                    }
                },
            }
            t = t + 1;
        }
        proof {
            assert forall|i2: int, j: int|
                0 <= i2 < i + 1 && 0 <= j < m.len() && #[trigger] procs.ancestors_of(
                    m@[i2],
                ).contains(#[trigger] m@[j]) implies exists|k: int|
                0 <= k < edges.len() && edges@[k] == (i2 as usize, j as usize) by {
                if i2 == i {
                    let t2 = choose|t2: int| 0 <= t2 < anc.len() && anc@[t2] == m@[j];
                }
            }
        }
        i = i + 1;
    }
    edges
}

/// Sum of a sequence of labels.
spec fn label_sum(s: Seq<usize>) -> nat
    decreases s.len(),
{
    if s.len() == 0 {
        0
    } else {
        label_sum(s.drop_last()) + s.last() as nat
    }
}

proof fn lemma_label_sum_update(s: Seq<usize>, i: int, v: usize)
    requires
        0 <= i < s.len(),
    ensures
        label_sum(s.update(i, v)) == label_sum(s) - s[i] + v,
    decreases s.len(),
{
    if i == s.len() - 1 {
        assert(s.update(i, v).drop_last() =~= s.drop_last());
    } else {
        lemma_label_sum_update(s.drop_last(), i, v);
        assert(s.update(i, v).drop_last() =~= s.drop_last().update(i, v));
    }
}

/// Every listener `m[i]` carries a label no larger than `i`, naming a
/// listener it is connected to.
spec fn labels_ok(procs: &ProcTable, l: Set<u32>, m: Seq<u32>, labels: Seq<usize>) -> bool {
    &&& labels.len() == m.len()
    &&& forall|i: int|
        0 <= i < m.len() ==> #[trigger] labels[i] <= i && procs.connected(
            l,
            m[i],
            m[labels[i] as int],
        )
}

/// The edges of `link_edges` join listeners that are linked.
spec fn edges_ok(procs: &ProcTable, m: Seq<u32>, edges: Seq<(usize, usize)>) -> bool {
    forall|k: int|
        0 <= k < edges.len() ==> (#[trigger] edges[k]).0 < m.len() && edges[k].1 < m.len()
            && procs.ancestors_of(m[edges[k].0 as int]).contains(m[edges[k].1 as int])
}

/// Moving `b` to the label of `a`, when `a` and `b` are linked and the label
/// of `a` is the smaller, keeps the labels consistent.
proof fn lemma_relabel(
    procs: &ProcTable,
    l: Set<u32>,
    m: Seq<u32>,
    labels: Seq<usize>,
    a: int,
    b: int,
)
    requires
        labels_ok(procs, l, m, labels),
        m.to_set() == l,
        0 <= a < m.len(),
        0 <= b < m.len(),
        procs.ancestors_of(m[a]).contains(m[b]) || procs.ancestors_of(m[b]).contains(m[a]),
        labels[a] < labels[b],
    ensures
        labels_ok(procs, l, m, labels.update(b, labels[a])),
{
    let nl = labels.update(b, labels[a]);
    assert(l.contains(m[a]) && l.contains(m[b]));
    assert(procs.linked(l, m[b], m[a]));
    lemma_linked_connected(procs, l, m[b], m[a]);
    assert(labels[a] <= a && procs.connected(l, m[a], m[labels[a] as int]));
    assert(labels[b] <= b);
    lemma_connected_trans(procs, l, m[b], m[a], m[labels[a] as int]);
    assert forall|i: int| 0 <= i < m.len() implies #[trigger] nl[i] <= i && procs.connected(
        l,
        m[i],
        m[nl[i] as int],
    ) by {
        if i != b {
            assert(nl[i] == labels[i]);
        }
    }
}

/// Labels every listener with the smallest position of a listener connected
/// to it: repeatedly gives both ends of an edge the smaller of their labels
/// until no edge changes.
fn settle_labels(
    procs: &ProcTable,
    Ghost(l): Ghost<Set<u32>>,
    m: &Vec<u32>,
    edges: &Vec<(usize, usize)>,
) -> (labels: Vec<usize>)
    requires
        m@.to_set() == l,
        edges_ok(procs, m@, edges@),
    ensures
        labels_ok(procs, l, m@, labels@),
        forall|k: int|
            0 <= k < edges.len() ==> labels@[(#[trigger] edges@[k]).0 as int] == labels@[edges@[k].1 as int],
{
    let mut labels: Vec<usize> = Vec::new();
    let mut i: usize = 0;
    while i < m.len()
        invariant
            i <= m.len(),
            m@.to_set() == l,
            labels.len() == i,
            forall|t: int| 0 <= t < i ==> #[trigger] labels@[t] == t,
        decreases m.len() - i,
    {
        labels.push(i);
        i = i + 1;
    }
    proof {
        assert forall|t: int| 0 <= t < m.len() implies #[trigger] labels@[t] <= t && procs.connected(
            l,
            m@[t],
            m@[labels@[t] as int],
        ) by {
            assert(m@.to_set().contains(m@[t]));
            lemma_connected_refl(procs, l, m@[t]);
        }
    }
    loop
        invariant
            m@.to_set() == l,
            edges_ok(procs, m@, edges@),
            labels_ok(procs, l, m@, labels@),
        ensures
            labels_ok(procs, l, m@, labels@),
            forall|k: int|
                0 <= k < edges.len() ==> labels@[(#[trigger] edges@[k]).0 as int]
                    == labels@[edges@[k].1 as int],
        decreases label_sum(labels@),
    {
        let ghost start = labels@;
        let mut changed = false;
        let mut k: usize = 0;
        while k < edges.len()
            invariant
                m@.to_set() == l,
                edges_ok(procs, m@, edges@),
                labels_ok(procs, l, m@, labels@),
                k <= edges.len(),
                !changed ==> labels@ == start,
                !changed ==> forall|k2: int|
                    0 <= k2 < k ==> labels@[(#[trigger] edges@[k2]).0 as int]
                        == labels@[edges@[k2].1 as int],
                changed ==> label_sum(labels@) < label_sum(start),
            decreases edges.len() - k,
        {
            let (a, b) = edges[k];
            assert(edges@[k as int] == (a, b));
            let la = labels[a];
            let lb = labels[b];
            if la < lb {
                proof {
                    lemma_relabel(procs, l, m@, labels@, a as int, b as int);
                    lemma_label_sum_update(labels@, b as int, la);
                }
                labels.set(b, la);
                changed = true;
            } else if lb < la {
                proof {
                    lemma_relabel(procs, l, m@, labels@, b as int, a as int);
                    lemma_label_sum_update(labels@, a as int, lb);
                }
                labels.set(a, lb);
                changed = true;
            }
            k = k + 1;
        }
        if !changed {
            break;
        }
    }
    labels
}

/// The listeners among the first `upto` of `m` whose label is `r`.
spec fn label_class(m: Seq<u32>, labels: Seq<usize>, r: int, upto: int) -> Set<u32> {
    Set::new(|x: u32| exists|i: int| 0 <= i < upto && #[trigger] m[i] == x && labels[i] == r)
}

/// One set per label that labels itself, in increasing order of that label.
fn group_by_label(m: &Vec<u32>, labels: &Vec<usize>) -> (r: (Vec<HashSet<u32>>, Ghost<Seq<int>>))
    requires
        labels.len() == m.len(),
    ensures
        r.0.len() == r.1@.len(),
        forall|k: int|
            0 <= k < r.0.len() ==> 0 <= #[trigger] r.1@[k] < m.len() && labels@[r.1@[k]] == r.1@[k]
                && r.0@[k]@ == label_class(m@, labels@, r.1@[k], m.len() as int),
        forall|k1: int, k2: int| 0 <= k1 < k2 < r.1@.len() ==> #[trigger] r.1@[k1] < #[trigger] r.1@[k2],
        forall|x: int| 0 <= x < m.len() && #[trigger] labels@[x] == x ==> r.1@.contains(x),
{
    let mut comps: Vec<HashSet<u32>> = Vec::new();
    let ghost mut reps: Seq<int> = Seq::empty();
    let n = m.len();
    let mut r: usize = 0;
    while r < n
        invariant
            n == m.len(),
            labels.len() == m.len(),
            r <= n,
            comps.len() == reps.len(),
            forall|k: int|
                0 <= k < comps.len() ==> 0 <= #[trigger] reps[k] < r && labels@[reps[k]] == reps[k]
                    && comps@[k]@ == label_class(m@, labels@, reps[k], n as int),
            forall|k1: int, k2: int| 0 <= k1 < k2 < reps.len() ==> #[trigger] reps[k1] < #[trigger] reps[k2],
            forall|x: int| 0 <= x < r && #[trigger] labels@[x] == x ==> reps.contains(x),
        decreases n - r,
    {
        let ghost old_reps = reps;
        if labels[r] == r {
            let mut set: HashSet<u32> = HashSet::new();
            let mut i: usize = 0;
            while i < n
                invariant
                    n == m.len(),
                    labels.len() == m.len(),
                    r < n,
                    i <= n,
                    set@ == label_class(m@, labels@, r as int, i as int),
                decreases n - i,
            {
                if labels[i] == r {
                    set.insert(m[i]);
                }
                proof {
                    assert(set@ =~= label_class(m@, labels@, r as int, i + 1)) by {
                        assert forall|x: u32| #[trigger] set@.contains(x) implies label_class(
                            m@,
                            labels@,
                            r as int,
                            i + 1,
                        ).contains(x) by {
                            if labels@[i as int] == r && x == m@[i as int] {
                            } else {
                                assert(label_class(m@, labels@, r as int, i as int).contains(x));
                                let t = choose|t: int|
                                    0 <= t < i && #[trigger] m@[t] == x && labels@[t] == r;
                            }
                        }
                        assert forall|x: u32| #[trigger] label_class(m@, labels@, r as int, i + 1).contains(x) implies set@.contains(x) by {
                            let t = choose|t: int|
                                0 <= t < i + 1 && #[trigger] m@[t] == x && labels@[t] == r;
                            if t < i {
                                assert(label_class(m@, labels@, r as int, i as int).contains(x));
                            }
                        }
                    }
                }
                i = i + 1;
            }
            comps.push(set);
            proof {
                reps = reps.push(r as int);
                assert(reps.contains(r as int)) by {
                    assert(reps[reps.len() - 1] == r);
                }
            }
        }
        proof {
            assert forall|x: int| 0 <= x < r + 1 && #[trigger] labels@[x] == x implies reps.contains(x) by {
                if x < r {
                    assert(old_reps.contains(x));
                    let k = choose|k: int| 0 <= k < old_reps.len() && old_reps[k] == x;
                    assert(reps[k] == x);
                }
            }
        }
        r = r + 1;
    }
    (comps, Ghost(reps))
}

/// Along a walk of linked listeners the settled labels do not change.
proof fn lemma_path_same_label(
    procs: &ProcTable,
    l: Set<u32>,
    m: Seq<u32>,
    edges: Seq<(usize, usize)>,
    labels: Seq<usize>,
    path: Seq<u32>,
    i: int,
    j: int,
)
    requires
        increasing(m),
        m.len() <= usize::MAX,
        m.to_set() == l,
        labels.len() == m.len(),
        forall|i2: int, j2: int|
            0 <= i2 < m.len() && 0 <= j2 < m.len() && #[trigger] procs.ancestors_of(m[i2]).contains(
                #[trigger] m[j2],
            ) ==> exists|k: int| 0 <= k < edges.len() && edges[k] == (i2 as usize, j2 as usize),
        forall|k: int|
            0 <= k < edges.len() ==> labels[(#[trigger] edges[k]).0 as int] == labels[edges[k].1 as int],
        procs.link_path(l, path),
        0 <= i < m.len(),
        0 <= j < m.len(),
        m[i] == path[0],
        m[j] == path.last(),
    ensures
        labels[i] == labels[j],
    decreases path.len(),
{
    if path.len() == 1 {
        assert(path.last() == path[0]);
        if i < j {
            assert(m[i] < m[j]);
        } else if j < i {
            assert(m[j] < m[i]);
        }
    } else {
        let n = path.len() - 1;
        let prefix = path.drop_last();
        assert forall|t: int| 0 <= t < prefix.len() implies l.contains(#[trigger] prefix[t]) by {
            assert(prefix[t] == path[t]);
        }
        assert forall|t: int| 0 <= t < prefix.len() - 1 implies #[trigger] procs.adjacent(
            l,
            prefix,
            t,
        ) by {
            assert(procs.adjacent(l, path, t));
            assert(prefix[t] == path[t] && prefix[t + 1] == path[t + 1]);
        }
        assert(l.contains(path[n - 1]));
        assert(m.to_set().contains(path[n - 1]));
        let c = choose|c: int| 0 <= c < m.len() && m[c] == path[n - 1];
        assert(prefix.last() == path[n - 1]);
        lemma_path_same_label(procs, l, m, edges, labels, prefix, i, c);
        assert(procs.adjacent(l, path, n - 1));
        if procs.ancestors_of(m[c]).contains(m[j]) {
            let k = choose|k: int| 0 <= k < edges.len() && edges[k] == (c as usize, j as usize);
            assert(labels[edges[k].0 as int] == labels[edges[k].1 as int]);
        } else {
            let k = choose|k: int| 0 <= k < edges.len() && edges[k] == (j as usize, c as usize);
            assert(labels[edges[k].0 as int] == labels[edges[k].1 as int]);
        }
    }
}


/// The smallest member of `s`.
pub open spec fn least(s: Set<u32>) -> u32 {
    choose|x: u32| s.contains(x) && forall|y: u32| s.contains(y) ==> x <= y
}

proof fn lemma_least_exists(s: Set<u32>)
    requires
        s.finite(),
        s != Set::<u32>::empty(),
    ensures
        exists|x: u32| s.contains(x) && forall|y: u32| s.contains(y) ==> x <= y,
    decreases s.len(),
{
    if !(exists|x: u32| s.contains(x)) {
        assert(s =~= Set::<u32>::empty());
    }
    let a = s.choose();
    let r = s.remove(a);
    if r == Set::<u32>::empty() {
        assert forall|y: u32| s.contains(y) implies a <= y by {
            if y != a {
                assert(r.contains(y));
            }
        }
    } else {
        lemma_least_exists(r);
        let m = choose|x: u32| r.contains(x) && forall|y: u32| r.contains(y) ==> x <= y;
        if a < m {
            assert forall|y: u32| s.contains(y) implies a <= y by {
                if y != a {
                    assert(r.contains(y));
                }
            }
        } else {
            assert forall|y: u32| s.contains(y) implies m <= y by {
                if y != a {
                    assert(r.contains(y));
                }
            }
        }
    }
}

proof fn lemma_least(s: Set<u32>)
    requires
        s.finite(),
        s != Set::<u32>::empty(),
    ensures
        s.contains(least(s)),
        forall|y: u32| s.contains(y) ==> least(s) <= y,
{
    lemma_least_exists(s);
}

/// A group of `comps` is exactly the listeners connected to any one of its
/// members.
proof fn lemma_group_is_class(procs: &ProcTable, l: Set<u32>, comps: Seq<Set<u32>>, k: int, a: u32)
    requires
        procs.components_of(l, comps),
        0 <= k < comps.len(),
        comps[k].contains(a),
    ensures
        comps[k] == l.filter(|b: u32| procs.connected(l, a, b)),
{
    assert forall|b: u32| comps[k].contains(b) <==> l.filter(|b: u32| procs.connected(l, a, b)).contains(b) by {
        if comps[k].contains(b) {
            assert(l.contains(b));
        }
        if l.contains(b) {
            assert(comps[k].contains(b) <==> procs.connected(l, a, b));
        }
    }
    assert(comps[k] =~= l.filter(|b: u32| procs.connected(l, a, b)));
}

/// The least members of the groups, in order.
pub open spec fn leasts(comps: Seq<Set<u32>>) -> Seq<u32> {
    comps.map_values(|c: Set<u32>| least(c))
}

proof fn lemma_leasts(procs: &ProcTable, l: Set<u32>, comps: Seq<Set<u32>>)
    requires
        l.finite(),
        procs.components_of(l, comps),
    ensures
        crate::text::increasing(leasts(comps)),
        forall|k: int| 0 <= k < comps.len() ==> #[trigger] comps[k].contains(least(comps[k])),
{
    assert forall|k: int| 0 <= k < comps.len() implies #[trigger] comps[k].contains(least(comps[k]))
        && forall|y: u32| comps[k].contains(y) ==> least(comps[k]) <= y by {
        assert(comps[k] != Set::<u32>::empty());
        assert(comps[k].subset_of(l));
        vstd::set_lib::lemma_set_subset_finite(l, comps[k]);
        lemma_least(comps[k]);
    }
    let q = leasts(comps);
    assert forall|i: int, j: int| 0 <= i < j < q.len() implies #[trigger] q[i] < #[trigger] q[j] by {
        assert(precedes(comps[i], comps[j]));
        let x = choose|x: u32| comps[i].contains(x) && forall|y: u32| comps[j].contains(y) ==> x < y;
        assert(comps[i].contains(least(comps[i])));
        assert(comps[j].contains(least(comps[j])));
    }
}

/// The groups of a set of listener pids are determined by it: any two
/// sequences of groups that `components_of` accepts are the same, so the
/// kill targets built from them are too.
/// A group of one grouping holding `m` is the group of any other grouping
/// that holds `m`.
proof fn lemma_class_found(procs: &ProcTable, l: Set<u32>, c1: Seq<Set<u32>>, c2: Seq<Set<u32>>, k: int, m: u32)
    requires
        procs.components_of(l, c1),
        procs.components_of(l, c2),
        0 <= k < c1.len(),
        c1[k].contains(m),
    ensures
        exists|k2: int| 0 <= k2 < c2.len() && c2[k2] == c1[k] && c2[k2].contains(m),
{
    assert(l.contains(m));
    let k2 = choose|k2: int| 0 <= k2 < c2.len() && #[trigger] c2[k2].contains(m);
    lemma_group_is_class(procs, l, c1, k, m);
    lemma_group_is_class(procs, l, c2, k2, m);
}

/// The groups of a set of listener pids are determined by it: any two
/// sequences of groups that `components_of` accepts are the same, so the
/// kill targets built from them are too.
#[verifier::spinoff_prover]
#[verifier::rlimit(100)]
pub proof fn lemma_components_unique(procs: &ProcTable, l: Set<u32>, c1: Seq<Set<u32>>, c2: Seq<Set<u32>>)
    requires
        l.finite(),
        procs.components_of(l, c1),
        procs.components_of(l, c2),
    ensures
        c1 == c2,
{
    lemma_leasts(procs, l, c1);
    lemma_leasts(procs, l, c2);
    let q1 = leasts(c1);
    let q2 = leasts(c2);
    assert forall|x: u32| q1.to_set().contains(x) implies q2.to_set().contains(x) by {
        let k = choose|k: int| 0 <= k < q1.len() && q1[k] == x;
        assert(c1[k].contains(least(c1[k])));
        lemma_class_found(procs, l, c1, c2, k, x);
        let k2 = choose|k2: int| 0 <= k2 < c2.len() && c2[k2] == c1[k] && c2[k2].contains(x);
        assert(q2[k2] == x);
    }
    assert forall|x: u32| q2.to_set().contains(x) implies q1.to_set().contains(x) by {
        let k = choose|k: int| 0 <= k < q2.len() && q2[k] == x;
        assert(c2[k].contains(least(c2[k])));
        lemma_class_found(procs, l, c2, c1, k, x);
        let k1 = choose|k1: int| 0 <= k1 < c1.len() && c1[k1] == c2[k] && c1[k1].contains(x);
        assert(q1[k1] == x);
    }
    assert(q1.to_set() =~= q2.to_set());
    crate::text::lemma_increasing_unique(q1, q2);
    assert forall|k: int| 0 <= k < c1.len() implies c1[k] == c2[k] by {
        assert(q1[k] == q2[k]);
        assert(c1[k].contains(least(c1[k])));
        assert(c2[k].contains(least(c2[k])));
        let m = q1[k];
        lemma_group_is_class(procs, l, c1, k, m);
        lemma_group_is_class(procs, l, c2, k, m);
    }
    assert(c1 =~= c2);
}

/// Union listener PIDs that are parent/child of each other.
pub fn connected_listener_components(procs: &ProcTable, listener_pids: &HashSet<u32>) -> (r: Vec<
    HashSet<u32>,
>)
    ensures
        procs.components_of(listener_pids@, r@.map_values(|s: HashSet<u32>| s@)),
{
    let ghost l = listener_pids@;
    let m = sorted_members(listener_pids);
    let edges = link_edges(procs, &m);
    let labels = settle_labels(procs, Ghost(l), &m, &edges);
    let (comps, Ghost(reps)) = group_by_label(&m, &labels);
    proof {
        let cs = comps@.map_values(|s: HashSet<u32>| s@);
        let n = m.len() as int;
        assert forall|k: int| 0 <= k < cs.len() implies #[trigger] cs[k] != Set::<u32>::empty() by {
            let r = reps[k];
            assert(cs[k] == label_class(m@, labels@, r, n));
            assert(cs[k].contains(m@[r]));
        }
        assert forall|k: int, a: u32| 0 <= k < cs.len() && #[trigger] cs[k].contains(a) implies l.contains(
            a,
        ) by {
            let r = reps[k];
            assert(cs[k] == label_class(m@, labels@, r, n));
            let t = choose|t: int| 0 <= t < n && #[trigger] m@[t] == a && labels@[t] == r;
            assert(m@.to_set().contains(m@[t]));
        }
        assert forall|a: u32| l.contains(a) implies exists|k: int|
            0 <= k < cs.len() && #[trigger] cs[k].contains(a) by {
            assert(m@.to_set().contains(a));
            let i = choose|i: int| 0 <= i < n && m@[i] == a;
            let r = labels@[i] as int;
            assert(labels@[i] <= i && procs.connected(l, m@[i], m@[r]));
            let p = choose|p: Seq<u32>| procs.link_path(l, p) && p[0] == m@[i] && p.last() == m@[r];
            lemma_path_same_label(procs, l, m@, edges@, labels@, p, i, r);
            assert(labels@[r] == r);
            let k = choose|k: int| 0 <= k < reps.len() && reps[k] == r;
            assert(cs[k] == label_class(m@, labels@, r, n));
            assert(cs[k].contains(a));
        }
        assert forall|k: int, a: u32, b: u32|
            0 <= k < cs.len() && #[trigger] cs[k].contains(a) && l.contains(b) implies (
            #[trigger] cs[k].contains(b) <==> procs.connected(l, a, b)) by {
            let r = reps[k];
            assert(cs[k] == label_class(m@, labels@, r, n));
            let i = choose|i: int| 0 <= i < n && #[trigger] m@[i] == a && labels@[i] == r;
            assert(m@.to_set().contains(b));
            let j = choose|j: int| 0 <= j < n && m@[j] == b;
            assert(labels@[i] <= i && procs.connected(l, m@[i], m@[labels@[i] as int]));
            assert(labels@[j] <= j && procs.connected(l, m@[j], m@[labels@[j] as int]));
            if cs[k].contains(b) {
                let j2 = choose|j2: int| 0 <= j2 < n && #[trigger] m@[j2] == b && labels@[j2] == r;
                if j2 != j {
                    if j2 < j {
                        assert(m@[j2] < m@[j]);
                    } else {
                        assert(m@[j] < m@[j2]);
                    }
                }
                lemma_connected_sym(procs, l, m@[j], m@[r]);
                lemma_connected_trans(procs, l, a, m@[r], b);
            }
            if procs.connected(l, a, b) {
                let p = choose|p: Seq<u32>| procs.link_path(l, p) && p[0] == a && p.last() == b;
                lemma_path_same_label(procs, l, m@, edges@, labels@, p, i, j);
                assert(label_class(m@, labels@, r, n).contains(b));
            }
        }
        assert forall|k1: int, k2: int|
            0 <= k1 < k2 < cs.len() implies #[trigger] precedes(cs[k1], cs[k2]) by {
            let r1 = reps[k1];
            let r2 = reps[k2];
            assert(r1 < r2);
            assert(cs[k1] == label_class(m@, labels@, r1, n));
            assert(cs[k2] == label_class(m@, labels@, r2, n));
            let a = m@[r1];
            assert(cs[k1].contains(a));
            assert forall|b: u32| #[trigger] cs[k2].contains(b) implies a < b by {
                let j = choose|j: int| 0 <= j < n && #[trigger] m@[j] == b && labels@[j] == r2;
                assert(labels@[j] <= j);
                assert(m@[r1] < m@[j]);
            }
            assert(cs[k1].contains(a) && forall|b: u32| cs[k2].contains(b) ==> a < b);
        }
        assert(procs.components_of(l, cs));
    }
    comps
}

// ---------------------------------------------------------------------
// Reading `/proc/<pid>/stat`
// ---------------------------------------------------------------------

/// The stat text can be cut two bytes after its first `)`: there is no `)`,
/// or the `)` is followed by a one-byte character.
pub open spec fn stat_sliceable(s: Seq<char>) -> bool {
    let k = index_of_or_len(s, ')');
    k >= s.len() || (k + 1 < s.len() && (s[(k + 1) as int] as u32) < 128)
}

/// The parent and group fields of a stat text: the second and third
/// blank-separated fields after the command name, which ends at the first `)`.
pub open spec fn stat_fields(s: Seq<char>) -> Option<ProcStat> {
    let k = index_of_or_len(s, ')');
    if k >= s.len() {
        None
    } else {
        let w = words(s.skip((k + 2) as int));
        if w.len() < 3 {
            None
        } else {
            match (parse_unsigned(w[1], u32::MAX as nat), parse_unsigned(w[2], u32::MAX as nat)) {
                (Some(a), Some(b)) => Some(ProcStat { ppid: a as u32, pgid: b as u32 }),
                _ => None,
            }
        }
    }
}

/// Whether `parse_stat` may be given `content`.
pub fn stat_text_sliceable(content: &str) -> (r: bool)
    ensures
        r == stat_sliceable(content@),
{
    let v = chars_of(content);
    let k = scan_char(&v, 0, ')');
    assert(v@.skip(0) =~= v@);
    k >= v.len() || (k + 1 < v.len() && (v[k + 1] as u32) < 128)
}

/// Parent and process group from the text of `/proc/<pid>/stat`.
pub fn parse_stat(content: &str) -> (r: Option<ProcStat>)
    requires
        stat_sliceable(content@),
    ensures
        r == stat_fields(content@),
{
    let v = chars_of(content);
    let k = scan_char(&v, 0, ')');
    assert(v@.skip(0) =~= v@);
    if k >= v.len() {
        return None;
    }
    let start = k + 2;
    assert(v@.subrange(start as int, v.len() as int) =~= v@.skip(k + 2));
    let fields = split_words(&v, start, v.len());
    if fields.len() < 3 {
        return None;
    }
    let (p0, p1) = fields[1];
    let (g0, g1) = fields[2];
    assert(fields@[1] == (p0, p1));
    assert(fields@[2] == (g0, g1));
    let ppid = parse_unsigned_range(&v, p0, p1, 0xFFFF_FFFF);
    let pgid = parse_unsigned_range(&v, g0, g1, 0xFFFF_FFFF);
    match (ppid, pgid) {
        (Some(a), Some(b)) => Some(ProcStat { ppid: a as u32, pgid: b as u32 }),
        _ => None,
    }
}

} // verus!
