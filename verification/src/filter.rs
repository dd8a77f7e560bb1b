//! Which ports and processes are shown.
use vstd::prelude::*;
use crate::listener::{lviews, Listener, ListenerView};
use crate::proc::ProcTable;
use crate::text::{
    chars_of, first_word, first_word_range, lines, matches_at, parse_unsigned, parse_unsigned_range,
    split_lines, starts_with, views,
};

verus! {

/// The lowest port shown.
pub const MIN_PORT: u16 = 1024;

/// The highest port shown.
pub const MAX_PORT: u16 = 65535;

/// Common system ports excluded from dev-server view.
pub const DENYLIST: [u16; 6] = [22, 53, 631, 5353, 9050, 11434];

/// A TCP port the tool shows: in 1024–65535 and not a system port.
pub open spec fn dev_port(port: u16) -> bool {
    MIN_PORT <= port && port <= MAX_PORT && !DENYLIST@.contains(port)
}

/// Whether `port` is shown as a dev server port.
pub fn is_dev_port(port: u16) -> (r: bool)
    ensures
        r == dev_port(port),
{
    if port < MIN_PORT || port > MAX_PORT {
        return false;
    }
    let deny = DENYLIST;
    let mut i: usize = 0;
    while i < 6
        invariant
            i <= 6,
            deny@ == DENYLIST@,
            forall|j: int| 0 <= j < i ==> deny@[j] != port,
        decreases 6 - i,
    {
        if deny[i] == port {
            assert(DENYLIST@.contains(port));
            return false;
        }
        i = i + 1;
    }
    assert(!DENYLIST@.contains(port));
    true
}

/// Whether the process `pid` belongs to the user running the tool: its
/// `Uid:` line names the same user as the tool's own.  A process whose uid,
/// or the tool's own, could not be read never counts as owned.
pub fn process_owned_by_current_user(procs: &ProcTable, pid: u32) -> (r: bool)
    ensures
        r == procs.owned(pid),
{
    procs.self_uid != u32::MAX && procs.uid(pid) == procs.self_uid
}

/// The first number after `prefix` on the first line that starts with it;
/// `u32::MAX` when there is no such line or no such number.
pub open spec fn uid_from_lines(ls: Seq<Seq<char>>, prefix: Seq<char>) -> u32
    decreases ls.len(),
{
    if ls.len() == 0 {
        u32::MAX
    } else if starts_with(ls[0], prefix) {
        match first_word(ls[0].skip(prefix.len() as int)) {
            Some(w) => match parse_unsigned(w, u32::MAX as nat) {
                Some(v) => v as u32,
                None => u32::MAX,
            },
            None => u32::MAX,
        }
    } else {
        uid_from_lines(ls.drop_first(), prefix)
    }
}

/// The value of the `prefix` field of a `/proc/<pid>/status` text
/// (its first number), or `u32::MAX`.
pub fn uid_field(content: &str, prefix: &str) -> (r: u32)
    ensures
        r == uid_from_lines(lines(content@), prefix@),
{
    let v = chars_of(content);
    let p = chars_of(prefix);
    let ls = split_lines(&v);
    let mut i: usize = 0;
    assert(views(ls@).skip(0) =~= views(ls@));
    while i < ls.len()
        invariant
            i <= ls.len(),
            v@ == content@,
            p@ == prefix@,
            views(ls@) == lines(content@),
            uid_from_lines(lines(content@), prefix@) == uid_from_lines(views(ls@).skip(i as int), prefix@),
        decreases ls.len() - i,
    {
        let line = &ls[i];
        let ghost rest = views(ls@).skip(i as int);
        assert(rest[0] == line@);
        if matches_at(line, 0, &p) {
            assert(line@.subrange(p.len() as int, line.len() as int) =~= line@.skip(p.len() as int));
            match first_word_range(line, p.len(), line.len()) {
                Some((s, e)) => {
                    match parse_unsigned_range(line, s, e, 0xFFFF_FFFF) {
                        Some(val) => {
                            return val as u32;
                        },
                        None => {
                            return u32::MAX;
                        },
                    }
                },
                None => {
                    return u32::MAX;
                },
            }
        }
        assert(rest.drop_first() =~= views(ls@).skip(i + 1));
        i = i + 1;
    }
    u32::MAX
}


/// The uid a `/proc/<pid>/status` text gives (`u32::MAX` when it could not
/// be read).
pub open spec fn status_uid(status: Option<String>) -> u32 {
    match status {
        Some(c) => uid_from_lines(lines(c@), "Uid:"@),
        None => u32::MAX,
    }
}

/// Whether the process whose status text is `status` belongs to the user
/// whose own status text is `self_status` (each `None` when unreadable):
/// both uids are known and equal.
pub fn owned_by(status: &Option<String>, self_status: &Option<String>) -> (r: bool)
    ensures
        r == (status_uid(*self_status) != u32::MAX && status_uid(*status) == status_uid(*self_status)),
{
    let a = match status {
        Some(c) => uid_field(c.as_str(), "Uid:"),
        None => u32::MAX,
    };
    let b = match self_status {
        Some(c) => uid_field(c.as_str(), "Uid:"),
        None => u32::MAX,
    };
    b != u32::MAX && a == b
}

/// The port and pid of a listener.
pub open spec fn key_of(l: ListenerView) -> (u16, u32) {
    (l.port, l.pid)
}

/// The ports and pids of `s`.
pub open spec fn keys(s: Seq<ListenerView>) -> Seq<(u16, u32)> {
    s.map_values(|l: ListenerView| key_of(l))
}

/// `s` with every listener dropped whose port and pid an earlier one has.
pub open spec fn dedupe_spec(s: Seq<ListenerView>) -> Seq<ListenerView>
    decreases s.len(),
{
    if s.len() == 0 {
        seq![]
    } else {
        let r = dedupe_spec(s.drop_last());
        if keys(s.drop_last()).contains(key_of(s.last())) {
            r
        } else {
            r.push(s.last())
        }
    }
}

/// Keeps the first listener of each port and pid.
pub fn dedupe_listeners(items: Vec<Listener>) -> (r: Vec<Listener>)
    ensures
        lviews(r@) == dedupe_spec(lviews(items@)),
{
    let mut out: Vec<Listener> = Vec::new();
    let mut i: usize = 0;
    while i < items.len()
        invariant
            i <= items.len(),
            lviews(out@) == dedupe_spec(lviews(items@).take(i as int)),
            keys(lviews(out@)).to_set() == keys(lviews(items@).take(i as int)).to_set(),
        decreases items.len() - i,
    {
        let x = &items[i];
        let ghost kept = lviews(out@);
        let mut t: usize = 0;
        let mut seen = false;
        while t < out.len()
            invariant
                t <= out.len(),
                kept == lviews(out@),
                seen == keys(kept).take(t as int).contains(key_of(x@)),
            decreases out.len() - t,
        {
            let ghost prev = keys(kept).take(t as int);
            assert(keys(kept).take(t + 1) =~= prev.push(key_of(kept[t as int])));
            assert(kept[t as int] == out@[t as int]@);
            if out[t].port == x.port && out[t].pid == x.pid {
                seen = true;
                assert(prev.push(key_of(kept[t as int]))[t as int] == key_of(x@));
            } else {
                assert(key_of(kept[t as int]) != key_of(x@));
                assert(prev.push(key_of(kept[t as int])).contains(key_of(x@)) ==> prev.contains(key_of(x@))) by {
                    if prev.push(key_of(kept[t as int])).contains(key_of(x@)) {
                        let w = choose|w: int| 0 <= w < t + 1 && prev.push(key_of(kept[t as int]))[w] == key_of(x@);
                        assert(prev[w] == key_of(x@));
                    }
                }
            }
            proof {
                if prev.contains(key_of(x@)) {
                    let w = choose|w: int| 0 <= w < t && prev[w] == key_of(x@);
                    assert(prev.push(key_of(kept[t as int]))[w] == key_of(x@));
                }
            }
            t = t + 1;
        }
        proof {
            assert(keys(kept).take(out.len() as int) =~= keys(kept));
            let iv = lviews(items@);
            let sq = iv.take(i + 1);
            assert(sq.drop_last() =~= iv.take(i as int));
            assert(sq.last() == x@);
            assert(keys(sq) =~= keys(iv.take(i as int)).push(key_of(x@)));
            assert(keys(kept).contains(key_of(x@)) == keys(kept).to_set().contains(key_of(x@)));
            assert(keys(iv.take(i as int)).contains(key_of(x@)) == keys(iv.take(i as int)).to_set().contains(key_of(x@)));
        }
        if !seen {
            out.push(x.clone());
            proof {
                assert(lviews(out@) =~= kept.push(x@));
                assert(keys(lviews(out@)) =~= keys(kept).push(key_of(x@)));
                vstd::seq::Seq::lemma_push_to_set_commute(keys(kept), key_of(x@));
                vstd::seq::Seq::lemma_push_to_set_commute(keys(lviews(items@).take(i as int)), key_of(x@));
            }
        } else {
            proof {
                vstd::seq::Seq::lemma_push_to_set_commute(keys(lviews(items@).take(i as int)), key_of(x@));
                assert(keys(kept).to_set().insert(key_of(x@)) =~= keys(kept).to_set());
            }
        }
        i = i + 1;
    }
    assert(lviews(items@).take(items.len() as int) =~= lviews(items@));
    out
}

} // verus!
