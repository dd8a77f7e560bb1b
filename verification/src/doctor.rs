//! The health checks of `doctor`: what each finding means, and the advice
//! drawn from all of them.
use vstd::prelude::*;
use crate::project::{lossy_text, utf8_lossy};
use crate::text::{
    chars_of, contains, contains_str, copy_range, dec, int_text, join, lines, matches_at, push_chars,
    push_dec, push_int, push_join, push_str, split_lines, starts_with, starts_with_str, string_of,
    trim, trim_char, trim_char_range, trim_range, views,
};

verus! {

/// How a check came out.
#[derive(Debug, Clone, Copy, PartialEq, Eq, Structural)]
pub enum CheckStatus {
    Pass,
    Warn,
    Fail,
}

/// One line of the report.
#[derive(Debug)]
pub struct Check {
    pub name: String,
    pub status: CheckStatus,
    pub detail: String,
}

/// What came of running a command: whether it exited successfully, its exit
/// code when it had one, and what it wrote.
#[derive(Debug)]
pub struct CommandOutput {
    pub success: bool,
    pub code: Option<i32>,
    pub stdout: Vec<u8>,
    pub stderr: Vec<u8>,
}

/// The check has this name, status and detail.
pub open spec fn is_check(c: Check, name: Seq<char>, status: CheckStatus, detail: Seq<char>) -> bool {
    c.name@ == name && c.status == status && c.detail@ == detail
}

fn make_check(name: &str, status: CheckStatus, detail: String) -> (r: Check)
    ensures
        is_check(r, name@, status, detail@),
{
    Check { name: name.to_owned(), status, detail }
}

/// A command looked up on the search path: `found` is where it was found.
/// A missing required command fails; a missing optional one warns.
pub fn check_command(name: &str, required: bool, fix: &str, found: Option<String>) -> (r: Check)
    ensures
        match found {
            Some(path) => is_check(r, name@, CheckStatus::Pass, path@),
            None => is_check(
                r,
                name@,
                if required {
                    CheckStatus::Fail
                } else {
                    CheckStatus::Warn
                },
                "missing — "@ + fix@,
            ),
        },
{
    match found {
        Some(path) => make_check(name, CheckStatus::Pass, path),
        None => {
            let status = if required {
                CheckStatus::Fail
            } else {
                CheckStatus::Warn
            };
            let mut detail = "missing — ".to_owned();
            detail.append(fix);
            make_check(name, status, detail)
        },
    }
}

/// Whether a graphical session is there for the GTK menu.
pub fn check_display(ok: bool) -> (r: Check)
    ensures
        ok ==> is_check(r, "display (GTK menu)"@, CheckStatus::Pass, "DISPLAY or WAYLAND_DISPLAY set"@),
        !ok ==> is_check(
            r,
            "display (GTK menu)"@,
            CheckStatus::Warn,
            "no graphical session — use port-killer menu --tui"@,
        ),
{
    if ok {
        make_check("display (GTK menu)", CheckStatus::Pass, "DISPLAY or WAYLAND_DISPLAY set".to_owned())
    } else {
        make_check(
            "display (GTK menu)",
            CheckStatus::Warn,
            "no graphical session — use port-killer menu --tui".to_owned(),
        )
    }
}

/// Whether the GTK 4 libraries were found.
pub fn check_gtk_libs(gtk: bool) -> (r: Check)
    ensures
        gtk ==> is_check(r, "GTK 4 (built-in menu)"@, CheckStatus::Pass, "available"@),
        !gtk ==> is_check(
            r,
            "GTK 4 (built-in menu)"@,
            CheckStatus::Warn,
            "install dev libs: sudo apt install libgtk-4-dev libadwaita-1-dev"@,
        ),
{
    if gtk {
        make_check("GTK 4 (built-in menu)", CheckStatus::Pass, "available".to_owned())
    } else {
        make_check(
            "GTK 4 (built-in menu)",
            CheckStatus::Warn,
            "install dev libs: sudo apt install libgtk-4-dev libadwaita-1-dev".to_owned(),
        )
    }
}

/// How many of the lines start with `LISTEN`.
pub open spec fn listen_count(ls: Seq<Seq<char>>) -> nat
    decreases ls.len(),
{
    if ls.len() == 0 {
        0
    } else {
        listen_count(ls.drop_last()) + if starts_with(ls.last(), "LISTEN"@) {
            1nat
        } else {
            0nat
        }
    }
}

/// The number of lines of `text` that start with `LISTEN`.
pub fn count_listen_lines(text: &str) -> (r: usize)
    ensures
        r == listen_count(lines(text@)),
{
    let v = chars_of(text);
    let ls = split_lines(&v);
    let ghost lv = views(ls@);
    let mut n: usize = 0;
    let mut i: usize = 0;
    while i < ls.len()
        invariant
            i <= ls.len(),
            lv == views(ls@),
            n == listen_count(lv.take(i as int)),
            n <= i,
        decreases ls.len() - i,
    {
        proof {
            let t = lv.take(i + 1);
            assert(t.drop_last() =~= lv.take(i as int));
            assert(t.last() == ls@[i as int]@);
        }
        if starts_with_str(&ls[i], "LISTEN") {
            n = n + 1;
        }
        i = i + 1;
    }
    assert(lv.take(ls.len() as int) =~= lv);
    n
}

/// The detail of a failed command: `exit` and its code, `-1` without one.
pub open spec fn exit_text(code: Option<i32>) -> Seq<char> {
    "exit "@ + int_text(
        match code {
            Some(c) => c as int,
            None => -1,
        },
    )
}

fn exit_detail(code: Option<i32>) -> (r: String)
    ensures
        r@ == exit_text(code),
{
    let mut out: Vec<char> = Vec::new();
    push_str(&mut out, "exit ");
    let c: i32 = match code {
        Some(c) => c,
        None => -1,
    };
    push_int(&mut out, c);
    string_of(&out)
}

/// The check of `ss -tlnp`: how many LISTEN sockets its output shows, or
/// why it failed.
pub fn check_ss_listens(run: &Result<CommandOutput, String>) -> (r: Check)
    ensures
        match run {
            Ok(out) => if out.success {
                is_check(
                    r,
                    "ss -tlnp"@,
                    CheckStatus::Pass,
                    dec(listen_count(lines(utf8_lossy(out.stdout@)))) + " LISTEN socket(s) visible"@,
                )
            } else {
                is_check(r, "ss -tlnp"@, CheckStatus::Fail, exit_text(out.code))
            },
            Err(e) => is_check(r, "ss -tlnp"@, CheckStatus::Fail, e@),
        },
{
    match run {
        Ok(out) => {
            if out.success {
                let text = lossy_text(out.stdout.as_slice());
                let n = count_listen_lines(text.as_str());
                let mut detail: Vec<char> = Vec::new();
                push_dec(&mut detail, n as u64);
                push_str(&mut detail, " LISTEN socket(s) visible");
                make_check("ss -tlnp", CheckStatus::Pass, string_of(&detail))
            } else {
                make_check("ss -tlnp", CheckStatus::Fail, exit_detail(out.code))
            }
        },
        Err(e) => make_check("ss -tlnp", CheckStatus::Fail, e.clone()),
    }
}

/// The first 48 characters of `s`.
pub open spec fn first48(s: Seq<char>) -> Seq<char> {
    if s.len() <= 48 {
        s
    } else {
        s.take(48)
    }
}

/// The check of `port-killer list`: `None` when the binary is not installed.
/// Output that starts with `{` and holds `"text"` passes, shown by its first
/// 48 characters.
pub fn check_port_killer_list(run: &Option<Result<CommandOutput, String>>) -> (r: Check)
    ensures
        match run {
            None => is_check(
                r,
                "port-killer list"@,
                CheckStatus::Warn,
                "skipped — binary not installed"@,
            ),
            Some(Ok(out)) => {
                let json = utf8_lossy(out.stdout@);
                if !out.success {
                    is_check(r, "port-killer list"@, CheckStatus::Fail, trim(utf8_lossy(out.stderr@)))
                } else if starts_with(json, "{"@) && contains(json, "\"text\""@) {
                    is_check(r, "port-killer list"@, CheckStatus::Pass, first48(json))
                } else {
                    is_check(r, "port-killer list"@, CheckStatus::Fail, "unexpected output"@)
                }
            },
            Some(Err(e)) => is_check(r, "port-killer list"@, CheckStatus::Fail, e@),
        },
{
    match run {
        None => make_check(
            "port-killer list",
            CheckStatus::Warn,
            "skipped — binary not installed".to_owned(),
        ),
        Some(Ok(out)) => {
            if out.success {
                let json = lossy_text(out.stdout.as_slice());
                let jc = chars_of(json.as_str());
                if starts_with_str(&jc, "{") && contains_str(&jc, "\"text\"") {
                    let n: usize = if jc.len() <= 48 {
                        jc.len()
                    } else {
                        48
                    };
                    let head = copy_range(&jc, 0, n);
                    proof {
                        if jc.len() <= 48 {
                            assert(jc@.subrange(0, n as int) =~= jc@);
                        }
                    }
                    make_check("port-killer list", CheckStatus::Pass, string_of(&head))
                } else {
                    make_check("port-killer list", CheckStatus::Fail, "unexpected output".to_owned())
                }
            } else {
                let err = lossy_text(out.stderr.as_slice());
                let ec = chars_of(err.as_str());
                let (a, b) = trim_range(&ec, 0, ec.len());
                assert(ec@.subrange(0, ec.len() as int) =~= ec@);
                let t = copy_range(&ec, a, b);
                make_check("port-killer list", CheckStatus::Fail, string_of(&t))
            }
        },
        Some(Err(e)) => make_check("port-killer list", CheckStatus::Fail, e.clone()),
    }
}

/// The value of the first line of `ls` that starts with `prefix`, with
/// quotes trimmed from both ends.
pub open spec fn os_field_from(ls: Seq<Seq<char>>, prefix: Seq<char>) -> Option<Seq<char>>
    decreases ls.len(),
{
    if ls.len() == 0 {
        None
    } else if starts_with(ls[0], prefix) {
        Some(trim_char(ls[0].skip(prefix.len() as int), '"'))
    } else {
        os_field_from(ls.drop_first(), prefix)
    }
}

/// The value of `key` in an `os-release` text.
pub open spec fn os_field(content: Seq<char>, key: Seq<char>) -> Option<Seq<char>> {
    os_field_from(lines(content), key + "="@)
}

/// The value of `key` in an `os-release` text: what follows `key=` on the
/// first line that starts so, without surrounding quotes.
pub fn parse_os_field(content: &str, key: &str) -> (r: Option<String>)
    ensures
        match r {
            Some(v) => os_field(content@, key@) == Some(v@),
            None => os_field(content@, key@) is None,
        },
{
    let v = chars_of(content);
    let mut p = chars_of(key);
    push_str(&mut p, "=");
    let ghost prefix = key@ + "="@;
    let ls = split_lines(&v);
    let mut i: usize = 0;
    assert(views(ls@).skip(0) =~= views(ls@));
    while i < ls.len()
        invariant
            i <= ls.len(),
            p@ == prefix,
            prefix == key@ + "="@,
            views(ls@) == lines(content@),
            os_field(content@, key@) == os_field_from(views(ls@).skip(i as int), prefix),
        decreases ls.len() - i,
    {
        let line = &ls[i];
        let ghost rest = views(ls@).skip(i as int);
        assert(rest[0] == line@);
        if matches_at(line, 0, &p) {
            let (a, b) = trim_char_range(line, p.len(), line.len(), '"');
            assert(line@.subrange(p.len() as int, line.len() as int) =~= line@.skip(p.len() as int));
            let t = copy_range(line, a, b);
            return Some(string_of(&t));
        }
        assert(rest.drop_first() =~= views(ls@).skip(i + 1));
        i = i + 1;
    }
    None
}

/// The `ID` and `VERSION_ID` of an `os-release` text; `?` for a missing
/// version, nothing without an `ID`.
pub fn os_release(content: &str) -> (r: Option<(String, String)>)
    ensures
        match os_field(content@, "ID"@) {
            None => r is None,
            Some(id) => r matches Some((i, v)) && i@ == id && v@ == match os_field(
                content@,
                "VERSION_ID"@,
            ) {
                Some(x) => x,
                None => "?"@,
            },
        },
{
    let id = match parse_os_field(content, "ID") {
        Some(id) => id,
        None => {
            return None;
        },
    };
    let version = match parse_os_field(content, "VERSION_ID") {
        Some(v) => v,
        None => "?".to_owned(),
    };
    Some((id, version))
}

/// How well the system is supported.
pub open spec fn support_text(id: Seq<char>, version: Seq<char>) -> Seq<char> {
    if id == "ubuntu"@ && (version == "24.04"@ || version == "26.04"@) {
        "Ubuntu support: tested target"@
    } else if id == "ubuntu"@ {
        "Ubuntu support: best-effort (tested on 24.04 and 26.04)"@
    } else {
        "Ubuntu support: not targeted (may still work on Linux)"@
    }
}

fn same_text(a: &str, b: &str) -> (r: bool)
    ensures
        r == (a@ == b@),
{
    let x = chars_of(a);
    let y = chars_of(b);
    if x.len() != y.len() {
        return false;
    }
    let mut i: usize = 0;
    while i < x.len()
        invariant
            i <= x.len() == y.len(),
            x@ == a@,
            y@ == b@,
            forall|j: int| 0 <= j < i ==> x@[j] == y@[j],
        decreases x.len() - i,
    {
        if x[i] != y[i] {
            return false;
        }
        i = i + 1;
    }
    assert(x@ =~= y@);
    true
}

/// The support line for the system `id` and `version`.
pub fn support_note(id: &str, version: &str) -> (r: String)
    ensures
        r@ == support_text(id@, version@),
{
    if same_text(id, "ubuntu") {
        if same_text(version, "24.04") || same_text(version, "26.04") {
            "Ubuntu support: tested target".to_owned()
        } else {
            "Ubuntu support: best-effort (tested on 24.04 and 26.04)".to_owned()
        }
    } else {
        "Ubuntu support: not targeted (may still work on Linux)".to_owned()
    }
}

/// The desktop lines: GNOME first, then Waybar, else the generic hint.
pub fn desktop_lines(gnome: bool, waybar: bool) -> (r: Vec<String>)
    ensures
        gnome ==> r@.len() == 2 && r@[0]@ == "Desktop: GNOME (Ubuntu default top bar)"@ && r@[1]@
            == "Panel setup: port-killer setup gnome --install"@,
        !gnome && waybar ==> r@.len() == 2 && r@[0]@ == "Desktop: Waybar detected"@ && r@[1]@
            == "Bar setup: port-killer setup waybar --install"@,
        !gnome && !waybar ==> r@.len() == 1 && r@[0]@ == "Desktop: port-killer setup desktop --install"@,
{
    let mut out: Vec<String> = Vec::new();
    if gnome {
        out.push("Desktop: GNOME (Ubuntu default top bar)".to_owned());
        out.push("Panel setup: port-killer setup gnome --install".to_owned());
    } else if waybar {
        out.push("Desktop: Waybar detected".to_owned());
        out.push("Bar setup: port-killer setup waybar --install".to_owned());
    } else {
        out.push("Desktop: port-killer setup desktop --install".to_owned());
    }
    out
}

/// The word shown for a status.
pub open spec fn status_word(s: CheckStatus) -> Seq<char> {
    match s {
        CheckStatus::Pass => "ok"@,
        CheckStatus::Warn => "warn"@,
        CheckStatus::Fail => "fail"@,
    }
}

impl Check {
    /// `[<status>] <name> — <detail>`.
    pub fn line(&self) -> (r: String)
        ensures
            r@ == "["@ + status_word(self.status) + "] "@ + self.name@ + " — "@ + self.detail@,
    {
        let mut out = "[".to_owned();
        match self.status {
            CheckStatus::Pass => out.append("ok"),
            CheckStatus::Warn => out.append("warn"),
            CheckStatus::Fail => out.append("fail"),
        }
        out.append("] ");
        out.append(self.name.as_str());
        out.append(" — ");
        out.append(self.detail.as_str());
        out
    }
}

/// How many of the checks have status `s`.
pub open spec fn count_status(cs: Seq<Check>, s: CheckStatus) -> nat
    decreases cs.len(),
{
    if cs.len() == 0 {
        0
    } else {
        count_status(cs.drop_last(), s) + if cs.last().status == s {
            1nat
        } else {
            0nat
        }
    }
}

/// The end of the report: an error counting failures and warnings when a
/// check failed.
pub fn summary(checks: &[Check]) -> (r: Result<(), String>)
    requires
        checks@.len() <= u32::MAX,
    ensures
        count_status(checks@, CheckStatus::Fail) == 0 ==> r is Ok,
        count_status(checks@, CheckStatus::Fail) > 0 ==> (r matches Err(m) && m@ == dec(
            count_status(checks@, CheckStatus::Fail),
        ) + " check(s) failed, "@ + dec(count_status(checks@, CheckStatus::Warn)) + " warning(s)"@),
{
    let mut failures: u32 = 0;
    let mut warnings: u32 = 0;
    let mut i: usize = 0;
    while i < checks.len()
        invariant
            i <= checks.len() <= u32::MAX,
            failures == count_status(checks@.take(i as int), CheckStatus::Fail),
            warnings == count_status(checks@.take(i as int), CheckStatus::Warn),
            failures + warnings <= i,
        decreases checks.len() - i,
    {
        proof {
            let t = checks@.take(i + 1);
            assert(t.drop_last() =~= checks@.take(i as int));
        }
        match checks[i].status {
            CheckStatus::Fail => {
                failures = failures + 1;
            },
            CheckStatus::Warn => {
                warnings = warnings + 1;
            },
            CheckStatus::Pass => {},
        }
        i = i + 1;
    }
    assert(checks@.take(checks.len() as int) =~= checks@);
    if failures > 0 {
        let mut out: Vec<char> = Vec::new();
        push_dec(&mut out, failures as u64);
        push_str(&mut out, " check(s) failed, ");
        push_dec(&mut out, warnings as u64);
        push_str(&mut out, " warning(s)");
        Err(string_of(&out))
    } else {
        Ok(())
    }
}

/// Some check whose name contains `part` has status `s` (or, with `not`,
/// a status other than `s`).
pub open spec fn any_check(cs: Seq<Check>, part: Seq<char>, s: CheckStatus, not: bool) -> bool {
    exists|i: int|
        0 <= i < cs.len() && contains(#[trigger] cs[i].name@, part) && (if not {
            cs[i].status != s
        } else {
            cs[i].status == s
        })
}

/// The packages the failed and warning checks call for, in install order.
pub open spec fn apt_packages(cs: Seq<Check>) -> Seq<Seq<char>> {
    let needs_ss = any_check(cs, "ss"@, CheckStatus::Fail, false);
    let needs_cc = any_check(cs, "cc"@, CheckStatus::Fail, false);
    let needs_gtk = any_check(cs, "GTK"@, CheckStatus::Pass, true);
    let needs_waybar = any_check(cs, "waybar"@, CheckStatus::Warn, false);
    (if needs_cc {
        seq!["build-essential"@]
    } else {
        seq![]
    }) + (if needs_ss {
        seq!["iproute2"@]
    } else {
        seq![]
    }) + (if needs_gtk {
        seq!["libgtk-4-dev"@, "libadwaita-1-dev"@]
    } else {
        seq![]
    }) + (if needs_waybar {
        seq!["waybar"@]
    } else {
        seq![]
    })
}

/// Whether some check's name contains `part` with status `s` (or, with
/// `not`, another status).
fn any_named(checks: &[Check], part: &str, s: CheckStatus, not: bool) -> (r: bool)
    ensures
        r == any_check(checks@, part@, s, not),
{
    let pc = chars_of(part);
    let mut i: usize = 0;
    while i < checks.len()
        invariant
            i <= checks.len(),
            pc@ == part@,
            forall|j: int|
                0 <= j < i ==> !(contains(#[trigger] checks@[j].name@, part@) && (if not {
                    checks@[j].status != s
                } else {
                    checks@[j].status == s
                })),
        decreases checks.len() - i,
    {
        let nc = chars_of(checks[i].name.as_str());
        let hit = if not {
            checks[i].status != s
        } else {
            checks[i].status == s
        };
        if hit && contains_chars_of(&nc, &pc) {
            return true;
        }
        i = i + 1;
    }
    false
}

fn contains_chars_of(v: &Vec<char>, p: &Vec<char>) -> (r: bool)
    ensures
        r == contains(v@, p@),
{
    crate::text::contains_chars(v, p)
}

/// The `apt` command that installs what the checks found missing, on
/// Ubuntu; nothing elsewhere or when nothing is missing.
pub fn ubuntu_apt_fix(checks: &[Check], os: &Option<(String, String)>) -> (r: Option<String>)
    ensures
        match os {
            Some((id, _)) => if id@ == "ubuntu"@ && apt_packages(checks@).len() > 0 {
                r matches Some(cmd) && cmd@ == "sudo apt update && sudo apt install -y "@ + join(
                    apt_packages(checks@),
                    " "@,
                )
            } else {
                r is None
            },
            None => r is None,
        },
{
    let id = match os {
        Some((id, _)) => id,
        None => {
            return None;
        },
    };
    if !same_text(id.as_str(), "ubuntu") {
        return None;
    }
    let needs_ss = any_named(checks, "ss", CheckStatus::Fail, false);
    let needs_cc = any_named(checks, "cc", CheckStatus::Fail, false);
    let needs_gtk = any_named(checks, "GTK", CheckStatus::Pass, true);
    let needs_waybar = any_named(checks, "waybar", CheckStatus::Warn, false);
    if !needs_ss && !needs_cc && !needs_gtk && !needs_waybar {
        return None;
    }
    let mut pkgs: Vec<Vec<char>> = Vec::new();
    if needs_cc {
        pkgs.push(chars_of("build-essential"));
    }
    if needs_ss {
        pkgs.push(chars_of("iproute2"));
    }
    if needs_gtk {
        pkgs.push(chars_of("libgtk-4-dev"));
        pkgs.push(chars_of("libadwaita-1-dev"));
    }
    if needs_waybar {
        pkgs.push(chars_of("waybar"));
    }
    assert(views(pkgs@) =~= apt_packages(checks@));
    let mut out: Vec<char> = Vec::new();
    push_str(&mut out, "sudo apt update && sudo apt install -y ");
    push_join(&mut out, &pkgs, " ");
    Some(string_of(&out))
}

} // verus!
