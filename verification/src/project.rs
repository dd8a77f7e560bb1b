//! Where a listening process was started: its working directory, the
//! project that directory belongs to, and the command line.
use vstd::prelude::*;
use vstd::std_specs::iter::IteratorSpec;
use crate::proc::ProcTable;
use crate::text::{
    chars_of, copy_range, join, lines, matches_at, occurs_at, push_join, push_range, push_str,
    run_end, scan_run, split_lines, starts_with, string_of, trim, trim_range, views, NOT_QUOTE, WS,
};

verus! {

broadcast use vstd::std_specs::hash::group_hash_axioms;

/// What the library reads of a process's working directory.
pub struct ProjectDir {
    /// The canonical path of the directory.
    pub path: String,
    /// The path as shown to the user (`~/…` below the home directory).
    pub shown: String,
    /// The last component of the path, when it is valid text.
    pub name: Option<String>,
    /// Contents of `package.json` in the directory, when readable.
    pub package_json: Option<String>,
    /// Contents of `Cargo.toml` in the directory, when readable.
    pub cargo_toml: Option<String>,
    /// Contents of `composer.json` in the directory, when readable.
    pub composer_json: Option<String>,
}

/// Where and how a process was launched.
#[derive(Debug)]
pub struct LaunchContext {
    /// The canonical working directory.
    pub cwd: String,
    /// The working directory as shown to the user.
    pub display_cwd: String,
    pub project: String,
    pub launch_cmd: String,
}

// ---------------------------------------------------------------------
// `"name": "…"` in a JSON manifest
// ---------------------------------------------------------------------

/// The value matched at position `i` by the pattern
/// `"<field>"\s*:\s*"([^"]+)"`, as bounds.
pub open spec fn json_field_at(s: Seq<char>, key: Seq<char>, i: int) -> Option<(int, int)> {
    if !occurs_at(s, key, i) {
        None
    } else {
        let b = run_end(s, i + key.len(), WS);
        if !(b < s.len() && s[b] == ':') {
            None
        } else {
            let c = run_end(s, b + 1, WS);
            if !(c < s.len() && s[c] == '"') {
                None
            } else {
                let d = run_end(s, c + 1, NOT_QUOTE);
                if d == c + 1 || d >= s.len() {
                    None
                } else {
                    Some((c + 1, d))
                }
            }
        }
    }
}

/// The leftmost match at or after `i`.
pub open spec fn json_field_from(s: Seq<char>, key: Seq<char>, i: int) -> Option<(int, int)>
    decreases s.len() + 1 - i,
{
    if i < 0 || i > s.len() {
        None
    } else {
        match json_field_at(s, key, i) {
            Some(r) => Some(r),
            None => json_field_from(s, key, i + 1),
        }
    }
}

/// The first string value of `field` in `content`, as the pattern
/// `"<field>"\s*:\s*"([^"]+)"` finds it.
pub open spec fn json_field(content: Seq<char>, field: Seq<char>) -> Option<Seq<char>> {
    let key = seq!['"'] + field + seq!['"'];
    match json_field_from(content, key, 0) {
        Some((a, b)) => Some(content.subrange(a, b)),
        None => None,
    }
}

fn json_field_match(v: &Vec<char>, key: &Vec<char>, i: usize) -> (r: Option<(usize, usize)>)
    requires
        i <= v.len(),
    ensures
        match r {
            Some((a, b)) => json_field_at(v@, key@, i as int) == Some((a as int, b as int)) && a <= b
                <= v.len(),
            None => json_field_at(v@, key@, i as int) is None,
        },
{
    if !matches_at(v, i, key) {
        return None;
    }
    let b = scan_run(v, i + key.len(), WS);
    if !(b < v.len() && v[b] == ':') {
        return None;
    }
    let c = scan_run(v, b + 1, WS);
    if !(c < v.len() && v[c] == '"') {
        return None;
    }
    let d = scan_run(v, c + 1, NOT_QUOTE);
    if d == c + 1 || d >= v.len() {
        return None;
    }
    Some((c + 1, d))
}

/// The string value of `field` in a JSON text: the first match of
/// `"<field>"\s*:\s*"([^"]+)"`.
pub fn json_string_field(content: &str, field: &str) -> (r: Option<String>)
    ensures
        match r {
            Some(s) => json_field(content@, field@) == Some(s@),
            None => json_field(content@, field@) is None,
        },
{
    let v = chars_of(content);
    let mut key: Vec<char> = Vec::new();
    key.push('"');
    push_str(&mut key, field);
    key.push('"');
    let ghost k = seq!['"'] + field@ + seq!['"'];
    assert(key@ =~= k);
    let mut i: usize = 0;
    while i <= v.len()
        invariant
            i <= v.len() + 1,
            key@ == k,
            v@ == content@,
            k == seq!['"'] + field@ + seq!['"'],
            json_field_from(v@, k, 0) == json_field_from(v@, k, i as int),
        decreases v.len() + 1 - i,
    {
        match json_field_match(&v, &key, i) {
            Some((a, b)) => {
                let val = copy_range(&v, a, b);
                return Some(string_of(&val));
            },
            None => {},
        }
        if i == v.len() {
            assert(json_field_from(v@, k, i + 1) is None);
            return None;
        }
        i = i + 1;
    }
    None
}

// ---------------------------------------------------------------------
// `name = …` in the `[package]` table of a Cargo manifest
// ---------------------------------------------------------------------

/// A TOML value that is one quote character alone, on which the
/// unquoting cuts an empty range backwards.
pub open spec fn lone_quote(raw: Seq<char>) -> bool {
    trim(raw) == seq!['"'] || trim(raw) == seq!['\'']
}

/// A TOML string value: trimmed, and without its surrounding quotes when
/// it starts and ends with the same quote character.
pub open spec fn toml_string(raw: Seq<char>) -> Seq<char> {
    let t = trim(raw);
    if t.len() >= 2 && ((t[0] == '"' && t.last() == '"') || (t[0] == '\'' && t.last() == '\'')) {
        t.subrange(1, t.len() - 1)
    } else {
        t
    }
}

/// The value of the first `name = ` line of the `[package]` table among
/// `ls`; `in_package` says whether the lines start inside that table.
pub open spec fn toml_name_from(ls: Seq<Seq<char>>, in_package: bool) -> Option<Seq<char>>
    decreases ls.len(),
{
    if ls.len() == 0 {
        None
    } else {
        let t = trim(ls[0]);
        if t == "[package]"@ {
            toml_name_from(ls.drop_first(), true)
        } else {
            let inside = if starts_with(t, "["@) {
                false
            } else {
                in_package
            };
            if inside && starts_with(t, "name = "@) {
                Some(toml_string(t.skip("name = "@.len() as int)))
            } else {
                toml_name_from(ls.drop_first(), inside)
            }
        }
    }
}

/// The `name = ` line the search of `toml_name_from` stops at carries a
/// lone quote.
pub open spec fn toml_name_panics(ls: Seq<Seq<char>>, in_package: bool) -> bool
    decreases ls.len(),
{
    if ls.len() == 0 {
        false
    } else {
        let t = trim(ls[0]);
        if t == "[package]"@ {
            toml_name_panics(ls.drop_first(), true)
        } else {
            let inside = if starts_with(t, "["@) {
                false
            } else {
                in_package
            };
            if inside && starts_with(t, "name = "@) {
                lone_quote(t.skip("name = "@.len() as int))
            } else {
                toml_name_panics(ls.drop_first(), inside)
            }
        }
    }
}

/// The package name of a Cargo manifest text.
pub open spec fn toml_package(content: Seq<char>) -> Option<Seq<char>> {
    toml_name_from(lines(content), false)
}

/// Unquotes a TOML string value.
pub fn parse_toml_string(raw: &Vec<char>, a: usize, b: usize) -> (r: Vec<char>)
    requires
        a <= b <= raw.len(),
        !lone_quote(raw@.subrange(a as int, b as int)),
    ensures
        r@ == toml_string(raw@.subrange(a as int, b as int)),
{
    let (s, e) = trim_range(raw, a, b);
    let quoted = s < e && ((raw[s] == '"' && raw[e - 1] == '"') || (raw[s] == '\'' && raw[e - 1]
        == '\''));
    if quoted {
        if e - s < 2 {
            proof {
                let t = raw@.subrange(s as int, e as int);
                if raw[s as int] == '"' {
                    assert(t =~= seq!['"']);
                } else {
                    assert(t =~= seq!['\'']);
                }
            }
        }
        let r = copy_range(raw, s + 1, e - 1);
        assert(r@ =~= raw@.subrange(s as int, e as int).subrange(1, (e - s) as int - 1));
        r
    } else {
        copy_range(raw, s, e)
    }
}

/// The package name of a Cargo manifest: the first `name = ` line of its
/// `[package]` table, unquoted.
pub fn toml_package_name(content: &str) -> (r: Option<String>)
    requires
        !toml_name_panics(lines(content@), false),
    ensures
        match r {
            Some(s) => toml_package(content@) == Some(s@),
            None => toml_package(content@) is None,
        },
{
    proof {
        reveal_strlit("[package]");
        reveal_strlit("[");
        reveal_strlit("name = ");
    }
    let v = chars_of(content);
    let ls = split_lines(&v);
    let header = chars_of("[package]");
    let open = chars_of("[");
    let key = chars_of("name = ");
    let mut in_package = false;
    let mut i: usize = 0;
    assert(views(ls@).skip(0) =~= views(ls@));
    while i < ls.len()
        invariant
            i <= ls.len(),
            header@ == "[package]"@,
            open@ == "["@,
            key@ == "name = "@,
            "name = "@.len() == 7,
            views(ls@) == lines(content@),
            toml_name_from(lines(content@), false) == toml_name_from(
                views(ls@).skip(i as int),
                in_package,
            ),
            !toml_name_panics(views(ls@).skip(i as int), in_package),
        decreases ls.len() - i,
    {
        let line = &ls[i];
        let ghost rest = views(ls@).skip(i as int);
        assert(rest[0] == line@);
        assert(rest.drop_first() =~= views(ls@).skip(i + 1));
        let (s, e) = trim_range(line, 0, line.len());
        assert(line@.subrange(0, line@.len() as int) =~= line@);
        let t = copy_range(line, s, e);
        if t.len() == header.len() && matches_at(&t, 0, &header) {
            assert(t@ =~= header@);
            in_package = true;
        } else {
            proof {
                if t@ == header@ {
                    assert(t@.subrange(0, header@.len() as int) =~= t@);
                }
            }
            if matches_at(&t, 0, &open) {
                in_package = false;
            }
            if in_package && matches_at(&t, 0, &key) {
                assert(t@.subrange(7, t@.len() as int) =~= t@.skip(7));
                let value = parse_toml_string(&t, 7, t.len());
                return Some(string_of(&value));
            }
        }
        i = i + 1;
    }
    None
}

// ---------------------------------------------------------------------
// Project names
// ---------------------------------------------------------------------

/// The project a directory holds: the `name` of `package.json`, else the
/// package name of `Cargo.toml`, else the `name` of `composer.json`, else the
/// directory's own name, else `?`.
pub open spec fn project_name(dir: ProjectDir) -> Seq<char> {
    let from_package = match dir.package_json {
        Some(c) => json_field(c@, "name"@),
        None => None,
    };
    let from_cargo = match dir.cargo_toml {
        Some(c) => toml_package(c@),
        None => None,
    };
    let from_composer = match dir.composer_json {
        Some(c) => json_field(c@, "name"@),
        None => None,
    };
    match from_package {
        Some(n) => n,
        None => match from_cargo {
            Some(n) => n,
            None => match from_composer {
                Some(n) => n,
                None => match dir.name {
                    Some(n) => n@,
                    None => "?"@,
                },
            },
        },
    }
}

/// The Cargo manifest of the directory, if it is consulted at all, does
/// not stop on a lone quote.
pub open spec fn dir_readable(dir: ProjectDir) -> bool {
    let from_package = match dir.package_json {
        Some(c) => json_field(c@, "name"@),
        None => None,
    };
    from_package is None ==> match dir.cargo_toml {
        Some(c) => !toml_name_panics(lines(c@), false),
        None => true,
    }
}


/// Whether unquoting the value `raw[a..b]` would cut a lone quote.
fn is_lone_quote(raw: &Vec<char>, a: usize, b: usize) -> (r: bool)
    requires
        a <= b <= raw.len(),
    ensures
        r == lone_quote(raw@.subrange(a as int, b as int)),
{
    let (s, e) = trim_range(raw, a, b);
    let r = e - s == 1 && (raw[s] == '"' || raw[s] == '\'');
    proof {
        let t = raw@.subrange(s as int, e as int);
        let dq: Seq<char> = seq!['"'];
        let sq: Seq<char> = seq!['\''];
        assert(dq.len() == 1 && dq[0] == '"');
        assert(sq.len() == 1 && sq[0] == '\'');
        if e - s == 1 {
            assert(t =~= seq![raw@[s as int]]);
            if raw@[s as int] == '"' {
                assert(t =~= dq);
            } else if raw@[s as int] == '\'' {
                assert(t =~= sq);
            } else {
                assert(t[0] != dq[0]);
                assert(t[0] != sq[0]);
            }
        } else {
            assert(t.len() != dq.len());
        }
    }
    r
}

/// Whether reading the package name of the Cargo manifest `content` stops
/// on a lone quote.
pub fn toml_name_unreadable(content: &str) -> (r: bool)
    ensures
        r == toml_name_panics(lines(content@), false),
{
    proof {
        reveal_strlit("[package]");
        reveal_strlit("[");
        reveal_strlit("name = ");
    }
    let v = chars_of(content);
    let ls = split_lines(&v);
    let header = chars_of("[package]");
    let open = chars_of("[");
    let key = chars_of("name = ");
    let mut in_package = false;
    let mut i: usize = 0;
    assert(views(ls@).skip(0) =~= views(ls@));
    while i < ls.len()
        invariant
            i <= ls.len(),
            header@ == "[package]"@,
            open@ == "["@,
            key@ == "name = "@,
            "name = "@.len() == 7,
            views(ls@) == lines(content@),
            toml_name_panics(lines(content@), false) == toml_name_panics(
                views(ls@).skip(i as int),
                in_package,
            ),
        decreases ls.len() - i,
    {
        let line = &ls[i];
        let ghost rest = views(ls@).skip(i as int);
        assert(rest[0] == line@);
        assert(rest.drop_first() =~= views(ls@).skip(i + 1));
        let (s, e) = trim_range(line, 0, line.len());
        assert(line@.subrange(0, line@.len() as int) =~= line@);
        let t = copy_range(line, s, e);
        if t.len() == header.len() && matches_at(&t, 0, &header) {
            assert(t@ =~= header@);
            in_package = true;
        } else {
            proof {
                if t@ == header@ {
                    assert(t@.subrange(0, header@.len() as int) =~= t@);
                }
            }
            if matches_at(&t, 0, &open) {
                in_package = false;
            }
            if in_package && matches_at(&t, 0, &key) {
                assert(t@.subrange(7, t@.len() as int) =~= t@.skip(7));
                return is_lone_quote(&t, 7, t.len());
            }
        }
        i = i + 1;
    }
    false
}

/// Whether the project name of `dir` can be read.
pub fn dir_is_readable(dir: &ProjectDir) -> (r: bool)
    ensures
        r == dir_readable(*dir),
{
    if let Some(c) = &dir.package_json {
        if json_string_field(c.as_str(), "name").is_some() {
            return true;
        }
    }
    match &dir.cargo_toml {
        Some(c) => !toml_name_unreadable(c.as_str()),
        None => true,
    }
}

/// The name of the project in `dir`.
pub fn project_name_from_dir(dir: &ProjectDir) -> (r: String)
    requires
        dir_readable(*dir),
    ensures
        r@ == project_name(*dir),
{
    if let Some(c) = &dir.package_json {
        if let Some(name) = json_string_field(c.as_str(), "name") {
            return name;
        }
    }
    if let Some(c) = &dir.cargo_toml {
        if let Some(name) = toml_package_name(c.as_str()) {
            return name;
        }
    }
    if let Some(c) = &dir.composer_json {
        if let Some(name) = json_string_field(c.as_str(), "name") {
            return name;
        }
    }
    match &dir.name {
        Some(n) => n.clone(),
        None => {
            let q = chars_of("?");
            string_of(&q)
        },
    }
}

// ---------------------------------------------------------------------
// Command lines
// ---------------------------------------------------------------------

/// Longest command line shown, in characters.
pub const MAX_CMD: usize = 80;

/// A command line of at most `MAX_CMD` characters: longer ones keep their
/// first `MAX_CMD - 1` characters and end in `…`.
pub open spec fn shorten(cmd: Seq<char>) -> Seq<char> {
    if cmd.len() <= MAX_CMD {
        cmd
    } else {
        cmd.take(MAX_CMD - 1) + "…"@
    }
}

/// Shortens a command line for display.
pub fn shorten_cmd(cmd: &str) -> (r: String)
    ensures
        r@ == shorten(cmd@),
{
    let v = chars_of(cmd);
    if v.len() <= MAX_CMD {
        return string_of(&v);
    }
    let mut out = copy_range(&v, 0, MAX_CMD - 1);
    push_str(&mut out, "…");
    string_of(&out)
}

/// The text of `b` as `String::from_utf8_lossy` gives it.
pub uninterp spec fn utf8_lossy(b: Seq<u8>) -> Seq<char>;

/// `String::from_utf8_lossy`: the text of `b`, every invalid sequence
/// replaced by U+FFFD.  Its result is named `utf8_lossy`; nothing more of it
/// is claimed.
#[verifier::external_body]
pub(crate) fn lossy_text(b: &[u8]) -> (r: String)
    ensures
        r@ == utf8_lossy(b@),
{
    String::from_utf8_lossy(b).into_owned()
}

/// Position of the first zero byte of `b`, or `b.len()`.
pub open spec fn zero_or_len(b: Seq<u8>) -> nat
    decreases b.len(),
{
    if b.len() == 0 || b[0] == 0 {
        0
    } else {
        1 + zero_or_len(b.drop_first())
    }
}

proof fn lemma_zero_or_len(b: Seq<u8>, k: int)
    requires
        0 <= k <= b.len(),
        forall|j: int| 0 <= j < k ==> b[j] != 0,
        k == b.len() || b[k] == 0,
    ensures
        zero_or_len(b) == k,
    decreases b.len(),
{
    if b.len() > 0 && b[0] != 0 {
        assert forall|j: int| 0 <= j < k - 1 implies b.drop_first()[j] != 0 by {
            assert(b.drop_first()[j] == b[j + 1]);
        }
        lemma_zero_or_len(b.drop_first(), k - 1);
    }
}

/// The non-empty pieces of `b` between zero bytes.
pub open spec fn cmd_parts(b: Seq<u8>) -> Seq<Seq<u8>>
    decreases b.len(),
{
    if b.len() == 0 {
        seq![]
    } else {
        let k = zero_or_len(b);
        let rest = if k >= b.len() {
            seq![]
        } else {
            cmd_parts(b.skip((k + 1) as int))
        };
        if k == 0 {
            rest
        } else {
            seq![b.take(k as int)] + rest
        }
    }
}

/// The command line in `/proc/<pid>/cmdline`: the non-empty arguments,
/// each read as text, joined by spaces and shortened; none when the file
/// or the joined text is empty.
pub open spec fn cmdline_text(raw: Seq<u8>) -> Option<Seq<char>> {
    if raw.len() == 0 {
        None
    } else {
        let cmd = join(cmd_parts(raw).map_values(|p: Seq<u8>| utf8_lossy(p)), " "@);
        if cmd.len() == 0 {
            None
        } else {
            Some(shorten(cmd))
        }
    }
}

/// The command line from the bytes of `/proc/<pid>/cmdline`: its non-empty
/// NUL-separated parts joined by spaces, shortened; `None` when empty.
pub fn cmdline_from_raw(raw: &Vec<u8>) -> (r: Option<String>)
    ensures
        match r {
            Some(s) => cmdline_text(raw@) == Some(s@),
            None => cmdline_text(raw@) is None,
        },
{
    if raw.len() == 0 {
        return None;
    }
    let mut parts: Vec<Vec<char>> = Vec::new();
    let ghost mut acc: Seq<Seq<u8>> = Seq::empty();
    let mut pos: usize = 0;
    assert(raw@.skip(0) =~= raw@);
    while pos < raw.len()
        invariant
            pos <= raw.len(),
            views(parts@) == acc.map_values(|p: Seq<u8>| utf8_lossy(p)),
            cmd_parts(raw@) == acc + cmd_parts(raw@.skip(pos as int)),
        decreases raw.len() - pos,
    {
        let mut k = pos;
        while k < raw.len() && raw[k] != 0
            invariant
                pos <= k <= raw.len(),
                forall|j: int| pos <= j < k ==> raw@[j] != 0,
            decreases raw.len() - k,
        {
            k = k + 1;
        }
        let ghost rest = raw@.skip(pos as int);
        proof {
            assert forall|j: int| 0 <= j < k - pos implies rest[j] != 0 by {
                assert(rest[j] == raw@[j + pos]);
            }
            lemma_zero_or_len(rest, k - pos);
            assert(rest.take(k - pos) =~= raw@.subrange(pos as int, k as int));
        }
        if k > pos {
            let mut piece: Vec<u8> = Vec::new();
            let mut t = pos;
            while t < k
                invariant
                    pos <= t <= k <= raw.len(),
                    piece@ == raw@.subrange(pos as int, t as int),
                decreases k - t,
            {
                piece.push(raw[t]);
                assert(raw@.subrange(pos as int, t + 1) =~= raw@.subrange(pos as int, t as int).push(
                    raw@[t as int],
                ));
                t = t + 1;
            }
            let text = lossy_text(piece.as_slice());
            let tv = chars_of(text.as_str());
            let ghost before = parts@;
            parts.push(tv);
            proof {
                assert(views(parts@) =~= views(before).push(utf8_lossy(piece@)));
                acc = acc.push(piece@);
                assert(acc.map_values(|p: Seq<u8>| utf8_lossy(p)) =~= views(before).push(
                    utf8_lossy(piece@),
                ));
            }
        }
        proof {
            if k < raw.len() {
                assert(rest.skip(k - pos + 1) =~= raw@.skip(k + 1));
            } else {
                assert(raw@.skip(k as int) =~= Seq::<u8>::empty());
            }
        }
        if k < raw.len() {
            pos = k + 1;
        } else {
            pos = k;
        }
    }
    assert(raw@.skip(pos as int) =~= Seq::<u8>::empty());
    assert(acc + Seq::<Seq<u8>>::empty() =~= acc);
    let mut cmd: Vec<char> = Vec::new();
    push_join(&mut cmd, &parts, " ");
    assert(cmd@ =~= join(views(parts@), " "@));
    if cmd.len() == 0 {
        return None;
    }
    let text = string_of(&cmd);
    Some(shorten_cmd(text.as_str()))
}

// ---------------------------------------------------------------------
// Launch context
// ---------------------------------------------------------------------

/// The first of `cands` whose working directory is known.
pub open spec fn first_with_cwd(procs: &ProcTable, cands: Seq<u32>) -> Option<u32>
    decreases cands.len(),
{
    if cands.len() == 0 {
        None
    } else if procs.procs@.contains_key(cands[0]) && procs.procs@[cands[0]].cwd is Some {
        Some(cands[0])
    } else {
        first_with_cwd(procs, cands.drop_first())
    }
}

/// The process whose directory and command line describe `pid`: `pid`
/// itself, else the nearest ancestor, with a known working directory.
pub open spec fn launch_pid(procs: &ProcTable, pid: u32) -> Option<u32> {
    first_with_cwd(procs, seq![pid] + procs.ancestors_of(pid))
}

/// The launch context `c` gives: its directory, the directory as shown,
/// the project there, and its command line or `?`.
pub open spec fn context_of(procs: &ProcTable, c: u32) -> (Seq<char>, Seq<char>, Seq<char>, Seq<char>) {
    let info = procs.procs@[c];
    let dir = info.cwd->0;
    (
        dir.path@,
        dir.shown@,
        project_name(dir),
        match info.cmdline {
            Some(s) => s@,
            None => "?"@,
        },
    )
}

/// The project of the directory `launch_pid` chooses for `pid` can be read
/// (so when no directory is chosen).
pub open spec fn launch_readable(procs: &ProcTable, pid: u32) -> bool {
    match launch_pid(procs, pid) {
        Some(c) => dir_readable(procs.procs@[c].cwd->0),
        None => true,
    }
}

/// Whether the project of the directory chosen for `pid` can be read.
pub fn launch_is_readable(procs: &ProcTable, pid: u32) -> (r: bool)
    ensures
        r == launch_readable(procs, pid),
{
    let mut cands: Vec<u32> = Vec::new();
    cands.push(pid);
    let mut anc = crate::proc::ancestors(procs, pid);
    cands.append(&mut anc);
    let ghost all = cands@;
    assert(all =~= seq![pid] + procs.ancestors_of(pid));
    let mut i: usize = 0;
    assert(all.skip(0) =~= all);
    while i < cands.len()
        invariant
            i <= cands.len(),
            cands@ == all,
            all == seq![pid] + procs.ancestors_of(pid),
            launch_pid(procs, pid) == first_with_cwd(procs, all.skip(i as int)),
        decreases cands.len() - i,
    {
        let c = cands[i];
        assert(all.skip(i as int)[0] == c);
        assert(all.skip(i as int).drop_first() =~= all.skip(i + 1));
        if let Some(info) = procs.procs.get(&c) {
            if let Some(dir) = &info.cwd {
                assert(procs.procs@.contains_key(c));
                return dir_is_readable(dir);
            }
        }
        i = i + 1;
    }
    assert(all.skip(i as int) =~= Seq::<u32>::empty());
    true
}

/// Where and how `pid` was launched.
pub fn resolve_launch_context(procs: &ProcTable, pid: u32) -> (r: Option<LaunchContext>)
    requires
        launch_readable(procs, pid),
    ensures
        match r {
            Some(ctx) => launch_pid(procs, pid) matches Some(c) && context_of(procs, c) == (
                ctx.cwd@,
                ctx.display_cwd@,
                ctx.project@,
                ctx.launch_cmd@,
            ),
            None => launch_pid(procs, pid) is None,
        },
{
    let mut cands: Vec<u32> = Vec::new();
    cands.push(pid);
    let mut anc = crate::proc::ancestors(procs, pid);
    cands.append(&mut anc);
    let ghost all = cands@;
    assert(all =~= seq![pid] + procs.ancestors_of(pid));
    let mut i: usize = 0;
    assert(all.skip(0) =~= all);
    while i < cands.len()
        invariant
            i <= cands.len(),
            cands@ == all,
            all == seq![pid] + procs.ancestors_of(pid),
            launch_readable(procs, pid),
            launch_pid(procs, pid) == first_with_cwd(procs, all.skip(i as int)),
        decreases cands.len() - i,
    {
        let c = cands[i];
        assert(all.skip(i as int)[0] == c);
        assert(all.skip(i as int).drop_first() =~= all.skip(i + 1));
        if let Some(info) = procs.procs.get(&c) {
            if let Some(dir) = &info.cwd {
                assert(procs.procs@.contains_key(c));
                let launch_cmd = match &info.cmdline {
                    Some(s) => s.clone(),
                    None => {
                        let q = chars_of("?");
                        string_of(&q)
                    },
                };
                return Some(
                    LaunchContext {
                        cwd: dir.path.clone(),
                        display_cwd: dir.shown.clone(),
                        project: project_name_from_dir(dir),
                        launch_cmd,
                    },
                );
            }
        }
        i = i + 1;
    }
    assert(all.skip(i as int) =~= Seq::<u32>::empty());
    None
}

/// The process `p` is in the table with a known working directory.
pub open spec fn cwd_known(procs: &ProcTable, p: u32) -> bool {
    procs.procs@.contains_key(p) && procs.procs@[p].cwd is Some
}

/// What `first_with_cwd` picks: the first candidate with a known directory,
/// none of the candidates before it having one.
proof fn lemma_first_with_cwd(procs: &ProcTable, cands: Seq<u32>)
    ensures
        first_with_cwd(procs, cands) matches Some(c) ==> exists|k: int|
            0 <= k < cands.len() && cands[k] == c && cwd_known(procs, c) && forall|j: int|
                0 <= j < k ==> !cwd_known(procs, #[trigger] cands[j]),
        first_with_cwd(procs, cands) is None ==> forall|k: int|
            0 <= k < cands.len() ==> !cwd_known(procs, #[trigger] cands[k]),
    decreases cands.len(),
{
    if cands.len() > 0 && !cwd_known(procs, cands[0]) {
        let rest = cands.drop_first();
        lemma_first_with_cwd(procs, rest);
        if let Some(c) = first_with_cwd(procs, rest) {
            let k = choose|k: int|
                0 <= k < rest.len() && rest[k] == c && cwd_known(procs, c) && forall|j: int|
                    0 <= j < k ==> !cwd_known(procs, #[trigger] rest[j]);
            assert(cands[k + 1] == c);
            assert forall|j: int| 0 <= j < k + 1 implies !cwd_known(procs, #[trigger] cands[j]) by {
                if j > 0 {
                    assert(cands[j] == rest[j - 1]);
                }
            }
        } else {
            assert forall|k: int| 0 <= k < cands.len() implies !cwd_known(procs, #[trigger] cands[k]) by {
                if k > 0 {
                    assert(cands[k] == rest[k - 1]);
                }
            }
        }
    } else if cands.len() > 0 {
        assert(forall|j: int| 0 <= j < 0 ==> !cwd_known(procs, #[trigger] cands[j]));
    }
}

/// Where a process was launched is read from the process itself whenever its
/// working directory is known. Only when it has none is an ancestor used:
/// the nearest ancestor with a known directory, every nearer ancestor having
/// none; and there is no launch context only when neither the process nor
/// any ancestor has a known directory.
pub proof fn lemma_launch_pid_nearest(procs: &ProcTable, pid: u32)
    ensures
        cwd_known(procs, pid) ==> launch_pid(procs, pid) == Some(pid),
        launch_pid(procs, pid) matches Some(c) ==> cwd_known(procs, c) && (c == pid || (!cwd_known(
            procs,
            pid,
        ) && exists|k: int|
            0 <= k < procs.ancestors_of(pid).len() && procs.ancestors_of(pid)[k] == c && forall|j: int|
                0 <= j < k ==> !cwd_known(procs, #[trigger] procs.ancestors_of(pid)[j]))),
        launch_pid(procs, pid) is None <==> (!cwd_known(procs, pid) && forall|k: int|
            0 <= k < procs.ancestors_of(pid).len() ==> !cwd_known(
                procs,
                #[trigger] procs.ancestors_of(pid)[k],
            )),
{
    let anc = procs.ancestors_of(pid);
    let cands = seq![pid] + anc;
    assert(cands[0] == pid);
    assert(cands.drop_first() =~= anc);
    lemma_first_with_cwd(procs, cands);
    lemma_first_with_cwd(procs, anc);
    if let Some(c) = launch_pid(procs, pid) {
        if c != pid {
            let k = choose|k: int|
                0 <= k < cands.len() && cands[k] == c && cwd_known(procs, c) && forall|j: int|
                    0 <= j < k ==> !cwd_known(procs, #[trigger] cands[j]);
            assert(k > 0);
            assert(!cwd_known(procs, cands[0]));
            assert(anc[k - 1] == c);
            assert forall|j: int| 0 <= j < k - 1 implies !cwd_known(procs, #[trigger] anc[j]) by {
                assert(anc[j] == cands[j + 1]);
            }
        }
        assert(!(!cwd_known(procs, pid) && forall|k: int|
            0 <= k < anc.len() ==> !cwd_known(procs, #[trigger] anc[k]))) by {
            if c != pid {
                let k = choose|k: int| 0 <= k < anc.len() && anc[k] == c && forall|j: int|
                    0 <= j < k ==> !cwd_known(procs, #[trigger] anc[j]);
                assert(cwd_known(procs, anc[k]));
            }
        }
    } else {
        assert forall|k: int| 0 <= k < anc.len() implies !cwd_known(procs, #[trigger] anc[k]) by {
            assert(anc[k] == cands[k + 1]);
        }
    }
}

/// A manifest's project name, when the manifest is there and names one.
pub open spec fn json_name(manifest: Option<String>) -> Option<Seq<char>> {
    match manifest {
        Some(c) => json_field(c@, "name"@),
        None => None,
    }
}

/// The project a directory holds comes first from `package.json`: when it
/// names the project, that name is the project's, whatever `Cargo.toml`,
/// `composer.json` or the directory's own name say. `composer.json` decides
/// only when neither `package.json` nor `Cargo.toml` names the project, and
/// the directory's name only when no manifest does.
pub proof fn lemma_project_name_precedence(dir: ProjectDir, other: ProjectDir)
    ensures
        json_name(dir.package_json) matches Some(n) ==> project_name(dir) == n,
        json_name(dir.package_json) is Some && dir.package_json == other.package_json
            ==> project_name(dir) == project_name(other),
        json_name(dir.package_json) is None && (dir.cargo_toml matches Some(c) && toml_package(c@)
            is Some) && dir.package_json == other.package_json && dir.cargo_toml == other.cargo_toml
            ==> project_name(dir) == project_name(other),
        (json_name(dir.package_json) is None && match dir.cargo_toml {
            Some(c) => toml_package(c@) is None,
            None => true,
        }) ==> match json_name(dir.composer_json) {
            Some(n) => project_name(dir) == n,
            None => project_name(dir) == match dir.name {
                Some(d) => d@,
                None => "?"@,
            },
        },
{
}

} // verus!
