//! The report of `setup waybar --check`: what the binary, the Waybar
//! configuration, a run of `list` and the running Waybar show, and the fix
//! it suggests.
use vstd::prelude::*;
use crate::doctor::CommandOutput;
use crate::project::{lossy_text, utf8_lossy};
use crate::setup::{custom_config_path, custom_config_text};
use crate::text::{
    chars_of, contains, contains_str, copy_range, lines, push_chars, push_str, split_lines,
    string_of, trim, trim_range, views,
};

verus! {

/// The characters of each string of `v`.
pub open spec fn texts(v: Seq<String>) -> Seq<Seq<char>> {
    v.map_values(|s: String| s@)
}

/// The characters of an optional string.
pub open spec fn opt_text(o: Option<String>) -> Option<Seq<char>> {
    match o {
        Some(s) => Some(s@),
        None => None,
    }
}

/// The bytes of an optional buffer.
pub open spec fn opt_bytes(o: Option<Vec<u8>>) -> Option<Seq<u8>> {
    match o {
        Some(b) => Some(b@),
        None => None,
    }
}

/// How a boolean is printed.
pub open spec fn bool_text(b: bool) -> Seq<char> {
    if b {
        "true"@
    } else {
        "false"@
    }
}

/// The first `n` characters of `s` (all of it when shorter).
pub open spec fn at_most(s: Seq<char>, n: nat) -> Seq<char> {
    if s.len() <= n {
        s
    } else {
        s.take(n as int)
    }
}

/// The opening lines: the title, a blank line, the binary and the
/// configuration path, each with whether it exists.
pub open spec fn header_report(
    binary: Seq<char>,
    binary_exists: bool,
    config_path: Seq<char>,
    config_exists: bool,
) -> Seq<Seq<char>> {
    seq![
        "port-killer Waybar diagnostics"@,
        ""@,
        "Binary: "@ + binary,
        "Binary exists: "@ + bool_text(binary_exists),
        "Config path: "@ + config_path,
        "Config exists: "@ + bool_text(config_exists),
    ]
}

/// Whether the configuration names the module, and whether its modules
/// list does; without a configuration, how to write one.
pub open spec fn config_report(config: Option<Seq<char>>) -> Seq<Seq<char>> {
    match config {
        Some(c) => seq![
            "Module in config: "@ + bool_text(contains(c, "custom/port-killer"@)),
            "Module in modules list: "@ + bool_text(contains(c, "\"custom/port-killer\""@)),
        ],
        None => seq![
            "Module in config: false"@,
            ""@,
            "No Waybar config found. Run:"@,
            "  port-killer setup waybar --install"@,
        ],
    }
}

/// The line on a run of `port-killer list`: the start of its output when
/// it succeeded, its trimmed error output when it failed, or why it could
/// not run.
pub open spec fn list_report(list: Result<CommandOutput, String>) -> Seq<char> {
    match list {
        Ok(out) => if out.success {
            "port-killer list: OK ("@ + at_most(utf8_lossy(out.stdout@), 60) + ")"@
        } else {
            "port-killer list: failed ("@ + trim(utf8_lossy(out.stderr@)) + ")"@
        },
        Err(e) => "port-killer list: "@ + e@,
    }
}

/// Each line of `ls`, indented by two spaces.
pub open spec fn indented(ls: Seq<Seq<char>>) -> Seq<Seq<char>> {
    ls.map_values(|l: Seq<char>| "  "@ + l)
}

/// Where a running Waybar was started with another configuration, which
/// file to patch instead.
pub open spec fn custom_report(ps: Seq<char>, config_path: Seq<char>) -> Seq<Seq<char>> {
    match custom_config_text(ps, config_path) {
        Some(p) => seq![
            ""@,
            "Waybar uses a custom config: "@ + p,
            "Patch that file instead:"@,
            "  port-killer setup waybar --install --config "@ + p,
        ],
        None => seq![],
    }
}

/// Whether Waybar runs, from the `pgrep -a waybar` output `ps`: its
/// processes, and the configuration they were started with.
pub open spec fn running_report(ps: Seq<char>, config_path: Seq<char>) -> Seq<Seq<char>> {
    if trim(ps).len() == 0 {
        seq!["Waybar running: no"@]
    } else {
        seq!["Waybar running: yes"@] + indented(lines(ps)) + custom_report(ps, config_path)
    }
}

/// The closing advice: the configuration is fine when it names the module;
/// otherwise how to install it, and for an existing file how to merge it.
pub open spec fn fix_report(config_path: Seq<char>, config: Option<Seq<char>>) -> Seq<Seq<char>> {
    match config {
        Some(c) => if contains(c, "custom/port-killer"@) {
            seq!["Config looks OK. Restart Waybar if the icon is still missing."@]
        } else {
            seq![
                "Fix: port-killer setup waybar --install"@,
                "Or merge manually if you use a custom config path:"@,
                "  port-killer setup waybar --config "@ + config_path,
            ]
        },
        None => seq!["Fix: port-killer setup waybar --install"@],
    }
}

/// The whole report, line by line. `config` is the configuration's text
/// when the file exists (empty when it cannot be read), `list` the run of
/// `<binary> list`, and `pgrep` the output of `pgrep -a waybar` when it
/// could be run.
pub open spec fn waybar_report(
    binary: Seq<char>,
    binary_exists: bool,
    config_path: Seq<char>,
    config: Option<Seq<char>>,
    list: Result<CommandOutput, String>,
    pgrep: Option<Seq<u8>>,
) -> Seq<Seq<char>> {
    header_report(binary, binary_exists, config_path, config is Some) + config_report(config)
        + seq![list_report(list)] + match pgrep {
        Some(b) => running_report(utf8_lossy(b), config_path),
        None => seq![],
    } + seq![""@] + fix_report(config_path, config)
}

/// `a` followed by `b`.
fn text_of(a: &str, b: &Vec<char>) -> (r: String)
    ensures
        r@ == a@ + b@,
{
    let mut out: Vec<char> = Vec::new();
    push_str(&mut out, a);
    push_chars(&mut out, b);
    string_of(&out)
}

/// `a` followed by `b`.
fn text_of_str(a: &str, b: &str) -> (r: String)
    ensures
        r@ == a@ + b@,
{
    let v = chars_of(b);
    text_of(a, &v)
}

fn bool_word(b: bool) -> (r: String)
    ensures
        r@ == bool_text(b),
{
    if b {
        "true".to_owned()
    } else {
        "false".to_owned()
    }
}

/// Appends one line.
fn push_line(out: &mut Vec<String>, s: String)
    ensures
        texts(final(out)@) == texts(old(out)@).push(s@),
{
    let ghost before = out@;
    let ghost t = s@;
    out.push(s);
    assert(texts(out@) =~= texts(before).push(t));
}

/// Appends the lines of `more`.
fn push_lines(out: &mut Vec<String>, more: Vec<String>)
    ensures
        texts(final(out)@) == texts(old(out)@) + texts(more@),
{
    let ghost before = out@;
    let ghost added = more@;
    let mut more = more;
    out.append(&mut more);
    assert(texts(out@) =~= texts(before) + texts(added));
}

fn header_lines(binary: &str, binary_exists: bool, config_path: &str, config_exists: bool) -> (r:
    Vec<String>)
    ensures
        texts(r@) == header_report(binary@, binary_exists, config_path@, config_exists),
{
    let mut out: Vec<String> = Vec::new();
    push_line(&mut out, "port-killer Waybar diagnostics".to_owned());
    push_line(&mut out, "".to_owned());
    push_line(&mut out, text_of_str("Binary: ", binary));
    let w = bool_word(binary_exists);
    push_line(&mut out, text_of_str("Binary exists: ", w.as_str()));
    push_line(&mut out, text_of_str("Config path: ", config_path));
    let w = bool_word(config_exists);
    push_line(&mut out, text_of_str("Config exists: ", w.as_str()));
    assert(texts(out@) =~= header_report(binary@, binary_exists, config_path@, config_exists));
    out
}

fn config_lines(config: &Option<String>) -> (r: Vec<String>)
    ensures
        texts(r@) == config_report(opt_text(*config)),
{
    let mut out: Vec<String> = Vec::new();
    match config {
        Some(c) => {
            let v = chars_of(c.as_str());
            let w = bool_word(contains_str(&v, "custom/port-killer"));
            push_line(&mut out, text_of_str("Module in config: ", w.as_str()));
            let w = bool_word(contains_str(&v, "\"custom/port-killer\""));
            push_line(&mut out, text_of_str("Module in modules list: ", w.as_str()));
        },
        None => {
            push_line(&mut out, "Module in config: false".to_owned());
            push_line(&mut out, "".to_owned());
            push_line(&mut out, "No Waybar config found. Run:".to_owned());
            push_line(&mut out, "  port-killer setup waybar --install".to_owned());
        },
    }
    assert(texts(out@) =~= config_report(opt_text(*config)));
    out
}

fn list_line(list: &Result<CommandOutput, String>) -> (r: String)
    ensures
        r@ == list_report(*list),
{
    let mut out: Vec<char> = Vec::new();
    match list {
        Ok(o) => {
            if o.success {
                let json = lossy_text(o.stdout.as_slice());
                let jc = chars_of(json.as_str());
                let n: usize = if jc.len() <= 60 {
                    jc.len()
                } else {
                    60
                };
                let head = copy_range(&jc, 0, n);
                proof {
                    if jc.len() <= 60 {
                        assert(jc@.subrange(0, n as int) =~= jc@);
                    }
                }
                push_str(&mut out, "port-killer list: OK (");
                push_chars(&mut out, &head);
                push_str(&mut out, ")");
            } else {
                let err = lossy_text(o.stderr.as_slice());
                let ec = chars_of(err.as_str());
                let (a, b) = trim_range(&ec, 0, ec.len());
                assert(ec@.subrange(0, ec.len() as int) =~= ec@);
                let t = copy_range(&ec, a, b);
                push_str(&mut out, "port-killer list: failed (");
                push_chars(&mut out, &t);
                push_str(&mut out, ")");
            }
        },
        Err(e) => {
            push_str(&mut out, "port-killer list: ");
            push_str(&mut out, e.as_str());
        },
    }
    string_of(&out)
}

fn running_lines(ps: &str, config_path: &str) -> (r: Vec<String>)
    ensures
        texts(r@) == running_report(ps@, config_path@),
{
    let mut out: Vec<String> = Vec::new();
    let v = chars_of(ps);
    let (a, b) = trim_range(&v, 0, v.len());
    assert(v@.subrange(0, v.len() as int) =~= v@);
    if a == b {
        push_line(&mut out, "Waybar running: no".to_owned());
        assert(texts(out@) =~= seq!["Waybar running: no"@]);
        return out;
    }
    push_line(&mut out, "Waybar running: yes".to_owned());
    let ls = split_lines(&v);
    let mut i: usize = 0;
    while i < ls.len()
        invariant
            i <= ls.len(),
            views(ls@) == lines(ps@),
            texts(out@) == seq!["Waybar running: yes"@] + indented(views(ls@).take(i as int)),
        decreases ls.len() - i,
    {
        let ghost before = texts(out@);
        push_line(&mut out, text_of("  ", &ls[i]));
        assert(indented(views(ls@).take(i + 1)) =~= indented(views(ls@).take(i as int)).push(
            "  "@ + ls@[i as int]@,
        ));
        i = i + 1;
    }
    assert(views(ls@).take(ls.len() as int) =~= views(ls@));
    let mut tail: Vec<String> = Vec::new();
    match custom_config_path(ps, config_path) {
        Some(p) => {
            push_line(&mut tail, "".to_owned());
            push_line(&mut tail, text_of_str("Waybar uses a custom config: ", p.as_str()));
            push_line(&mut tail, "Patch that file instead:".to_owned());
            push_line(
                &mut tail,
                text_of_str("  port-killer setup waybar --install --config ", p.as_str()),
            );
        },
        None => {},
    }
    assert(texts(tail@) =~= custom_report(ps@, config_path@));
    push_lines(&mut out, tail);
    out
}

fn fix_lines(config_path: &str, config: &Option<String>) -> (r: Vec<String>)
    ensures
        texts(r@) == fix_report(config_path@, opt_text(*config)),
{
    let mut out: Vec<String> = Vec::new();
    let named = match config {
        Some(c) => {
            let v = chars_of(c.as_str());
            contains_str(&v, "custom/port-killer")
        },
        None => false,
    };
    if named {
        push_line(&mut out, "Config looks OK. Restart Waybar if the icon is still missing.".to_owned());
    } else {
        push_line(&mut out, "Fix: port-killer setup waybar --install".to_owned());
        if config.is_some() {
            push_line(&mut out, "Or merge manually if you use a custom config path:".to_owned());
            push_line(&mut out, text_of_str("  port-killer setup waybar --config ", config_path));
        }
    }
    assert(texts(out@) =~= fix_report(config_path@, opt_text(*config)));
    out
}

/// The lines of the Waybar diagnostics report, in the order they are
/// printed, each on a line of its own.
pub fn waybar_diagnostics(
    binary: &str,
    binary_exists: bool,
    config_path: &str,
    config: Option<String>,
    list: &Result<CommandOutput, String>,
    pgrep: Option<Vec<u8>>,
) -> (r: Vec<String>)
    ensures
        texts(r@) == waybar_report(
            binary@,
            binary_exists,
            config_path@,
            opt_text(config),
            *list,
            opt_bytes(pgrep),
        ),
{
    let mut out = header_lines(binary, binary_exists, config_path, config.is_some());
    push_lines(&mut out, config_lines(&config));
    push_line(&mut out, list_line(list));
    match &pgrep {
        Some(b) => {
            let ps = lossy_text(b.as_slice());
            push_lines(&mut out, running_lines(ps.as_str(), config_path));
        },
        None => {},
    }
    push_line(&mut out, "".to_owned());
    push_lines(&mut out, fix_lines(config_path, &config));
    out
}

} // verus!
