//! The Waybar module: its configuration text and how an existing
//! `config.jsonc` and `style.css` are patched to hold it.
use vstd::prelude::*;
use crate::text::{
    lemma_replace_absent, is_ws, strip_start_by, ws_pred, lemma_find_facts, lemma_find_first, occurs_at, chars_of, contains, contains_chars, copy_range, ends_with, ends_with_str, find, find_chars,
    first_word, first_word_range, join, lines, push_chars, push_join, push_str, replace_all,
    replace_chars, rfind_char, rfind_char_in, split_lines, string_of, trim_end, trim_end_range,
    trim_start, trim_start_range, views,
};

verus! {

/// The style of the module: the server icon, and its colours when active
/// and idle.
pub const WAYBAR_CSS: &'static str = "
/* port-killer — Lucide server icon */
#custom-port-killer {
    background-image: url(\"icons/port-killer-server.svg\");
    background-size: 16px 16px;
    background-position: 2px center;
    background-repeat: no-repeat;
    padding-left: 22px;
}

#custom-port-killer.active {
    color: #a6e3a1;
}

#custom-port-killer.idle {
    color: #6c7086;
    opacity: 0.65;
}
";

/// The module definition for the binary at `binary`.
pub open spec fn module_text(binary: Seq<char>) -> Seq<char> {
    "    \"custom/port-killer\": {\n        \"format\": \"{text}\",\n        \"return-type\": \"json\",\n        \"interval\": 5,\n        \"exec\": \""@
        + binary + " list\",\n        \"exec-if\": \"test -x "@ + binary
        + "\",\n        \"on-click\": \"sleep 0.1 && "@ + binary
        + " menu\",\n        \"signal\": 9,\n        \"tooltip\": true\n    }"@
}

/// The Waybar module definition that runs the binary at `binary`.
pub fn waybar_module(binary: &str) -> (r: String)
    ensures
        r@ == module_text(binary@),
{
    let mut out: Vec<char> = Vec::new();
    push_str(
        &mut out,
        "    \"custom/port-killer\": {\n        \"format\": \"{text}\",\n        \"return-type\": \"json\",\n        \"interval\": 5,\n        \"exec\": \"",
    );
    push_str(&mut out, binary);
    push_str(&mut out, " list\",\n        \"exec-if\": \"test -x ");
    push_str(&mut out, binary);
    push_str(&mut out, "\",\n        \"on-click\": \"sleep 0.1 && ");
    push_str(&mut out, binary);
    push_str(&mut out, " menu\",\n        \"signal\": 9,\n        \"tooltip\": true\n    }");
    string_of(&out)
}

/// `config` with the module's bare `port-killer` commands pointed at
/// `binary`.
pub open spec fn updated_paths_text(config: Seq<char>, binary: Seq<char>) -> Seq<char> {
    let a = replace_all(
        config,
        "\"exec\": \"port-killer list\""@,
        "\"exec\": \""@ + binary + " list\""@,
    );
    let b = replace_all(
        a,
        "\"exec-if\": \"command -v port-killer\""@,
        "\"exec-if\": \"test -x "@ + binary + "\""@,
    );
    let c = replace_all(
        b,
        "\"on-click\": \"sleep 0.1 && port-killer menu\""@,
        "\"on-click\": \"sleep 0.1 && "@ + binary + " menu\""@,
    );
    replace_all(
        c,
        "\"on-click\": \"sleep 0.1 && port-killer menu --gui\""@,
        "\"on-click\": \"sleep 0.1 && "@ + binary + " menu\""@,
    )
}

/// Replaces every `pattern` in `s` with `before`, `binary` and `after`.
fn replace_with_binary(s: &Vec<char>, pattern: &str, before: &str, binary: &str, after: &str) -> (r:
    Vec<char>)
    requires
        pattern@.len() > 0,
    ensures
        r@ == replace_all(s@, pattern@, before@ + binary@ + after@),
{
    let p = chars_of(pattern);
    let mut t = chars_of(before);
    push_str(&mut t, binary);
    push_str(&mut t, after);
    replace_chars(s, &p, &t)
}

/// Points the module's commands at the binary at `binary`.
pub fn update_binary_paths(config: &str, binary: &str) -> (r: String)
    ensures
        r@ == updated_paths_text(config@, binary@),
{
    proof {
        reveal_strlit("\"exec\": \"port-killer list\"");
        reveal_strlit("\"exec-if\": \"command -v port-killer\"");
        reveal_strlit("\"on-click\": \"sleep 0.1 && port-killer menu\"");
        reveal_strlit("\"on-click\": \"sleep 0.1 && port-killer menu --gui\"");
    }
    let v = chars_of(config);
    let a = replace_with_binary(&v, "\"exec\": \"port-killer list\"", "\"exec\": \"", binary, " list\"");
    let b = replace_with_binary(
        &a,
        "\"exec-if\": \"command -v port-killer\"",
        "\"exec-if\": \"test -x ",
        binary,
        "\"",
    );
    let c = replace_with_binary(
        &b,
        "\"on-click\": \"sleep 0.1 && port-killer menu\"",
        "\"on-click\": \"sleep 0.1 && ",
        binary,
        " menu\"",
    );
    let d = replace_with_binary(
        &c,
        "\"on-click\": \"sleep 0.1 && port-killer menu --gui\"",
        "\"on-click\": \"sleep 0.1 && ",
        binary,
        " menu\"",
    );
    string_of(&d)
}

/// A whole configuration holding only `module`, shown on the right.
pub open spec fn default_config_text(module: Seq<char>) -> Seq<char> {
    "{\n"@ + module + ",\n    \"modules-right\": [\"custom/port-killer\"]\n}\n"@
}

/// A whole configuration holding only `module`, shown on the right.
pub fn default_waybar_config(module: &str) -> (r: String)
    ensures
        r@ == default_config_text(module@),
{
    let mut out: Vec<char> = Vec::new();
    push_str(&mut out, "{\n");
    push_str(&mut out, module);
    push_str(&mut out, ",\n    \"modules-right\": [\"custom/port-killer\"]\n}\n");
    string_of(&out)
}

/// `config` with `module` added before its last `}`, after a comma when
/// the text before needs one; a whole new configuration when there is no `}`.
pub open spec fn with_definition_text(config: Seq<char>, module: Seq<char>) -> Seq<char> {
    let t = trim_end(config);
    match rfind_char(t, '}') {
        None => default_config_text(module),
        Some(pos) => {
            let before = trim_end(t.take(pos));
            let comma = if !ends_with(before, "{"@) && !ends_with(before, ","@) {
                ","@
            } else {
                seq![]
            };
            before + comma + "\n"@ + module + "\n"@ + t.skip(pos)
        },
    }
}

/// Adds the module definition to a configuration.
pub fn insert_module_definition(config: &str, module: &str) -> (r: String)
    ensures
        r@ == with_definition_text(config@, module@),
{
    let v = chars_of(config);
    let e = trim_end_range(&v, 0, v.len());
    assert(v@.subrange(0, v.len() as int) =~= v@);
    let t = copy_range(&v, 0, e);
    let pos = match rfind_char_in(&t, '}') {
        Some(p) => p,
        None => {
            return default_waybar_config(module);
        },
    };
    let be = trim_end_range(&t, 0, pos);
    assert(t@.subrange(0, pos as int) =~= t@.take(pos as int));
    let before = copy_range(&t, 0, be);
    let mut out: Vec<char> = Vec::new();
    push_chars(&mut out, &before);
    if !ends_with_str(&before, "{") && !ends_with_str(&before, ",") {
        push_str(&mut out, ",");
    }
    push_str(&mut out, "\n");
    push_str(&mut out, module);
    push_str(&mut out, "\n");
    let after = copy_range(&t, pos, t.len());
    assert(t@.subrange(pos as int, t.len() as int) =~= t@.skip(pos as int));
    push_chars(&mut out, &after);
    string_of(&out)
}

/// `config` with `"custom/port-killer",` added first in the list under
/// `key`; unchanged without such a list or when the module already follows.
pub open spec fn with_name_text(config: Seq<char>, key: Seq<char>) -> Seq<char> {
    match find(config, "\""@ + key + "\""@) {
        None => config,
        Some(kp) => match find(config.skip(kp), "["@) {
            None => config,
            Some(off) => {
                let ip = kp + off + 1;
                if contains(config.skip(ip), "custom/port-killer"@) {
                    config
                } else {
                    config.take(ip) + "\n        \"custom/port-killer\","@ + config.skip(ip)
                }
            },
        },
    }
}

/// Adds the module to the list under `key` (`modules-right` or `modules-left`).
pub fn insert_module_name(config: &str, key: &str) -> (r: String)
    ensures
        r@ == with_name_text(config@, key@),
{
    let v = chars_of(config);
    let mut needle = chars_of("\"");
    push_str(&mut needle, key);
    push_str(&mut needle, "\"");
    let kp = match find_chars(&v, &needle) {
        Some(k) => k,
        None => {
            return config.to_owned();
        },
    };
    let after_key = copy_range(&v, kp, v.len());
    assert(v@.subrange(kp as int, v.len() as int) =~= v@.skip(kp as int));
    let bracket = chars_of("[");
    let off = match find_chars(&after_key, &bracket) {
        Some(o) => o,
        None => {
            return config.to_owned();
        },
    };
    proof {
        reveal_strlit("[");
    }
    let ip = kp + off + 1;
    let tail = copy_range(&v, ip, v.len());
    assert(v@.subrange(ip as int, v.len() as int) =~= v@.skip(ip as int));
    let marker = chars_of("custom/port-killer");
    if contains_chars(&tail, &marker) {
        return config.to_owned();
    }
    let head = copy_range(&v, 0, ip);
    assert(v@.subrange(0, ip as int) =~= v@.take(ip as int));
    let mut out: Vec<char> = Vec::new();
    push_chars(&mut out, &head);
    push_str(&mut out, "\n        \"custom/port-killer\",");
    push_chars(&mut out, &tail);
    string_of(&out)
}

/// How the Waybar configuration is to change.
#[derive(Debug)]
pub enum ConfigEdit {
    /// Write this new text.
    Write(String),
    /// Write this text, which points an existing module at the binary.
    Refresh(String),
    /// The module is there already as it should be.
    Unchanged,
}

/// The configuration with the module listed first under `modules-right`,
/// or under `modules-left` when there is no right list to take it, and its
/// definition added before the last `}`.
pub open spec fn added_module_text(config: Seq<char>, binary: Seq<char>) -> Seq<char> {
    let right = with_name_text(config, "modules-right"@);
    let listed = if contains(right, "\"custom/port-killer\""@) {
        right
    } else {
        with_name_text(right, "modules-left"@)
    };
    with_definition_text(listed, module_text(binary))
}

/// What the configuration holds after one patch for the binary at `binary`
/// (`existing` is `None` when there was no file).
pub open spec fn patched_text(existing: Option<Seq<char>>, binary: Seq<char>) -> Seq<char> {
    match existing {
        None => default_config_text(module_text(binary)),
        Some(c) => if contains(c, "custom/port-killer"@) {
            updated_paths_text(c, binary)
        } else {
            added_module_text(c, binary)
        },
    }
}

/// The text of an optional configuration.
pub open spec fn existing_text(existing: Option<String>) -> Option<Seq<char>> {
    match existing {
        Some(o) => Some(o@),
        None => None,
    }
}

/// What to do with the configuration `existing` (`None` when there is no
/// file) to run the binary at `binary`.
pub fn plan_config_patch(existing: Option<String>, binary: &str) -> (r: ConfigEdit)
    ensures
        match existing {
            None => r matches ConfigEdit::Write(t) && t@ == default_config_text(module_text(binary@)),
            Some(orig) => if contains(orig@, "custom/port-killer"@) {
                let u = updated_paths_text(orig@, binary@);
                if u != orig@ {
                    r matches ConfigEdit::Refresh(t) && t@ == u
                } else {
                    r is Unchanged
                }
            } else {
                r matches ConfigEdit::Write(t) && t@ == added_module_text(orig@, binary@)
            },
        },
        match r {
            ConfigEdit::Write(t) => t@ == patched_text(existing_text(existing), binary@),
            ConfigEdit::Refresh(t) => t@ == patched_text(existing_text(existing), binary@),
            ConfigEdit::Unchanged => existing matches Some(o) && o@ == patched_text(
                existing_text(existing),
                binary@,
            ),
        },
{
    let module = waybar_module(binary);
    let orig = match existing {
        None => {
            return ConfigEdit::Write(default_waybar_config(module.as_str()));
        },
        Some(o) => o,
    };
    let oc = chars_of(orig.as_str());
    let marker = chars_of("custom/port-killer");
    if contains_chars(&oc, &marker) {
        let updated = update_binary_paths(orig.as_str(), binary);
        let uc = chars_of(updated.as_str());
        if same_chars(&uc, &oc) {
            ConfigEdit::Unchanged
        } else {
            ConfigEdit::Refresh(updated)
        }
    } else {
        let right = insert_module_name(orig.as_str(), "modules-right");
        let rc = chars_of(right.as_str());
        let quoted = chars_of("\"custom/port-killer\"");
        let listed = if contains_chars(&rc, &quoted) {
            right
        } else {
            insert_module_name(right.as_str(), "modules-left")
        };
        ConfigEdit::Write(insert_module_definition(listed.as_str(), module.as_str()))
    }
}

/// Whether `a` and `b` hold the same characters.
fn same_chars(a: &Vec<char>, b: &Vec<char>) -> (r: bool)
    ensures
        r == (a@ == b@),
{
    if a.len() != b.len() {
        return false;
    }
    let mut i: usize = 0;
    while i < a.len()
        invariant
            i <= a.len() == b.len(),
            forall|j: int| 0 <= j < i ==> a@[j] == b@[j],
        decreases a.len() - i,
    {
        if a[i] != b[i] {
            return false;
        }
        i = i + 1;
    }
    assert(a@ =~= b@);
    true
}

/// The lines of `ls` that do not contain `p`.
pub open spec fn lines_without(ls: Seq<Seq<char>>, p: Seq<char>) -> Seq<Seq<char>>
    decreases ls.len(),
{
    if ls.len() == 0 {
        seq![]
    } else {
        let r = lines_without(ls.drop_last(), p);
        if contains(ls.last(), p) {
            r
        } else {
            r.push(ls.last())
        }
    }
}

/// The new `style.css`: nothing to write when it shows the icon already; an
/// older module style replaced; else the module's style appended.
pub open spec fn patched_style_text(content: Seq<char>) -> Option<Seq<char>> {
    if contains(content, "port-killer-server.svg"@) {
        None
    } else if contains(content, "#custom-port-killer"@) {
        let kept = join(lines_without(lines(content), "custom-port-killer"@), "\n"@);
        Some(trim_end(kept) + "\n"@ + trim_start(WAYBAR_CSS@))
    } else if content.len() == 0 {
        Some(trim_start(WAYBAR_CSS@))
    } else {
        Some(content + "\n"@ + WAYBAR_CSS@)
    }
}

/// The text to write to `style.css`, whose content is `content` (empty when
/// there is no file); `None` when it needs no change.
pub fn patched_style(content: &str) -> (r: Option<String>)
    ensures
        match r {
            Some(t) => patched_style_text(content@) == Some(t@),
            None => patched_style_text(content@) is None,
        },
{
    let v = chars_of(content);
    let icon = chars_of("port-killer-server.svg");
    if contains_chars(&v, &icon) {
        return None;
    }
    let css = chars_of(WAYBAR_CSS);
    let old_style = chars_of("#custom-port-killer");
    if contains_chars(&v, &old_style) {
        let ls = split_lines(&v);
        let marker = chars_of("custom-port-killer");
        let mut kept: Vec<Vec<char>> = Vec::new();
        let mut i: usize = 0;
        while i < ls.len()
            invariant
                i <= ls.len(),
                marker@ == "custom-port-killer"@,
                views(kept@) == lines_without(views(ls@).take(i as int), "custom-port-killer"@),
            decreases ls.len() - i,
        {
            proof {
                let t = views(ls@).take(i + 1);
                assert(t.drop_last() =~= views(ls@).take(i as int));
                assert(t.last() == ls@[i as int]@);
            }
            if !contains_chars(&ls[i], &marker) {
                let ghost before = views(kept@);
                let line = crate::text::copy_chars(&ls[i]);
                kept.push(line);
                assert(views(kept@) =~= before.push(ls@[i as int]@));
            }
            i = i + 1;
        }
        assert(views(ls@).take(ls.len() as int) =~= views(ls@));
        let mut joined: Vec<char> = Vec::new();
        push_join(&mut joined, &kept, "\n");
        assert(joined@ =~= Seq::<char>::empty() + join(views(kept@), "\n"@));
        let e = trim_end_range(&joined, 0, joined.len());
        assert(joined@.subrange(0, joined.len() as int) =~= joined@);
        let mut out = copy_range(&joined, 0, e);
        push_str(&mut out, "\n");
        let s = trim_start_range(&css, 0, css.len());
        assert(css@.subrange(0, css.len() as int) =~= css@);
        let tail = copy_range(&css, s, css.len());
        push_chars(&mut out, &tail);
        return Some(string_of(&out));
    }
    if v.len() == 0 {
        let s = trim_start_range(&css, 0, css.len());
        assert(css@.subrange(0, css.len() as int) =~= css@);
        let tail = copy_range(&css, s, css.len());
        return Some(string_of(&tail));
    }
    let mut out = crate::text::copy_chars(&v);
    push_str(&mut out, "\n");
    push_chars(&mut out, &css);
    Some(string_of(&out))
}

/// The configuration a running Waybar was started with (`-c <path>` in its
/// `pgrep -a` line), when it is not `config`: the first word after the
/// first `-c`, up to the next `-c`.
pub open spec fn custom_config_text(ps: Seq<char>, config: Seq<char>) -> Option<Seq<char>> {
    match find(ps, "-c"@) {
        None => None,
        Some(i) => {
            let rest = ps.skip(i + 2);
            let seg = match find(rest, "-c"@) {
                Some(j) => rest.take(j),
                None => rest,
            };
            match first_word(seg) {
                Some(w) => if w != config {
                    Some(w)
                } else {
                    None
                },
                None => None,
            }
        },
    }
}

/// The custom configuration path in the `pgrep -a waybar` output `ps`, when
/// it differs from `config`.
pub fn custom_config_path(ps: &str, config: &str) -> (r: Option<String>)
    ensures
        match r {
            Some(p) => custom_config_text(ps@, config@) == Some(p@),
            None => custom_config_text(ps@, config@) is None,
        },
{
    proof {
        reveal_strlit("-c");
    }
    let v = chars_of(ps);
    let dash_c = chars_of("-c");
    let i = match find_chars(&v, &dash_c) {
        Some(i) => i,
        None => {
            return None;
        },
    };
    assert(dash_c@.len() == 2);
    assert(occurs_at(v@, dash_c@, i as int));
    assert(i + 2 <= v@.len());
    assert(v@.len() == v.len());
    let rest = copy_range(&v, i + 2, v.len());
    assert(v@.subrange(i + 2, v.len() as int) =~= v@.skip(i + 2));
    let end = match find_chars(&rest, &dash_c) {
        Some(j) => j,
        None => rest.len(),
    };
    let ghost seg = match find(rest@, "-c"@) {
        Some(j) => rest@.take(j),
        None => rest@,
    };
    assert(rest@.subrange(0, end as int) =~= seg);
    let (s, e) = match first_word_range(&rest, 0, end) {
        Some(w) => w,
        None => {
            return None;
        },
    };
    let w = copy_range(&rest, s, e);
    let cc = chars_of(config);
    if same_chars(&w, &cc) {
        None
    } else {
        Some(string_of(&w))
    }
}

/// Adding the module to the list under `key` twice adds it once: the second
/// insertion changes nothing (for a key without `[`, as the list keys are).
pub proof fn lemma_insert_name_once(config: Seq<char>, key: Seq<char>)
    requires
        !key.contains('['),
    ensures
        with_name_text(with_name_text(config, key), key) == with_name_text(config, key),
{
    let needle = "\""@ + key + "\""@;
    let bracket = "["@;
    let marker = "custom/port-killer"@;
    let ins = "\n        \"custom/port-killer\","@;
    let r = with_name_text(config, key);
    lemma_find_facts(config, needle);
    if let Some(kp) = find(config, needle) {
        lemma_find_facts(config.skip(kp), bracket);
        if let Some(off) = find(config.skip(kp), bracket) {
            let ip = kp + off + 1;
            if !contains(config.skip(ip), marker) {
                reveal_strlit("\"");
                reveal_strlit("[");
                reveal_strlit("custom/port-killer");
                reveal_strlit("\n        \"custom/port-killer\",");
                let nl = needle.len() as int;
                assert(bracket =~= seq!['[']);
                assert(occurs_at(config.skip(kp), bracket, off));
                assert(config.skip(kp).subrange(off, off + 1) =~= bracket);
                assert(config.skip(kp).subrange(off, off + 1)[0] == config.skip(kp)[off]);
                assert(config.skip(kp)[off] == config[kp + off]);
                assert(config[kp + off] == '[');
                // The bracket lies past the needle, which holds no `[`.
                if off < nl {
                    assert(config.subrange(kp, kp + nl) =~= needle);
                    assert(needle[off] == config[kp + off]);
                    if off == 0 || off == nl - 1 {
                        assert(needle[off] == '"');
                    } else {
                        assert(needle[off] == key[off - 1]);
                        assert(key.contains(key[off - 1]));
                    }
                }
                assert(ip <= config.len());
                assert(r == config.take(ip) + ins + config.skip(ip));
                // Before `ip`, `r` is `config`.
                assert forall|x: int| 0 <= x < ip implies r[x] == config[x] by {}
                assert(occurs_at(r, needle, kp)) by {
                    assert(r.subrange(kp, kp + nl) =~= config.subrange(kp, kp + nl));
                }
                assert forall|j: int| 0 <= j < kp implies !occurs_at(r, needle, j) by {
                    if occurs_at(r, needle, j) {
                        assert(r.subrange(j, j + nl) =~= config.subrange(j, j + nl));
                        assert(occurs_at(config, needle, j));
                    }
                }
                lemma_find_first(r, needle, kp);
                let rs = r.skip(kp);
                let cs = config.skip(kp);
                assert(occurs_at(rs, bracket, off)) by {
                    assert(rs.subrange(off, off + 1) =~= cs.subrange(off, off + 1));
                }
                assert forall|j: int| 0 <= j < off implies !occurs_at(rs, bracket, j) by {
                    if occurs_at(rs, bracket, j) {
                        assert(rs.subrange(j, j + 1) =~= cs.subrange(j, j + 1));
                        assert(occurs_at(cs, bracket, j));
                    }
                }
                lemma_find_first(rs, bracket, off);
                assert(r.skip(ip).subrange(10, 28) =~= marker);
                assert(occurs_at(r.skip(ip), marker, 10));
            }
        }
    }
}

/// The module's style names the icon file, also once trimmed.
proof fn lemma_css_names_icon()
    ensures
        contains(WAYBAR_CSS@, "port-killer-server.svg"@),
        contains(trim_start(WAYBAR_CSS@), "port-killer-server.svg"@),
{
    reveal_strlit("
/* port-killer — Lucide server icon */
#custom-port-killer {
    background-image: url(\"icons/port-killer-server.svg\");
    background-size: 16px 16px;
    background-position: 2px center;
    background-repeat: no-repeat;
    padding-left: 22px;
}

#custom-port-killer.active {
    color: #a6e3a1;
}

#custom-port-killer.idle {
    color: #6c7086;
    opacity: 0.65;
}
");
    reveal_strlit("port-killer-server.svg");
    let css = WAYBAR_CSS@;
    let m = "port-killer-server.svg"@;
    assert(css == "
/* port-killer — Lucide server icon */
#custom-port-killer {
    background-image: url(\"icons/port-killer-server.svg\");
    background-size: 16px 16px;
    background-position: 2px center;
    background-repeat: no-repeat;
    padding-left: 22px;
}

#custom-port-killer.active {
    color: #a6e3a1;
}

#custom-port-killer.idle {
    color: #6c7086;
    opacity: 0.65;
}
"@);
    assert(css.subrange(95, 117) =~= m);
    assert(occurs_at(css, m, 95));
    let rest = css.drop_first();
    assert(is_ws(css[0]));
    assert(!is_ws(rest[0]));
    assert(strip_start_by(rest, ws_pred()) == rest);
    assert(trim_start(css) == rest);
    assert(rest.subrange(94, 116) =~= m);
    assert(occurs_at(rest, m, 94));
}

/// What `b` contains, `a + b` and `a + b + c` contain too.
proof fn lemma_contains_within(a: Seq<char>, b: Seq<char>, c: Seq<char>, p: Seq<char>)
    requires
        contains(b, p),
    ensures
        contains(a + b, p),
        contains(a + b + c, p),
{
    let i = choose|i: int| occurs_at(b, p, i);
    assert((a + b).subrange(a.len() + i, a.len() + i + p.len()) =~= b.subrange(i, i + p.len()));
    assert(occurs_at(a + b, p, a.len() + i));
    assert((a + b + c).subrange(a.len() + i, a.len() + i + p.len()) =~= b.subrange(i, i + p.len()));
    assert(occurs_at(a + b + c, p, a.len() + i));
}

/// A patched style needs no second patch: it names the icon, so running the
/// patch again writes nothing.
pub proof fn lemma_style_patch_once(content: Seq<char>)
    ensures
        patched_style_text(content) matches Some(t) ==> patched_style_text(t) is None,
{
    lemma_css_names_icon();
    let css = WAYBAR_CSS@;
    let m = "port-killer-server.svg"@;
    if !contains(content, m) {
        if contains(content, "#custom-port-killer"@) {
            let kept = join(lines_without(lines(content), "custom-port-killer"@), "\n"@);
            lemma_contains_within(trim_end(kept) + "\n"@, trim_start(css), seq![], m);
        } else if content.len() > 0 {
            lemma_contains_within(content + "\n"@, css, seq![], m);
        }
    }
}

/// What `x` contains, `x + y` contains too.
proof fn lemma_contains_prefix(x: Seq<char>, y: Seq<char>, p: Seq<char>)
    requires
        contains(x, p),
    ensures
        contains(x + y, p),
{
    let i = choose|i: int| occurs_at(x, p, i);
    assert((x + y).subrange(i, i + p.len()) =~= x.subrange(i, i + p.len()));
    assert(occurs_at(x + y, p, i));
}

/// The module definition names the module.
proof fn lemma_module_names_itself(binary: Seq<char>)
    ensures
        contains(module_text(binary), "custom/port-killer"@),
{
    let m = "custom/port-killer"@;
    let l1 = "    \"custom/port-killer\": {\n        \"format\": \"{text}\",\n        \"return-type\": \"json\",\n        \"interval\": 5,\n        \"exec\": \""@;
    reveal_strlit("custom/port-killer");
    reveal_strlit("    \"custom/port-killer\": {\n        \"format\": \"{text}\",\n        \"return-type\": \"json\",\n        \"interval\": 5,\n        \"exec\": \"");
    assert(l1.subrange(5, 23) =~= m);
    assert(occurs_at(l1, m, 5));
    let l2 = " list\",\n        \"exec-if\": \"test -x "@;
    let l3 = "\",\n        \"on-click\": \"sleep 0.1 && "@;
    let l4 = " menu\",\n        \"signal\": 9,\n        \"tooltip\": true\n    }"@;
    lemma_contains_prefix(l1, binary, m);
    lemma_contains_prefix(l1 + binary, l2, m);
    lemma_contains_prefix(l1 + binary + l2, binary, m);
    lemma_contains_prefix(l1 + binary + l2 + binary, l3, m);
    lemma_contains_prefix(l1 + binary + l2 + binary + l3, binary, m);
    lemma_contains_prefix(l1 + binary + l2 + binary + l3 + binary, l4, m);
}

/// Whatever the configuration was, the text the patch writes names the
/// module, so a second run adds no second definition: it can only point
/// the module's commands at the binary or leave the file as it is.
pub proof fn lemma_written_config_names_module(existing: Option<Seq<char>>, binary: Seq<char>)
    ensures
        contains(
            match existing {
                None => default_config_text(module_text(binary)),
                Some(c) => added_module_text(c, binary),
            },
            "custom/port-killer"@,
        ),
{
    let m = "custom/port-killer"@;
    let module = module_text(binary);
    lemma_module_names_itself(binary);
    lemma_contains_within("{\n"@, module, ",\n    \"modules-right\": [\"custom/port-killer\"]\n}\n"@, m);
    if let Some(c) = existing {
        let right = with_name_text(c, "modules-right"@);
        let listed = if contains(right, "\"custom/port-killer\""@) {
            right
        } else {
            with_name_text(right, "modules-left"@)
        };
        let t = trim_end(listed);
        if let Some(pos) = rfind_char(t, '}') {
            let before = trim_end(t.take(pos));
            let comma = if !ends_with(before, "{"@) && !ends_with(before, ","@) {
                ","@
            } else {
                seq![]
            };
            lemma_contains_within(before + comma + "\n"@, module, "\n"@, m);
            lemma_contains_prefix(before + comma + "\n"@ + module + "\n"@, t.skip(pos), m);
        }
    }
}

/// A configuration that holds the module and none of the commands the patch
/// rewrites is left as it is: patching it again changes nothing.
pub proof fn lemma_configured_unchanged(config: Seq<char>, binary: Seq<char>)
    requires
        !contains(config, "\"exec\": \"port-killer list\""@),
        !contains(config, "\"exec-if\": \"command -v port-killer\""@),
        !contains(config, "\"on-click\": \"sleep 0.1 && port-killer menu\""@),
        !contains(config, "\"on-click\": \"sleep 0.1 && port-killer menu --gui\""@),
    ensures
        updated_paths_text(config, binary) == config,
{
    lemma_replace_absent(config, "\"exec\": \"port-killer list\""@, "\"exec\": \""@ + binary + " list\""@);
    lemma_replace_absent(
        config,
        "\"exec-if\": \"command -v port-killer\""@,
        "\"exec-if\": \"test -x "@ + binary + "\""@,
    );
    lemma_replace_absent(
        config,
        "\"on-click\": \"sleep 0.1 && port-killer menu\""@,
        "\"on-click\": \"sleep 0.1 && "@ + binary + " menu\""@,
    );
    lemma_replace_absent(
        config,
        "\"on-click\": \"sleep 0.1 && port-killer menu --gui\""@,
        "\"on-click\": \"sleep 0.1 && "@ + binary + " menu\""@,
    );
}

} // verus!
