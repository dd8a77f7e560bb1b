//! Why a second patch of the Waybar configuration changes nothing: the
//! text the first patch writes names the module and holds none of the older
//! commands that a patch rewrites.
use vstd::prelude::*;
use crate::setup::{
    default_config_text, lemma_configured_unchanged, patched_text,
    lemma_written_config_names_module, module_text, updated_paths_text, with_definition_text,
    with_name_text,
};
use crate::text::{
    contains, ends_with, find, lemma_absent_char, lemma_absent_join, lemma_absent_sub,
    lemma_find_facts, lemma_quoted3_window, lemma_rfind_char_facts, lemma_replace_absent, lemma_replace_same,
    lemma_strip_end_prefix, quoted3, replace_all, rfind_char, trim_end, ws_pred,
};

verus! {

/// The configuration holds none of the four older module commands that a
/// patch points at the binary.
pub open spec fn legacy_free(config: Seq<char>) -> bool {
    &&& !contains(config, "\"exec\": \"port-killer list\""@)
    &&& !contains(config, "\"exec-if\": \"command -v port-killer\""@)
    &&& !contains(config, "\"on-click\": \"sleep 0.1 && port-killer menu\""@)
    &&& !contains(config, "\"on-click\": \"sleep 0.1 && port-killer menu --gui\""@)
}

/// One of the four older commands, as its three quoted fields.
spec fn legacy_command(p: Seq<char>) -> bool {
    ||| p == quoted3("exec"@, ": "@, "port-killer list"@)
    ||| p == quoted3("exec-if"@, ": "@, "command -v port-killer"@)
    ||| p == quoted3("on-click"@, ": "@, "sleep 0.1 && port-killer menu"@)
    ||| p == quoted3("on-click"@, ": "@, "sleep 0.1 && port-killer menu --gui"@)
}

/// The four older commands, written out.
proof fn lemma_legacy_literals()
    ensures
        quoted3("exec"@, ": "@, "port-killer list"@) == "\"exec\": \"port-killer list\""@,
        quoted3("exec-if"@, ": "@, "command -v port-killer"@)
            == "\"exec-if\": \"command -v port-killer\""@,
        quoted3("on-click"@, ": "@, "sleep 0.1 && port-killer menu"@)
            == "\"on-click\": \"sleep 0.1 && port-killer menu\""@,
        quoted3("on-click"@, ": "@, "sleep 0.1 && port-killer menu --gui"@)
            == "\"on-click\": \"sleep 0.1 && port-killer menu --gui\""@,
{
    reveal(quoted3);
    reveal_strlit("exec");
    reveal_strlit("exec-if");
    reveal_strlit("on-click");
    reveal_strlit(": ");
    reveal_strlit("port-killer list");
    reveal_strlit("command -v port-killer");
    reveal_strlit("sleep 0.1 && port-killer menu");
    reveal_strlit("sleep 0.1 && port-killer menu --gui");
    reveal_strlit("\"exec\": \"port-killer list\"");
    reveal_strlit("\"exec-if\": \"command -v port-killer\"");
    reveal_strlit("\"on-click\": \"sleep 0.1 && port-killer menu\"");
    reveal_strlit("\"on-click\": \"sleep 0.1 && port-killer menu --gui\"");
    assert(quoted3("exec"@, ": "@, "port-killer list"@) =~= "\"exec\": \"port-killer list\""@);
    assert(quoted3("exec-if"@, ": "@, "command -v port-killer"@)
        =~= "\"exec-if\": \"command -v port-killer\""@);
    assert(quoted3("on-click"@, ": "@, "sleep 0.1 && port-killer menu"@)
        =~= "\"on-click\": \"sleep 0.1 && port-killer menu\""@);
    assert(quoted3("on-click"@, ": "@, "sleep 0.1 && port-killer menu --gui"@)
        =~= "\"on-click\": \"sleep 0.1 && port-killer menu --gui\""@);
}

/// The characters the older commands hold and lack.
proof fn lemma_legacy_shape(p: Seq<char>)
    requires
        legacy_command(p),
    ensures
        !p.contains(','),
        !p.contains('\n'),
        p.contains('p'),
        p.contains('x') || p.contains('&'),
{
    lemma_legacy_literals();
    reveal_strlit("\"exec\": \"port-killer list\"");
    reveal_strlit("\"exec-if\": \"command -v port-killer\"");
    reveal_strlit("\"on-click\": \"sleep 0.1 && port-killer menu\"");
    reveal_strlit("\"on-click\": \"sleep 0.1 && port-killer menu --gui\"");
    if p == "\"exec\": \"port-killer list\""@ {
        assert(p[9] == 'p');
        assert(p[2] == 'x');
    } else if p == "\"exec-if\": \"command -v port-killer\""@ {
        assert(p[23] == 'p');
        assert(p[2] == 'x');
    } else {
        assert(p[17] == 'p');
        assert(p[23] == '&');
    }
}

/// A text without `p`, or without both `x` and `&`, holds no older command.
proof fn lemma_plain_absent(s: Seq<char>, p: Seq<char>)
    requires
        legacy_command(p),
        !s.contains('p') || (!s.contains('x') && !s.contains('&')),
    ensures
        !contains(s, p),
{
    lemma_legacy_shape(p);
    if !s.contains('p') {
        lemma_absent_char(s, p, 'p');
    } else if p.contains('x') {
        lemma_absent_char(s, p, 'x');
    } else {
        lemma_absent_char(s, p, '&');
    }
}

/// Two texts without an older command, joined by a line break, a comma or
/// both, hold none either.
proof fn lemma_join_absent(x: Seq<char>, sep: Seq<char>, y: Seq<char>, p: Seq<char>)
    requires
        legacy_command(p),
        sep == seq!['\n'] || sep == seq![',', '\n'] || sep == seq![','],
        !contains(x, p),
        !contains(y, p),
    ensures
        !contains(x + sep + y, p),
{
    lemma_legacy_shape(p);
    lemma_absent_join(x, sep, y, p);
}

/// A text joined from quote-free parts has no quote.
proof fn lemma_free_join(a: Seq<char>, b: Seq<char>)
    requires
        !a.contains('"'),
        !b.contains('"'),
    ensures
        !(a + b).contains('"'),
{
    if (a + b).contains('"') {
        let k = choose|k: int| 0 <= k < (a + b).len() && (a + b)[k] == '"';
        if k < a.len() {
            assert(a[k] == '"');
        } else {
            assert(b[k - a.len()] == '"');
        }
    }
}

/// The `exec` setting of the module holds an older command only when the
/// binary is `port-killer`, and then only the one the patch turns into
/// itself.
proof fn lemma_exec_setting(b: Seq<char>, p: Seq<char>)
    requires
        !b.contains('"'),
        legacy_command(p),
        contains("        "@ + quoted3("exec"@, ": "@, b + " list"@), p),
    ensures
        b == "port-killer"@,
        p == quoted3("exec"@, ": "@, "port-killer list"@),
{
    let f3 = b + " list"@;
    assert(!" list"@.contains('"')) by {
        reveal_strlit(" list");
    }
    lemma_free_join(b, " list"@);
    assert(!"        "@.contains('"') && !"exec"@.contains('"') && !": "@.contains('"')) by {
        reveal_strlit("        ");
        reveal_strlit("exec");
        reveal_strlit(": ");
    }
    let sp = "        "@;
    if p == quoted3("exec"@, ": "@, "port-killer list"@) {
        assert(!"port-killer list"@.contains('"')) by {
            reveal_strlit("port-killer list");
        }
        lemma_quoted3_window(sp, "exec"@, ": "@, f3, "exec"@, ": "@, "port-killer list"@);
        assert(b =~= "port-killer"@) by {
            reveal_strlit(" list");
            reveal_strlit("port-killer list");
            reveal_strlit("port-killer");
            assert(b =~= f3.take(11));
        }
    } else if p == quoted3("exec-if"@, ": "@, "command -v port-killer"@) {
        assert(!"exec-if"@.contains('"') && !"command -v port-killer"@.contains('"')) by {
            reveal_strlit("exec-if");
            reveal_strlit("command -v port-killer");
        }
        lemma_quoted3_window(sp, "exec"@, ": "@, f3, "exec-if"@, ": "@, "command -v port-killer"@);
        assert("exec"@.len() != "exec-if"@.len()) by {
            reveal_strlit("exec");
            reveal_strlit("exec-if");
        }
    } else {
        let e3 = if p == quoted3("on-click"@, ": "@, "sleep 0.1 && port-killer menu"@) {
            "sleep 0.1 && port-killer menu"@
        } else {
            "sleep 0.1 && port-killer menu --gui"@
        };
        assert(p == quoted3("on-click"@, ": "@, e3));
        assert(!"on-click"@.contains('"') && !e3.contains('"')) by {
            reveal_strlit("on-click");
            reveal_strlit("sleep 0.1 && port-killer menu");
            reveal_strlit("sleep 0.1 && port-killer menu --gui");
        }
        lemma_quoted3_window(sp, "exec"@, ": "@, f3, "on-click"@, ": "@, e3);
        assert("exec"@.len() != "on-click"@.len()) by {
            reveal_strlit("exec");
            reveal_strlit("on-click");
        }
    }
}

/// The `exec-if` setting of the module holds no older command.
proof fn lemma_exec_if_setting(b: Seq<char>, p: Seq<char>)
    requires
        !b.contains('"'),
        legacy_command(p),
    ensures
        !contains("        "@ + quoted3("exec-if"@, ": "@, "test -x "@ + b), p),
{
    let f3 = "test -x "@ + b;
    if contains("        "@ + quoted3("exec-if"@, ": "@, f3), p) {
        assert(!"test -x "@.contains('"')) by {
            reveal_strlit("test -x ");
        }
        lemma_free_join("test -x "@, b);
        assert(!"        "@.contains('"') && !"exec-if"@.contains('"') && !": "@.contains('"'))
            by {
            reveal_strlit("        ");
            reveal_strlit("exec-if");
            reveal_strlit(": ");
        }
        let sp = "        "@;
        if p == quoted3("exec"@, ": "@, "port-killer list"@) {
            assert(!"exec"@.contains('"') && !"port-killer list"@.contains('"')) by {
                reveal_strlit("exec");
                reveal_strlit("port-killer list");
            }
            lemma_quoted3_window(sp, "exec-if"@, ": "@, f3, "exec"@, ": "@, "port-killer list"@);
            assert("exec"@.len() != "exec-if"@.len()) by {
                reveal_strlit("exec");
                reveal_strlit("exec-if");
            }
        } else if p == quoted3("exec-if"@, ": "@, "command -v port-killer"@) {
            assert(!"command -v port-killer"@.contains('"')) by {
                reveal_strlit("command -v port-killer");
            }
            lemma_quoted3_window(sp, "exec-if"@, ": "@, f3, "exec-if"@, ": "@, "command -v port-killer"@);
            assert(f3[0] != "command -v port-killer"@[0]) by {
                reveal_strlit("test -x ");
                reveal_strlit("command -v port-killer");
            }
        } else {
            let e3 = if p == quoted3("on-click"@, ": "@, "sleep 0.1 && port-killer menu"@) {
                "sleep 0.1 && port-killer menu"@
            } else {
                "sleep 0.1 && port-killer menu --gui"@
            };
            assert(p == quoted3("on-click"@, ": "@, e3));
            assert(!"on-click"@.contains('"') && !e3.contains('"')) by {
                reveal_strlit("on-click");
                reveal_strlit("sleep 0.1 && port-killer menu");
                reveal_strlit("sleep 0.1 && port-killer menu --gui");
            }
            lemma_quoted3_window(sp, "exec-if"@, ": "@, f3, "on-click"@, ": "@, e3);
            assert("exec-if"@.len() != "on-click"@.len()) by {
                reveal_strlit("exec-if");
                reveal_strlit("on-click");
            }
        }
    }
}

/// The `on-click` setting of the module holds an older command only when
/// the binary is `port-killer`, and then only the one the patch turns into
/// itself.
proof fn lemma_on_click_setting(b: Seq<char>, p: Seq<char>)
    requires
        !b.contains('"'),
        legacy_command(p),
        contains("        "@ + quoted3("on-click"@, ": "@, "sleep 0.1 && "@ + b + " menu"@), p),
    ensures
        b == "port-killer"@,
        p == quoted3("on-click"@, ": "@, "sleep 0.1 && port-killer menu"@),
{
    let f3 = "sleep 0.1 && "@ + b + " menu"@;
    assert(!"sleep 0.1 && "@.contains('"') && !" menu"@.contains('"')) by {
        reveal_strlit("sleep 0.1 && ");
        reveal_strlit(" menu");
    }
    lemma_free_join("sleep 0.1 && "@, b);
    lemma_free_join("sleep 0.1 && "@ + b, " menu"@);
    assert(!"        "@.contains('"') && !"on-click"@.contains('"') && !": "@.contains('"')) by {
        reveal_strlit("        ");
        reveal_strlit("on-click");
        reveal_strlit(": ");
    }
    let sp = "        "@;
    if p == quoted3("exec"@, ": "@, "port-killer list"@) {
        assert(!"exec"@.contains('"') && !"port-killer list"@.contains('"')) by {
            reveal_strlit("exec");
            reveal_strlit("port-killer list");
        }
        lemma_quoted3_window(sp, "on-click"@, ": "@, f3, "exec"@, ": "@, "port-killer list"@);
        assert("exec"@.len() != "on-click"@.len()) by {
            reveal_strlit("exec");
            reveal_strlit("on-click");
        }
    } else if p == quoted3("exec-if"@, ": "@, "command -v port-killer"@) {
        assert(!"exec-if"@.contains('"') && !"command -v port-killer"@.contains('"')) by {
            reveal_strlit("exec-if");
            reveal_strlit("command -v port-killer");
        }
        lemma_quoted3_window(sp, "on-click"@, ": "@, f3, "exec-if"@, ": "@, "command -v port-killer"@);
        assert("exec-if"@.len() != "on-click"@.len()) by {
            reveal_strlit("exec-if");
            reveal_strlit("on-click");
        }
    } else if p == quoted3("on-click"@, ": "@, "sleep 0.1 && port-killer menu"@) {
        let e3 = "sleep 0.1 && port-killer menu"@;
        assert(!e3.contains('"')) by {
            reveal_strlit("sleep 0.1 && port-killer menu");
        }
        lemma_quoted3_window(sp, "on-click"@, ": "@, f3, "on-click"@, ": "@, e3);
        assert(b =~= "port-killer"@) by {
            reveal_strlit("sleep 0.1 && ");
            reveal_strlit(" menu");
            reveal_strlit("sleep 0.1 && port-killer menu");
            reveal_strlit("port-killer");
            assert(b =~= f3.subrange(13, 24));
        }
    } else {
        let e3 = "sleep 0.1 && port-killer menu --gui"@;
        assert(!e3.contains('"')) by {
            reveal_strlit("sleep 0.1 && port-killer menu --gui");
        }
        lemma_quoted3_window(sp, "on-click"@, ": "@, f3, "on-click"@, ": "@, e3);
        assert(f3[f3.len() - 1] != e3[e3.len() - 1]) by {
            reveal_strlit(" menu");
            reveal_strlit("sleep 0.1 && port-killer menu --gui");
        }
    }
}

/// The first part of the module definition, before the binary, split at its
/// line breaks and commas.
proof fn lemma_first_chunk()
    ensures
        "    \"custom/port-killer\": {\n        \"format\": \"{text}\",\n        \"return-type\": \"json\",\n        \"interval\": 5,\n        \"exec\": \""@
            == "    \"custom/port-killer\": {"@ + seq!['\n'] + "        \"format\": \"{text}\""@
            + seq![',', '\n'] + "        \"return-type\": \"json\""@ + seq![',', '\n']
            + "        \"interval\": 5"@ + seq![',', '\n'] + ("        "@ + (seq!['"'] + "exec"@
            + seq!['"'] + ": "@ + seq!['"'])),
{
    reveal_strlit("    \"custom/port-killer\": {\n        \"format\": \"{text}\",\n        \"return-type\": \"json\",\n        \"interval\": 5,\n        \"exec\": \"");
    reveal_strlit("    \"custom/port-killer\": {");
    reveal_strlit("        \"format\": \"{text}\"");
    reveal_strlit("        \"return-type\": \"json\"");
    reveal_strlit("        \"interval\": 5");
    reveal_strlit("        ");
    reveal_strlit("exec");
    reveal_strlit(": ");
    assert("    \"custom/port-killer\": {\n        \"format\": \"{text}\",\n        \"return-type\": \"json\",\n        \"interval\": 5,\n        \"exec\": \""@
        =~= "    \"custom/port-killer\": {"@ + seq!['\n'] + "        \"format\": \"{text}\""@
        + seq![',', '\n'] + "        \"return-type\": \"json\""@ + seq![',', '\n']
        + "        \"interval\": 5"@ + seq![',', '\n'] + ("        "@ + (seq!['"'] + "exec"@
        + seq!['"'] + ": "@ + seq!['"'])));
}

/// The module definition's parts between the binary's mentions, split at
/// their line breaks and commas.
proof fn lemma_other_chunks()
    ensures
        " list\",\n        \"exec-if\": \"test -x "@ == " list"@ + seq!['"'] + seq![',', '\n']
            + ("        "@ + (seq!['"'] + "exec-if"@ + seq!['"'] + ": "@ + seq!['"']
            + "test -x "@)),
        "\",\n        \"on-click\": \"sleep 0.1 && "@ == seq!['"'] + seq![',', '\n'] + ("        "@
            + (seq!['"'] + "on-click"@ + seq!['"'] + ": "@ + seq!['"'] + "sleep 0.1 && "@)),
        " menu\",\n        \"signal\": 9,\n        \"tooltip\": true\n    }"@ == " menu"@ + seq!['"']
            + seq![',', '\n'] + ("        \"signal\": 9"@ + seq![',', '\n'] + (
        "        \"tooltip\": true"@ + seq!['\n'] + "    }"@)),
{
    reveal_strlit(" list\",\n        \"exec-if\": \"test -x ");
    reveal_strlit("\",\n        \"on-click\": \"sleep 0.1 && ");
    reveal_strlit(" menu\",\n        \"signal\": 9,\n        \"tooltip\": true\n    }");
    reveal_strlit(" list");
    reveal_strlit(" menu");
    reveal_strlit("        ");
    reveal_strlit("exec-if");
    reveal_strlit("on-click");
    reveal_strlit(": ");
    reveal_strlit("test -x ");
    reveal_strlit("sleep 0.1 && ");
    reveal_strlit("        \"signal\": 9");
    reveal_strlit("        \"tooltip\": true");
    reveal_strlit("    }");
    assert(" list\",\n        \"exec-if\": \"test -x "@ =~= " list"@ + seq!['"'] + seq![',', '\n']
        + ("        "@ + (seq!['"'] + "exec-if"@ + seq!['"'] + ": "@ + seq!['"'] + "test -x "@)));
    assert("\",\n        \"on-click\": \"sleep 0.1 && "@ =~= seq!['"'] + seq![',', '\n'] + ("        "@
        + (seq!['"'] + "on-click"@ + seq!['"'] + ": "@ + seq!['"'] + "sleep 0.1 && "@)));
    assert(" menu\",\n        \"signal\": 9,\n        \"tooltip\": true\n    }"@ =~= " menu"@
        + seq!['"'] + seq![',', '\n'] + ("        \"signal\": 9"@ + seq![',', '\n'] + (
    "        \"tooltip\": true"@ + seq!['\n'] + "    }"@)));
}

/// Regrouping the module definition around the binary's three mentions.
proof fn lemma_regroup(
    c1: Seq<char>,
    c2: Seq<char>,
    c3: Seq<char>,
    c4: Seq<char>,
    b: Seq<char>,
    head: Seq<char>,
    x5: Seq<char>,
    y5: Seq<char>,
    x6: Seq<char>,
    y6: Seq<char>,
    x7: Seq<char>,
    y7: Seq<char>,
    cn: Seq<char>,
    tail: Seq<char>,
)
    requires
        c1 == head + x5,
        c2 == y5 + cn + x6,
        c3 == y6 + cn + x7,
        c4 == y7 + cn + tail,
    ensures
        c1 + b + c2 + b + c3 + b + c4 == head + ((x5 + b + y5) + cn + ((x6 + b + y6) + cn + ((x7 + b
            + y7) + cn + tail))),
{
    assert(c1 + b + c2 + b + c3 + b + c4 =~= head + ((x5 + b + y5) + cn + ((x6 + b + y6) + cn + ((x7
        + b + y7) + cn + tail))));
}

/// A quoted setting after eight spaces, written out.
proof fn lemma_setting_parts(f1: Seq<char>, pre: Seq<char>, b: Seq<char>, post: Seq<char>)
    ensures
        "        "@ + quoted3(f1, ": "@, pre + b + post) == ("        "@ + (seq!['"'] + f1
            + seq!['"'] + ": "@ + seq!['"'] + pre)) + b + (post + seq!['"']),
{
    reveal(quoted3);
    let q = seq!['"'];
    assert("        "@ + quoted3(f1, ": "@, pre + b + post) =~= ("        "@ + (q + f1 + q + ": "@ + q
        + pre)) + b + (post + q));
}

/// The module definition holds an older command only when the binary is
/// `port-killer`, and then only one that the patch turns into itself.
proof fn lemma_module_legacy(b: Seq<char>, p: Seq<char>)
    requires
        !b.contains('"'),
        legacy_command(p),
    ensures
        contains(module_text(b), p) ==> b == "port-killer"@ && (p == quoted3(
            "exec"@,
            ": "@,
            "port-killer list"@,
        ) || p == quoted3("on-click"@, ": "@, "sleep 0.1 && port-killer menu"@)),
{
    let q = seq!['"'];
    let nl = seq!['\n'];
    let cn = seq![',', '\n'];
    let e = Seq::<char>::empty();
    let sp = "        "@;
    let l1 = "    \"custom/port-killer\": {"@;
    let l2 = "        \"format\": \"{text}\""@;
    let l3 = "        \"return-type\": \"json\""@;
    let l4 = "        \"interval\": 5"@;
    let l8 = "        \"signal\": 9"@;
    let l9 = "        \"tooltip\": true"@;
    let l10 = "    }"@;
    let s5 = sp + quoted3("exec"@, ": "@, b + " list"@);
    let s6 = sp + quoted3("exec-if"@, ": "@, "test -x "@ + b);
    let s7 = sp + quoted3("on-click"@, ": "@, "sleep 0.1 && "@ + b + " menu"@);
    let tail = l8 + cn + (l9 + nl + l10);
    let head = l1 + nl + l2 + cn + l3 + cn + l4 + cn;
    let x5 = sp + (q + "exec"@ + q + ": "@ + q);
    let x6 = sp + (q + "exec-if"@ + q + ": "@ + q + "test -x "@);
    let x7 = sp + (q + "on-click"@ + q + ": "@ + q + "sleep 0.1 && "@);
    lemma_first_chunk();
    lemma_other_chunks();
    lemma_setting_parts("exec"@, e, b, " list"@);
    lemma_setting_parts("exec-if"@, "test -x "@, b, e);
    lemma_setting_parts("on-click"@, "sleep 0.1 && "@, b, " menu"@);
    assert(e + b + " list"@ =~= b + " list"@);
    assert("test -x "@ + b + e =~= "test -x "@ + b);
    assert(sp + (q + "exec"@ + q + ": "@ + q + e) =~= x5);
    assert(e + q =~= q);
    assert(s5 == x5 + b + (" list"@ + q));
    assert(s6 == x6 + b + q);
    assert(s7 == x7 + b + (" menu"@ + q));
    lemma_regroup(
        "    \"custom/port-killer\": {\n        \"format\": \"{text}\",\n        \"return-type\": \"json\",\n        \"interval\": 5,\n        \"exec\": \""@,
        " list\",\n        \"exec-if\": \"test -x "@,
        "\",\n        \"on-click\": \"sleep 0.1 && "@,
        " menu\",\n        \"signal\": 9,\n        \"tooltip\": true\n    }"@,
        b,
        head,
        x5,
        " list"@ + q,
        x6,
        q,
        x7,
        " menu"@ + q,
        cn,
        tail,
    );
    let rest = s5 + cn + (s6 + cn + (s7 + cn + tail));
    assert(module_text(b) == head + rest);
    assert(head + rest =~= l1 + nl + (l2 + cn + (l3 + cn + (l4 + cn + rest))));
    if contains(module_text(b), p) && !(b == "port-killer"@ && (p == quoted3(
        "exec"@,
        ": "@,
        "port-killer list"@,
    ) || p == quoted3("on-click"@, ": "@, "sleep 0.1 && port-killer menu"@))) {
        assert(!contains(s5, p)) by {
            if contains(s5, p) {
                lemma_exec_setting(b, p);
            }
        }
        lemma_exec_if_setting(b, p);
        assert(!contains(s7, p)) by {
            if contains(s7, p) {
                lemma_on_click_setting(b, p);
            }
        }
        assert((!l1.contains('x') && !l1.contains('&')) && !l2.contains('p') && (!l3.contains('x')
            && !l3.contains('&')) && (!l4.contains('x') && !l4.contains('&')) && (!l8.contains('x')
            && !l8.contains('&')) && (!l9.contains('x') && !l9.contains('&')) && (!l10.contains(
            'x',
        ) && !l10.contains('&'))) by {
            reveal_strlit("    \"custom/port-killer\": {");
            reveal_strlit("        \"format\": \"{text}\"");
            reveal_strlit("        \"return-type\": \"json\"");
            reveal_strlit("        \"interval\": 5");
            reveal_strlit("        \"signal\": 9");
            reveal_strlit("        \"tooltip\": true");
            reveal_strlit("    }");
        }
        lemma_plain_absent(l1, p);
        lemma_plain_absent(l2, p);
        lemma_plain_absent(l3, p);
        lemma_plain_absent(l4, p);
        lemma_plain_absent(l8, p);
        lemma_plain_absent(l9, p);
        lemma_plain_absent(l10, p);
        lemma_join_absent(l9, nl, l10, p);
        lemma_join_absent(l8, cn, l9 + nl + l10, p);
        lemma_join_absent(s7, cn, tail, p);
        lemma_join_absent(s6, cn, s7 + cn + tail, p);
        lemma_join_absent(s5, cn, s6 + cn + (s7 + cn + tail), p);
        lemma_join_absent(l4, cn, rest, p);
        lemma_join_absent(l3, cn, l4 + cn + rest, p);
        lemma_join_absent(l2, cn, l3 + cn + (l4 + cn + rest), p);
        lemma_join_absent(l1, nl, l2 + cn + (l3 + cn + (l4 + cn + rest)), p);
    }
}

/// Listing the module under a key adds no older command.
proof fn lemma_name_keeps(config: Seq<char>, key: Seq<char>, p: Seq<char>)
    requires
        legacy_command(p),
        !contains(config, p),
    ensures
        !contains(with_name_text(config, key), p),
{
    let needle = "\""@ + key + "\""@;
    lemma_find_facts(config, needle);
    if let Some(kp) = find(config, needle) {
        lemma_find_facts(config.skip(kp), "["@);
        if let Some(off) = find(config.skip(kp), "["@) {
            let ip = kp + off + 1;
            if !contains(config.skip(ip), "custom/port-killer"@) {
                let m = "        \"custom/port-killer\""@;
                let nl = seq!['\n'];
                let c = seq![','];
                assert("\n        \"custom/port-killer\","@ =~= nl + m + c) by {
                    reveal_strlit("\n        \"custom/port-killer\",");
                    reveal_strlit("        \"custom/port-killer\"");
                }
                assert(!m.contains('x') && !m.contains('&')) by {
                    reveal_strlit("        \"custom/port-killer\"");
                }
                assert("["@.len() == 1) by {
                    reveal_strlit("[");
                }
                let pre = config.take(ip);
                let post = config.skip(ip);
                lemma_absent_sub(config, p, 0, ip);
                lemma_absent_sub(config, p, ip, config.len() as int);
                assert(config.subrange(0, ip) =~= pre);
                assert(config.subrange(ip, config.len() as int) =~= post);
                lemma_plain_absent(m, p);
                lemma_join_absent(m, c, post, p);
                lemma_join_absent(pre, nl, m + c + post, p);
                assert(pre + "\n        \"custom/port-killer\","@ + post =~= pre + nl + (m + c + post));
            }
        }
    }
}

/// Adding the module definition to a text without an older command, when
/// the definition holds none, adds none.
proof fn lemma_definition_keeps(listed: Seq<char>, module: Seq<char>, p: Seq<char>)
    requires
        legacy_command(p),
        !contains(listed, p),
        !contains(module, p),
    ensures
        !contains(with_definition_text(listed, module), p),
{
    let nl = seq!['\n'];
    let cn = seq![',', '\n'];
    let e = Seq::<char>::empty();
    lemma_strip_end_prefix(listed, ws_pred());
    let t = trim_end(listed);
    lemma_absent_sub(listed, p, 0, t.len() as int);
    assert(listed.subrange(0, t.len() as int) =~= t);
    assert(!contains(e, p)) by {
        lemma_plain_absent(e, p);
    }
    lemma_rfind_char_facts(t, '}');
    match rfind_char(t, '}') {
        None => {
            let r = "    \"modules-right\": [\"custom/port-killer\"]"@;
            assert(default_config_text(module) =~= "{"@ + nl + (module + cn + (r + nl + ("}"@ + nl
                + e)))) by {
                reveal_strlit("{\n");
                reveal_strlit(",\n    \"modules-right\": [\"custom/port-killer\"]\n}\n");
                reveal_strlit("    \"modules-right\": [\"custom/port-killer\"]");
                reveal_strlit("{");
                reveal_strlit("}");
            }
            assert(!r.contains('x') && !r.contains('&') && !"{"@.contains('x') && !"{"@.contains(
                '&',
            ) && !"}"@.contains('x') && !"}"@.contains('&')) by {
                reveal_strlit("    \"modules-right\": [\"custom/port-killer\"]");
                reveal_strlit("{");
                reveal_strlit("}");
            }
            lemma_plain_absent(r, p);
            lemma_plain_absent("{"@, p);
            lemma_plain_absent("}"@, p);
            lemma_join_absent("}"@, nl, e, p);
            lemma_join_absent(r, nl, "}"@ + nl + e, p);
            lemma_join_absent(module, cn, r + nl + ("}"@ + nl + e), p);
            lemma_join_absent("{"@, nl, module + cn + (r + nl + ("}"@ + nl + e)), p);
        },
        Some(pos) => {
            lemma_strip_end_prefix(t.take(pos), ws_pred());
            let before = trim_end(t.take(pos));
            lemma_absent_sub(t, p, 0, before.len() as int);
            assert(t.subrange(0, before.len() as int) =~= before);
            let rest = t.skip(pos);
            lemma_absent_sub(t, p, pos, t.len() as int);
            assert(t.subrange(pos, t.len() as int) =~= rest);
            lemma_join_absent(module, nl, rest, p);
            assert("\n"@ =~= nl) by {
                reveal_strlit("\n");
            }
            assert(","@ =~= seq![',']) by {
                reveal_strlit(",");
            }
            if !ends_with(before, "{"@) && !ends_with(before, ","@) {
                lemma_join_absent(before, cn, module + nl + rest, p);
                assert(before + ","@ + "\n"@ + module + "\n"@ + rest =~= before + cn + (module + nl
                    + rest));
            } else {
                lemma_join_absent(before, nl, module + nl + rest, p);
                assert(before + e + "\n"@ + module + "\n"@ + rest =~= before + nl + (module + nl
                    + rest));
            }
        },
    }
}

/// The text a patch writes into a configuration without the module holds
/// an older command only where the module definition does.
proof fn lemma_written_keeps(existing: Option<Seq<char>>, b: Seq<char>, p: Seq<char>)
    requires
        !b.contains('"'),
        legacy_command(p),
        match existing {
            Some(c) => !contains(c, p) && !contains(c, "custom/port-killer"@),
            None => true,
        },
    ensures
        contains(patched_text(existing, b), p) ==> b == "port-killer"@ && (p == quoted3(
            "exec"@,
            ": "@,
            "port-killer list"@,
        ) || p == quoted3("on-click"@, ": "@, "sleep 0.1 && port-killer menu"@)),
{
    let module = module_text(b);
    lemma_module_legacy(b, p);
    if !contains(module, p) {
        match existing {
            None => {
                let e = Seq::<char>::empty();
                lemma_rfind_char_facts(e, '}');
                assert(trim_end(e) == e);
                assert(with_definition_text(e, module) == default_config_text(module));
                lemma_plain_absent(e, p);
                lemma_definition_keeps(e, module, p);
            },
            Some(c) => {
                let right = with_name_text(c, "modules-right"@);
                lemma_name_keeps(c, "modules-right"@, p);
                lemma_name_keeps(right, "modules-left"@, p);
                let listed = if contains(right, "\"custom/port-killer\""@) {
                    right
                } else {
                    with_name_text(right, "modules-left"@)
                };
                lemma_definition_keeps(listed, module, p);
            },
        }
    }
}

/// One step of pointing the module's commands at the binary changes
/// nothing when the older command is absent or already reads as its
/// replacement.
proof fn lemma_step_unchanged(s: Seq<char>, p: Seq<char>, t: Seq<char>)
    requires
        !contains(s, p) || p == t,
    ensures
        replace_all(s, p, t) == s,
{
    if !contains(s, p) {
        lemma_replace_absent(s, p, t);
    } else {
        lemma_replace_same(s, p);
    }
}

/// Patching settles the Waybar configuration. For a binary whose path has
/// no double quote, and a configuration that was missing or holds none of
/// the older commands, the text one patch leaves names the module and a
/// second patch finds nothing to change in it: `plan_config_patch` then
/// plans no write, and the text stays as it is.
pub proof fn lemma_patch_settles(existing: Option<Seq<char>>, binary: Seq<char>)
    requires
        !binary.contains('"'),
        match existing {
            Some(c) => legacy_free(c),
            None => true,
        },
    ensures
        contains(patched_text(existing, binary), "custom/port-killer"@),
        updated_paths_text(patched_text(existing, binary), binary) == patched_text(existing, binary),
        patched_text(Some(patched_text(existing, binary)), binary) == patched_text(existing, binary),
{
    let w = patched_text(existing, binary);
    let marker = "custom/port-killer"@;
    let p1 = "\"exec\": \"port-killer list\""@;
    let p2 = "\"exec-if\": \"command -v port-killer\""@;
    let p3 = "\"on-click\": \"sleep 0.1 && port-killer menu\""@;
    let p4 = "\"on-click\": \"sleep 0.1 && port-killer menu --gui\""@;
    let r1 = "\"exec\": \""@ + binary + " list\""@;
    let r2 = "\"exec-if\": \"test -x "@ + binary + "\""@;
    let r3 = "\"on-click\": \"sleep 0.1 && "@ + binary + " menu\""@;
    let configured = match existing {
        Some(c) => contains(c, marker),
        None => false,
    };
    if configured {
        lemma_configured_unchanged(existing.unwrap(), binary);
    } else {
        lemma_written_config_names_module(existing, binary);
        lemma_legacy_literals();
        assert(p1 != p2 && p1 != p3 && p1 != p4 && p2 != p3 && p2 != p4 && p3 != p4) by {
            reveal_strlit("\"exec\": \"port-killer list\"");
            reveal_strlit("\"exec-if\": \"command -v port-killer\"");
            reveal_strlit("\"on-click\": \"sleep 0.1 && port-killer menu\"");
            reveal_strlit("\"on-click\": \"sleep 0.1 && port-killer menu --gui\"");
            assert(p1.len() == 26 && p2.len() == 35 && p3.len() == 43 && p4.len() == 49);
        }
        lemma_written_keeps(existing, binary, p1);
        lemma_written_keeps(existing, binary, p2);
        lemma_written_keeps(existing, binary, p3);
        lemma_written_keeps(existing, binary, p4);
        if binary == "port-killer"@ {
            assert(r1 =~= p1 && r3 =~= p3) by {
                reveal_strlit("port-killer");
                reveal_strlit("\"exec\": \"");
                reveal_strlit(" list\"");
                reveal_strlit("\"on-click\": \"sleep 0.1 && ");
                reveal_strlit(" menu\"");
                reveal_strlit("\"exec\": \"port-killer list\"");
                reveal_strlit("\"on-click\": \"sleep 0.1 && port-killer menu\"");
            }
        }
        lemma_step_unchanged(w, p1, r1);
        lemma_step_unchanged(w, p2, r2);
        lemma_step_unchanged(w, p3, r3);
        lemma_step_unchanged(w, p4, r3);
        assert(updated_paths_text(w, binary) == w);
    }
}

} // verus!
