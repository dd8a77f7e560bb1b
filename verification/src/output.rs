//! The JSON the panels read, and the choice of a kill target by index.
use vstd::prelude::*;
use std::collections::HashSet;
use crate::display::{panel_detail_text, panel_label_text};
use crate::group::KillTarget;
use crate::listener::{tooltip_text, Listener};
use crate::text::{
    char_is_control, chars_of, dec, is_control, join, push_chars, push_dec, push_join, push_str,
    string_of, views,
};

verus! {

/// The lowercase hexadecimal digit of `d` (below 16).
pub open spec fn hex_char(d: nat) -> char {
    if d < 10 {
        ((d + 48) as u32) as char
    } else {
        ((d + 87) as u32) as char
    }
}

/// `n` (below `0x10000`) as four lowercase hexadecimal digits
/// (`format!("{:04x}", n)`).
pub open spec fn hex4(n: nat) -> Seq<char> {
    seq![hex_char((n / 4096) % 16), hex_char((n / 256) % 16), hex_char((n / 16) % 16), hex_char(n % 16)]
}

/// `c` as it stands inside a JSON string.
pub open spec fn escape_char(c: char) -> Seq<char> {
    if c == '"' {
        seq!['\\', '"']
    } else if c == '\\' {
        seq!['\\', '\\']
    } else if c == '\n' {
        seq!['\\', 'n']
    } else if c == '\r' {
        seq!['\\', 'r']
    } else if c == '\t' {
        seq!['\\', 't']
    } else if is_control(c) {
        seq!['\\', 'u'] + hex4(c as nat)
    } else {
        seq![c]
    }
}

/// `s` with each character escaped for a JSON string.
pub open spec fn escaped(s: Seq<char>) -> Seq<char>
    decreases s.len(),
{
    if s.len() == 0 {
        seq![]
    } else {
        escaped(s.drop_last()) + escape_char(s.last())
    }
}

fn hex_digit(d: u32) -> (c: char)
    requires
        d < 16,
    ensures
        c == hex_char(d as nat),
{
    if d < 10 {
        let b: u8 = (48 + d) as u8;
        b as char
    } else {
        let b: u8 = (87 + d) as u8;
        b as char
    }
}

/// Appends `c` escaped for a JSON string.
fn push_escaped(out: &mut Vec<char>, c: char)
    ensures
        final(out)@ == old(out)@ + escape_char(c),
{
    let ghost start = out@;
    if c == '"' {
        out.push('\\');
        out.push('"');
    } else if c == '\\' {
        out.push('\\');
        out.push('\\');
    } else if c == '\n' {
        out.push('\\');
        out.push('n');
    } else if c == '\r' {
        out.push('\\');
        out.push('r');
    } else if c == '\t' {
        out.push('\\');
        out.push('t');
    } else if char_is_control(c) {
        let u = c as u32;
        out.push('\\');
        out.push('u');
        out.push(hex_digit((u / 4096) % 16));
        out.push(hex_digit((u / 256) % 16));
        out.push(hex_digit((u / 16) % 16));
        out.push(hex_digit(u % 16));
    } else {
        out.push(c);
    }
    assert(out@ =~= start + escape_char(c));
}

/// Appends `v` escaped for a JSON string.
fn push_escaped_all(out: &mut Vec<char>, v: &Vec<char>)
    ensures
        final(out)@ == old(out)@ + escaped(v@),
{
    let ghost start = out@;
    let mut i: usize = 0;
    while i < v.len()
        invariant
            i <= v.len(),
            out@ == start + escaped(v@.take(i as int)),
        decreases v.len() - i,
    {
        push_escaped(out, v[i]);
        proof {
            let t = v@.take(i + 1);
            assert(t.drop_last() =~= v@.take(i as int));
            assert(t.last() == v@[i as int]);
        }
        i = i + 1;
    }
    assert(v@.take(v.len() as int) =~= v@);
}

/// `value` escaped for use inside a JSON string.
pub fn json_escape(value: &str) -> (r: String)
    ensures
        r@ == escaped(value@),
{
    let v = chars_of(value);
    let mut out: Vec<char> = Vec::new();
    push_escaped_all(&mut out, &v);
    string_of(&out)
}

/// The text, tooltip and class the Waybar module shows for `ls`.
pub open spec fn waybar_fields(ls: Seq<Listener>) -> (Seq<char>, Seq<char>, Seq<char>) {
    if ls.len() == 0 {
        ("0"@, "No dev servers"@, "idle"@)
    } else {
        (dec(ls.len()), join(ls.map_values(|l: Listener| tooltip_text(l)), "\n"@), "active"@)
    }
}

/// `{"text":…,"tooltip":…,"class":…}` for the Waybar module.
pub open spec fn waybar_text(ls: Seq<Listener>) -> Seq<char> {
    let (text, tooltip, class) = waybar_fields(ls);
    "{\"text\":\""@ + escaped(text) + "\",\"tooltip\":\""@ + escaped(tooltip) + "\",\"class\":\""@
        + escaped(class) + "\"}"@
}

/// The Waybar module's JSON for the listeners: their number, one tooltip line
/// each, and the class `active`; or `0`, `No dev servers` and `idle`.
pub fn waybar_json(listeners: &[Listener]) -> (r: String)
    ensures
        r@ == waybar_text(listeners@),
{
    let mut text: Vec<char> = Vec::new();
    let mut tooltip: Vec<char> = Vec::new();
    let mut class: Vec<char> = Vec::new();
    if listeners.len() == 0 {
        push_str(&mut text, "0");
        push_str(&mut tooltip, "No dev servers");
        push_str(&mut class, "idle");
    } else {
        push_dec(&mut text, listeners.len() as u64);
        let mut lines: Vec<Vec<char>> = Vec::new();
        let mut i: usize = 0;
        while i < listeners.len()
            invariant
                i <= listeners.len(),
                views(lines@) == listeners@.take(i as int).map_values(|l: Listener| tooltip_text(l)),
            decreases listeners.len() - i,
        {
            let line = listeners[i].tooltip_line();
            let lc = chars_of(line.as_str());
            let ghost before = views(lines@);
            lines.push(lc);
            proof {
                assert(views(lines@) =~= before.push(tooltip_text(listeners@[i as int])));
                assert(listeners@.take(i + 1) =~= listeners@.take(i as int).push(listeners@[i as int]));
                assert(listeners@.take(i + 1).map_values(|l: Listener| tooltip_text(l)) =~= listeners@.take(
                    i as int,
                ).map_values(|l: Listener| tooltip_text(l)).push(tooltip_text(listeners@[i as int])));
            }
            i = i + 1;
        }
        assert(listeners@.take(listeners.len() as int) =~= listeners@);
        push_join(&mut tooltip, &lines, "\n");
        push_str(&mut class, "active");
    }
    let mut out: Vec<char> = Vec::new();
    push_str(&mut out, "{\"text\":\"");
    push_escaped_all(&mut out, &text);
    push_str(&mut out, "\",\"tooltip\":\"");
    push_escaped_all(&mut out, &tooltip);
    push_str(&mut out, "\",\"class\":\"");
    push_escaped_all(&mut out, &class);
    push_str(&mut out, "\"}");
    string_of(&out)
}

/// `{"index":i,"label":…,"detail":…}` for the target `t` at `i`.
pub open spec fn target_item(i: int, t: KillTarget) -> Seq<char> {
    "{\"index\":"@ + dec(i as nat) + ",\"label\":\""@ + escaped(panel_label_text(t@))
        + "\",\"detail\":\""@ + escaped(panel_detail_text(t@)) + "\"}"@
}

/// `{"count":n,"targets":[…]}` for the targets `ts`.
pub open spec fn targets_text(ts: Seq<KillTarget>) -> Seq<char> {
    "{\"count\":"@ + dec(ts.len()) + ",\"targets\":["@ + join(
        Seq::new(ts.len(), |i: int| target_item(i, ts[i])),
        ","@,
    ) + "]}"@
}

/// The panels' JSON for the kill targets: their number and, for each, its
/// index, menu title and subtitle.
pub fn targets_json(targets: &[KillTarget]) -> (r: String)
    ensures
        r@ == targets_text(targets@),
{
    let ghost items_spec = Seq::new(targets@.len(), |i: int| target_item(i, targets@[i]));
    let mut items: Vec<Vec<char>> = Vec::new();
    let mut i: usize = 0;
    while i < targets.len()
        invariant
            i <= targets.len(),
            items_spec == Seq::new(targets@.len(), |i: int| target_item(i, targets@[i])),
            views(items@) == items_spec.take(i as int),
        decreases targets.len() - i,
    {
        let mut item: Vec<char> = Vec::new();
        push_str(&mut item, "{\"index\":");
        push_dec(&mut item, i as u64);
        push_str(&mut item, ",\"label\":\"");
        let label = targets[i].panel_label();
        let lc = chars_of(label.as_str());
        push_escaped_all(&mut item, &lc);
        push_str(&mut item, "\",\"detail\":\"");
        let detail = targets[i].panel_detail();
        let dc = chars_of(detail.as_str());
        push_escaped_all(&mut item, &dc);
        push_str(&mut item, "\"}");
        let ghost before = views(items@);
        items.push(item);
        proof {
            assert(item@ == target_item(i as int, targets@[i as int]));
            assert(views(items@) =~= before.push(item@));
            assert(items_spec.take(i + 1) =~= items_spec.take(i as int).push(items_spec[i as int]));
        }
        i = i + 1;
    }
    assert(items_spec.take(targets.len() as int) =~= items_spec);
    let mut out: Vec<char> = Vec::new();
    push_str(&mut out, "{\"count\":");
    push_dec(&mut out, targets.len() as u64);
    push_str(&mut out, ",\"targets\":[");
    push_join(&mut out, &items, ",");
    push_str(&mut out, "]}");
    string_of(&out)
}

/// The pids to stop for the target at `index`, or the message that there
/// is none.
pub fn kill_group_pids(targets: &[KillTarget], index: usize) -> (r: Result<HashSet<u32>, String>)
    ensures
        index < targets@.len() ==> (r matches Ok(p) && p@ == targets@[index as int]@.all_pid_set()),
        index >= targets@.len() ==> (r matches Err(m) && m@ == "no kill target at index "@ + dec(
            index as nat,
        )),
{
    if index < targets.len() {
        Ok(targets[index].all_pids())
    } else {
        let mut out: Vec<char> = Vec::new();
        push_str(&mut out, "no kill target at index ");
        push_dec(&mut out, index as u64);
        Err(string_of(&out))
    }
}

proof fn lemma_escape_char_plain(c: char)
    ensures
        forall|i: int| 0 <= i < escape_char(c).len() ==> !is_control(#[trigger] escape_char(c)[i]),
{
    if is_control(c) && c != '\n' && c != '\r' && c != '\t' {
        let n = c as nat;
        let e = escape_char(c);
        assert forall|i: int| 0 <= i < e.len() implies !is_control(#[trigger] e[i]) by {
            if i >= 2 {
                let d: nat = if i == 2 {
                    (n / 4096) % 16
                } else if i == 3 {
                    (n / 256) % 16
                } else if i == 4 {
                    (n / 16) % 16
                } else {
                    n % 16
                };
                assert(e[i] == hex_char(d));
            }
        }
    }
}

/// Escaped text holds no control characters: no raw line break or tab
/// can end up inside the JSON string.
pub proof fn lemma_escaped_has_no_control(s: Seq<char>)
    ensures
        forall|i: int| 0 <= i < escaped(s).len() ==> !is_control(#[trigger] escaped(s)[i]),
    decreases s.len(),
{
    if s.len() > 0 {
        lemma_escaped_has_no_control(s.drop_last());
        lemma_escape_char_plain(s.last());
        let a = escaped(s.drop_last());
        let b = escape_char(s.last());
        assert forall|i: int| 0 <= i < escaped(s).len() implies !is_control(#[trigger] escaped(s)[i]) by {
            if i < a.len() {
                assert(escaped(s)[i] == a[i]);
            } else {
                assert(escaped(s)[i] == b[i - a.len()]);
            }
        }
    }
}

/// The value of a hexadecimal digit (either case).
pub open spec fn hex_val(c: char) -> Option<nat> {
    if '0' <= c && c <= '9' {
        Some((c as nat - 48) as nat)
    } else if 'a' <= c && c <= 'f' {
        Some((c as nat - 87) as nat)
    } else if 'A' <= c && c <= 'F' {
        Some((c as nat - 55) as nat)
    } else {
        None
    }
}

/// The value of four hexadecimal digits.
pub open spec fn hex4_val(s: Seq<char>) -> Option<nat> {
    if s.len() != 4 {
        None
    } else {
        match (hex_val(s[0]), hex_val(s[1]), hex_val(s[2]), hex_val(s[3])) {
            (Some(a), Some(b), Some(c), Some(d)) => Some(((a * 16 + b) * 16 + c) * 16 + d),
            _ => None,
        }
    }
}

/// The character a one-letter JSON escape `\e` stands for.
pub open spec fn simple_escape(e: char) -> Option<char> {
    if e == '"' {
        Some('"')
    } else if e == '\\' {
        Some('\\')
    } else if e == '/' {
        Some('/')
    } else if e == 'b' {
        Some('\u{8}')
    } else if e == 'f' {
        Some('\u{c}')
    } else if e == 'n' {
        Some('\n')
    } else if e == 'r' {
        Some('\r')
    } else if e == 't' {
        Some('\t')
    } else {
        None
    }
}

/// The text the contents `s` of a JSON string stand for (RFC 8259): `None`
/// when they are not valid contents — a raw `"` or control character below
/// U+0020, an unknown escape, or a lone surrogate.
pub open spec fn json_unescape(s: Seq<char>) -> Option<Seq<char>>
    decreases s.len(),
{
    if s.len() == 0 {
        Some(seq![])
    } else if s[0] == '"' || (s[0] as u32) < 0x20 {
        None
    } else if s[0] != '\\' {
        match json_unescape(s.drop_first()) {
            Some(r) => Some(seq![s[0]] + r),
            None => None,
        }
    } else if s.len() < 2 {
        None
    } else if simple_escape(s[1]) is Some {
        match json_unescape(s.skip(2)) {
            Some(r) => Some(seq![simple_escape(s[1])->0] + r),
            None => None,
        }
    } else if s[1] != 'u' || s.len() < 6 {
        None
    } else {
        match hex4_val(s.subrange(2, 6)) {
            None => None,
            Some(v) => if 0xD800 <= v < 0xDC00 {
                let low = if s.len() >= 12 && s[6] == '\\' && s[7] == 'u' {
                    hex4_val(s.subrange(8, 12))
                } else {
                    None
                };
                match low {
                    Some(w) => if 0xDC00 <= w < 0xE000 {
                        match json_unescape(s.skip(12)) {
                            Some(r) => Some(
                                seq![((0x10000 + (v - 0xD800) * 1024 + (w - 0xDC00)) as u32) as char] + r,
                            ),
                            None => None,
                        }
                    } else {
                        None
                    },
                    None => None,
                }
            } else if 0xDC00 <= v < 0xE000 {
                None
            } else {
                match json_unescape(s.skip(6)) {
                    Some(r) => Some(seq![(v as u32) as char] + r),
                    None => None,
                }
            },
        }
    }
}

proof fn lemma_escaped_cons(c: char, t: Seq<char>)
    ensures
        escaped(seq![c] + t) == escape_char(c) + escaped(t),
    decreases t.len(),
{
    let u = seq![c] + t;
    assert(u.len() > 0);
    assert(escaped(u) == escaped(u.drop_last()) + escape_char(u.last()));
    if t.len() == 0 {
        assert(u.drop_last() =~= Seq::<char>::empty());
        assert(escaped(u.drop_last()) =~= Seq::<char>::empty());
        assert(u.last() == c);
        assert(escaped(u) =~= escape_char(c));
        assert(escaped(t) =~= Seq::<char>::empty());
        assert(escape_char(c) + escaped(t) =~= escape_char(c));
    } else {
        lemma_escaped_cons(c, t.drop_last());
        assert(u.drop_last() =~= seq![c] + t.drop_last());
        assert(u.last() == t.last());
        assert(escaped(t) == escaped(t.drop_last()) + escape_char(t.last()));
        assert(escape_char(c) + escaped(t.drop_last()) + escape_char(t.last()) =~= escape_char(c) + (
        escaped(t.drop_last()) + escape_char(t.last())));
    }
}

proof fn lemma_hex_digit(d: nat)
    requires
        d < 16,
    ensures
        hex_val(hex_char(d)) == Some(d),
{
}

proof fn lemma_decode_escape(c: char, rest: Seq<char>)
    ensures
        json_unescape(escape_char(c) + rest) == match json_unescape(rest) {
            Some(r) => Some(seq![c] + r),
            None => None::<Seq<char>>,
        },
{
    let s = escape_char(c) + rest;
    if c == '"' || c == '\\' || c == '\n' || c == '\r' || c == '\t' {
        assert(s[0] == '\\');
        assert(s.skip(2) =~= rest);
    } else if is_control(c) {
        let n = c as nat;
        assert(n < 0xA0);
        let h = hex4(n);
        assert(s[0] == '\\' && s[1] == 'u');
        assert(s.subrange(2, 6) =~= h);
        assert(s.skip(6) =~= rest);
        assert((n / 4096) % 16 == 0 && (n / 256) % 16 == 0);
        lemma_hex_digit((n / 16) % 16);
        lemma_hex_digit(n % 16);
        lemma_hex_digit(0);
        assert(((0 * 16 + 0) * 16 + (n / 16) % 16) * 16 + n % 16 == n) by (nonlinear_arith)
            requires
                n < 0xA0,
        ;
        assert(hex4_val(h) == Some(n));
        assert(((n as u32) as char) == c);
        assert(simple_escape('u') is None);
    } else {
        assert(s[0] == c);
        assert(s.drop_first() =~= rest);
    }
}

/// Escaping loses nothing: read back as the contents of a JSON string, the
/// escaped text is the original text.
pub proof fn lemma_escape_round_trip(s: Seq<char>)
    ensures
        json_unescape(escaped(s)) == Some(s),
    decreases s.len(),
{
    if s.len() == 0 {
        assert(escaped(s) =~= Seq::<char>::empty());
    } else {
        let t = s.drop_first();
        lemma_escape_round_trip(t);
        assert(seq![s[0]] + t =~= s);
        lemma_escaped_cons(s[0], t);
        lemma_decode_escape(s[0], escaped(t));
    }
}

/// The Waybar module shows how many listeners there are, in decimal; its
/// class is `idle` exactly when there are none and `active` otherwise; and
/// with at least one listener its tooltip holds one line per listener, in
/// the listing's order.
pub proof fn lemma_waybar_counts(ls: Seq<Listener>)
    ensures
        waybar_fields(ls).0 == dec(ls.len()),
        (waybar_fields(ls).2 == "idle"@) == (ls.len() == 0),
        ls.len() > 0 ==> waybar_fields(ls).2 == "active"@,
        ls.len() > 0 ==> waybar_fields(ls).1 == join(
            Seq::new(ls.len(), |i: int| tooltip_text(ls[i])),
            "\n"@,
        ),
{
    reveal_strlit("0");
    reveal_strlit("idle");
    reveal_strlit("active");
    assert(dec(0) =~= "0"@);
    assert("idle"@ != "active"@) by {
        assert("idle"@.len() != "active"@.len());
    }
    if ls.len() > 0 {
        assert(ls.map_values(|l: Listener| tooltip_text(l)) =~= Seq::new(
            ls.len(),
            |i: int| tooltip_text(ls[i]),
        ));
    }
}

} // verus!
