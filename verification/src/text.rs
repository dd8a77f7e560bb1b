//! Character-sequence helpers: the string operations the rest of the
//! library is built from, each stated over `Seq<char>`.
use vstd::prelude::*;
use vstd::std_specs::iter::IteratorSpec;

verus! {

// ---------------------------------------------------------------------
// Characters
// ---------------------------------------------------------------------

/// Unicode `White_Space`: what `char::is_whitespace`, `str::trim` and
/// `str::split_whitespace` treat as blank.
pub open spec fn is_ws(c: char) -> bool {
    let u = c as u32;
    (9 <= u && u <= 13) || u == 32 || u == 0x85 || u == 0xA0 || u == 0x1680 || (0x2000 <= u
        && u <= 0x200A) || u == 0x2028 || u == 0x2029 || u == 0x202F || u == 0x205F || u == 0x3000
}

/// Unicode general category `Cc` (what `char::is_control` accepts).
pub open spec fn is_control(c: char) -> bool {
    let u = c as u32;
    u <= 0x1F || (0x7F <= u && u <= 0x9F)
}

/// An ASCII decimal digit.
pub open spec fn is_digit(c: char) -> bool {
    '0' <= c && c <= '9'
}

/// Whether `c` is white space (`char::is_whitespace`).
pub fn char_is_ws(c: char) -> (r: bool)
    ensures
        r == is_ws(c),
{
    let u = c as u32;
    (9 <= u && u <= 13) || u == 32 || u == 0x85 || u == 0xA0 || u == 0x1680 || (0x2000 <= u
        && u <= 0x200A) || u == 0x2028 || u == 0x2029 || u == 0x202F || u == 0x205F || u == 0x3000
}

/// Whether `c` is a control character (`char::is_control`).
pub fn char_is_control(c: char) -> (r: bool)
    ensures
        r == is_control(c),
{
    let u = c as u32;
    u <= 0x1F || (0x7F <= u && u <= 0x9F)
}

// ---------------------------------------------------------------------
// Decimal numbers
// ---------------------------------------------------------------------

/// The decimal digit character for `d` (below 10).
pub open spec fn digit_char(d: nat) -> char {
    ((d + 48) as u32) as char
}

/// Decimal spelling of `n`, as `format!("{}", n)` writes it.
pub open spec fn dec(n: nat) -> Seq<char>
    decreases n,
{
    if n < 10 {
        seq![digit_char(n)]
    } else {
        dec(n / 10).push(digit_char(n % 10))
    }
}

/// Value of a string of decimal digits.
pub open spec fn digits_val(s: Seq<char>) -> nat
    decreases s.len(),
{
    if s.len() == 0 {
        0
    } else {
        digits_val(s.drop_last()) * 10 + ((s.last() as u32) - 48) as nat
    }
}

/// Every character of `s` is a decimal digit.
pub open spec fn all_digits(s: Seq<char>) -> bool {
    forall|i: int| 0 <= i < s.len() ==> is_digit(#[trigger] s[i])
}

/// What `str::parse` gives for an unsigned integer type whose largest value
/// is `max`: an optional `+`, then at least one decimal digit, and a value
/// that fits.
pub open spec fn parse_unsigned(s: Seq<char>, max: nat) -> Option<nat> {
    let d = if s.len() > 0 && s[0] == '+' {
        s.drop_first()
    } else {
        s
    };
    if d.len() == 0 || !all_digits(d) || digits_val(d) > max {
        None
    } else {
        Some(digits_val(d))
    }
}

fn digit_to_char(d: u64) -> (c: char)
    requires
        d < 10,
    ensures
        c == digit_char(d as nat),
{
    let b: u8 = (48 + d) as u8;
    b as char
}

/// Appends the decimal spelling of `n`.
pub fn push_dec(out: &mut Vec<char>, n: u64)
    ensures
        final(out)@ == old(out)@ + dec(n as nat),
    decreases n,
{
    if n >= 10 {
        push_dec(out, n / 10);
    }
    out.push(digit_to_char(n % 10));
}

/// `n` in decimal, with a minus sign when negative.
pub open spec fn int_text(n: int) -> Seq<char> {
    if n < 0 {
        "-"@ + dec((-n) as nat)
    } else {
        dec(n as nat)
    }
}

/// Appends `n` in decimal.
pub fn push_int(out: &mut Vec<char>, n: i32)
    ensures
        final(out)@ == old(out)@ + int_text(n as int),
{
    if n < 0 {
        push_str(out, "-");
        let m: i64 = -(n as i64);
        push_dec(out, m as u64);
    } else {
        push_dec(out, n as u64);
    }
}

proof fn lemma_digits_val_push(s: Seq<char>, c: char)
    ensures
        digits_val(s.push(c)) == digits_val(s) * 10 + ((c as u32) - 48) as nat,
{
    assert(s.push(c).drop_last() =~= s);
}

/// `str::parse` for an unsigned type with largest value `max`, on the
/// characters `s[start..end]`.
pub fn parse_unsigned_range(s: &Vec<char>, start: usize, end: usize, max: u64) -> (r: Option<u64>)
    requires
        start <= end <= s.len(),
    ensures
        r matches Some(v) ==> parse_unsigned(s@.subrange(start as int, end as int), max as nat)
            == Some(v as nat),
        r is None ==> parse_unsigned(s@.subrange(start as int, end as int), max as nat) is None,
{
    let ghost whole = s@.subrange(start as int, end as int);
    let mut i = start;
    if i < end && s[i] == '+' {
        i = i + 1;
    }
    let ghost d = s@.subrange(i as int, end as int);
    assert(d =~= (if whole.len() > 0 && whole[0] == '+' {
        whole.drop_first()
    } else {
        whole
    }));
    if i == end {
        return None;
    }
    let first = i;
    let mut val: u64 = 0;
    let mut over = false;
    while i < end
        invariant
            first <= i <= end <= s.len(),
            d == s@.subrange(first as int, end as int),
            d.len() > 0,
            whole == s@.subrange(start as int, end as int),
            d == (if whole.len() > 0 && whole[0] == '+' {
                whole.drop_first()
            } else {
                whole
            }),
            all_digits(s@.subrange(first as int, i as int)),
            !over ==> val as nat == digits_val(s@.subrange(first as int, i as int)) && val <= max,
            over ==> digits_val(s@.subrange(first as int, i as int)) > max,
        decreases end - i,
    {
        let c = s[i];
        if !('0' <= c && c <= '9') {
            assert(d[i - first] == c);
            return None;
        }
        let dv = (c as u32 - 48) as u64;
        proof {
            assert(s@.subrange(first as int, i + 1) =~= s@.subrange(first as int, i as int).push(c));
            lemma_digits_val_push(s@.subrange(first as int, i as int), c);
        }
        if !over {
            if dv > max || val > (max - dv) / 10 {
                over = true;
                assert(val * 10 + dv > max) by (nonlinear_arith)
                    requires dv > max || val > (max - dv) / 10, dv <= 9;
            } else {
                assert(val * 10 + dv <= max) by (nonlinear_arith)
                    requires val <= (max - dv) / 10, dv <= max;
                val = val * 10 + dv;
            }
        } else {
            assert(digits_val(s@.subrange(first as int, i + 1)) >= digits_val(
                s@.subrange(first as int, i as int),
            ));
        }
        i = i + 1;
    }
    assert(s@.subrange(first as int, end as int) =~= d);
    if over {
        None
    } else {
        Some(val)
    }
}

// ---------------------------------------------------------------------
// Conversions between `str`, `String` and `Vec<char>`
// ---------------------------------------------------------------------

/// The characters of `s`.
pub fn chars_of(s: &str) -> (v: Vec<char>)
    ensures
        v@ == s@,
{
    let mut v: Vec<char> = Vec::new();
    for c in it: s.chars()
        invariant
            v@ == it.seq().take(it.index() as int),
    {
        v.push(c);
    }
    v
}

/// `String::push`: appends one character.
#[verifier::external_body]
fn string_push(s: &mut String, c: char)
    ensures
        final(s)@ == old(s)@.push(c),
{
    s.push(c)
}

/// The string made of the characters `v`.
pub fn string_of(v: &Vec<char>) -> (s: String)
    ensures
        s@ == v@,
{
    let mut s = String::new();
    let mut i: usize = 0;
    while i < v.len()
        invariant
            i <= v.len(),
            s@ == v@.take(i as int),
        decreases v.len() - i,
    {
        string_push(&mut s, v[i]);
        assert(v@.take(i + 1) =~= v@.take(i as int).push(v@[i as int]));
        i = i + 1;
    }
    assert(v@.take(v.len() as int) =~= v@);
    s
}

/// Appends the characters of `s` to `out`.
pub fn push_str(out: &mut Vec<char>, s: &str)
    ensures
        final(out)@ == old(out)@ + s@,
{
    let mut v = chars_of(s);
    out.append(&mut v);
}

/// Appends `v[a..b]` to `out`.
pub fn push_range(out: &mut Vec<char>, v: &Vec<char>, a: usize, b: usize)
    requires
        a <= b <= v.len(),
    ensures
        final(out)@ == old(out)@ + v@.subrange(a as int, b as int),
{
    let ghost start = out@;
    let mut i = a;
    while i < b
        invariant
            a <= i <= b <= v.len(),
            out@ == start + v@.subrange(a as int, i as int),
        decreases b - i,
    {
        out.push(v[i]);
        assert(v@.subrange(a as int, i + 1) =~= v@.subrange(a as int, i as int).push(v@[i as int]));
        i = i + 1;
    }
}

/// Appends all of `v` to `out`.
pub fn push_chars(out: &mut Vec<char>, v: &Vec<char>)
    ensures
        final(out)@ == old(out)@ + v@,
{
    push_range(out, v, 0, v.len());
    assert(v@.subrange(0, v.len() as int) =~= v@);
}

/// A copy of `v[a..b]`.
pub fn copy_range(v: &Vec<char>, a: usize, b: usize) -> (r: Vec<char>)
    requires
        a <= b <= v.len(),
    ensures
        r@ == v@.subrange(a as int, b as int),
{
    let mut r = Vec::new();
    push_range(&mut r, v, a, b);
    assert(r@ =~= v@.subrange(a as int, b as int));
    r
}

/// A copy of the characters `v`.
pub fn copy_chars(v: &Vec<char>) -> (r: Vec<char>)
    ensures
        r@ == v@,
{
    let r = copy_range(v, 0, v.len());
    assert(v@.subrange(0, v.len() as int) =~= v@);
    r
}

// ---------------------------------------------------------------------
// Searching
// ---------------------------------------------------------------------

/// Index of the first `c` in `s`, or `s.len()` when there is none.
pub open spec fn index_of_or_len(s: Seq<char>, c: char) -> nat
    decreases s.len(),
{
    if s.len() == 0 {
        0
    } else if s[0] == c {
        0
    } else {
        1 + index_of_or_len(s.drop_first(), c)
    }
}

/// The first `c` of `s` is at `k` when none comes before it and `k` holds one
/// (or is the end).
pub proof fn lemma_index_of_or_len(s: Seq<char>, c: char, k: int)
    requires
        0 <= k <= s.len(),
        forall|j: int| 0 <= j < k ==> s[j] != c,
        k == s.len() || s[k] == c,
    ensures
        index_of_or_len(s, c) == k,
    decreases s.len(),
{
    if s.len() > 0 && s[0] != c {
        assert forall|j: int| 0 <= j < k - 1 implies s.drop_first()[j] != c by {
            assert(s.drop_first()[j] == s[j + 1]);
        }
        lemma_index_of_or_len(s.drop_first(), c, k - 1);
    }
}

/// The first index at or after `from` holding `c`, or `v.len()`.
pub fn scan_char(v: &Vec<char>, from: usize, c: char) -> (k: usize)
    requires
        from <= v.len(),
    ensures
        from <= k <= v.len(),
        forall|j: int| from <= j < k ==> v@[j] != c,
        k == v.len() || v@[k as int] == c,
        index_of_or_len(v@.skip(from as int), c) == k - from,
{
    let mut k = from;
    while k < v.len() && v[k] != c
        invariant
            from <= k <= v.len(),
            forall|j: int| from <= j < k ==> v@[j] != c,
        decreases v.len() - k,
    {
        k = k + 1;
    }
    proof {
        let t = v@.skip(from as int);
        assert forall|j: int| 0 <= j < k - from implies t[j] != c by {
            assert(t[j] == v@[j + from]);
        }
        lemma_index_of_or_len(t, c, k - from);
    }
    k
}

/// `p` occurs in `s` at position `i`.
pub open spec fn occurs_at(s: Seq<char>, p: Seq<char>, i: int) -> bool {
    0 <= i && i + p.len() <= s.len() && s.subrange(i, i + p.len()) == p
}

/// `s` contains `p` (`str::contains`).
pub open spec fn contains(s: Seq<char>, p: Seq<char>) -> bool {
    exists|i: int| occurs_at(s, p, i)
}

/// `s` begins with `p` (`str::starts_with`).
pub open spec fn starts_with(s: Seq<char>, p: Seq<char>) -> bool {
    occurs_at(s, p, 0)
}

/// `s` ends with `p` (`str::ends_with`).
pub open spec fn ends_with(s: Seq<char>, p: Seq<char>) -> bool {
    p.len() <= s.len() && occurs_at(s, p, s.len() - p.len())
}

/// Whether `p` occurs in `v` at position `i`.
pub fn matches_at(v: &Vec<char>, i: usize, p: &Vec<char>) -> (r: bool)
    ensures
        r == occurs_at(v@, p@, i as int),
{
    if i > v.len() || p.len() > v.len() - i {
        return false;
    }
    let mut j: usize = 0;
    while j < p.len()
        invariant
            i + p.len() <= v.len(),
            j <= p.len(),
            forall|t: int| 0 <= t < j ==> v@[i + t] == p@[t],
        decreases p.len() - j,
    {
        if v[i + j] != p[j] {
            assert(v@.subrange(i as int, i + p.len())[j as int] != p@[j as int]);
            return false;
        }
        j = j + 1;
    }
    assert(v@.subrange(i as int, i + p.len()) =~= p@);
    true
}

/// The first position at or after `from` where `p` occurs in `v`.
pub fn find_from(v: &Vec<char>, from: usize, p: &Vec<char>) -> (r: Option<usize>)
    ensures
        r matches Some(i) ==> from <= i && occurs_at(v@, p@, i as int) && forall|j: int|
            from <= j < i ==> !occurs_at(v@, p@, j),
        r is None ==> forall|j: int| from <= j ==> !occurs_at(v@, p@, j),
{
    if from > v.len() {
        return None;
    }
    let mut i = from;
    while i < v.len()
        invariant
            from <= i <= v.len(),
            forall|j: int| from <= j < i ==> !occurs_at(v@, p@, j),
        decreases v.len() - i,
    {
        if matches_at(v, i, p) {
            return Some(i);
        }
        i = i + 1;
    }
    if matches_at(v, i, p) {
        return Some(i);
    }
    None
}

/// Whether `p` occurs anywhere in `v`.
pub fn contains_chars(v: &Vec<char>, p: &Vec<char>) -> (r: bool)
    ensures
        r == contains(v@, p@),
{
    reveal(find);
    match find_from(v, 0, p) {
        Some(i) => true,
        None => {
            assert forall|j: int| !occurs_at(v@, p@, j) by {
                if j >= 0 {
                }
            }
            false
        },
    }
}

/// Whether `v` contains the text `p`.
pub fn contains_str(v: &Vec<char>, p: &str) -> (r: bool)
    ensures
        r == contains(v@, p@),
{
    let pc = chars_of(p);
    contains_chars(v, &pc)
}

/// Whether `v` begins with the text `p`.
pub fn starts_with_str(v: &Vec<char>, p: &str) -> (r: bool)
    ensures
        r == starts_with(v@, p@),
{
    let pc = chars_of(p);
    matches_at(v, 0, &pc)
}

/// Whether `v` ends with the text `p`.
pub fn ends_with_str(v: &Vec<char>, p: &str) -> (r: bool)
    ensures
        r == ends_with(v@, p@),
{
    let pc = chars_of(p);
    if pc.len() > v.len() {
        false
    } else {
        matches_at(v, v.len() - pc.len(), &pc)
    }
}

// ---------------------------------------------------------------------
// Lines
// ---------------------------------------------------------------------

/// The character sequences held by a sequence of vectors.
pub open spec fn views(v: Seq<Vec<char>>) -> Seq<Seq<char>> {
    v.map_values(|l: Vec<char>| l@)
}

/// `l` without one trailing carriage return.
pub open spec fn strip_cr(l: Seq<char>) -> Seq<char> {
    if l.len() > 0 && l.last() == '\r' {
        l.drop_last()
    } else {
        l
    }
}

/// `str::lines`: pieces split at `\n`; a `\r` just before a `\n` is
/// dropped, and a final `\n` does not start an empty last line.
pub open spec fn lines(s: Seq<char>) -> Seq<Seq<char>>
    decreases s.len(),
{
    if s.len() == 0 {
        seq![]
    } else {
        let k = index_of_or_len(s, '\n');
        if k >= s.len() {
            seq![s]
        } else {
            seq![strip_cr(s.take(k as int))] + lines(s.skip((k + 1) as int))
        }
    }
}

/// The lines of `v` (`str::lines`).
pub fn split_lines(v: &Vec<char>) -> (r: Vec<Vec<char>>)
    ensures
        views(r@) == lines(v@),
{
    let mut out: Vec<Vec<char>> = Vec::new();
    let mut pos: usize = 0;
    assert(v@.skip(0) =~= v@);
    while pos < v.len()
        invariant
            pos <= v.len(),
            lines(v@) == views(out@) + lines(v@.skip(pos as int)),
        decreases v.len() - pos,
    {
        let k = scan_char(v, pos, '\n');
        let ghost rest = v@.skip(pos as int);
        let ghost before = out@;
        if k == v.len() {
            let line = copy_range(v, pos, k);
            assert(rest =~= v@.subrange(pos as int, k as int));
            assert(lines(rest) == seq![rest]);
            out.push(line);
            assert(views(out@) =~= views(before).push(rest));
            assert(v@.skip(k as int) =~= Seq::<char>::empty());
            assert(lines(v@.skip(k as int)) =~= Seq::<Seq<char>>::empty());
            pos = k;
        } else {
            let e = if k > pos && v[k - 1] == '\r' {
                k - 1
            } else {
                k
            };
            let line = copy_range(v, pos, e);
            assert(rest.take(k - pos) =~= v@.subrange(pos as int, k as int));
            assert(line@ =~= strip_cr(rest.take(k - pos)));
            assert(rest.skip(k - pos + 1) =~= v@.skip(k + 1));
            out.push(line);
            assert(views(out@) =~= views(before).push(strip_cr(rest.take(k - pos))));
            pos = k + 1;
        }
    }
    assert(v@.skip(pos as int) =~= Seq::<char>::empty());
    assert(views(out@) + Seq::<Seq<char>>::empty() =~= views(out@));
    out
}

// ---------------------------------------------------------------------
// Trimming and words
// ---------------------------------------------------------------------

/// `s` without the leading characters that satisfy `f`.
pub open spec fn strip_start_by(s: Seq<char>, f: spec_fn(char) -> bool) -> Seq<char>
    decreases s.len(),
{
    if s.len() > 0 && f(s[0]) {
        strip_start_by(s.drop_first(), f)
    } else {
        s
    }
}

/// `s` without the trailing characters that satisfy `f`.
pub open spec fn strip_end_by(s: Seq<char>, f: spec_fn(char) -> bool) -> Seq<char>
    decreases s.len(),
{
    if s.len() > 0 && f(s.last()) {
        strip_end_by(s.drop_last(), f)
    } else {
        s
    }
}

/// White space, as a predicate.
pub open spec fn ws_pred() -> spec_fn(char) -> bool {
    |c: char| is_ws(c)
}

/// Equality with `x`, as a predicate.
pub open spec fn char_pred(x: char) -> spec_fn(char) -> bool {
    |c: char| c == x
}

/// `str::trim_start`.
pub open spec fn trim_start(s: Seq<char>) -> Seq<char> {
    strip_start_by(s, ws_pred())
}

/// `str::trim_end`.
pub open spec fn trim_end(s: Seq<char>) -> Seq<char> {
    strip_end_by(s, ws_pred())
}

/// `str::trim`.
pub open spec fn trim(s: Seq<char>) -> Seq<char> {
    trim_end(trim_start(s))
}

/// `str::trim_matches` with a single character.
pub open spec fn trim_char(s: Seq<char>, x: char) -> Seq<char> {
    strip_end_by(strip_start_by(s, char_pred(x)), char_pred(x))
}

fn pred_holds(c: char, x: Option<char>) -> (r: bool)
    ensures
        r == (match x {
            Some(y) => char_pred(y),
            None => ws_pred(),
        })(c),
{
    match x {
        Some(y) => c == y,
        None => char_is_ws(c),
    }
}

/// The bounds of `v[a..b]` once the leading characters satisfying the
/// predicate are gone; the predicate is Unicode white space when `x` is
/// `None`, and equality with `x` otherwise.
fn skip_start(v: &Vec<char>, a: usize, b: usize, x: Option<char>) -> (r: usize)
    requires
        a <= b <= v.len(),
    ensures
        a <= r <= b,
        v@.subrange(r as int, b as int) == strip_start_by(
            v@.subrange(a as int, b as int),
            match x {
                Some(c) => char_pred(c),
                None => ws_pred(),
            },
        ),
{
    let ghost f = match x {
        Some(c) => char_pred(c),
        None => ws_pred(),
    };
    let mut i = a;
    while i < b && pred_holds(v[i], x)
        invariant
            a <= i <= b <= v.len(),
            f == (match x {
                Some(c) => char_pred(c),
                None => ws_pred(),
            }),
            strip_start_by(v@.subrange(a as int, b as int), f) == strip_start_by(
                v@.subrange(i as int, b as int),
                f,
            ),
        decreases b - i,
    {
        assert(v@.subrange(i as int, b as int).drop_first() =~= v@.subrange(i + 1, b as int));
        i = i + 1;
    }
    i
}

/// Counterpart of `skip_start` at the end.
fn skip_end(v: &Vec<char>, a: usize, b: usize, x: Option<char>) -> (r: usize)
    requires
        a <= b <= v.len(),
    ensures
        a <= r <= b,
        v@.subrange(a as int, r as int) == strip_end_by(
            v@.subrange(a as int, b as int),
            match x {
                Some(c) => char_pred(c),
                None => ws_pred(),
            },
        ),
{
    let ghost f = match x {
        Some(c) => char_pred(c),
        None => ws_pred(),
    };
    let mut j = b;
    while j > a && pred_holds(v[j - 1], x)
        invariant
            a <= j <= b <= v.len(),
            f == (match x {
                Some(c) => char_pred(c),
                None => ws_pred(),
            }),
            strip_end_by(v@.subrange(a as int, b as int), f) == strip_end_by(
                v@.subrange(a as int, j as int),
                f,
            ),
        decreases j - a,
    {
        assert(v@.subrange(a as int, j as int).drop_last() =~= v@.subrange(a as int, j - 1));
        j = j - 1;
    }
    j
}

/// Bounds of `trim(v[a..b])`.
pub fn trim_range(v: &Vec<char>, a: usize, b: usize) -> (r: (usize, usize))
    requires
        a <= b <= v.len(),
    ensures
        a <= r.0 <= r.1 <= b,
        v@.subrange(r.0 as int, r.1 as int) == trim(v@.subrange(a as int, b as int)),
{
    let s = skip_start(v, a, b, None);
    let e = skip_end(v, s, b, None);
    (s, e)
}

/// Bounds of `trim_end(v[a..b])`.
pub fn trim_end_range(v: &Vec<char>, a: usize, b: usize) -> (e: usize)
    requires
        a <= b <= v.len(),
    ensures
        a <= e <= b,
        v@.subrange(a as int, e as int) == trim_end(v@.subrange(a as int, b as int)),
{
    skip_end(v, a, b, None)
}

/// Bounds of `trim_start(v[a..b])`.
pub fn trim_start_range(v: &Vec<char>, a: usize, b: usize) -> (s: usize)
    requires
        a <= b <= v.len(),
    ensures
        a <= s <= b,
        v@.subrange(s as int, b as int) == trim_start(v@.subrange(a as int, b as int)),
{
    skip_start(v, a, b, None)
}

/// Bounds of `trim_char(v[a..b], x)`.
pub fn trim_char_range(v: &Vec<char>, a: usize, b: usize, x: char) -> (r: (usize, usize))
    requires
        a <= b <= v.len(),
    ensures
        a <= r.0 <= r.1 <= b,
        v@.subrange(r.0 as int, r.1 as int) == trim_char(v@.subrange(a as int, b as int), x),
{
    let s = skip_start(v, a, b, Some(x));
    let e = skip_end(v, s, b, Some(x));
    (s, e)
}

/// Index of the first white-space character of `s`, or `s.len()`.
pub open spec fn index_of_ws_or_len(s: Seq<char>) -> nat
    decreases s.len(),
{
    if s.len() == 0 {
        0
    } else if is_ws(s[0]) {
        0
    } else {
        1 + index_of_ws_or_len(s.drop_first())
    }
}

/// `str::split_whitespace().next()`.
pub open spec fn first_word(s: Seq<char>) -> Option<Seq<char>> {
    let t = trim_start(s);
    if t.len() == 0 {
        None
    } else {
        Some(t.take(index_of_ws_or_len(t) as int))
    }
}

proof fn lemma_index_of_ws_or_len(s: Seq<char>, k: int)
    requires
        0 <= k <= s.len(),
        forall|j: int| 0 <= j < k ==> !is_ws(s[j]),
        k == s.len() || is_ws(s[k]),
    ensures
        index_of_ws_or_len(s) == k,
    decreases s.len(),
{
    if s.len() > 0 && !is_ws(s[0]) {
        assert forall|j: int| 0 <= j < k - 1 implies !is_ws(s.drop_first()[j]) by {
            assert(s.drop_first()[j] == s[j + 1]);
        }
        lemma_index_of_ws_or_len(s.drop_first(), k - 1);
    }
}

/// Bounds of the first white-space separated word of `v[a..b]`.
pub fn first_word_range(v: &Vec<char>, a: usize, b: usize) -> (r: Option<(usize, usize)>)
    requires
        a <= b <= v.len(),
    ensures
        match r {
            Some((s, e)) => a <= s <= e <= b && first_word(v@.subrange(a as int, b as int)) == Some(
                v@.subrange(s as int, e as int),
            ),
            None => first_word(v@.subrange(a as int, b as int)) is None,
        },
{
    let s = trim_start_range(v, a, b);
    if s == b {
        return None;
    }
    let mut e = s;
    while e < b && !char_is_ws(v[e])
        invariant
            s <= e <= b <= v.len(),
            forall|j: int| s <= j < e ==> !is_ws(v@[j]),
        decreases b - e,
    {
        e = e + 1;
    }
    proof {
        let t = v@.subrange(s as int, b as int);
        assert forall|j: int| 0 <= j < e - s implies !is_ws(t[j]) by {
            assert(t[j] == v@[j + s]);
        }
        lemma_index_of_ws_or_len(t, e - s);
        assert(t.take(e - s) =~= v@.subrange(s as int, e as int));
    }
    Some((s, e))
}

// ---------------------------------------------------------------------
// Joining, padding, replacing
// ---------------------------------------------------------------------

/// `parts.join(sep)`.
pub open spec fn join(parts: Seq<Seq<char>>, sep: Seq<char>) -> Seq<char>
    decreases parts.len(),
{
    if parts.len() == 0 {
        seq![]
    } else if parts.len() == 1 {
        parts[0]
    } else {
        join(parts.drop_last(), sep) + sep + parts.last()
    }
}

/// Appends `parts.join(sep)` to `out`.
pub fn push_join(out: &mut Vec<char>, parts: &Vec<Vec<char>>, sep: &str)
    ensures
        final(out)@ == old(out)@ + join(views(parts@), sep@),
{
    let ghost start = out@;
    let sepc = chars_of(sep);
    let mut i: usize = 0;
    while i < parts.len()
        invariant
            i <= parts.len(),
            sepc@ == sep@,
            out@ == start + join(views(parts@).take(i as int), sep@),
        decreases parts.len() - i,
    {
        let ghost prev = out@;
        if i > 0 {
            push_range(out, &sepc, 0, sepc.len());
            assert(sepc@.subrange(0, sepc.len() as int) =~= sepc@);
        }
        push_range(out, &parts[i], 0, parts[i].len());
        assert(parts[i as int]@.subrange(0, parts[i as int]@.len() as int) =~= parts[i as int]@);
        let ghost t = views(parts@).take(i + 1);
        assert(t.drop_last() =~= views(parts@).take(i as int));
        assert(t.last() == parts[i as int]@);
        if i == 0 {
            assert(join(t, sep@) == t[0]);
        }
        i = i + 1;
    }
    assert(views(parts@).take(parts.len() as int) =~= views(parts@));
}

/// `n` spaces.
pub open spec fn spaces(n: nat) -> Seq<char> {
    Seq::new(n, |i: int| ' ')
}

/// `s` left-aligned in a field of `w` characters (`format!("{:<w$}")`).
pub open spec fn pad(s: Seq<char>, w: nat) -> Seq<char> {
    if s.len() >= w {
        s
    } else {
        s + spaces((w - s.len()) as nat)
    }
}

/// Appends `s` left-aligned in a field of `w` characters.
pub fn push_padded(out: &mut Vec<char>, s: &Vec<char>, w: usize)
    ensures
        final(out)@ == old(out)@ + pad(s@, w as nat),
{
    let ghost start = out@;
    push_range(out, s, 0, s.len());
    assert(s@.subrange(0, s@.len() as int) =~= s@);
    let mut n = s.len();
    while n < w
        invariant
            s.len() <= n <= w || (n == s.len() && n >= w),
            out@ == start + s@ + spaces((n - s.len()) as nat),
        decreases w - n,
    {
        out.push(' ');
        assert(spaces((n + 1 - s.len()) as nat) =~= spaces((n - s.len()) as nat).push(' '));
        n = n + 1;
    }
    assert(out@ =~= start + pad(s@, w as nat));
}

/// `str::replace(p, t)` for a non-empty pattern: every occurrence of `p`,
/// taken left to right without overlap, becomes `t`.
pub open spec fn replace_all(s: Seq<char>, p: Seq<char>, t: Seq<char>) -> Seq<char>
    decreases s.len(),
{
    if p.len() == 0 || s.len() < p.len() {
        s
    } else if s.take(p.len() as int) == p {
        t + replace_all(s.skip(p.len() as int), p, t)
    } else {
        seq![s[0]] + replace_all(s.drop_first(), p, t)
    }
}

/// Replacing a pattern that does not occur changes nothing.
pub proof fn lemma_replace_absent(s: Seq<char>, p: Seq<char>, t: Seq<char>)
    requires
        !contains(s, p),
    ensures
        replace_all(s, p, t) == s,
    decreases s.len(),
{
    if p.len() == 0 || s.len() < p.len() {
    } else {
        assert(s.take(p.len() as int) != p) by {
            if s.take(p.len() as int) == p {
                assert(s.subrange(0, p.len() as int) =~= s.take(p.len() as int));
                assert(occurs_at(s, p, 0));
            }
        }
        let r = s.drop_first();
        assert(!contains(r, p)) by {
            if contains(r, p) {
                let j = choose|j: int| occurs_at(r, p, j);
                assert(s.subrange(j + 1, j + 1 + p.len()) =~= r.subrange(j, j + p.len()));
                assert(occurs_at(s, p, j + 1));
            }
        }
        lemma_replace_absent(r, p, t);
        assert(seq![s[0]] + r =~= s);
    }
}

/// `s.replace(p, t)` for a non-empty pattern.
pub fn replace_chars(s: &Vec<char>, p: &Vec<char>, t: &Vec<char>) -> (r: Vec<char>)
    requires
        p.len() > 0,
    ensures
        r@ == replace_all(s@, p@, t@),
{
    let mut out: Vec<char> = Vec::new();
    let mut i: usize = 0;
    assert(s@.skip(0) =~= s@);
    while i < s.len()
        invariant
            i <= s.len(),
            p.len() > 0,
            replace_all(s@, p@, t@) == out@ + replace_all(s@.skip(i as int), p@, t@),
        decreases s.len() - i,
    {
        let ghost rest = s@.skip(i as int);
        if matches_at(s, i, p) {
            assert(rest.take(p.len() as int) =~= s@.subrange(i as int, i + p.len()));
            assert(rest.skip(p.len() as int) =~= s@.skip(i + p.len()));
            push_range(&mut out, t, 0, t.len());
            assert(t@.subrange(0, t.len() as int) =~= t@);
            i = i + p.len();
        } else {
            proof {
                if rest.len() >= p@.len() {
                    assert(rest.take(p.len() as int) =~= s@.subrange(i as int, i + p.len()));
                }
                assert(rest.drop_first() =~= s@.skip(i + 1));
            }
            out.push(s[i]);
            i = i + 1;
        }
    }
    assert(s@.skip(i as int) =~= Seq::<char>::empty());
    assert(out@ + Seq::<char>::empty() =~= out@);
    out
}

// ---------------------------------------------------------------------
// Ordering and sorting
// ---------------------------------------------------------------------

broadcast use vstd::seq::Seq::lemma_push_to_set_commute;

/// Lexicographic order on characters by code point: the order `String`
/// sorts by (its byte order agrees with code-point order).
pub open spec fn lex_lt(a: Seq<char>, b: Seq<char>) -> bool
    decreases a.len(),
{
    if a.len() == 0 {
        b.len() > 0
    } else if b.len() == 0 {
        false
    } else if a[0] != b[0] {
        a[0] < b[0]
    } else {
        lex_lt(a.drop_first(), b.drop_first())
    }
}

/// No text sorts before itself.
pub proof fn lemma_lex_irreflexive(a: Seq<char>)
    ensures
        !lex_lt(a, a),
    decreases a.len(),
{
    if a.len() > 0 {
        lemma_lex_irreflexive(a.drop_first());
    }
}

/// Sorting before is transitive.
pub proof fn lemma_lex_transitive(a: Seq<char>, b: Seq<char>, c: Seq<char>)
    requires
        lex_lt(a, b),
        lex_lt(b, c),
    ensures
        lex_lt(a, c),
    decreases a.len(),
{
    if a.len() > 0 && b.len() > 0 && c.len() > 0 {
        if a[0] == b[0] && b[0] == c[0] {
            lemma_lex_transitive(a.drop_first(), b.drop_first(), c.drop_first());
        }
    }
}

/// Of two different texts, one sorts before the other.
pub proof fn lemma_lex_total(a: Seq<char>, b: Seq<char>)
    ensures
        a == b || lex_lt(a, b) || lex_lt(b, a),
    decreases a.len(),
{
    if a.len() > 0 && b.len() > 0 && a[0] == b[0] {
        lemma_lex_total(a.drop_first(), b.drop_first());
        if a.drop_first() == b.drop_first() {
            assert(a =~= seq![a[0]] + a.drop_first());
            assert(b =~= seq![b[0]] + b.drop_first());
        }
    } else if a.len() == 0 && b.len() == 0 {
        assert(a =~= b);
    }
}

/// Two texts never sort before each other.
pub proof fn lemma_lex_asymmetric(a: Seq<char>, b: Seq<char>)
    requires
        lex_lt(a, b),
    ensures
        !lex_lt(b, a),
{
    if lex_lt(b, a) {
        lemma_lex_transitive(a, b, a);
        lemma_lex_irreflexive(a);
    }
}

/// `a < b` on strings.
pub fn lex_less(a: &Vec<char>, b: &Vec<char>) -> (r: bool)
    ensures
        r == lex_lt(a@, b@),
{
    let mut i: usize = 0;
    assert(a@.skip(0) =~= a@);
    assert(b@.skip(0) =~= b@);
    while i < a.len() && i < b.len() && a[i] == b[i]
        invariant
            i <= a.len(),
            i <= b.len(),
            lex_lt(a@, b@) == lex_lt(a@.skip(i as int), b@.skip(i as int)),
        decreases a.len() - i,
    {
        assert(a@.skip(i as int).drop_first() =~= a@.skip(i + 1));
        assert(b@.skip(i as int).drop_first() =~= b@.skip(i + 1));
        i = i + 1;
    }
    if i == a.len() {
        i < b.len()
    } else if i == b.len() {
        false
    } else {
        a[i] < b[i]
    }
}

/// Every element is strictly below every later one.
pub open spec fn lex_sorted(s: Seq<Seq<char>>) -> bool {
    forall|i: int, j: int| 0 <= i < j < s.len() ==> lex_lt(#[trigger] s[i], #[trigger] s[j])
}

/// The distinct strings of `items` in ascending order
/// (`sort` followed by `dedup`).
pub fn sorted_unique(items: &Vec<Vec<char>>) -> (r: Vec<Vec<char>>)
    ensures
        lex_sorted(views(r@)),
        views(r@).to_set() == views(items@).to_set(),
{
    let mut out: Vec<Vec<char>> = Vec::new();
    let mut k: usize = 0;
    while k < items.len()
        invariant
            k <= items.len(),
            lex_sorted(views(out@)),
            views(out@).to_set() == views(items@).take(k as int).to_set(),
        decreases items.len() - k,
    {
        let x = &items[k];
        let mut j: usize = 0;
        while j < out.len() && lex_less(&out[j], x)
            invariant
                j <= out.len(),
                forall|t: int| 0 <= t < j ==> lex_lt(#[trigger] views(out@)[t], x@),
            decreases out.len() - j,
        {
            j = j + 1;
        }
        let ghost old_out = views(out@);
        let ghost x_view = x@;
        assert(views(items@).take(k + 1) =~= views(items@).take(k as int).push(x@));
        if j < out.len() && lex_less(x, &out[j]) || j == out.len() {
            let c = copy_chars(x);
            out.insert(j, c);
            proof {
                let nv = views(out@);
                assert(nv =~= old_out.insert(j as int, x_view));
                assert forall|a: int, b: int| 0 <= a < b < nv.len() implies lex_lt(
                    #[trigger] nv[a],
                    #[trigger] nv[b],
                ) by {
                    if b == j {
                        assert(nv[a] == old_out[a]);
                    } else if a == j {
                        assert(nv[b] == old_out[b - 1]);
                        if b - 1 > j {
                            assert(lex_lt(old_out[j as int], old_out[b - 1]));
                            lemma_lex_transitive(x_view, old_out[j as int], old_out[b - 1]);
                        }
                    } else {
                        let a0 = if a < j { a } else { a - 1 };
                        let b0 = if b < j { b } else { b - 1 };
                        assert(nv[a] == old_out[a0]);
                        assert(nv[b] == old_out[b0]);
                    }
                }
                assert(nv.to_set() =~= old_out.to_set().insert(x_view)) by {
                    assert forall|s: Seq<char>| nv.to_set().contains(s) implies old_out.to_set().insert(
                        x_view,
                    ).contains(s) by {
                        let t = choose|t: int| 0 <= t < nv.len() && nv[t] == s;
                        if t < j {
                            assert(old_out[t] == s);
                        } else if t > j {
                            assert(old_out[t - 1] == s);
                        }
                    }
                    assert forall|s: Seq<char>| old_out.to_set().insert(x_view).contains(s) implies nv.to_set().contains(
                        s,
                    ) by {
                        if s == x_view {
                            assert(nv[j as int] == s);
                        } else {
                            let t = choose|t: int| 0 <= t < old_out.len() && old_out[t] == s;
                            if t < j {
                                assert(nv[t] == s);
                            } else {
                                assert(nv[t + 1] == s);
                            }
                        }
                    }
                }
            }
        } else {
            proof {
                lemma_lex_total(x_view, old_out[j as int]);
                assert(old_out[j as int] == x_view);
                assert(old_out.to_set() =~= old_out.to_set().insert(x_view));
            }
        }
        k = k + 1;
    }
    assert(views(items@).take(items.len() as int) =~= views(items@));
    out
}

/// Every element is strictly below every later one.
pub open spec fn increasing(s: Seq<u32>) -> bool {
    forall|i: int, j: int| 0 <= i < j < s.len() ==> #[trigger] s[i] < #[trigger] s[j]
}

/// The members of `s` in ascending order, each once.
#[verifier::opaque]
pub open spec fn sorted_strings(s: Set<Seq<char>>) -> Seq<Seq<char>> {
    choose|q: Seq<Seq<char>>| lex_sorted(q) && q.to_set() == s
}

/// The members of `s` in ascending order, each once.
#[verifier::opaque]
pub open spec fn sorted_numbers(s: Set<u32>) -> Seq<u32> {
    choose|q: Seq<u32>| increasing(q) && q.to_set() == s
}

/// Two strictly ascending sequences with the same members are equal.
pub proof fn lemma_lex_sorted_unique(a: Seq<Seq<char>>, b: Seq<Seq<char>>)
    requires
        lex_sorted(a),
        lex_sorted(b),
        a.to_set() == b.to_set(),
    ensures
        a == b,
    decreases a.len(),
{
    if a.len() == 0 {
        if b.len() > 0 {
            assert(b.to_set().contains(b[0]));
        }
        assert(a =~= b);
    } else {
        assert(a.to_set().contains(a[0]));
        assert(b.to_set().contains(a[0]));
        let j = choose|j: int| 0 <= j < b.len() && b[j] == a[0];
        assert(b.to_set().contains(b[0]));
        assert(a.to_set().contains(b[0]));
        let k = choose|k: int| 0 <= k < a.len() && a[k] == b[0];
        if j > 0 && k > 0 {
            assert(lex_lt(b[0], b[j]));
            assert(lex_lt(a[0], a[k]));
            lemma_lex_asymmetric(a[0], b[0]);
        }
        assert(a[0] == b[0]);
        let a1 = a.drop_first();
        let b1 = b.drop_first();
        assert forall|x: Seq<char>| a1.to_set().contains(x) implies b1.to_set().contains(x) by {
            let i = choose|i: int| 0 <= i < a1.len() && a1[i] == x;
            assert(a.to_set().contains(x));
            let m = choose|m: int| 0 <= m < b.len() && b[m] == x;
            if m == 0 {
                assert(lex_lt(a[0], a[i + 1]));
                lemma_lex_irreflexive(x);
            }
            assert(b1[m - 1] == x);
        }
        assert forall|x: Seq<char>| b1.to_set().contains(x) implies a1.to_set().contains(x) by {
            let i = choose|i: int| 0 <= i < b1.len() && b1[i] == x;
            assert(b.to_set().contains(x));
            let m = choose|m: int| 0 <= m < a.len() && a[m] == x;
            if m == 0 {
                assert(lex_lt(b[0], b[i + 1]));
                lemma_lex_irreflexive(x);
            }
            assert(a1[m - 1] == x);
        }
        assert(a1.to_set() =~= b1.to_set());
        lemma_lex_sorted_unique(a1, b1);
        assert(a =~= seq![a[0]] + a1);
        assert(b =~= seq![b[0]] + b1);
    }
}

/// A strictly ascending sequence is the sorted form of its members.
pub proof fn lemma_sorted_strings(q: Seq<Seq<char>>)
    requires
        lex_sorted(q),
    ensures
        sorted_strings(q.to_set()) == q,
{
    reveal(sorted_strings);
    let c = choose|c: Seq<Seq<char>>| lex_sorted(c) && c.to_set() == q.to_set();
    lemma_lex_sorted_unique(c, q);
}

/// Two increasing sequences with the same members are equal.
pub proof fn lemma_increasing_unique(a: Seq<u32>, b: Seq<u32>)
    requires
        increasing(a),
        increasing(b),
        a.to_set() == b.to_set(),
    ensures
        a == b,
    decreases a.len(),
{
    if a.len() == 0 {
        if b.len() > 0 {
            assert(b.to_set().contains(b[0]));
        }
        assert(a =~= b);
    } else {
        assert(a.to_set().contains(a[0]));
        assert(b.to_set().contains(a[0]));
        let j = choose|j: int| 0 <= j < b.len() && b[j] == a[0];
        assert(b.to_set().contains(b[0]));
        assert(a.to_set().contains(b[0]));
        let k = choose|k: int| 0 <= k < a.len() && a[k] == b[0];
        if j > 0 && k > 0 {
            assert(b[0] < b[j]);
            assert(a[0] < a[k]);
        }
        assert(a[0] == b[0]);
        let a1 = a.drop_first();
        let b1 = b.drop_first();
        assert forall|x: u32| a1.to_set().contains(x) implies b1.to_set().contains(x) by {
            let i = choose|i: int| 0 <= i < a1.len() && a1[i] == x;
            assert(a.to_set().contains(x));
            let m = choose|m: int| 0 <= m < b.len() && b[m] == x;
            if m == 0 {
                assert(a[0] < a[i + 1]);
            }
            assert(b1[m - 1] == x);
        }
        assert forall|x: u32| b1.to_set().contains(x) implies a1.to_set().contains(x) by {
            let i = choose|i: int| 0 <= i < b1.len() && b1[i] == x;
            assert(b.to_set().contains(x));
            let m = choose|m: int| 0 <= m < a.len() && a[m] == x;
            if m == 0 {
                assert(b[0] < b[i + 1]);
            }
            assert(a1[m - 1] == x);
        }
        assert(a1.to_set() =~= b1.to_set());
        lemma_increasing_unique(a1, b1);
        assert(a =~= seq![a[0]] + a1);
        assert(b =~= seq![b[0]] + b1);
    }
}

/// An increasing sequence is the sorted form of its members.
pub proof fn lemma_sorted_numbers(q: Seq<u32>)
    requires
        increasing(q),
    ensures
        sorted_numbers(q.to_set()) == q,
{
    reveal(sorted_numbers);
    let c = choose|c: Seq<u32>| increasing(c) && c.to_set() == q.to_set();
    lemma_increasing_unique(c, q);
}

/// Inserts `x` into the increasing vector `v`, unless it is there.
pub fn insert_sorted(v: &mut Vec<u32>, x: u32)
    requires
        increasing(old(v)@),
    ensures
        increasing(final(v)@),
        final(v)@.to_set() == old(v)@.to_set().insert(x),
{
    let ghost o = v@;
    let mut j: usize = 0;
    while j < v.len() && v[j] < x
        invariant
            j <= v.len(),
            v@ == o,
            forall|t: int| 0 <= t < j ==> #[trigger] v@[t] < x,
        decreases v.len() - j,
    {
        j = j + 1;
    }
    if j < v.len() && v[j] == x {
        assert(o.to_set() =~= o.to_set().insert(x));
        return;
    }
    v.insert(j, x);
    assert(v@ =~= o.insert(j as int, x));
    assert forall|a: int, b: int| 0 <= a < b < v@.len() implies #[trigger] v@[a] < #[trigger] v@[b] by {
        if a < j && b > j {
            assert(v@[b] == o[b - 1]);
        } else if a == j && b > j {
            assert(v@[b] == o[b - 1]);
            assert(o[j as int] <= o[b - 1]);
        } else if a > j {
            assert(v@[a] == o[a - 1] && v@[b] == o[b - 1]);
        }
    }
    assert(v@.to_set() =~= o.to_set().insert(x)) by {
        assert forall|s: u32| v@.to_set().contains(s) implies o.to_set().insert(x).contains(s) by {
            let t = choose|t: int| 0 <= t < v@.len() && v@[t] == s;
            if t < j {
                assert(o[t] == s);
            } else if t > j {
                assert(o[t - 1] == s);
            }
        }
        assert forall|s: u32| o.to_set().insert(x).contains(s) implies v@.to_set().contains(s) by {
            if s == x {
                assert(v@[j as int] == s);
            } else {
                let t = choose|t: int| 0 <= t < o.len() && o[t] == s;
                if t < j {
                    assert(v@[t] == s);
                } else {
                    assert(v@[t + 1] == s);
                }
            }
        }
    }
}

/// The members of `set` in increasing order.
pub fn sorted_members(set: &std::collections::HashSet<u32>) -> (r: Vec<u32>)
    ensures
        increasing(r@),
        r@.to_set() == set@,
{
    broadcast use vstd::std_specs::hash::group_hash_axioms;
    let mut out: Vec<u32> = Vec::new();
    let ghost all = vstd::std_specs::hash::spec_hash_keys_iter(set).remaining();
    for x in it: set.iter()
        invariant
            it.seq() == all,
            all.unref().to_set() == set@,
            increasing(out@),
            out@.to_set() == it.seq().take(it.index() as int).unref().to_set(),
    {
        let ghost before = it.seq().take(it.index() as int);
        insert_sorted(&mut out, *x);
        assert(it.seq().take(it.index() as int + 1).unref() =~= before.unref().push(*x));
    }
    assert(all.take(all.len() as int) =~= all);
    out
}

// ---------------------------------------------------------------------
// Words
// ---------------------------------------------------------------------

/// Stripping a prefix shortens and leaves no stripped character first.
pub proof fn lemma_strip_start_shape(s: Seq<char>, f: spec_fn(char) -> bool)
    ensures
        strip_start_by(s, f).len() <= s.len(),
        strip_start_by(s, f).len() > 0 ==> !f(strip_start_by(s, f)[0]),
    decreases s.len(),
{
    if s.len() > 0 && f(s[0]) {
        lemma_strip_start_shape(s.drop_first(), f);
    }
}

/// The first blank of `t` is within it, and after its first character
/// when that one is not blank.
pub proof fn lemma_index_of_ws_bound(t: Seq<char>)
    ensures
        index_of_ws_or_len(t) <= t.len(),
        t.len() > 0 && !is_ws(t[0]) ==> index_of_ws_or_len(t) >= 1,
    decreases t.len(),
{
    if t.len() > 0 && !is_ws(t[0]) {
        lemma_index_of_ws_bound(t.drop_first());
    }
}

/// `str::split_whitespace`: the maximal runs of non-blank characters.
pub open spec fn words(s: Seq<char>) -> Seq<Seq<char>>
    decreases s.len(),
{
    let t = trim_start(s);
    if t.len() == 0 {
        seq![]
    } else {
        let k = index_of_ws_or_len(t);
        proof {
            lemma_strip_start_shape(s, ws_pred());
            lemma_index_of_ws_bound(t);
        }
        seq![t.take(k as int)] + words(t.skip(k as int))
    }
}

/// The bounds of the words of `v[a..b]` (`str::split_whitespace`).
pub fn split_words(v: &Vec<char>, a: usize, b: usize) -> (r: Vec<(usize, usize)>)
    requires
        a <= b <= v.len(),
    ensures
        r.len() == words(v@.subrange(a as int, b as int)).len(),
        forall|i: int|
            0 <= i < r.len() ==> (#[trigger] r@[i]).0 <= r@[i].1 <= v.len() && v@.subrange(
                r@[i].0 as int,
                r@[i].1 as int,
            ) == words(v@.subrange(a as int, b as int))[i],
{
    let mut out: Vec<(usize, usize)> = Vec::new();
    let ghost mut acc: Seq<Seq<char>> = Seq::empty();
    let mut pos = a;
    while pos < b
        invariant
            a <= pos <= b <= v.len(),
            out.len() == acc.len(),
            forall|i: int|
                0 <= i < out.len() ==> (#[trigger] out@[i]).0 <= out@[i].1 <= v.len() && v@.subrange(
                    out@[i].0 as int,
                    out@[i].1 as int,
                ) == acc[i],
            words(v@.subrange(a as int, b as int)) == acc + words(v@.subrange(pos as int, b as int)),
        decreases b - pos,
    {
        let s0 = trim_start_range(v, pos, b);
        if s0 == b {
            assert(words(v@.subrange(pos as int, b as int)) =~= Seq::<Seq<char>>::empty());
            assert(acc + Seq::<Seq<char>>::empty() =~= acc);
            pos = b;
        } else {
            let mut e = s0;
            while e < b && !char_is_ws(v[e])
                invariant
                    s0 <= e <= b <= v.len(),
                    forall|j: int| s0 <= j < e ==> !is_ws(v@[j]),
                decreases b - e,
            {
                e = e + 1;
            }
            proof {
                let t = v@.subrange(s0 as int, b as int);
                assert forall|j: int| 0 <= j < e - s0 implies !is_ws(t[j]) by {
                    assert(t[j] == v@[j + s0]);
                }
                lemma_index_of_ws_or_len(t, e - s0);
                assert(t.take(e - s0) =~= v@.subrange(s0 as int, e as int));
                assert(t.skip(e - s0) =~= v@.subrange(e as int, b as int));
                acc = acc.push(v@.subrange(s0 as int, e as int));
            }
            out.push((s0, e));
            pos = e;
        }
    }
    assert(v@.subrange(b as int, b as int) =~= Seq::<char>::empty());
    assert(acc + Seq::<Seq<char>>::empty() =~= acc);
    out
}

// ---------------------------------------------------------------------
// First and last occurrences
// ---------------------------------------------------------------------

/// The position of the first occurrence of `p` in `s` (`str::find`).
#[verifier::opaque]
pub open spec fn find(s: Seq<char>, p: Seq<char>) -> Option<int> {
    if contains(s, p) {
        Some(choose|i: int| occurs_at(s, p, i) && forall|j: int| 0 <= j < i ==> !occurs_at(s, p, j))
    } else {
        None
    }
}

/// The position of the last `c` in `s` (`str::rfind` with a character).
#[verifier::opaque]
pub open spec fn rfind_char(s: Seq<char>, c: char) -> Option<int> {
    if s.contains(c) {
        Some(choose|i: int| 0 <= i < s.len() && s[i] == c && forall|j: int| i < j < s.len() ==> s[j] != c)
    } else {
        None
    }
}

/// `find` is the first position where `p` occurs.
pub proof fn lemma_find_first(s: Seq<char>, p: Seq<char>, i: int)
    requires
        occurs_at(s, p, i),
        forall|j: int| 0 <= j < i ==> !occurs_at(s, p, j),
    ensures
        find(s, p) == Some(i),
{
    reveal(find);
    assert(contains(s, p));
    let c = choose|c: int| occurs_at(s, p, c) && forall|j: int| 0 <= j < c ==> !occurs_at(s, p, j);
    if c < i {
        assert(!occurs_at(s, p, c));
    } else if i < c {
        assert(!occurs_at(s, p, i));
    }
}

/// What `find` gives: the first occurrence, or `None` when there is none.
pub proof fn lemma_find_facts(s: Seq<char>, p: Seq<char>)
    ensures
        find(s, p) matches Some(i) ==> occurs_at(s, p, i) && forall|j: int|
            0 <= j < i ==> !occurs_at(s, p, j),
        find(s, p) is None ==> forall|j: int| !occurs_at(s, p, j),
{
    reveal(find);
    if contains(s, p) {
        let k = choose|k: int| occurs_at(s, p, k);
        lemma_first_occurrence(s, p, k);
    }
}

/// An occurrence of `p` in `s` has a first one at or before it.
proof fn lemma_first_occurrence(s: Seq<char>, p: Seq<char>, k: int)
    requires
        occurs_at(s, p, k),
    ensures
        exists|i: int| occurs_at(s, p, i) && forall|j: int| 0 <= j < i ==> !occurs_at(s, p, j),
    decreases k,
{
    if exists|j: int| 0 <= j < k && occurs_at(s, p, j) {
        let j = choose|j: int| 0 <= j < k && occurs_at(s, p, j);
        lemma_first_occurrence(s, p, j);
    } else {
        assert(occurs_at(s, p, k) && forall|j: int| 0 <= j < k ==> !occurs_at(s, p, j));
    }
}

/// `find` as an index into `v`.
pub fn find_chars(v: &Vec<char>, p: &Vec<char>) -> (r: Option<usize>)
    ensures
        match r {
            Some(i) => find(v@, p@) == Some(i as int) && occurs_at(v@, p@, i as int),
            None => find(v@, p@) is None,
        },
{
    reveal(find);
    match find_from(v, 0, p) {
        Some(i) => {
            proof {
                assert(contains(v@, p@));
                let c = choose|c: int| occurs_at(v@, p@, c) && forall|j: int| 0 <= j < c ==> !occurs_at(v@, p@, j);
                if c < i {
                } else if i < c {
                }
            }
            Some(i)
        },
        None => {
            assert(!contains(v@, p@)) by {
                assert forall|j: int| !occurs_at(v@, p@, j) by {
                    if j >= 0 {
                    }
                }
            }
            None
        },
    }
}

/// A character that occurs has a last occurrence.
proof fn lemma_last_occurrence(s: Seq<char>, c: char)
    requires
        s.contains(c),
    ensures
        exists|i: int| 0 <= i < s.len() && s[i] == c && forall|j: int| i < j < s.len() ==> s[j] != c,
    decreases s.len(),
{
    if s.last() == c {
        assert(forall|j: int| s.len() - 1 < j < s.len() ==> s[j] != c);
    } else {
        let k = choose|k: int| 0 <= k < s.len() && s[k] == c;
        assert(s.drop_last()[k] == c);
        lemma_last_occurrence(s.drop_last(), c);
        let i = choose|i: int|
            0 <= i < s.drop_last().len() && s.drop_last()[i] == c && forall|j: int|
                i < j < s.drop_last().len() ==> s.drop_last()[j] != c;
        assert(s[i] == c);
        assert forall|j: int| i < j < s.len() implies s[j] != c by {
            if j < s.len() - 1 {
                assert(s.drop_last()[j] == s[j]);
            }
        }
    }
}

/// Where `rfind_char` finds `c`: a position of `s` that holds it.
pub proof fn lemma_rfind_char_facts(s: Seq<char>, c: char)
    ensures
        rfind_char(s, c) matches Some(i) ==> 0 <= i < s.len() && s[i] == c,
        rfind_char(s, c) is None ==> !s.contains(c),
{
    reveal(rfind_char);
    if s.contains(c) {
        lemma_last_occurrence(s, c);
    }
}

/// `rfind_char` as an index into `v`.
pub fn rfind_char_in(v: &Vec<char>, c: char) -> (r: Option<usize>)
    ensures
        match r {
            Some(i) => rfind_char(v@, c) == Some(i as int) && i < v.len() && v@[i as int] == c,
            None => rfind_char(v@, c) is None,
        },
{
    reveal(rfind_char);
    let mut j = v.len();
    while j > 0
        invariant
            j <= v.len(),
            forall|t: int| j <= t < v.len() ==> v@[t] != c,
        decreases j,
    {
        if v[j - 1] == c {
            proof {
                let i = (j - 1) as int;
                assert(v@.contains(c));
                assert(v@[i] == c);
                assert(forall|t: int| i < t < v@.len() ==> v@[t] != c);
                let k = choose|k: int| 0 <= k < v@.len() && v@[k] == c && forall|t: int| k < t < v@.len() ==> v@[t] != c;
                if k < i {
                    assert(v@[i] != c);
                } else if i < k {
                    assert(v@[k] != c);
                }
                assert(k == i);
                reveal(rfind_char);
                assert(rfind_char(v@, c) == Some(i));
            }
            return Some(j - 1);
        }
        j = j - 1;
    }
    None
}

// ---------------------------------------------------------------------
// Runs of one character class
// ---------------------------------------------------------------------

/// Blank characters.
pub const WS: u8 = 0;

/// Unicode decimal digits.
pub const DIGIT: u8 = 1;

/// Characters that are not blank.
pub const NONWS: u8 = 2;

/// Characters other than `"`.
pub const NOT_QUOTE: u8 = 3;

/// A Unicode decimal digit (general category Nd, Unicode 16.0): the
/// characters `\d` matches in a Unicode regular expression.
pub open spec fn is_decimal_digit(c: char) -> bool {
    let u = c as u32;
    (0x30 <= u && u <= 0x39)
        || (0x660 <= u && u <= 0x669)
        || (0x6F0 <= u && u <= 0x6F9)
        || (0x7C0 <= u && u <= 0x7C9)
        || (0x966 <= u && u <= 0x96F)
        || (0x9E6 <= u && u <= 0x9EF)
        || (0xA66 <= u && u <= 0xA6F)
        || (0xAE6 <= u && u <= 0xAEF)
        || (0xB66 <= u && u <= 0xB6F)
        || (0xBE6 <= u && u <= 0xBEF)
        || (0xC66 <= u && u <= 0xC6F)
        || (0xCE6 <= u && u <= 0xCEF)
        || (0xD66 <= u && u <= 0xD6F)
        || (0xDE6 <= u && u <= 0xDEF)
        || (0xE50 <= u && u <= 0xE59)
        || (0xED0 <= u && u <= 0xED9)
        || (0xF20 <= u && u <= 0xF29)
        || (0x1040 <= u && u <= 0x1049)
        || (0x1090 <= u && u <= 0x1099)
        || (0x17E0 <= u && u <= 0x17E9)
        || (0x1810 <= u && u <= 0x1819)
        || (0x1946 <= u && u <= 0x194F)
        || (0x19D0 <= u && u <= 0x19D9)
        || (0x1A80 <= u && u <= 0x1A89)
        || (0x1A90 <= u && u <= 0x1A99)
        || (0x1B50 <= u && u <= 0x1B59)
        || (0x1BB0 <= u && u <= 0x1BB9)
        || (0x1C40 <= u && u <= 0x1C49)
        || (0x1C50 <= u && u <= 0x1C59)
        || (0xA620 <= u && u <= 0xA629)
        || (0xA8D0 <= u && u <= 0xA8D9)
        || (0xA900 <= u && u <= 0xA909)
        || (0xA9D0 <= u && u <= 0xA9D9)
        || (0xA9F0 <= u && u <= 0xA9F9)
        || (0xAA50 <= u && u <= 0xAA59)
        || (0xABF0 <= u && u <= 0xABF9)
        || (0xFF10 <= u && u <= 0xFF19)
        || (0x104A0 <= u && u <= 0x104A9)
        || (0x10D30 <= u && u <= 0x10D39)
        || (0x10D40 <= u && u <= 0x10D49)
        || (0x11066 <= u && u <= 0x1106F)
        || (0x110F0 <= u && u <= 0x110F9)
        || (0x11136 <= u && u <= 0x1113F)
        || (0x111D0 <= u && u <= 0x111D9)
        || (0x112F0 <= u && u <= 0x112F9)
        || (0x11450 <= u && u <= 0x11459)
        || (0x114D0 <= u && u <= 0x114D9)
        || (0x11650 <= u && u <= 0x11659)
        || (0x116C0 <= u && u <= 0x116C9)
        || (0x116D0 <= u && u <= 0x116E3)
        || (0x11730 <= u && u <= 0x11739)
        || (0x118E0 <= u && u <= 0x118E9)
        || (0x11950 <= u && u <= 0x11959)
        || (0x11BF0 <= u && u <= 0x11BF9)
        || (0x11C50 <= u && u <= 0x11C59)
        || (0x11D50 <= u && u <= 0x11D59)
        || (0x11DA0 <= u && u <= 0x11DA9)
        || (0x11F50 <= u && u <= 0x11F59)
        || (0x16130 <= u && u <= 0x16139)
        || (0x16A60 <= u && u <= 0x16A69)
        || (0x16AC0 <= u && u <= 0x16AC9)
        || (0x16B50 <= u && u <= 0x16B59)
        || (0x16D70 <= u && u <= 0x16D79)
        || (0x1CCF0 <= u && u <= 0x1CCF9)
        || (0x1D7CE <= u && u <= 0x1D7FF)
        || (0x1E140 <= u && u <= 0x1E149)
        || (0x1E2F0 <= u && u <= 0x1E2F9)
        || (0x1E4F0 <= u && u <= 0x1E4F9)
        || (0x1E5F1 <= u && u <= 0x1E5FA)
        || (0x1E950 <= u && u <= 0x1E959)
        || (0x1FBF0 <= u && u <= 0x1FBF9)
}

/// Whether `c` is a Unicode decimal digit.
pub fn char_is_decimal_digit(c: char) -> (r: bool)
    ensures
        r == is_decimal_digit(c),
{
    let u = c as u32;
    (0x30 <= u && u <= 0x39)
        || (0x660 <= u && u <= 0x669)
        || (0x6F0 <= u && u <= 0x6F9)
        || (0x7C0 <= u && u <= 0x7C9)
        || (0x966 <= u && u <= 0x96F)
        || (0x9E6 <= u && u <= 0x9EF)
        || (0xA66 <= u && u <= 0xA6F)
        || (0xAE6 <= u && u <= 0xAEF)
        || (0xB66 <= u && u <= 0xB6F)
        || (0xBE6 <= u && u <= 0xBEF)
        || (0xC66 <= u && u <= 0xC6F)
        || (0xCE6 <= u && u <= 0xCEF)
        || (0xD66 <= u && u <= 0xD6F)
        || (0xDE6 <= u && u <= 0xDEF)
        || (0xE50 <= u && u <= 0xE59)
        || (0xED0 <= u && u <= 0xED9)
        || (0xF20 <= u && u <= 0xF29)
        || (0x1040 <= u && u <= 0x1049)
        || (0x1090 <= u && u <= 0x1099)
        || (0x17E0 <= u && u <= 0x17E9)
        || (0x1810 <= u && u <= 0x1819)
        || (0x1946 <= u && u <= 0x194F)
        || (0x19D0 <= u && u <= 0x19D9)
        || (0x1A80 <= u && u <= 0x1A89)
        || (0x1A90 <= u && u <= 0x1A99)
        || (0x1B50 <= u && u <= 0x1B59)
        || (0x1BB0 <= u && u <= 0x1BB9)
        || (0x1C40 <= u && u <= 0x1C49)
        || (0x1C50 <= u && u <= 0x1C59)
        || (0xA620 <= u && u <= 0xA629)
        || (0xA8D0 <= u && u <= 0xA8D9)
        || (0xA900 <= u && u <= 0xA909)
        || (0xA9D0 <= u && u <= 0xA9D9)
        || (0xA9F0 <= u && u <= 0xA9F9)
        || (0xAA50 <= u && u <= 0xAA59)
        || (0xABF0 <= u && u <= 0xABF9)
        || (0xFF10 <= u && u <= 0xFF19)
        || (0x104A0 <= u && u <= 0x104A9)
        || (0x10D30 <= u && u <= 0x10D39)
        || (0x10D40 <= u && u <= 0x10D49)
        || (0x11066 <= u && u <= 0x1106F)
        || (0x110F0 <= u && u <= 0x110F9)
        || (0x11136 <= u && u <= 0x1113F)
        || (0x111D0 <= u && u <= 0x111D9)
        || (0x112F0 <= u && u <= 0x112F9)
        || (0x11450 <= u && u <= 0x11459)
        || (0x114D0 <= u && u <= 0x114D9)
        || (0x11650 <= u && u <= 0x11659)
        || (0x116C0 <= u && u <= 0x116C9)
        || (0x116D0 <= u && u <= 0x116E3)
        || (0x11730 <= u && u <= 0x11739)
        || (0x118E0 <= u && u <= 0x118E9)
        || (0x11950 <= u && u <= 0x11959)
        || (0x11BF0 <= u && u <= 0x11BF9)
        || (0x11C50 <= u && u <= 0x11C59)
        || (0x11D50 <= u && u <= 0x11D59)
        || (0x11DA0 <= u && u <= 0x11DA9)
        || (0x11F50 <= u && u <= 0x11F59)
        || (0x16130 <= u && u <= 0x16139)
        || (0x16A60 <= u && u <= 0x16A69)
        || (0x16AC0 <= u && u <= 0x16AC9)
        || (0x16B50 <= u && u <= 0x16B59)
        || (0x16D70 <= u && u <= 0x16D79)
        || (0x1CCF0 <= u && u <= 0x1CCF9)
        || (0x1D7CE <= u && u <= 0x1D7FF)
        || (0x1E140 <= u && u <= 0x1E149)
        || (0x1E2F0 <= u && u <= 0x1E2F9)
        || (0x1E4F0 <= u && u <= 0x1E4F9)
        || (0x1E5F1 <= u && u <= 0x1E5FA)
        || (0x1E950 <= u && u <= 0x1E959)
        || (0x1FBF0 <= u && u <= 0x1FBF9)
}

/// `c` belongs to the character class `kind`.
pub open spec fn in_class(c: char, kind: u8) -> bool {
    if kind == WS {
        is_ws(c)
    } else if kind == DIGIT {
        is_decimal_digit(c)
    } else if kind == NONWS {
        !is_ws(c)
    } else {
        c != '"'
    }
}

/// Where the run of characters of class `kind` that starts at `i` ends.
pub open spec fn run_end(s: Seq<char>, i: int, kind: u8) -> int
    decreases s.len() - i,
{
    if 0 <= i < s.len() && in_class(s[i], kind) {
        run_end(s, i + 1, kind)
    } else {
        i
    }
}

fn char_in_class(c: char, kind: u8) -> (r: bool)
    requires
        kind <= 3,
    ensures
        r == in_class(c, kind),
{
    if kind == WS {
        char_is_ws(c)
    } else if kind == DIGIT {
        char_is_decimal_digit(c)
    } else if kind == NONWS {
        !char_is_ws(c)
    } else {
        c != '"'
    }
}

/// `run_end` on `v`.
pub fn scan_run(v: &Vec<char>, i: usize, kind: u8) -> (r: usize)
    requires
        i <= v.len(),
        kind <= 3,
    ensures
        i <= r <= v.len(),
        r as int == run_end(v@, i as int, kind),
{
    let mut j = i;
    while j < v.len() && char_in_class(v[j], kind)
        invariant
            i <= j <= v.len(),
            kind <= 3,
            run_end(v@, i as int, kind) == run_end(v@, j as int, kind),
        decreases v.len() - j,
    {
        j = j + 1;
    }
    j
}


// ---------------------------------------------------------------------
// Where a pattern cannot occur
// ---------------------------------------------------------------------

/// A piece of a text without `p` has no `p` either.
pub proof fn lemma_absent_sub(s: Seq<char>, p: Seq<char>, a: int, b: int)
    requires
        !contains(s, p),
        0 <= a <= b <= s.len(),
    ensures
        !contains(s.subrange(a, b), p),
{
    let t = s.subrange(a, b);
    if contains(t, p) {
        let i = choose|i: int| occurs_at(t, p, i);
        assert(s.subrange(a + i, a + i + p.len()) =~= t.subrange(i, i + p.len()));
        assert(occurs_at(s, p, a + i));
    }
}

/// Two texts without `p`, joined by characters that `p` does not hold, make
/// a text without `p`.
pub proof fn lemma_absent_join(x: Seq<char>, sep: Seq<char>, y: Seq<char>, p: Seq<char>)
    requires
        sep.len() > 0,
        forall|k: int| 0 <= k < sep.len() ==> !p.contains(#[trigger] sep[k]),
        !contains(x, p),
        !contains(y, p),
    ensures
        !contains(x + sep + y, p),
{
    let s = x + sep + y;
    assert(p.len() > 0) by {
        if p.len() == 0 {
            assert(x.subrange(0, 0) =~= p);
            assert(occurs_at(x, p, 0));
        }
    }
    if contains(s, p) {
        let i = choose|i: int| occurs_at(s, p, i);
        assert(0 <= i && i + p.len() <= s.len());
        if i + p.len() <= x.len() {
            assert(x.subrange(i, i + p.len()) =~= s.subrange(i, i + p.len()));
            assert(occurs_at(x, p, i));
        } else if i >= x.len() + sep.len() {
            let j = i - x.len() - sep.len();
            assert(y.subrange(j, j + p.len()) =~= s.subrange(i, i + p.len()));
            assert(occurs_at(y, p, j));
        } else {
            let m: int = if i < x.len() {
                x.len() as int
            } else {
                i
            };
            let k = m - x.len();
            assert(s[m] == sep[k]);
            assert(s.subrange(i, i + p.len())[m - i] == s[m]);
            assert(p[m - i] == sep[k]);
            assert(p.contains(sep[k]));
        }
    }
}

/// A text without a character of `p` has no `p`.
pub proof fn lemma_absent_char(s: Seq<char>, p: Seq<char>, ch: char)
    requires
        p.contains(ch),
        !s.contains(ch),
    ensures
        !contains(s, p),
{
    if contains(s, p) {
        let i = choose|i: int| occurs_at(s, p, i);
        let k = choose|k: int| 0 <= k < p.len() && p[k] == ch;
        assert(s.subrange(i, i + p.len())[k] == s[i + k]);
        assert(s[i + k] == ch);
    }
}

/// What `strip_end_by` leaves is a prefix.
pub proof fn lemma_strip_end_prefix(s: Seq<char>, f: spec_fn(char) -> bool)
    ensures
        strip_end_by(s, f).len() <= s.len(),
        strip_end_by(s, f) == s.take(strip_end_by(s, f).len() as int),
    decreases s.len(),
{
    if s.len() > 0 && f(s.last()) {
        lemma_strip_end_prefix(s.drop_last(), f);
        let k = strip_end_by(s, f).len() as int;
        assert(s.drop_last().take(k) =~= s.take(k));
    } else {
        assert(s.take(s.len() as int) =~= s);
    }
}

/// The number of double quotes in `s`.
pub open spec fn quote_count(s: Seq<char>) -> nat
    decreases s.len(),
{
    if s.len() == 0 {
        0
    } else {
        quote_count(s.drop_first()) + if s[0] == '"' {
            1nat
        } else {
            0nat
        }
    }
}

/// Quotes of a joined text are those of its parts.
pub proof fn lemma_quote_count_add(a: Seq<char>, b: Seq<char>)
    ensures
        quote_count(a + b) == quote_count(a) + quote_count(b),
    decreases a.len(),
{
    if a.len() == 0 {
        assert(a + b =~= b);
    } else {
        assert((a + b).drop_first() =~= a.drop_first() + b);
        lemma_quote_count_add(a.drop_first(), b);
    }
}

/// A text has no quote exactly when it counts none.
pub proof fn lemma_quote_count_free(s: Seq<char>)
    ensures
        (quote_count(s) == 0) == !s.contains('"'),
    decreases s.len(),
{
    if s.len() > 0 {
        lemma_quote_count_free(s.drop_first());
        if s.drop_first().contains('"') {
            let j = choose|j: int| 0 <= j < s.len() - 1 && s.drop_first()[j] == '"';
            assert(s[j + 1] == '"');
        }
        if s.contains('"') && s[0] != '"' {
            let j = choose|j: int| 0 <= j < s.len() && s[j] == '"';
            assert(s.drop_first()[j - 1] == '"');
        }
    }
}

/// `"a"b"c"`: three fields, each in double quotes but the last, closed by a quote.
#[verifier::opaque]
pub open spec fn quoted3(a: Seq<char>, b: Seq<char>, c: Seq<char>) -> Seq<char> {
    seq!['"'] + a + seq!['"'] + b + seq!['"'] + c + seq!['"']
}

/// Splitting at the first quote: the parts before and after it agree.
proof fn lemma_quote_split(x: Seq<char>, u: Seq<char>, y: Seq<char>, v: Seq<char>)
    requires
        !x.contains('"'),
        !y.contains('"'),
        x + seq!['"'] + u == y + seq!['"'] + v,
    ensures
        x == y,
        u == v,
{
    let s = x + seq!['"'] + u;
    let t = y + seq!['"'] + v;
    if x.len() < y.len() {
        assert(s[x.len() as int] == '"');
        assert(t[x.len() as int] == y[x.len() as int]);
    } else if y.len() < x.len() {
        assert(t[y.len() as int] == '"');
        assert(s[y.len() as int] == x[y.len() as int]);
    }
    assert(x =~= s.take(x.len() as int));
    assert(y =~= t.take(y.len() as int));
    assert(u =~= s.skip(x.len() as int + 1));
    assert(v =~= t.skip(y.len() as int + 1));
}

/// Three quote-free fields in quotes hold four quotes.
proof fn lemma_quoted3_count(a: Seq<char>, b: Seq<char>, c: Seq<char>)
    requires
        !a.contains('"'),
        !b.contains('"'),
        !c.contains('"'),
    ensures
        quote_count(quoted3(a, b, c)) == 4,
{
    reveal(quoted3);
    let q = seq!['"'];
    assert(quote_count(q) == 1) by {
        reveal_with_fuel(quote_count, 2);
    }
    lemma_quote_count_free(a);
    lemma_quote_count_free(b);
    lemma_quote_count_free(c);
    lemma_quote_count_add(q, a);
    lemma_quote_count_add(q + a, q);
    lemma_quote_count_add(q + a + q, b);
    lemma_quote_count_add(q + a + q + b, q);
    lemma_quote_count_add(q + a + q + b + q, c);
    lemma_quote_count_add(q + a + q + b + q + c, q);
}

/// A text `p` that opens with a quote and occurs after the quote-free `x`
/// in `x + t`, where `t` opens and closes with a quote and holds as many
/// quotes as `p`, is all of `t`.
proof fn lemma_quote_window(x: Seq<char>, t: Seq<char>, p: Seq<char>)
    requires
        !x.contains('"'),
        t.len() > 0,
        t[0] == '"',
        t[t.len() - 1] == '"',
        p.len() > 0,
        p[0] == '"',
        quote_count(t) == quote_count(p),
        contains(x + t, p),
    ensures
        t == p,
{
    let s = x + t;
    let q = seq!['"'];
    let i = choose|i: int| occurs_at(s, p, i);
    assert(s.subrange(i, i + p.len())[0] == s[i]);
    if i < x.len() {
        assert(s[i] == x[i]);
        assert(x.contains('"'));
    }
    let j = i - x.len();
    assert(t.subrange(j, j + p.len()) =~= s.subrange(i, i + p.len()));
    if j > 0 {
        let d = t.drop_first();
        assert(t =~= q + d);
        assert(quote_count(q) == 1) by {
            reveal_with_fuel(quote_count, 2);
        }
        lemma_quote_count_add(q, d);
        let pre = d.take(j - 1);
        let post = d.skip(j - 1 + p.len());
        assert(d =~= pre + p + post);
        lemma_quote_count_add(pre, p);
        lemma_quote_count_add(pre + p, post);
        assert(false);
    }
    let r = t.skip(p.len() as int);
    assert(t =~= p + r);
    lemma_quote_count_add(p, r);
    lemma_quote_count_free(r);
    if r.len() > 0 {
        assert(r[r.len() - 1] == t[t.len() - 1]);
        assert(r.contains('"'));
    }
    assert(t =~= p);
}

/// A three-field quoted text opens and closes with a quote, and after its
/// opening quote comes its first field, a quote, and the rest.
proof fn lemma_quoted3_shape(a: Seq<char>, b: Seq<char>, c: Seq<char>)
    ensures
        quoted3(a, b, c).len() > 0,
        quoted3(a, b, c)[0] == '"',
        quoted3(a, b, c)[quoted3(a, b, c).len() - 1] == '"',
        quoted3(a, b, c).drop_first() == a + seq!['"'] + (b + seq!['"'] + (c + seq!['"'])),
{
    reveal(quoted3);
    let q = seq!['"'];
    let t = quoted3(a, b, c);
    assert(t =~= q + (a + q + (b + q + (c + q))));
    assert(t.drop_first() =~= a + q + (b + q + (c + q)));
}

/// Where a three-field quoted text occurs in one that holds no quote but in
/// another three-field quoted text at its end, the fields agree.
pub proof fn lemma_quoted3_window(
    x: Seq<char>,
    f1: Seq<char>,
    f2: Seq<char>,
    f3: Seq<char>,
    e1: Seq<char>,
    e2: Seq<char>,
    e3: Seq<char>,
)
    requires
        !x.contains('"'),
        !f1.contains('"'),
        !f2.contains('"'),
        !f3.contains('"'),
        !e1.contains('"'),
        !e2.contains('"'),
        !e3.contains('"'),
        contains(x + quoted3(f1, f2, f3), quoted3(e1, e2, e3)),
    ensures
        f1 == e1,
        f2 == e2,
        f3 == e3,
{
    let q = seq!['"'];
    let t = quoted3(f1, f2, f3);
    let p = quoted3(e1, e2, e3);
    lemma_quoted3_count(f1, f2, f3);
    lemma_quoted3_count(e1, e2, e3);
    lemma_quoted3_shape(f1, f2, f3);
    lemma_quoted3_shape(e1, e2, e3);
    lemma_quote_window(x, t, p);
    let tf = f2 + q + (f3 + q);
    let te = e2 + q + (e3 + q);
    lemma_quote_split(f1, tf, e1, te);
    lemma_quote_split(f2, f3 + q, e2, e3 + q);
    assert(f3 =~= (f3 + q).drop_last());
    assert(e3 =~= (e3 + q).drop_last());
}

/// Replacing a pattern by itself changes nothing.
pub proof fn lemma_replace_same(s: Seq<char>, p: Seq<char>)
    ensures
        replace_all(s, p, p) == s,
    decreases s.len(),
{
    if p.len() == 0 || s.len() < p.len() {
    } else if s.take(p.len() as int) == p {
        lemma_replace_same(s.skip(p.len() as int), p);
        assert(p + s.skip(p.len() as int) =~= s);
    } else {
        lemma_replace_same(s.drop_first(), p);
        assert(seq![s[0]] + s.drop_first() =~= s);
    }
}

} // verus!
