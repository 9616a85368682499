//! Commit-message handling: stripping trailer lines (`Key: value` lines at
//! the tail of a message) and splitting a message into its header and body.

use vstd::prelude::*;

use crate::text::{str_to_chars, string_from_chars};

verus! {

/// Whitespace, as the trailer and splitter grammars know it.
pub open spec fn spec_is_ws(c: char) -> bool {
    c == ' ' || c == '\t' || c == '\n' || c == '\r' || c == '\u{b}' || c == '\u{c}'
}

/// A character a trailer key may consist of.
pub open spec fn spec_is_key_char(c: char) -> bool {
    ('a' <= c && c <= 'z') || ('A' <= c && c <= 'Z') || c == '-'
}

/// The sequence with trailing whitespace removed.
pub open spec fn spec_trim_end(s: Seq<char>) -> Seq<char>
    decreases s.len(),
{
    if s.len() == 0 {
        s
    } else if spec_is_ws(s.last()) {
        spec_trim_end(s.drop_last())
    } else {
        s
    }
}

/// The sequence with leading whitespace removed.
pub open spec fn spec_trim_start(s: Seq<char>) -> Seq<char>
    decreases s.len(),
{
    if s.len() == 0 {
        s
    } else if spec_is_ws(s.first()) {
        spec_trim_start(s.drop_first())
    } else {
        s
    }
}

/// The sequence trimmed on both ends.
pub open spec fn spec_trim(s: Seq<char>) -> Seq<char> {
    spec_trim_end(spec_trim_start(s))
}

/// The start of the last line of `s`: one past the last newline, or zero.
pub open spec fn spec_line_start(s: Seq<char>) -> int
    decreases s.len(),
{
    if s.len() == 0 {
        0
    } else if s.last() == '\n' {
        s.len() as int
    } else {
        spec_line_start(s.drop_last())
    }
}

/// How many leading characters of `line` are key characters.
pub open spec fn spec_key_len(line: Seq<char>) -> int
    decreases line.len(),
{
    if line.len() == 0 || !spec_is_key_char(line.first()) {
        0
    } else {
        1 + spec_key_len(line.drop_first())
    }
}

/// How many characters of `line` from `i` on are whitespace.
pub open spec fn spec_ws_len(line: Seq<char>, i: int) -> int
    decreases line.len() - i,
{
    if i < 0 || i >= line.len() || !spec_is_ws(line[i]) {
        0
    } else {
        1 + spec_ws_len(line, i + 1)
    }
}

/// Parses the trailer line starting at `ls` in the end-trimmed message `t`:
/// `key <ws>* : <ws>* value`, the value trimmed at its end.
pub open spec fn spec_parse_trailer(t: Seq<char>, ls: int) -> Option<(Seq<char>, Seq<char>)> {
    let k = spec_key_len(t.subrange(ls, t.len() as int));
    if k < 1 {
        None
    } else {
        let m = ls + k + spec_ws_len(t, ls + k);
        if m < t.len() && t[m] == ':' {
            let v = m + 1 + spec_ws_len(t, m + 1);
            Some((t.subrange(ls, ls + k), spec_trim_end(t.subrange(v, t.len() as int))))
        } else {
            None
        }
    }
}

/// How far back the whitespace run ending at `end` extends.
pub open spec fn spec_ws_run_start(s: Seq<char>, end: int) -> int
    decreases end,
{
    if end <= 0 || end > s.len() || !spec_is_ws(s[end - 1]) {
        end
    } else {
        spec_ws_run_start(s, end - 1)
    }
}

/// The trailer at the tail of `s`, with the truncation point before it:
/// the last non-blank line must parse as a trailer, and the cut swallows
/// the whitespace run before that line.
pub open spec fn spec_tail_trailer(s: Seq<char>) -> Option<(int, Seq<char>, Seq<char>)> {
    let trimmed = spec_trim_end(s);
    if trimmed.len() == 0 {
        None
    } else {
        let ls = spec_line_start(trimmed);
        match spec_parse_trailer(trimmed, ls) {
            Some((k, v)) => Some((spec_ws_run_start(s, ls), k, v)),
            None => None,
        }
    }
}

/// The message with every tail trailer line removed, innermost first.
pub open spec fn spec_strip_trailers(s: Seq<char>) -> Seq<char>
    decreases s.len(),
{
    match spec_tail_trailer(s) {
        Some((cut, k, v)) => if 0 <= cut < s.len() {
            spec_strip_trailers(s.subrange(0, cut))
        } else {
            s
        },
        None => s,
    }
}

/// A fully stripped message has no tail trailer left.
pub proof fn lemma_stripped_has_no_trailer(s: Seq<char>)
    ensures
        spec_tail_trailer(spec_strip_trailers(s)) matches Some((cut, k, v)) ==> !(0 <= cut
            < spec_strip_trailers(s).len()),
    decreases s.len(),
{
    match spec_tail_trailer(s) {
        Some((cut, k, v)) => {
            if 0 <= cut < s.len() {
                lemma_stripped_has_no_trailer(s.subrange(0, cut));
            }
        },
        None => {},
    }
}

/// Stripping trailers is idempotent.
pub proof fn lemma_strip_trailers_idempotent(s: Seq<char>)
    ensures
        spec_strip_trailers(spec_strip_trailers(s)) == spec_strip_trailers(s),
{
    lemma_stripped_has_no_trailer(s);
}

/// Whether a character is whitespace.
fn is_ws(c: char) -> (r: bool)
    ensures
        r == spec_is_ws(c),
{
    c == ' ' || c == '\t' || c == '\n' || c == '\r' || c == '\u{b}' || c == '\u{c}'
}

/// Whether a character may stand in a trailer key.
fn is_key_char(c: char) -> (r: bool)
    ensures
        r == spec_is_key_char(c),
{
    ('a' <= c && c <= 'z') || ('A' <= c && c <= 'Z') || c == '-'
}

/// One past the last non-whitespace character of `v` before `end`.
fn trim_end_index(v: &Vec<char>, end: usize) -> (e: usize)
    requires
        end <= v@.len(),
    ensures
        e <= end,
        spec_trim_end(v@.subrange(0, end as int)) == v@.subrange(0, e as int),
        e > 0 ==> !spec_is_ws(v@[e - 1]),
{
    let mut e = end;
    while e > 0
        invariant_except_break
            e > 0 ==> spec_is_ws(v@[e as int - 1]) || spec_trim_end(v@.subrange(0, end as int))
                == v@.subrange(0, e as int),
        invariant
            e <= end,
            end <= v@.len(),
            spec_trim_end(v@.subrange(0, end as int)) == spec_trim_end(v@.subrange(0, e as int)),
        ensures
            e <= end,
            spec_trim_end(v@.subrange(0, end as int)) == v@.subrange(0, e as int),
            e > 0 ==> !spec_is_ws(v@[e as int - 1]),
        decreases e,
    {
        proof {
            assert(v@.subrange(0, e as int).last() == v@[e - 1]);
            assert(v@.subrange(0, e as int).drop_last() =~= v@.subrange(0, e - 1));
        }
        if !is_ws(v[e - 1]) {
            proof {
                assert(spec_trim_end(v@.subrange(0, e as int)) == v@.subrange(0, e as int));
            }
            break ;
        }
        proof {
            assert(spec_is_ws(v@.subrange(0, e as int).last()));
            assert(spec_trim_end(v@.subrange(0, e as int)) == spec_trim_end(
                v@.subrange(0, e as int).drop_last(),
            ));
            assert(spec_trim_end(v@.subrange(0, e as int)) == spec_trim_end(
                v@.subrange(0, e - 1),
            ));
        }
        e = e - 1;
    }
    proof {
        if e == 0 {
            assert(v@.subrange(0, 0) =~= Seq::<char>::empty());
        }
    }
    e
}

/// The start of the last line of `v`'s prefix of length `e`.
fn line_start_index(v: &Vec<char>, e: usize) -> (ls: usize)
    requires
        e <= v@.len(),
    ensures
        ls <= e,
        ls as int == spec_line_start(v@.subrange(0, e as int)),
{
    let mut i = e;
    while i > 0
        invariant_except_break
            i > 0 ==> v@[i as int - 1] == '\n' || spec_line_start(v@.subrange(0, e as int))
                == spec_line_start(v@.subrange(0, i as int)),
        invariant
            i <= e,
            e <= v@.len(),
            spec_line_start(v@.subrange(0, e as int)) == spec_line_start(
                v@.subrange(0, i as int),
            ),
        ensures
            i <= e,
            i as int == spec_line_start(v@.subrange(0, e as int)),
        decreases i,
    {
        proof {
            assert(v@.subrange(0, i as int).last() == v@[i - 1]);
            assert(v@.subrange(0, i as int).drop_last() =~= v@.subrange(0, i - 1));
        }
        if v[i - 1] == '\n' {
            proof {
                assert(spec_line_start(v@.subrange(0, i as int)) == i as int);
            }
            break ;
        }
        i = i - 1;
    }
    proof {
        if i == 0 {
            assert(v@.subrange(0, 0) =~= Seq::<char>::empty());
        }
    }
    i
}

/// How far the whitespace run ending at `end` reaches back.
fn ws_run_start_index(v: &Vec<char>, end: usize) -> (c: usize)
    requires
        end <= v@.len(),
    ensures
        c <= end,
        c as int == spec_ws_run_start(v@, end as int),
{
    let mut i = end;
    while i > 0
        invariant_except_break
            i > 0 ==> !spec_is_ws(v@[i as int - 1]) || spec_ws_run_start(v@, end as int)
                == spec_ws_run_start(v@, i as int),
        invariant
            i <= end,
            end <= v@.len(),
            spec_ws_run_start(v@, end as int) == spec_ws_run_start(v@, i as int),
        ensures
            i <= end,
            i as int == spec_ws_run_start(v@, end as int),
        decreases i,
    {
        if !is_ws(v[i - 1]) {
            proof {
                assert(spec_ws_run_start(v@, i as int) == i as int);
            }
            break ;
        }
        i = i - 1;
    }
    proof {
        if i == 0 {
            assert(spec_ws_run_start(v@, 0) == 0);
        }
    }
    i
}

/// How many characters of `v` from `i` (up to `end`) are key characters.
fn key_scan(v: &Vec<char>, from: usize, end: usize) -> (k: usize)
    requires
        from <= end,
        end <= v@.len(),
    ensures
        from + spec_key_len(v@.subrange(from as int, end as int)) == k,
        from <= k <= end,
{
    let ghost line = v@.subrange(from as int, end as int);
    let mut i = from;
    while i < end
        invariant_except_break
            i < end ==> !spec_is_key_char(v@[i as int]) || spec_key_len(line) == i - from
                + spec_key_len(v@.subrange(i as int, end as int)),
        invariant
            from <= i <= end,
            end <= v@.len(),
            line == v@.subrange(from as int, end as int),
            spec_key_len(line) == i - from + spec_key_len(v@.subrange(i as int, end as int)),
        ensures
            from <= i <= end,
            spec_key_len(line) == i - from,
        decreases end - i,
    {
        proof {
            assert(v@.subrange(i as int, end as int).first() == v@[i as int]);
            assert(v@.subrange(i as int, end as int).drop_first() =~= v@.subrange(
                i + 1,
                end as int,
            ));
        }
        if !is_key_char(v[i]) {
            proof {
                assert(spec_key_len(v@.subrange(i as int, end as int)) == 0);
            }
            break ;
        }
        i = i + 1;
    }
    proof {
        if i == end {
            assert(v@.subrange(end as int, end as int) =~= Seq::<char>::empty());
            assert(spec_key_len(v@.subrange(end as int, end as int)) == 0);
        }
    }
    i
}

/// The trailers gathered while stripping, later lines first, an earlier
/// line's value overwriting a later one's under the same key.
pub open spec fn spec_collect_trailers(
    s: Seq<char>,
    acc: Seq<(Seq<char>, Seq<char>)>,
) -> Seq<(Seq<char>, Seq<char>)>
    decreases s.len(),
{
    match spec_tail_trailer(s) {
        Some((cut, k, v)) => if 0 <= cut < s.len() {
            spec_collect_trailers(s.subrange(0, cut), crate::ordmap::spec_assoc_set(acc, k, v))
        } else {
            acc
        },
        None => acc,
    }
}

/// The trailer map with each value replaced by its view.
pub open spec fn spec_str_assoc_view(m: Seq<(Seq<char>, String)>) -> Seq<(Seq<char>, Seq<char>)> {
    Seq::new(m.len(), |i: int| (m[i].0, m[i].1@))
}

/// Setting a binding commutes with taking value views.
proof fn lemma_str_view_set(m: Seq<(Seq<char>, String)>, k: Seq<char>, v: String)
    ensures
        spec_str_assoc_view(crate::ordmap::spec_assoc_set(m, k, v))
            == crate::ordmap::spec_assoc_set(spec_str_assoc_view(m), k, v@),
    decreases m.len(),
{
    if m.len() == 0 {
        assert(spec_str_assoc_view(seq![(k, v)]) =~= seq![(k, v@)]);
    } else if m[0].0 == k {
        assert(spec_str_assoc_view(m)[0] == (m[0].0, m[0].1@));
        assert(spec_str_assoc_view(seq![(k, v)] + m.drop_first()) =~= seq![(k, v@)]
            + spec_str_assoc_view(m).drop_first());
        assert(spec_str_assoc_view(m).drop_first() =~= spec_str_assoc_view(m.drop_first()));
    } else {
        lemma_str_view_set(m.drop_first(), k, v);
        assert(spec_str_assoc_view(m)[0] == (m[0].0, m[0].1@));
        assert(spec_str_assoc_view(m).drop_first() =~= spec_str_assoc_view(m.drop_first()));
        assert(spec_str_assoc_view(
            seq![m[0]] + crate::ordmap::spec_assoc_set(m.drop_first(), k, v),
        ) =~= seq![(m[0].0, m[0].1@)] + spec_str_assoc_view(
            crate::ordmap::spec_assoc_set(m.drop_first(), k, v),
        ));
        assert(crate::ordmap::spec_assoc_set(spec_str_assoc_view(m), k, v@) =~= seq![
            (m[0].0, m[0].1@),
        ] + crate::ordmap::spec_assoc_set(spec_str_assoc_view(m.drop_first()), k, v@));
    }
}

/// Splits off every trailer line at the tail of the message: the remaining
/// message, and the trailers keyed by their names.
pub fn remove_trailers(msg: &str) -> (r: (String, crate::ordmap::StrMap<String>))
    ensures
        r.0@ == spec_strip_trailers(msg@),
        spec_str_assoc_view(r.1@) == spec_collect_trailers(msg@, Seq::empty()),
{
    let mut chars = str_to_chars(msg);
    let mut trailers: crate::ordmap::StrMap<String> = crate::ordmap::StrMap::new();
    proof {
        assert(spec_str_assoc_view(trailers@) =~= Seq::<(Seq<char>, Seq<char>)>::empty());
    }
    loop
        invariant
            spec_strip_trailers(msg@) == spec_strip_trailers(chars@),
            spec_collect_trailers(msg@, Seq::empty()) == spec_collect_trailers(
                chars@,
                spec_str_assoc_view(trailers@),
            ),
        ensures
            spec_tail_trailer(chars@) matches Some((cut, k, v)) ==> !(0 <= cut < chars@.len()),
            spec_strip_trailers(msg@) == chars@,
            spec_collect_trailers(msg@, Seq::empty()) == spec_str_assoc_view(trailers@),
        decreases chars@.len(),
    {
        let ghost cv = chars@;
        let e = trim_end_index(&chars, chars.len());
        proof {
            assert(cv.subrange(0, cv.len() as int) =~= cv);
        }
        if e == 0 {
            proof {
                assert(spec_tail_trailer(cv) is None);
                assert(spec_strip_trailers(cv) == cv);
            }
            break ;
        }
        let ls = line_start_index(&chars, e);
        let ghost trimmed = cv.subrange(0, e as int);
        let k_end = key_scan(&chars, ls, e);
        proof {
            assert(cv.subrange(ls as int, e as int) =~= trimmed.subrange(
                ls as int,
                trimmed.len() as int,
            ));
        }
        if k_end == ls {
            proof {
                assert(spec_parse_trailer(trimmed, ls as int) is None);
                assert(spec_tail_trailer(cv) is None);
                assert(spec_strip_trailers(cv) == cv);
            }
            break ;
        }
        let m = ws_scan(&chars, k_end, e);
        proof {
            assert(m - k_end == spec_ws_len(trimmed, k_end as int));
        }
        if m >= e || chars[m] != ':' {
            proof {
                assert(spec_parse_trailer(trimmed, ls as int) is None);
                assert(spec_tail_trailer(cv) is None);
                assert(spec_strip_trailers(cv) == cv);
            }
            break ;
        }
        let vstart = ws_scan(&chars, m + 1, e);
        proof {
            assert(vstart - (m + 1) == spec_ws_len(trimmed, m as int + 1));
        }
        let mut key: Vec<char> = Vec::new();
        let mut x = ls;
        while x < k_end
            invariant
                ls <= x <= k_end,
                k_end <= e,
                e <= chars@.len(),
                cv == chars@,
                key@ =~= cv.subrange(ls as int, x as int),
            decreases k_end - x,
        {
            key.push(chars[x]);
            proof {
                assert(cv.subrange(ls as int, x + 1) =~= cv.subrange(ls as int, x as int).push(
                    cv[x as int],
                ));
            }
            x = x + 1;
        }
        let mut value: Vec<char> = Vec::new();
        let mut x = vstart;
        while x < e
            invariant
                vstart <= x <= e,
                e <= chars@.len(),
                cv == chars@,
                value@ =~= cv.subrange(vstart as int, x as int),
            decreases e - x,
        {
            value.push(chars[x]);
            proof {
                assert(cv.subrange(vstart as int, x + 1) =~= cv.subrange(
                    vstart as int,
                    x as int,
                ).push(cv[x as int]));
            }
            x = x + 1;
        }
        proof {
            assert(trimmed.subrange(vstart as int, trimmed.len() as int) =~= cv.subrange(
                vstart as int,
                e as int,
            ));
            if vstart < e {
                assert(!spec_is_ws(trimmed[e - 1]));
                assert(cv.subrange(vstart as int, e as int).last() == trimmed[e - 1]);
                assert(spec_trim_end(cv.subrange(vstart as int, e as int)) == cv.subrange(
                    vstart as int,
                    e as int,
                ));
            } else {
                assert(cv.subrange(vstart as int, e as int).len() == 0);
                assert(spec_trim_end(cv.subrange(vstart as int, e as int)) == cv.subrange(
                    vstart as int,
                    e as int,
                ));
            }
            assert(spec_parse_trailer(trimmed, ls as int) == Some((key@, value@)));
        }
        let cut = ws_run_start_index(&chars, ls);
        proof {
            assert(spec_tail_trailer(cv) == Some((cut as int, key@, value@)));
            assert(cut < cv.len());
        }
        let key_string = string_from_chars(&key);
        let value_string = string_from_chars(&value);
        proof {
            lemma_str_view_set(trailers@, key@, value_string);
        }
        trailers.set(key_string, value_string);
        chars.truncate(cut);
        proof {
            assert(chars@ =~= cv.subrange(0, cut as int));
        }
    }
    (string_from_chars(&chars), trailers)
}

/// How many characters of `v` from `i` (up to `end`) are whitespace.
fn ws_scan(v: &Vec<char>, from: usize, end: usize) -> (k: usize)
    requires
        from <= end,
        end <= v@.len(),
    ensures
        from <= k <= end,
        (k - from) as int == spec_ws_len(v@.subrange(0, end as int), from as int),
{
    let ghost line = v@.subrange(0, end as int);
    let mut i = from;
    while i < end
        invariant_except_break
            i < end ==> !spec_is_ws(v@[i as int]) || spec_ws_len(line, from as int) == i - from
                + spec_ws_len(line, i as int),
        invariant
            from <= i <= end,
            end <= v@.len(),
            line == v@.subrange(0, end as int),
            spec_ws_len(line, from as int) == i - from + spec_ws_len(line, i as int),
        ensures
            from <= i <= end,
            (i - from) as int == spec_ws_len(line, from as int),
        decreases end - i,
    {
        proof {
            assert(line[i as int] == v@[i as int]);
        }
        if !is_ws(v[i]) {
            proof {
                assert(spec_ws_len(line, i as int) == 0);
            }
            break ;
        }
        i = i + 1;
    }
    proof {
        if i == end {
            assert(spec_ws_len(line, end as int) == 0);
        }
    }
    i
}

/// The last newline in `s[from..to)`, or `-1`.
pub open spec fn spec_last_nl(s: Seq<char>, from: int, to: int) -> int
    decreases to - from,
{
    if from < 0 || from >= to || to > s.len() {
        -1
    } else if s[to - 1] == '\n' {
        to - 1
    } else {
        spec_last_nl(s, from, to - 1)
    }
}

/// The first paragraph break of `s` at or after `i`: the position of its
/// first newline and the position just past its last newline, where a
/// break is a newline followed, within the same whitespace run, by another.
pub open spec fn spec_find_break(s: Seq<char>, i: int) -> Option<(int, int)>
    decreases s.len() - i,
{
    if i < 0 || i >= s.len() {
        None
    } else if s[i] == '\n' && spec_last_nl(s, i + 1, i + 1 + spec_ws_len(s, i + 1)) >= 0 {
        Some((i, spec_last_nl(s, i + 1, i + 1 + spec_ws_len(s, i + 1)) + 1))
    } else {
        spec_find_break(s, i + 1)
    }
}

/// Newlines replaced by spaces.
pub open spec fn spec_collapse(s: Seq<char>) -> Seq<char> {
    s.map_values(
        |c: char|
            if c == '\n' {
                ' '
            } else {
                c
            },
    )
}

/// The header and optional body of a message: the text before the first
/// paragraph break, trimmed, its newlines collapsed to spaces; and the
/// trimmed text after the break, when any remains.
pub open spec fn spec_split_message(s: Seq<char>) -> (Seq<char>, Option<Seq<char>>) {
    match spec_find_break(s, 0) {
        None => (spec_collapse(spec_trim(s)), None),
        Some((p, e)) => {
            let header = spec_collapse(spec_trim(s.subrange(0, p)));
            let body = spec_trim(s.subrange(e, s.len() as int));
            if body.len() == 0 {
                (header, None)
            } else {
                (header, Some(body))
            }
        },
    }
}

/// The first non-whitespace position of `v` at or after `from` (up to the
/// end).
fn trim_start_index(v: &Vec<char>, from: usize) -> (i: usize)
    requires
        from <= v@.len(),
    ensures
        from <= i <= v@.len(),
        spec_trim_start(v@.subrange(from as int, v@.len() as int)) == v@.subrange(
            i as int,
            v@.len() as int,
        ),
{
    let n = v.len();
    let mut i = from;
    while i < n
        invariant_except_break
            i < n ==> !spec_is_ws(v@[i as int]) || spec_trim_start(
                v@.subrange(from as int, n as int),
            ) == spec_trim_start(v@.subrange(i as int, n as int)),
        invariant
            from <= i <= n,
            n == v@.len(),
            spec_trim_start(v@.subrange(from as int, n as int)) == spec_trim_start(
                v@.subrange(i as int, n as int),
            ),
        ensures
            from <= i <= n,
            n == v@.len(),
            spec_trim_start(v@.subrange(from as int, n as int)) == v@.subrange(
                i as int,
                n as int,
            ),
        decreases n - i,
    {
        proof {
            assert(v@.subrange(i as int, n as int).first() == v@[i as int]);
            assert(v@.subrange(i as int, n as int).drop_first() =~= v@.subrange(i + 1, n as int));
        }
        if !is_ws(v[i]) {
            proof {
                assert(spec_trim_start(v@.subrange(i as int, n as int)) == v@.subrange(
                    i as int,
                    n as int,
                ));
            }
            break ;
        }
        i = i + 1;
    }
    proof {
        if i == n {
            assert(v@.subrange(n as int, n as int) =~= Seq::<char>::empty());
        }
    }
    i
}

/// The trimmed text of `v[from..to)` as a fresh string.
fn trimmed_string(v: &Vec<char>, from: usize, to: usize) -> (r: String)
    requires
        from <= to,
        to <= v@.len(),
    ensures
        r@ == spec_trim(v@.subrange(from as int, to as int)),
{
    let mut piece: Vec<char> = Vec::new();
    let mut x = from;
    while x < to
        invariant
            from <= x <= to,
            to <= v@.len(),
            piece@ =~= v@.subrange(from as int, x as int),
        decreases to - x,
    {
        piece.push(v[x]);
        proof {
            assert(v@.subrange(from as int, x + 1) =~= v@.subrange(from as int, x as int).push(
                v@[x as int],
            ));
        }
        x = x + 1;
    }
    let start = trim_start_index(&piece, 0);
    let end = trim_end_index(&piece, piece.len());
    let ghost pv = piece@;
    proof {
        assert(pv.subrange(0, pv.len() as int) =~= pv);
        assert(spec_trim_start(pv) == pv.subrange(start as int, pv.len() as int));
    }
    let end2 = if end < start {
        start
    } else {
        end
    };
    let mut out: Vec<char> = Vec::new();
    let mut x = start;
    while x < end2
        invariant
            start <= x <= end2,
            end2 <= pv.len(),
            pv == piece@,
            out@ =~= pv.subrange(start as int, x as int),
        decreases end2 - x,
    {
        out.push(piece[x]);
        proof {
            assert(pv.subrange(start as int, x + 1) =~= pv.subrange(start as int, x as int).push(
                pv[x as int],
            ));
        }
        x = x + 1;
    }
    proof {
        lemma_trim_parts(pv, start as int, end as int);
        assert(out@ =~= spec_trim(pv.subrange(0, pv.len() as int)));
        assert(pv.subrange(0, pv.len() as int) =~= pv);
        assert(pv =~= v@.subrange(from as int, to as int));
    }
    string_from_chars(&out)
}

/// The end-trim of a sequence is a prefix whose tail is all whitespace.
proof fn lemma_trim_end_is_prefix(s: Seq<char>)
    ensures
        spec_trim_end(s).len() <= s.len(),
        spec_trim_end(s) == s.subrange(0, spec_trim_end(s).len() as int),
        forall|j: int| spec_trim_end(s).len() <= j < s.len() ==> spec_is_ws(#[trigger] s[j]),
    decreases s.len(),
{
    if s.len() == 0 {
        assert(spec_trim_end(s) =~= s.subrange(0, 0));
    } else if spec_is_ws(s.last()) {
        lemma_trim_end_is_prefix(s.drop_last());
        assert forall|j: int| spec_trim_end(s).len() <= j < s.len() implies spec_is_ws(
            #[trigger] s[j],
        ) by {
            if j < s.len() - 1 {
                assert(s.drop_last()[j] == s[j]);
            }
        }
        assert(spec_trim_end(s.drop_last()) == s.drop_last().subrange(
            0,
            spec_trim_end(s.drop_last()).len() as int,
        ));
        assert(s.drop_last().subrange(0, spec_trim_end(s).len() as int) =~= s.subrange(
            0,
            spec_trim_end(s).len() as int,
        ));
    } else {
        assert(spec_trim_end(s) =~= s.subrange(0, s.len() as int));
    }
}

/// A prefix whose tail is all whitespace, ending in a non-whitespace
/// character, is the end-trim.
proof fn lemma_trim_end_of(s: Seq<char>, m: int)
    requires
        0 <= m <= s.len(),
        forall|j: int| m <= j < s.len() ==> spec_is_ws(#[trigger] s[j]),
        m > 0 ==> !spec_is_ws(s[m - 1]),
    ensures
        spec_trim_end(s) == s.subrange(0, m),
    decreases s.len(),
{
    if s.len() == m {
        if m == 0 {
            assert(spec_trim_end(s) =~= s.subrange(0, 0));
        } else {
            assert(!spec_is_ws(s.last()));
            assert(spec_trim_end(s) =~= s.subrange(0, m));
        }
    } else {
        assert(spec_is_ws(s.last()));
        assert forall|j: int| m <= j < s.drop_last().len() implies spec_is_ws(
            #[trigger] s.drop_last()[j],
        ) by {
            assert(s.drop_last()[j] == s[j]);
        }
        if m > 0 {
            assert(s.drop_last()[m - 1] == s[m - 1]);
        }
        lemma_trim_end_of(s.drop_last(), m);
        assert(s.drop_last().subrange(0, m) =~= s.subrange(0, m));
    }
}

/// Trimming both ends yields the slice between the trim marks.
proof fn lemma_trim_parts(s: Seq<char>, start: int, end: int)
    requires
        0 <= start <= s.len(),
        0 <= end <= s.len(),
        spec_trim_start(s) == s.subrange(start, s.len() as int),
        spec_trim_end(s) == s.subrange(0, end),
        end > 0 ==> !spec_is_ws(s[end - 1]),
    ensures
        spec_trim(s) == s.subrange(start, if end < start {
            start
        } else {
            end
        }),
{
    lemma_trim_end_is_prefix(s);
    assert(spec_trim_end(s).len() == end);
    let tail = s.subrange(start, s.len() as int);
    if end > start {
        assert forall|j: int| end - start <= j < tail.len() implies spec_is_ws(
            #[trigger] tail[j],
        ) by {
            assert(tail[j] == s[j + start]);
        }
        assert(tail[end - start - 1] == s[end - 1]);
        lemma_trim_end_of(tail, end - start);
        assert(tail.subrange(0, end - start) =~= s.subrange(start, end));
    } else {
        assert forall|j: int| 0 <= j < tail.len() implies spec_is_ws(#[trigger] tail[j]) by {
            assert(tail[j] == s[j + start]);
        }
        lemma_trim_end_of(tail, 0);
        assert(tail.subrange(0, 0) =~= s.subrange(start, start));
    }
}

/// The first paragraph break of the text.
fn find_break(v: &Vec<char>) -> (r: Option<(usize, usize)>)
    ensures
        match r {
            Some(pe) => {
                &&& spec_find_break(v@, 0) == Some((pe.0 as int, pe.1 as int))
                &&& pe.0 < pe.1 <= v@.len()
            },
            None => spec_find_break(v@, 0) is None,
        },
{
    let n = v.len();
    let mut i: usize = 0;
    proof {
        assert(v@.subrange(0, n as int) =~= v@);
    }
    while i < n
        invariant
            i <= n,
            n == v@.len(),
            spec_find_break(v@, 0) == spec_find_break(v@, i as int),
        ensures
            i >= n,
            spec_find_break(v@, 0) is None,
        decreases n - i,
    {
        if v[i] == '\n' {
            let run_end = ws_scan(v, i + 1, n);
            proof {
                assert(v@.subrange(0, n as int) =~= v@);
                assert(run_end - (i + 1) == spec_ws_len(v@, i as int + 1));
            }
            let mut q = run_end;
            let mut last: usize = 0;
            let mut has = false;
            while q > i + 1
                invariant_except_break
                    has == false,
                    spec_last_nl(v@, i as int + 1, run_end as int) == spec_last_nl(
                        v@,
                        i as int + 1,
                        q as int,
                    ),
                invariant
                    i + 1 <= q <= run_end,
                    run_end <= n,
                    n == v@.len(),
                ensures
                    has ==> last as int == spec_last_nl(v@, i as int + 1, run_end as int) && i + 1
                        <= last && last < run_end,
                    has == false ==> spec_last_nl(v@, i as int + 1, run_end as int) < 0,
                decreases q,
            {
                if v[q - 1] == '\n' {
                    last = q - 1;
                    has = true;
                    proof {
                        assert(spec_last_nl(v@, i as int + 1, q as int) == q - 1);
                    }
                    break ;
                }
                q = q - 1;
            }
            if has {
                proof {
                    assert(spec_find_break(v@, i as int) == Some((i as int, last as int + 1)));
                }
                return Some((i, last + 1));
            }
        }
        proof {
            assert(spec_find_break(v@, i as int) == spec_find_break(v@, i as int + 1));
        }
        i = i + 1;
    }
    None
}

/// Newlines replaced by spaces.
fn collapse_newlines(s: &str) -> (r: String)
    ensures
        r@ == spec_collapse(s@),
{
    let chars = str_to_chars(s);
    let mut out: Vec<char> = Vec::new();
    let mut i: usize = 0;
    while i < chars.len()
        invariant
            i <= chars@.len(),
            chars@ == s@,
            out@.len() == i,
            forall|j: int| 0 <= j < i ==> out@[j] == spec_collapse(s@)[j],
        decreases chars@.len() - i,
    {
        let c = chars[i];
        if c == '\n' {
            out.push(' ');
        } else {
            out.push(c);
        }
        i = i + 1;
    }
    proof {
        assert(out@ =~= spec_collapse(s@));
    }
    string_from_chars(&out)
}

/// Splits a message into its header and optional body at the first blank
/// line; the header is trimmed and its newlines collapse to spaces, the
/// body is trimmed and absent when nothing remains.
pub fn split_log_message(msg: &str) -> (r: (String, Option<String>))
    ensures
        spec_split_message(msg@) == (
            r.0@,
            match r.1 {
                Some(b) => Some(b@),
                None => None,
            },
        ),
{
    let chars = str_to_chars(msg);
    match find_break(&chars) {
        None => {
            let t = trimmed_string(&chars, 0, chars.len());
            proof {
                assert(chars@.subrange(0, chars@.len() as int) =~= msg@);
            }
            (collapse_newlines(t.as_str()), None)
        },
        Some((p, e)) => {
            let header_raw = trimmed_string(&chars, 0, p);
            let header = collapse_newlines(header_raw.as_str());
            let body = trimmed_string(&chars, e, chars.len());
            proof {
                assert(chars@.subrange(e as int, chars@.len() as int) =~= msg@.subrange(
                    e as int,
                    msg@.len() as int,
                ));
                assert(chars@.subrange(0, p as int) =~= msg@.subrange(0, p as int));
            }
            if body.as_str().is_empty() {
                (header, None)
            } else {
                (header, Some(body))
            }
        },
    }
}

} // verus!
