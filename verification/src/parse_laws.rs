//! Properties of the `.env` format as this library reads it.

use vstd::prelude::*;
use crate::dotenv::{pairs_map, vars_from_content};
use crate::interp::lookup;
use crate::laws::{law_plain_value_kept, no_refs};
use crate::parse::{
    assignment_of, comment_from, comment_pos, export_prefix, line_outcome, parse_content,
    parse_lines, unquote_double, value_of,
};
use crate::text::{find_char, is_ws, lemma_find_char, split_on, trim, trim_end, trim_start};

verus! {

/// Where `trim_start` cuts: the first character that is not whitespace.
pub proof fn lemma_trim_start_index(s: Seq<char>) -> (a: int)
    ensures
        0 <= a <= s.len(),
        trim_start(s) == s.skip(a),
        forall|i: int| 0 <= i < a ==> is_ws(#[trigger] s[i]),
        a < s.len() ==> !is_ws(s[a]),
    decreases s.len(),
{
    if s.len() > 0 && is_ws(s[0]) {
        let a = lemma_trim_start_index(s.drop_first());
        assert(s.drop_first().skip(a) =~= s.skip(a + 1));
        assert forall|i: int| 0 <= i < a + 1 implies is_ws(#[trigger] s[i]) by {
            if i > 0 {
                assert(s[i] == s.drop_first()[i - 1]);
            }
        }
        a + 1
    } else {
        assert(s.skip(0) =~= s);
        0
    }
}

/// Where `trim_end` cuts: after the last character that is not whitespace.
pub proof fn lemma_trim_end_index(s: Seq<char>) -> (b: int)
    ensures
        0 <= b <= s.len(),
        trim_end(s) == s.take(b),
        forall|i: int| b <= i < s.len() ==> is_ws(#[trigger] s[i]),
        b > 0 ==> !is_ws(s[b - 1]),
    decreases s.len(),
{
    if s.len() > 0 && is_ws(s.last()) {
        let b = lemma_trim_end_index(s.drop_last());
        assert(s.drop_last().take(b) =~= s.take(b));
        assert forall|i: int| b <= i < s.len() implies is_ws(#[trigger] s[i]) by {
            if i < s.len() - 1 {
                assert(s[i] == s.drop_last()[i]);
            }
        }
        b
    } else {
        assert(s.take(s.len() as int) =~= s);
        s.len() as int
    }
}

/// Trimming the start and the end may be done in either order.
pub proof fn lemma_trim_commutes(s: Seq<char>)
    ensures
        trim_start(trim_end(s)) == trim_end(trim_start(s)),
{
    let a = lemma_trim_start_index(s);
    let b = lemma_trim_end_index(s);
    let t1 = trim_end(s);
    let a1 = lemma_trim_start_index(t1);
    let t2 = trim_start(s);
    let b2 = lemma_trim_end_index(t2);
    if a < s.len() {
        // `s[a]` is not whitespace, so `a < b`.
        if b <= a {
            assert(is_ws(s[a]));
        }
        assert(a1 == a) by {
            if a1 < a {
                assert(t1[a1] == s[a1]);
            }
            if a1 > a {
                assert(is_ws(t1[a]));
                assert(t1[a] == s[a]);
            }
        }
        assert(a + b2 == b) by {
            if a + b2 < b {
                assert(t2[b - 1 - a] == s[b - 1]);
                assert(is_ws(t2[b - 1 - a]));
            }
            if a + b2 > b {
                assert(t2[b2 - 1] == s[a + b2 - 1]);
                assert(is_ws(s[a + b2 - 1]));
            }
        }
        assert(t1.skip(a1) =~= t2.take(b2));
    } else {
        // All of `s` is whitespace.
        if b > 0 {
            assert(is_ws(s[b - 1]));
        }
        assert(t1.len() == 0);
        assert(t2.len() == 0);
        assert(t1.skip(a1) =~= t2.take(b2));
    }
}

/// A single-quoted value is taken literally, up to the closing quote.
pub proof fn law_single_quoted_literal(s: Seq<char>, rest: Seq<char>)
    requires
        forall|i: int| 0 <= i < s.len() ==> s[i] != '\'',
    ensures
        value_of(seq!['\''] + s + seq!['\''] + rest) == Ok::<Seq<char>, crate::parse::ParseFailure>(s),
{
    let raw = seq!['\''] + s + seq!['\''] + rest;
    assert(!is_ws(raw[0]));
    assert(trim_start(raw) == raw);
    let inner = raw.drop_first();
    assert(inner =~= s + (seq!['\''] + rest));
    lemma_find_char(inner, '\'');
    assert(inner[s.len() as int] == '\'');
    assert(find_char(inner, '\'') == Some(s.len() as int)) by {
        match find_char(inner, '\'') {
            Some(j) => {
                if j < s.len() {
                    assert(inner[j] == s[j]);
                }
            },
            None => {},
        }
    }
    assert(inner.take(s.len() as int) =~= s);
}

/// Double-quoted text with no quote and no backslash in it is its own value.
proof fn lemma_unquote_plain(s: Seq<char>, rest: Seq<char>)
    requires
        forall|i: int| 0 <= i < s.len() ==> s[i] != '"' && s[i] != '\\',
    ensures
        unquote_double(s + seq!['"'] + rest) == Ok::<Seq<char>, crate::parse::ParseFailure>(s),
    decreases s.len(),
{
    let t = s + seq!['"'] + rest;
    if s.len() == 0 {
        assert(t[0] == '"');
        assert(s =~= Seq::<char>::empty());
    } else {
        assert(t[0] == s[0]);
        assert(s[0] != '"' && s[0] != '\\');
        assert(t.drop_first() =~= s.drop_first() + seq!['"'] + rest);
        assert forall|i: int| 0 <= i < s.drop_first().len() implies s.drop_first()[i] != '"'
            && s.drop_first()[i] != '\\' by {
            assert(s.drop_first()[i] == s[i + 1]);
        }
        lemma_unquote_plain(s.drop_first(), rest);
        assert(seq![s[0]] + s.drop_first() =~= s);
    }
}

/// A double-quoted value with no escape and no inner quote is taken as written.
pub proof fn law_double_quoted_plain(s: Seq<char>, rest: Seq<char>)
    requires
        forall|i: int| 0 <= i < s.len() ==> s[i] != '"' && s[i] != '\\',
    ensures
        value_of(seq!['"'] + s + seq!['"'] + rest) == Ok::<Seq<char>, crate::parse::ParseFailure>(s),
{
    let raw = seq!['"'] + s + seq!['"'] + rest;
    assert(!is_ws(raw[0]));
    assert(trim_start(raw) == raw);
    assert(raw.drop_first() =~= s + seq!['"'] + rest);
    lemma_unquote_plain(s, rest);
}

/// A value that can stand unquoted: not empty, neither starting nor ending with
/// whitespace, not starting with a quote, and holding no `#`.
pub open spec fn plain_value(v: Seq<char>) -> bool {
    &&& v.len() > 0
    &&& !is_ws(v[0])
    &&& !is_ws(v.last())
    &&& v[0] != '"'
    &&& v[0] != '\''
    &&& forall|i: int| 0 <= i < v.len() ==> v[i] != '#'
}

/// With no `#` from `i` on, there is no comment from `i` on.
proof fn lemma_no_comment(s: Seq<char>, i: int)
    requires
        0 <= i,
        forall|j: int| i <= j < s.len() ==> s[j] != '#',
    ensures
        comment_from(s, i) is None,
    decreases s.len() - i,
{
    if i < s.len() {
        lemma_no_comment(s, i + 1);
    }
}

/// An unquoted plain value is taken as written.
pub proof fn law_unquoted_plain(v: Seq<char>)
    requires
        plain_value(v),
    ensures
        value_of(v) == Ok::<Seq<char>, crate::parse::ParseFailure>(v),
{
    assert(trim_start(v) == v);
    lemma_no_comment(v, 0);
    assert(trim_end(v) == v);
}

/// Whitespace in front of text is what `trim_start` removes first.
pub proof fn lemma_trim_start_after_whitespace(w: Seq<char>, s: Seq<char>)
    requires
        forall|i: int| 0 <= i < w.len() ==> is_ws(#[trigger] w[i]),
    ensures
        trim_start(w + s) == trim_start(s),
    decreases w.len(),
{
    if w.len() == 0 {
        assert(w + s =~= s);
    } else {
        assert((w + s)[0] == w[0]);
        assert((w + s).drop_first() =~= w.drop_first() + s);
        assert forall|i: int| 0 <= i < w.drop_first().len() implies is_ws(#[trigger] w.drop_first()[i]) by {
            assert(w.drop_first()[i] == w[i + 1]);
        }
        lemma_trim_start_after_whitespace(w.drop_first(), s);
    }
}

/// Whitespace after the `=` does not change a value: quoted, unquoted or
/// empty, `w + raw` reads as `raw` does.
pub proof fn law_leading_whitespace_ignored(w: Seq<char>, raw: Seq<char>)
    requires
        forall|i: int| 0 <= i < w.len() ==> is_ws(#[trigger] w[i]),
    ensures
        value_of(w + raw) == value_of(raw),
{
    lemma_trim_start_after_whitespace(w, raw);
}

/// A double-quoted value after spaces and tabs (as in `KEY = "hello world"`)
/// is the quoted text, without its quotes.
pub proof fn law_spaced_double_quoted(w: Seq<char>, s: Seq<char>, rest: Seq<char>)
    requires
        forall|i: int| 0 <= i < w.len() ==> #[trigger] w[i] == ' ' || w[i] == '\t',
        forall|i: int| 0 <= i < s.len() ==> s[i] != '"' && s[i] != '\\',
    ensures
        value_of(w + (seq!['"'] + s + seq!['"'] + rest)) == Ok::<Seq<char>, crate::parse::ParseFailure>(s),
{
    assert forall|i: int| 0 <= i < w.len() implies is_ws(#[trigger] w[i]) by {
        assert(w[i] == ' ' || w[i] == '\t');
    }
    law_leading_whitespace_ignored(w, seq!['"'] + s + seq!['"'] + rest);
    law_double_quoted_plain(s, rest);
}

/// Where an inline comment starts: a `#` at the start of the text or right
/// after a space.
pub open spec fn starts_comment(s: Seq<char>, i: int) -> bool {
    0 <= i < s.len() && s[i] == '#' && (i == 0 || s[i - 1] == ' ')
}

/// The comment found from `i` on is the first place at or after `i` that
/// starts a comment, and there is none exactly when no such place exists.
proof fn lemma_comment_from_first(s: Seq<char>, i: int)
    requires
        0 <= i,
    ensures
        match comment_from(s, i) {
            Some(p) => i <= p && starts_comment(s, p) && forall|q: int| i <= q < p ==> !starts_comment(s, q),
            None => forall|q: int| i <= q ==> !starts_comment(s, q),
        },
    decreases s.len() - i,
{
    if i < s.len() && !starts_comment(s, i) {
        lemma_comment_from_first(s, i + 1);
        assert forall|q: int| i <= q && q < i + 1 implies !starts_comment(s, q) by {
            assert(q == i);
        }
    }
}

/// An inline comment starts at the first `#` that opens the text or follows a
/// space; a later `# ...` inside the comment does not move it.
pub proof fn law_comment_starts_at_first_marker(s: Seq<char>)
    ensures
        match comment_pos(s) {
            Some(p) => starts_comment(s, p) && forall|q: int| 0 <= q < p ==> !starts_comment(s, q),
            None => forall|q: int| 0 <= q < s.len() ==> !starts_comment(s, q),
        },
{
    lemma_comment_from_first(s, 0);
}

/// A plain value followed by ` #` and any comment text reads as the plain
/// value alone, whatever the comment holds (`8080 # see issue #42` gives `8080`).
pub proof fn law_inline_comment_cut(v: Seq<char>, t: Seq<char>)
    requires
        plain_value(v),
    ensures
        value_of(v + seq![' ', '#'] + t) == Ok::<Seq<char>, crate::parse::ParseFailure>(v),
{
    let raw = v + seq![' ', '#'] + t;
    let n = v.len() as int;
    assert(raw[0] == v[0]);
    assert(trim_start(raw) == raw);
    law_comment_starts_at_first_marker(raw);
    assert(starts_comment(raw, n + 1)) by {
        assert(raw[n + 1] == '#');
        assert(raw[n] == ' ');
    }
    assert forall|q: int| 0 <= q < n + 1 implies !starts_comment(raw, q) by {
        if q < n {
            assert(raw[q] == v[q]);
        } else {
            assert(raw[q] == ' ');
        }
    }
    assert(comment_pos(raw) == Some(n + 1)) by {
        match comment_pos(raw) {
            Some(p) => {
                if p < n + 1 {
                    assert(!starts_comment(raw, p));
                } else if p > n + 1 {
                    assert(!starts_comment(raw, n + 1));
                }
            },
            None => {
                assert(!starts_comment(raw, n + 1));
            },
        }
    }
    assert(raw.take(n + 1) =~= v.push(' '));
    assert(v.push(' ').drop_last() =~= v);
    assert(trim_end(v) == v);
}

/// The whitespace that trimming removes is that of `char::is_whitespace`, the
/// Unicode `White_Space` characters: the tab, the line breaks and the space,
/// and the wider spaces and separators beyond ASCII. A key, a value or a list
/// item trims the same with such a character before or after it.
pub proof fn law_trim_drops_whitespace(c: char, s: Seq<char>)
    requires
        c == '\t' || c == '\n' || c == '\u{b}' || c == '\u{c}' || c == '\r' || c == ' '
            || c == '\u{85}' || c == '\u{a0}' || c == '\u{1680}' || ('\u{2000}' <= c && c
            <= '\u{200a}') || c == '\u{2028}' || c == '\u{2029}' || c == '\u{202f}' || c
            == '\u{205f}' || c == '\u{3000}',
    ensures
        trim(seq![c] + s) == trim(s),
        trim(s + seq![c]) == trim(s),
{
    assert((seq![c] + s).drop_first() =~= s);
    assert((s + seq![c]).drop_last() =~= s);
    assert((s + seq![c]).last() == c);
    lemma_trim_commutes(s + seq![c]);
    lemma_trim_commutes(s);
}

/// Trimming keeps every character that is not Unicode `White_Space`: a
/// letter, a digit, a quote or an underscore on its own stays as it is.
pub proof fn law_trim_keeps_other_chars(c: char)
    requires
        !(c == '\t' || c == '\n' || c == '\u{b}' || c == '\u{c}' || c == '\r' || c == ' '
            || c == '\u{85}' || c == '\u{a0}' || c == '\u{1680}' || ('\u{2000}' <= c && c
            <= '\u{200a}') || c == '\u{2028}' || c == '\u{2029}' || c == '\u{202f}' || c
            == '\u{205f}' || c == '\u{3000}'),
    ensures
        trim(seq![c]) == seq![c],
{
}

/// A line whose trimmed text starts with `#` is a comment and gives nothing.
pub proof fn law_comment_line_skipped(line: Seq<char>)
    requires
        trim(line).len() > 0,
        trim(line)[0] == '#',
    ensures
        line_outcome(line) == Ok::<Option<(Seq<char>, Seq<char>)>, crate::parse::ParseFailure>(
            None,
        ),
{
}

/// A line with no `=` gives nothing.
pub proof fn law_line_without_equals_skipped(line: Seq<char>)
    requires
        forall|i: int| 0 <= i < line.len() ==> line[i] != '=',
    ensures
        line_outcome(line) == Ok::<Option<(Seq<char>, Seq<char>)>, crate::parse::ParseFailure>(
            None,
        ),
{
    let a = lemma_trim_start_index(line);
    let ts = trim_start(line);
    let b = lemma_trim_end_index(ts);
    let l = trim(line);
    assert forall|i: int| 0 <= i < l.len() implies l[i] != '=' by {
        assert(l[i] == ts[i]);
        assert(ts[i] == line[a + i]);
    }
    let asg = assignment_of(l);
    if l.len() >= 7 && l.take(7) == export_prefix() {
        let c = lemma_trim_start_index(l.skip(7));
        assert forall|i: int| 0 <= i < asg.len() implies asg[i] != '=' by {
            assert(asg[i] == l.skip(7)[c + i]);
            assert(l.skip(7)[c + i] == l[7 + c + i]);
        }
    }
    lemma_find_char(asg, '=');
    if find_char(asg, '=') is Some {
        let j = find_char(asg, '=')->Some_0;
        assert(asg[j] == '=');
    }
}

/// A key that can be written plainly: not empty, neither starting nor ending
/// with whitespace, not starting with `#` or `export `, and holding no `=` and
/// no line break.
pub open spec fn plain_key(k: Seq<char>) -> bool {
    &&& k.len() > 0
    &&& !is_ws(k[0])
    &&& !is_ws(k.last())
    &&& k[0] != '#'
    &&& !(k.len() >= 7 && k.take(7) == export_prefix())
    &&& forall|i: int| 0 <= i < k.len() ==> k[i] != '=' && k[i] != '\n'
}

/// The line `KEY=VALUE`, with a plain key and a plain (or empty) value, gives
/// exactly that pair.
pub proof fn law_assignment_line(k: Seq<char>, v: Seq<char>)
    requires
        plain_key(k),
        v.len() == 0 || plain_value(v),
    ensures
        line_outcome(k + seq!['='] + v) == Ok::<Option<(Seq<char>, Seq<char>)>, crate::parse::ParseFailure>(
            Some((k, v)),
        ),
{
    let line = k + seq!['='] + v;
    assert(line[0] == k[0]);
    assert(trim_start(line) == line);
    if v.len() > 0 {
        assert(line.last() == v.last());
    } else {
        assert(line.last() == '=');
    }
    assert(trim_end(line) == line);
    assert(trim(line) == line);
    assert(!(line.len() >= 7 && line.take(7) == export_prefix())) by {
        if line.len() >= 7 && line.take(7) == export_prefix() {
            if k.len() >= 7 {
                assert(line.take(7) =~= k.take(7));
            } else {
                assert(line.take(7)[k.len() as int] == line[k.len() as int]);
                assert(line[k.len() as int] == '=');
                assert(export_prefix()[k.len() as int] != '=');
            }
        }
    }
    assert(assignment_of(line) == line);
    lemma_find_char(line, '=');
    assert(line[k.len() as int] == '=');
    assert(find_char(line, '=') == Some(k.len() as int)) by {
        match find_char(line, '=') {
            Some(j) => {
                if j < k.len() {
                    assert(line[j] == k[j]);
                }
            },
            None => {},
        }
    }
    assert(line.take(k.len() as int) =~= k);
    assert(trim_start(k) == k);
    assert(trim_end(k) == k);
    assert(line.skip(k.len() as int + 1) =~= v);
    assert(trim(k) == k);
    assert(line[0] != '#');
    if v.len() > 0 {
        law_unquoted_plain(v);
    } else {
        assert(trim_start(v).len() == 0);
        assert(v =~= Seq::<char>::empty());
    }
    assert(value_of(line.skip(k.len() as int + 1)) == Ok::<Seq<char>, crate::parse::ParseFailure>(v));
}


/// Trimming the end of `x + y` trims only `y`, when `y` holds a character that
/// is not whitespace.
proof fn lemma_trim_end_concat(x: Seq<char>, y: Seq<char>, i: int)
    requires
        0 <= i < y.len(),
        !is_ws(y[i]),
    ensures
        trim_end(x + y) == x + trim_end(y),
    decreases y.len(),
{
    if is_ws(y.last()) {
        assert((x + y).last() == y.last());
        assert((x + y).drop_last() =~= x + y.drop_last());
        assert(i < y.len() - 1);
        assert(y.drop_last()[i] == y[i]);
        lemma_trim_end_concat(x, y.drop_last(), i);
    } else {
        assert((x + y).last() == y.last());
    }
}

/// The `export ` prefix is optional: a line reads the same with or without it
/// (unless the rest of the line is empty, a comment, or starts with `export `
/// again).
pub proof fn law_export_prefix_optional(l: Seq<char>)
    requires
        trim(l).len() > 0,
        trim(l)[0] != '#',
        !(trim(l).len() >= 7 && trim(l).take(7) == export_prefix()),
    ensures
        line_outcome(export_prefix() + l) == line_outcome(l),
{
    let e = export_prefix();
    let line = e + l;
    assert(line[0] == 'e');
    assert(trim_start(line) == line);
    // `l` holds a character that is not whitespace.
    let a = lemma_trim_start_index(l);
    let t = trim_start(l);
    let b = lemma_trim_end_index(t);
    assert(b > 0);
    assert(t[b - 1] == l[a + b - 1]);
    lemma_trim_end_concat(e, l, a + b - 1);
    let big = trim(line);
    assert(big == e + trim_end(l));
    assert(big.take(7) =~= e);
    assert(big.skip(7) =~= trim_end(l));
    lemma_trim_commutes(l);
    assert(assignment_of(big) == trim(l));
    assert(assignment_of(trim(l)) == trim(l));
    assert(big[0] == 'e');
}

/// Writing `KEY=VALUE` (a plain key, a plain or empty value without
/// references) and loading it gives back exactly that variable.
pub proof fn law_written_assignment_read_back(
    k: Seq<char>,
    v: Seq<char>,
    env: Seq<(Seq<char>, Seq<char>)>,
)
    requires
        plain_key(k),
        v.len() == 0 || plain_value(v),
        forall|i: int| 0 <= i < v.len() ==> v[i] != '\n',
        no_refs(v),
    ensures
        vars_from_content(k + seq!['='] + v, env) == Ok::<
            Map<Seq<char>, Seq<char>>,
            crate::error::ErrorView,
        >(Map::empty().insert(k, v)),
{
    let line = k + seq!['='] + v;
    law_assignment_line(k, v);
    lemma_find_char(line, '\n');
    assert(find_char(line, '\n') is None) by {
        if find_char(line, '\n') is Some {
            let j = find_char(line, '\n')->Some_0;
            if j < k.len() {
                assert(line[j] == k[j]);
            } else if j > k.len() {
                assert(line[j] == v[j - k.len() - 1]);
            }
        }
    }
    let ps = seq![(k, v)];
    assert(parse_lines(line, 0) == Ok::<Seq<(Seq<char>, Seq<char>)>, (nat, crate::parse::ParseFailure)>(seq![(k, v)] + seq![]));
    assert(seq![(k, v)] + Seq::<(Seq<char>, Seq<char>)>::empty() =~= ps);
    assert(parse_content(line) == Ok::<Seq<(Seq<char>, Seq<char>)>, (nat, crate::parse::ParseFailure)>(ps));
    assert(lookup(ps, k) == Some(v)) by {
        assert(ps.last() == (k, v));
    }
    law_plain_value_kept(ps, env, k, v);
    assert(crate::interp::interpolate_prefix(ps, env, 0) == Ok::<Seq<(Seq<char>, Seq<char>)>, (Seq<char>, Seq<char>)>(seq![]));
    assert(seq![].push((ps[0].0, v)) =~= ps);
    assert(crate::interp::interpolation(ps, env) == Ok::<Seq<(Seq<char>, Seq<char>)>, (Seq<char>, Seq<char>)>(ps));
    assert(ps.drop_last() =~= Seq::<(Seq<char>, Seq<char>)>::empty());
    assert(pairs_map(ps.drop_last()) == Map::<Seq<char>, Seq<char>>::empty());
    assert(pairs_map(ps) == pairs_map(ps.drop_last()).insert(ps.last().0, ps.last().1));
    assert(ps.last() == (k, v));
}


/// Parse errors carry the 1-based number of the first failing line: the lines
/// of the content are its pieces between line breaks; content parses exactly
/// when every line does, and otherwise the error names the first line that
/// fails, with that line's failure.
pub proof fn law_error_names_first_failing_line(s: Seq<char>, idx: nat)
    ensures
        ({
            let lines = split_on(s, '\n');
            match parse_lines(s, idx) {
                Ok(_) => forall|j: int| 0 <= j < lines.len() ==> #[trigger] line_outcome(lines[j]) is Ok,
                Err((n, f)) => {
                    &&& idx + 1 <= n <= idx + lines.len()
                    &&& line_outcome(lines[n - idx - 1]) == Err::<Option<(Seq<char>, Seq<char>)>, crate::parse::ParseFailure>(f)
                    &&& forall|j: int| 0 <= j < n - idx - 1 ==> #[trigger] line_outcome(lines[j]) is Ok
                },
            }
        }),
    decreases s.len(),
{
    lemma_find_char(s, '\n');
    let lines = split_on(s, '\n');
    match find_char(s, '\n') {
        None => {
            assert(lines == seq![s]);
        },
        Some(i) => {
            let rest = s.skip(i + 1);
            law_error_names_first_failing_line(rest, idx + 1);
            let tail = split_on(rest, '\n');
            assert(lines == seq![s.take(i)] + tail);
            assert(lines[0] == s.take(i));
            assert forall|j: int| 0 < j < lines.len() implies lines[j] == tail[j - 1] by {}
            match parse_lines(rest, idx + 1) {
                Ok(_) => {
                    if line_outcome(s.take(i)) is Ok {
                        assert forall|j: int| 0 <= j < lines.len() implies #[trigger] line_outcome(lines[j]) is Ok by {
                            if j > 0 {
                                assert(lines[j] == tail[j - 1]);
                            }
                        }
                    }
                },
                Err((n, f)) => {
                    if line_outcome(s.take(i)) is Ok {
                        assert(lines[n - idx - 1] == tail[n - (idx + 1) - 1]);
                        assert forall|j: int| 0 <= j < n - idx - 1 implies #[trigger] line_outcome(lines[j]) is Ok by {
                            if j > 0 {
                                assert(lines[j] == tail[j - 1]);
                            }
                        }
                    }
                },
            }
        },
    }
}


/// The pairs of `first` followed by those of `second`; the first failure otherwise.
pub open spec fn then_lines(
    first: Result<Seq<(Seq<char>, Seq<char>)>, (nat, crate::parse::ParseFailure)>,
    second: Result<Seq<(Seq<char>, Seq<char>)>, (nat, crate::parse::ParseFailure)>,
) -> Result<Seq<(Seq<char>, Seq<char>)>, (nat, crate::parse::ParseFailure)> {
    match first {
        Err(e) => Err(e),
        Ok(p1) => match second {
            Ok(p2) => Ok(p1 + p2),
            Err(e) => Err(e),
        },
    }
}

/// Where `c` first occurs in a concatenation.
proof fn lemma_find_char_concat(x: Seq<char>, y: Seq<char>, c: char)
    ensures
        find_char(x + y, c) == match find_char(x, c) {
            Some(j) => Some(j),
            None => match find_char(y, c) {
                Some(j) => Some(j + x.len()),
                None => None,
            },
        },
    decreases x.len(),
{
    if x.len() == 0 {
        assert(x + y =~= y);
        match find_char(y, c) {
            Some(j) => {},
            None => {},
        }
    } else {
        assert((x + y)[0] == x[0]);
        assert((x + y).drop_first() =~= x.drop_first() + y);
        lemma_find_char_concat(x.drop_first(), y, c);
    }
}

/// Numbering the lines from another index changes only the line numbers of errors.
pub proof fn lemma_parse_lines_renumbered(s: Seq<char>, i: nat, d: nat)
    ensures
        parse_lines(s, i + d) == match parse_lines(s, i) {
            Ok(ps) => Ok(ps),
            Err((n, f)) => Err(((n + d) as nat, f)),
        },
    decreases s.len(),
{
    lemma_find_char(s, '\n');
    match find_char(s, '\n') {
        None => {},
        Some(k) => {
            lemma_parse_lines_renumbered(s.skip(k + 1), i + 1, d);
            assert(i + d + 1 == (i + 1) + d);
        },
    }
}

/// Content joined from two parts by a line break parses as the first part
/// followed by the second, the second's lines numbered after the first's.
pub proof fn lemma_parse_lines_joined(a: Seq<char>, b: Seq<char>, i: nat)
    ensures
        parse_lines(a + seq!['\n'] + b, i) == then_lines(
            parse_lines(a, i),
            parse_lines(b, i + split_on(a, '\n').len()),
        ),
    decreases a.len(),
{
    let t = a + seq!['\n'] + b;
    lemma_find_char(a, '\n');
    lemma_find_char_concat(a, seq!['\n'] + b, '\n');
    assert(t =~= a + (seq!['\n'] + b));
    assert(find_char(seq!['\n'] + b, '\n') == Some(0int));
    match find_char(a, '\n') {
        None => {
            assert(find_char(t, '\n') == Some(a.len() as int));
            assert(t.take(a.len() as int) =~= a);
            assert(t.skip(a.len() as int + 1) =~= b);
            assert(split_on(a, '\n').len() == 1);
            match parse_lines(b, i + 1) {
                Ok(p2) => {
                    assert(Seq::<(Seq<char>, Seq<char>)>::empty() + p2 =~= p2);
                    match line_outcome(a) {
                        Ok(Some(p)) => {
                            assert(seq![p] + Seq::<(Seq<char>, Seq<char>)>::empty() =~= seq![p]);
                        },
                        _ => {},
                    }
                },
                Err(_) => {},
            }
        },
        Some(k) => {
            let r = a.skip(k + 1);
            assert(find_char(t, '\n') == Some(k));
            assert(t.take(k) =~= a.take(k));
            assert(t.skip(k + 1) =~= r + seq!['\n'] + b);
            lemma_parse_lines_joined(r, b, i + 1);
            assert(split_on(a, '\n') == seq![a.take(k)] + split_on(r, '\n'));
            assert(i + split_on(a, '\n').len() == (i + 1) + split_on(r, '\n').len());
            match parse_lines(r, i + 1) {
                Ok(p1) => {
                    match parse_lines(b, i + split_on(a, '\n').len()) {
                        Ok(p2) => {
                            match line_outcome(a.take(k)) {
                                Ok(Some(p)) => {
                                    assert(seq![p] + (p1 + p2) =~= (seq![p] + p1) + p2);
                                },
                                _ => {},
                            }
                        },
                        Err(_) => {},
                    }
                },
                Err(_) => {},
            }
        },
    }
}

/// Loading several files one after another reads them as their contents
/// joined by line breaks: the pairs of the first, then those of the second;
/// a failure in the second is numbered after the lines of the first.
pub proof fn law_joined_contents(a: Seq<char>, b: Seq<char>)
    ensures
        parse_content(a + seq!['\n'] + b) == then_lines(
            parse_content(a),
            match parse_content(b) {
                Ok(ps) => Ok(ps),
                Err((n, f)) => Err(((n + split_on(a, '\n').len()) as nat, f)),
            },
        ),
{
    lemma_parse_lines_joined(a, b, 0);
    lemma_parse_lines_renumbered(b, 0, split_on(a, '\n').len());
}


/// Trimming the end of `x + y`, where `x` ends in a character that is not
/// whitespace, trims only `y`.
proof fn lemma_trim_end_after(x: Seq<char>, y: Seq<char>)
    requires
        x.len() > 0,
        !is_ws(x.last()),
    ensures
        trim_end(x + y) == x + trim_end(y),
    decreases y.len(),
{
    if y.len() == 0 {
        assert(x + y =~= x);
        assert(x + trim_end(y) =~= x);
    } else if is_ws(y.last()) {
        assert((x + y).last() == y.last());
        assert((x + y).drop_last() =~= x + y.drop_last());
        lemma_trim_end_after(x, y.drop_last());
    } else {
        assert((x + y).last() == y.last());
    }
}

/// The line `k`, whitespace `w`, `=`, then `raw`: the key is `k`, and the
/// value is what the rest of the line, its trailing whitespace removed, reads as.
proof fn lemma_spaced_assignment(k: Seq<char>, w: Seq<char>, raw: Seq<char>)
    requires
        plain_key(k),
        forall|i: int| 0 <= i < w.len() ==> #[trigger] w[i] == ' ' || w[i] == '\t',
        !((k + w).len() >= 7 && (k + w).take(7) == export_prefix()),
    ensures
        line_outcome(k + w + seq!['='] + raw) == match value_of(trim_end(raw)) {
            Ok(v) => Ok::<Option<(Seq<char>, Seq<char>)>, crate::parse::ParseFailure>(Some((k, v))),
            Err(f) => Err(f),
        },
{
    let kw = k + w;
    let x = kw + seq!['='];
    let line = x + raw;
    assert(k + w + seq!['='] + raw =~= line);
    let n = kw.len() as int;
    assert(line[0] == k[0]);
    assert(trim_start(line) == line);
    assert(x.last() == '=');
    lemma_trim_end_after(x, raw);
    let l = trim(line);
    assert(l == x + trim_end(raw));
    assert(l[0] == k[0]);
    assert(!(l.len() >= 7 && l.take(7) == export_prefix())) by {
        if l.len() >= 7 && l.take(7) == export_prefix() {
            if n >= 7 {
                assert(l.take(7) =~= kw.take(7));
            } else {
                assert(l.take(7)[n] == l[n]);
                assert(l[n] == '=');
                assert(export_prefix()[n] != '=');
            }
        }
    }
    assert(assignment_of(l) == l);
    lemma_find_char(l, '=');
    assert(l[n] == '=');
    assert(find_char(l, '=') == Some(n)) by {
        match find_char(l, '=') {
            Some(j) => {
                if j < k.len() {
                    assert(l[j] == k[j]);
                } else if j < n {
                    assert(l[j] == w[j - k.len()]);
                }
            },
            None => {},
        }
    }
    assert(l.take(n) =~= kw);
    assert(kw[0] == k[0]);
    assert(trim_start(kw) == kw);
    lemma_trim_end_after(k, w);
    let b = lemma_trim_end_index(w);
    if b > 0 {
        assert(w[b - 1] == ' ' || w[b - 1] == '\t');
    }
    assert(trim_end(w) =~= Seq::<char>::empty());
    assert(k + Seq::<char>::empty() =~= k);
    assert(trim(kw) == k);
    assert(l.skip(n + 1) =~= trim_end(raw));
}

/// Spaces and tabs between the key and the `=` do not change a line
/// (`KEY<TAB>=value` reads as `KEY=value`), unless they turn the key into the
/// `export ` prefix.
pub proof fn law_space_before_equals_ignored(k: Seq<char>, w: Seq<char>, raw: Seq<char>)
    requires
        plain_key(k),
        forall|i: int| 0 <= i < w.len() ==> #[trigger] w[i] == ' ' || w[i] == '\t',
        !((k + w).len() >= 7 && (k + w).take(7) == export_prefix()),
    ensures
        line_outcome(k + w + seq!['='] + raw) == line_outcome(k + seq!['='] + raw),
{
    lemma_spaced_assignment(k, w, raw);
    let e = Seq::<char>::empty();
    assert(k + e =~= k);
    lemma_spaced_assignment(k, e, raw);
}

/// `KEY = "text"`, with spaces or tabs around the `=`, gives the key and the
/// quoted text without its quotes.
pub proof fn law_spaced_quoted_assignment(k: Seq<char>, w1: Seq<char>, w2: Seq<char>, s: Seq<char>)
    requires
        plain_key(k),
        forall|i: int| 0 <= i < w1.len() ==> #[trigger] w1[i] == ' ' || w1[i] == '\t',
        forall|i: int| 0 <= i < w2.len() ==> #[trigger] w2[i] == ' ' || w2[i] == '\t',
        !((k + w1).len() >= 7 && (k + w1).take(7) == export_prefix()),
        forall|i: int| 0 <= i < s.len() ==> s[i] != '"' && s[i] != '\\',
    ensures
        line_outcome(k + w1 + seq!['='] + w2 + seq!['"'] + s + seq!['"']) == Ok::<
            Option<(Seq<char>, Seq<char>)>,
            crate::parse::ParseFailure,
        >(Some((k, s))),
{
    let e = Seq::<char>::empty();
    let q = seq!['"'] + s + seq!['"'] + e;
    assert(seq!['"'] + s + seq!['"'] =~= q);
    let raw = w2 + q;
    assert(k + w1 + seq!['='] + w2 + seq!['"'] + s + seq!['"'] =~= k + w1 + seq!['='] + raw);
    assert(raw.last() == '"');
    assert(trim_end(raw) == raw);
    law_spaced_double_quoted(w2, s, e);
    lemma_spaced_assignment(k, w1, raw);
}

}
