//! Parsing of `.env` content into key-value pairs.
//!
//! The content is read line by line (lines end at `'\n'`; a `'\r'` before it is
//! whitespace and disappears with the trimming of the line). A line is skipped
//! when it is empty or a comment, when it has no `=`, or when its key is empty.
//! Values may be unquoted (inline `#` comments and trailing whitespace are
//! dropped), double-quoted (with the escapes `\n`, `\t`, `\\`, `\"`), or
//! single-quoted (taken literally).

use vstd::prelude::*;
use crate::error::{DotEnvError, ErrorView};
use crate::text::{
    chars_of, find_char, find_in, lemma_find_char, skip_ws_backward, skip_ws_forward, string_of,
    trim, trim_end, trim_start,
};

verus! {

broadcast use vstd::string::group_string_axioms;

/// Why a value could not be parsed.
#[derive(Clone, Copy, Debug, PartialEq, Eq, Structural)]
pub enum ParseFailure {
    UnterminatedDouble,
    UnterminatedEscape,
    UnterminatedSingle,
}

/// The message that a parse error carries for each failure.
pub open spec fn failure_message(f: ParseFailure) -> Seq<char> {
    match f {
        ParseFailure::UnterminatedDouble => "unterminated double-quoted string"@,
        ParseFailure::UnterminatedEscape => "unterminated escape sequence"@,
        ParseFailure::UnterminatedSingle => "unterminated single-quoted string"@,
    }
}

/// The parse error reported for `failure` on the line numbered `line`.
pub fn parse_error(line: usize, failure: ParseFailure) -> (err: DotEnvError)
    ensures
        err@ == (ErrorView::Parse { line: line as nat, message: failure_message(failure) }),
{
    let message = match failure {
        ParseFailure::UnterminatedDouble => "unterminated double-quoted string".to_owned(),
        ParseFailure::UnterminatedEscape => "unterminated escape sequence".to_owned(),
        ParseFailure::UnterminatedSingle => "unterminated single-quoted string".to_owned(),
    };
    DotEnvError::Parse { line, message }
}

/// `acc` followed by the text of `r`, when `r` is a text.
pub open spec fn prepend<E>(acc: Seq<char>, r: Result<Seq<char>, E>) -> Result<Seq<char>, E> {
    match r {
        Ok(t) => Ok(acc + t),
        Err(e) => Err(e),
    }
}

/// What the escape `\c` stands for inside double quotes.
pub open spec fn unescape(c: char) -> Seq<char> {
    if c == 'n' {
        seq!['\n']
    } else if c == 't' {
        seq!['\t']
    } else if c == '\\' {
        seq!['\\']
    } else if c == '"' {
        seq!['"']
    } else {
        seq!['\\', c]
    }
}

/// The value of a double-quoted string, `s` being what follows the opening quote.
pub open spec fn unquote_double(s: Seq<char>) -> Result<Seq<char>, ParseFailure>
    decreases s.len(),
{
    if s.len() == 0 {
        Err(ParseFailure::UnterminatedDouble)
    } else if s[0] == '"' {
        Ok(seq![])
    } else if s[0] == '\\' {
        if s.len() == 1 {
            Err(ParseFailure::UnterminatedEscape)
        } else {
            prepend(unescape(s[1]), unquote_double(s.skip(2)))
        }
    } else {
        prepend(seq![s[0]], unquote_double(s.drop_first()))
    }
}

/// The value of a single-quoted string, `s` being what follows the opening quote.
pub open spec fn unquote_single(s: Seq<char>) -> Result<Seq<char>, ParseFailure> {
    match find_char(s, '\'') {
        Some(end) => Ok(s.take(end)),
        None => Err(ParseFailure::UnterminatedSingle),
    }
}

/// The first position at or after `i` of a `#` that starts `s` or follows a space.
pub open spec fn comment_from(s: Seq<char>, i: int) -> Option<int>
    decreases s.len() - i,
{
    if i < 0 || i >= s.len() {
        None
    } else if s[i] == '#' && (i == 0 || s[i - 1] == ' ') {
        Some(i)
    } else {
        comment_from(s, i + 1)
    }
}

/// A comment found from `i` on lies at or after `i`, inside `s`.
pub proof fn lemma_comment_from(s: Seq<char>, i: int)
    requires
        0 <= i,
    ensures
        comment_from(s, i) matches Some(p) ==> i <= p < s.len(),
    decreases s.len() - i,
{
    if 0 <= i < s.len() && !(s[i] == '#' && (i == 0 || s[i - 1] == ' ')) {
        lemma_comment_from(s, i + 1);
    }
}

/// Where an inline comment starts in an unquoted value.
pub open spec fn comment_pos(s: Seq<char>) -> Option<int> {
    comment_from(s, 0)
}

/// The value written after the `=` of a line.
pub open spec fn value_of(raw: Seq<char>) -> Result<Seq<char>, ParseFailure> {
    let t = trim_start(raw);
    if t.len() == 0 {
        Ok(seq![])
    } else if t[0] == '"' {
        unquote_double(t.drop_first())
    } else if t[0] == '\'' {
        unquote_single(t.drop_first())
    } else {
        match comment_pos(t) {
            Some(p) => Ok(trim_end(t.take(p))),
            None => Ok(trim_end(t)),
        }
    }
}

/// The prefix that a line may carry before its key.
pub open spec fn export_prefix() -> Seq<char> {
    seq!['e', 'x', 'p', 'o', 'r', 't', ' ']
}

/// The part of a trimmed line that holds the assignment.
pub open spec fn assignment_of(l: Seq<char>) -> Seq<char> {
    if l.len() >= 7 && l.take(7) == export_prefix() {
        trim_start(l.skip(7))
    } else {
        l
    }
}

/// What one line contributes: nothing, a pair, or a failure.
pub open spec fn line_outcome(line: Seq<char>) -> Result<Option<(Seq<char>, Seq<char>)>, ParseFailure> {
    let l = trim(line);
    if l.len() == 0 || l[0] == '#' {
        Ok(None)
    } else {
        let a = assignment_of(l);
        match find_char(a, '=') {
            None => Ok(None),
            Some(eq) => {
                let key = trim(a.take(eq));
                if key.len() == 0 {
                    Ok(None)
                } else {
                    match value_of(a.skip(eq + 1)) {
                        Ok(v) => Ok(Some((key, v))),
                        Err(f) => Err(f),
                    }
                }
            },
        }
    }
}

/// The pairs of the lines of `s`, the first of them having index `idx`; or the
/// 1-based number of the first line that fails, with its failure.
pub open spec fn parse_lines(s: Seq<char>, idx: nat) -> Result<
    Seq<(Seq<char>, Seq<char>)>,
    (nat, ParseFailure),
>
    decreases s.len(),
{
    let nl = find_char(s, '\n');
    let line = match nl {
        Some(i) => s.take(i),
        None => s,
    };
    match line_outcome(line) {
        Err(f) => Err((idx + 1, f)),
        Ok(o) => {
            let rest = match nl {
                Some(i) => {
                    proof {
                        lemma_find_char(s, '\n');
                    }
                    parse_lines(s.skip(i + 1), idx + 1)
                },
                None => Ok(seq![]),
            };
            match rest {
                Err(e) => Err(e),
                Ok(ps) => match o {
                    Some(p) => Ok(seq![p] + ps),
                    None => Ok(ps),
                },
            }
        },
    }
}

/// The pairs of `.env` content, in order of appearance.
pub open spec fn parse_content(s: Seq<char>) -> Result<Seq<(Seq<char>, Seq<char>)>, (nat, ParseFailure)> {
    parse_lines(s, 0)
}


/// Find the position of an inline `#` comment in the unquoted value `v[from..to]`.
pub fn find_inline_comment(v: &Vec<char>, from: usize, to: usize) -> (res: Option<usize>)
    requires
        from <= to <= v@.len(),
    ensures
        match comment_pos(v@.subrange(from as int, to as int)) {
            Some(p) => res == Some((from + p) as usize),
            None => res is None,
        },
{
    let ghost s = v@.subrange(from as int, to as int);
    let mut i = from;
    while i < to
        invariant
            from <= i <= to <= v@.len(),
            s == v@.subrange(from as int, to as int),
            comment_pos(s) == comment_from(s, i - from),
        decreases to - i,
    {
        if v[i] == '#' && (i == from || v[i - 1] == ' ') {
            return Some(i);
        }
        i += 1;
    }
    None
}

/// Parse the double-quoted string that starts at `v[from]`, handling escape sequences.
pub fn parse_double_quoted(v: &Vec<char>, from: usize, to: usize, line_number: usize) -> (res:
    Result<String, DotEnvError>)
    requires
        from < to <= v@.len(),
        v@[from as int] == '"',
    ensures
        match unquote_double(v@.subrange(from + 1, to as int)) {
            Ok(t) => res matches Ok(r) && r@ == t,
            Err(f) => res matches Err(e) && e@ == (ErrorView::Parse {
                line: line_number as nat,
                message: failure_message(f),
            }),
        },
{
    let ghost whole = v@.subrange(from + 1, to as int);
    let mut result = String::new();
    let mut i = from + 1;
    while i < to
        invariant
            from < i <= to <= v@.len(),
            whole == v@.subrange(from + 1, to as int),
            unquote_double(whole) == prepend(result@, unquote_double(v@.subrange(i as int, to as int))),
        decreases to - i,
    {
        let ghost rest = v@.subrange(i as int, to as int);
        let c = v[i];
        if c == '"' {
            assert(result@ + seq![] =~= result@);
            return Ok(result);
        }
        if c == '\\' {
            if i + 1 >= to {
                return Err(parse_error(line_number, ParseFailure::UnterminatedEscape));
            }
            let e = v[i + 1];
            let ghost before = result@;
            if e == 'n' {
                result.push('\n');
            } else if e == 't' {
                result.push('\t');
            } else if e == '\\' {
                result.push('\\');
            } else if e == '"' {
                result.push('"');
            } else {
                result.push('\\');
                result.push(e);
            }
            assert(result@ =~= before + unescape(e));
            assert(rest.skip(2) =~= v@.subrange(i + 2, to as int));
            assert(before + (unescape(e) + unquote_double(rest.skip(2))->Ok_0) =~= result@
                + unquote_double(rest.skip(2))->Ok_0);
            i += 2;
        } else {
            let ghost before = result@;
            result.push(c);
            assert(rest.drop_first() =~= v@.subrange(i + 1, to as int));
            assert(before + (seq![c] + unquote_double(rest.drop_first())->Ok_0) =~= result@
                + unquote_double(rest.drop_first())->Ok_0);
            i += 1;
        }
    }
    Err(parse_error(line_number, ParseFailure::UnterminatedDouble))
}

/// Parse the single-quoted string that starts at `v[from]` (literal, no escape processing).
pub fn parse_single_quoted(v: &Vec<char>, from: usize, to: usize, line_number: usize) -> (res:
    Result<String, DotEnvError>)
    requires
        from < to <= v@.len(),
        v@[from as int] == '\'',
    ensures
        match unquote_single(v@.subrange(from + 1, to as int)) {
            Ok(t) => res matches Ok(r) && r@ == t,
            Err(f) => res matches Err(e) && e@ == (ErrorView::Parse {
                line: line_number as nat,
                message: failure_message(f),
            }),
        },
{
    match find_in(v, from + 1, to, '\'') {
        Some(end) => {
            proof {
                lemma_find_char(v@.subrange(from + 1, to as int), '\'');
                assert(v@.subrange(from + 1, to as int).take(end - from - 1) =~= v@.subrange(
                    from + 1,
                    end as int,
                ));
            }
            Ok(string_of(v, from + 1, end))
        },
        None => Err(parse_error(line_number, ParseFailure::UnterminatedSingle)),
    }
}

/// Parse the value portion `v[from..to]` of a `KEY=value` line.
pub fn parse_value(v: &Vec<char>, from: usize, to: usize, line_number: usize) -> (res: Result<
    String,
    DotEnvError,
>)
    requires
        from <= to <= v@.len(),
    ensures
        match value_of(v@.subrange(from as int, to as int)) {
            Ok(t) => res matches Ok(r) && r@ == t,
            Err(f) => res matches Err(e) && e@ == (ErrorView::Parse {
                line: line_number as nat,
                message: failure_message(f),
            }),
        },
{
    let t = skip_ws_forward(v, from, to);
    let ghost ts = v@.subrange(t as int, to as int);
    if t == to {
        return Ok(String::new());
    }
    assert(ts.drop_first() =~= v@.subrange(t + 1, to as int));
    if v[t] == '"' {
        parse_double_quoted(v, t, to, line_number)
    } else if v[t] == '\'' {
        parse_single_quoted(v, t, to, line_number)
    } else {
        match find_inline_comment(v, t, to) {
            Some(p) => {
                proof {
                    lemma_comment_from(ts, 0);
                }
                assert(ts.take(p - t) =~= v@.subrange(t as int, p as int));
                let e = skip_ws_backward(v, t, p);
                Ok(string_of(v, t, e))
            },
            None => {
                let e = skip_ws_backward(v, t, to);
                Ok(string_of(v, t, e))
            },
        }
    }
}

/// Parse the line `v[from..to]`, whose 0-based index among the lines is `line_idx`.
pub fn parse_line(v: &Vec<char>, from: usize, to: usize, line_idx: usize) -> (res: Result<
    Option<(String, String)>,
    DotEnvError,
>)
    requires
        from <= to <= v@.len(),
        line_idx <= from,
    ensures
        match line_outcome(v@.subrange(from as int, to as int)) {
            Ok(None) => res matches Ok(None),
            Ok(Some(p)) => res matches Ok(Some(q)) && q.0@ == p.0 && q.1@ == p.1,
            Err(f) => res matches Err(e) && e@ == (ErrorView::Parse {
                line: (line_idx + 1) as nat,
                message: failure_message(f),
            }),
        },
{
    let s = skip_ws_forward(v, from, to);
    let e = skip_ws_backward(v, s, to);
    let ghost l = v@.subrange(s as int, e as int);
    assert(l == trim(v@.subrange(from as int, to as int)));
    if s == e || v[s] == '#' {
        return Ok(None);
    }
    // Strip an optional `export ` prefix.
    let mut ls = s;
    if e - s >= 7 && v[s] == 'e' && v[s + 1] == 'x' && v[s + 2] == 'p' && v[s + 3] == 'o' && v[s
        + 4] == 'r' && v[s + 5] == 't' && v[s + 6] == ' ' {
        assert(l.take(7) =~= export_prefix());
        assert(l.skip(7) =~= v@.subrange(s + 7, e as int));
        ls = skip_ws_forward(v, s + 7, e);
    } else {
        assert(!(l.len() >= 7 && l.take(7) == export_prefix())) by {
            if l.len() >= 7 && l.take(7) == export_prefix() {
                assert(l.take(7)[0] == 'e' && l.take(7)[1] == 'x' && l.take(7)[2] == 'p'
                    && l.take(7)[3] == 'o' && l.take(7)[4] == 'r' && l.take(7)[5] == 't'
                    && l.take(7)[6] == ' ');
            }
        }
    }
    let ghost a = v@.subrange(ls as int, e as int);
    assert(a == assignment_of(l));
    match find_in(v, ls, e, '=') {
        None => Ok(None),
        Some(eq) => {
            proof {
                lemma_find_char(a, '=');
                assert(a.take(eq - ls) =~= v@.subrange(ls as int, eq as int));
                assert(a.skip(eq - ls + 1) =~= v@.subrange(eq + 1, e as int));
            }
            let ks = skip_ws_forward(v, ls, eq);
            let ke = skip_ws_backward(v, ks, eq);
            if ks == ke {
                return Ok(None);
            }
            let value = parse_value(v, eq + 1, e, line_idx + 1)?;
            let key = string_of(v, ks, ke);
            Ok(Some((key, value)))
        },
    }
}

/// Parse raw `.env` file content into key-value pairs.
///
/// Supports:
/// - `KEY=value` (unquoted, trims trailing whitespace)
/// - `KEY="value"` (double-quoted, supports `\n`, `\t`, `\\`, `\"`)
/// - `KEY='value'` (single-quoted, literal)
/// - `KEY=` (empty value)
/// - `export KEY=value` (optional export prefix)
/// - Comments: lines starting with `#`, inline `#` after unquoted values
/// - Lines without `=` are silently skipped
pub fn parse_env_content(content: &str) -> (res: Result<Vec<(String, String)>, DotEnvError>)
    ensures
        match parse_content(content@) {
            Ok(ps) => res matches Ok(r) && r.deep_view() == ps,
            Err((line, f)) => res matches Err(e) && e@ == (ErrorView::Parse {
                line,
                message: failure_message(f),
            }),
        },
{
    let v = chars_of(content);
    let mut pairs: Vec<(String, String)> = Vec::new();
    let mut pos: usize = 0;
    let mut line_idx: usize = 0;
    assert(v@.subrange(0, v@.len() as int) =~= v@);
    assert(pairs.deep_view() =~= Seq::<(Seq<char>, Seq<char>)>::empty());
    proof {
        match parse_lines(v@, 0) {
            Ok(ps) => {
                assert(pairs.deep_view() + ps =~= ps);
            },
            Err(e) => {},
        }
    }
    loop
        invariant
            pos <= v@.len(),
            line_idx <= pos,
            v@ == content@,
            parse_content(content@) == match parse_lines(v@.subrange(pos as int, v@.len() as int), line_idx as nat) {
                Ok(ps) => Ok(pairs.deep_view() + ps),
                Err(e) => Err(e),
            },
        decreases v@.len() - pos,
    {
        let ghost s = v@.subrange(pos as int, v@.len() as int);
        let nl = find_in(&v, pos, v.len(), '\n');
        let end = match nl {
            Some(i) => i,
            None => v.len(),
        };
        proof {
            lemma_find_char(s, '\n');
            if nl is Some {
                assert(s.take(end - pos) =~= v@.subrange(pos as int, end as int));
                assert(s.skip(end - pos + 1) =~= v@.subrange(end + 1, v@.len() as int));
            } else {
                assert(s =~= v@.subrange(pos as int, end as int));
            }
        }
        let outcome = parse_line(&v, pos, end, line_idx)?;
        let ghost before = pairs.deep_view();
        let ghost added: Seq<(Seq<char>, Seq<char>)> = if outcome is Some {
            seq![(outcome->Some_0.0@, outcome->Some_0.1@)]
        } else {
            seq![]
        };
        match outcome {
            Some(p) => {
                pairs.push(p);
            },
            None => {},
        }
        assert(pairs.deep_view() =~= before + added);
        match nl {
            Some(i) => {
                proof {
                    let s2 = v@.subrange(i + 1, v@.len() as int);
                    assert(s.skip(end - pos + 1) == s2);
                    match parse_lines(s2, (line_idx + 1) as nat) {
                        Ok(ps) => {
                            assert(before + (added + ps) =~= pairs.deep_view() + ps);
                        },
                        Err(e) => {},
                    }
                }
                pos = i + 1;
                line_idx += 1;
            },
            None => {
                assert(pairs.deep_view() + seq![] =~= pairs.deep_view());
                return Ok(pairs);
            },
        }
    }
}

}
