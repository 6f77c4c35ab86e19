//! E101 diagnostics: a caret-annotated excerpt of the line where the grammar
//! engine stopped.
use vstd::prelude::*;

use crate::errors::utils::{clamp, numbered};
use crate::errors::{CompileError, ErrorInfos};
use crate::text::{append_chars, chars_of, decimal, decimal_chars, string_of};

verus! {

/// Where the grammar engine rejected its input: a line and a column, both
/// counted from one, and the matching offset (in characters) into the text.
#[derive(Debug, Clone, Copy, PartialEq, Eq, Structural)]
pub struct FailurePosition {
    pub line: usize,
    pub column: usize,
    pub offset: usize,
}

/// Rendered excerpt of a syntax failure.
#[derive(Debug)]
pub struct ParseError {
    pub span: (usize, usize),
    pub buff: String,
}

/// Start of the line that holds offset `i`: just after the last line break
/// before `i`, or the start of the text.
pub open spec fn line_start(s: Seq<char>, i: int) -> int
    decreases i,
{
    if i <= 0 {
        0
    } else if s[i - 1] == '\n' {
        i
    } else {
        line_start(s, i - 1)
    }
}

/// End of the line that holds offset `i`: the first line break at or after
/// `i`, or the end of the text.
pub open spec fn line_end(s: Seq<char>, i: int) -> int
    decreases s.len() - i,
{
    if i >= s.len() {
        s.len() as int
    } else if s[i] == '\n' {
        i
    } else {
        line_end(s, i + 1)
    }
}

/// The line of `s` (without its line break) that holds offset `idx`; an offset
/// past the end counts as the end.
pub open spec fn line_containing(s: Seq<char>, idx: int) -> Seq<char> {
    s.subrange(line_start(s, clamp(idx, s)), line_end(s, clamp(idx, s)))
}

/// `n + 1` spaces then a bar: the empty gutter above a numbered line.
pub open spec fn preline(n: nat) -> Seq<char> {
    Seq::new(n + 2, |i: int| if i == n + 1 { '|' } else { ' ' })
}

/// The gutter bar at `n + 1` and a caret under column `pos` of a line whose
/// text starts at `n + 3`; padded with spaces to `len + n + 3` characters, or
/// just past the caret when that lies further.
pub open spec fn underline(len: nat, pos: nat, n: nat) -> Seq<char> {
    Seq::new(
        if pos < len { len + n + 3 } else { pos + n + 4 },
        |i: int|
            if i == pos + n + 3 {
                '^'
            } else if i == n + 1 {
                '|'
            } else {
                ' '
            },
    )
}

/// The excerpt for a failure at `p` in `source`: gutter line, numbered
/// offending line, and the caret line.
pub open spec fn failure_excerpt(source: Seq<char>, p: FailurePosition) -> Seq<char> {
    let n = decimal(p.line as nat).len();
    let line = numbered(p.line as nat, line_containing(source, p.offset as int));
    let col = if p.column == 0 { 0nat } else { (p.column - 1) as nat };
    preline(n) + seq!['\n'] + line + seq!['\n'] + underline(line.len(), col, n)
}

/// Appends `k` spaces to `v`.
fn push_spaces(v: &mut Vec<char>, k: usize)
    ensures
        final(v)@ == old(v)@ + Seq::new(k as nat, |i: int| ' '),
{
    let mut j: usize = 0;
    while j < k
        invariant
            j <= k,
            v@ == old(v)@ + Seq::new(j as nat, |i: int| ' '),
        decreases k - j,
    {
        v.push(' ');
        j = j + 1;
        proof {
            assert(v@ =~= old(v)@ + Seq::new(j as nat, |i: int| ' '));
        }
    }
}

/// The line of `source` that holds offset `idx`, without its line break.
pub fn extract_line_containing_idx(source: &String, idx: usize) -> (r: String)
    ensures
        r@ == line_containing(source@, idx as int),
{
    let s = chars_of(source.as_str());
    let c: usize = if idx <= s.len() { idx } else { s.len() };
    let mut start: usize = c;
    while start > 0 && s[start - 1] != '\n'
        invariant
            start <= c <= s@.len(),
            line_start(s@, start as int) == line_start(s@, c as int),
        decreases start,
    {
        start = start - 1;
    }
    let mut end: usize = c;
    while end < s.len() && s[end] != '\n'
        invariant
            c <= end <= s@.len(),
            line_end(s@, end as int) == line_end(s@, c as int),
        decreases s@.len() - end,
    {
        end = end + 1;
    }
    let mut out: Vec<char> = Vec::new();
    let mut i: usize = start;
    while i < end
        invariant
            start <= i <= end <= s@.len(),
            out@ == s@.subrange(start as int, i as int),
        decreases end - i,
    {
        out.push(s[i]);
        i = i + 1;
        proof {
            assert(out@ =~= s@.subrange(start as int, i as int));
        }
    }
    string_of(&out)
}

/// The empty gutter line for line numbers of `line_num_size` digits.
pub fn gen_preline(line_num_size: usize) -> (r: String)
    ensures
        r@ == preline(line_num_size as nat),
{
    let mut v: Vec<char> = Vec::new();
    push_spaces(&mut v, line_num_size);
    v.push(' ');
    v.push('|');
    proof {
        assert(v@ =~= preline(line_num_size as nat));
    }
    string_of(&v)
}

/// The caret line under column `pos` of a numbered line of `len` characters
/// whose number has `line_num_size` digits.
pub fn gen_underline(len: usize, pos: usize, line_num_size: usize) -> (r: String)
    ensures
        r@ == underline(len as nat, pos as nat, line_num_size as nat),
{
    let mut v: Vec<char> = Vec::new();
    push_spaces(&mut v, line_num_size);
    v.push(' ');
    v.push('|');
    v.push(' ');
    push_spaces(&mut v, pos);
    v.push('^');
    let pad: usize = if pos < len { len - pos - 1 } else { 0 };
    push_spaces(&mut v, pad);
    proof {
        assert(v@ =~= underline(len as nat, pos as nat, line_num_size as nat));
    }
    string_of(&v)
}

/// `line` preceded by `linenum` and a `" | "` gutter.
pub fn add_line_num(line: String, linenum: usize) -> (r: String)
    ensures
        r@ == numbered(linenum as nat, line@),
{
    let mut v = decimal_chars(linenum);
    v.push(' ');
    v.push('|');
    v.push(' ');
    let rest = chars_of(line.as_str());
    append_chars(&mut v, &rest);
    string_of(&v)
}

/// The three-line excerpt that shows where the grammar engine stopped.
pub fn get_buff_from_perror(source: &String, position: FailurePosition) -> (r: String)
    ensures
        r@ == failure_excerpt(source@, position),
{
    let digits = decimal_chars(position.line);
    let num_len: usize = digits.len();
    let raw_line = extract_line_containing_idx(source, position.offset);
    let line = add_line_num(raw_line, position.line);
    let preline_text = gen_preline(num_len);
    let line_chars = chars_of(line.as_str());
    let col: usize = if position.column == 0 { 0 } else { position.column - 1 };
    let uline = gen_underline(line_chars.len(), col, num_len);
    let mut v = chars_of(preline_text.as_str());
    v.push('\n');
    append_chars(&mut v, &line_chars);
    v.push('\n');
    let u = chars_of(uline.as_str());
    append_chars(&mut v, &u);
    string_of(&v)
}

impl ParseError {
    /// A syntax error (E101 in practice) for a failure at `position` in `source`,
    /// carrying the rendered excerpt.
    pub fn build(msg: String, code: usize, position: FailurePosition, source: &String) -> (r: CompileError)
        ensures
            r.code == code,
            r.msg == msg,
            r.infos is ParseError,
            r.infos->ParseError_0.span == (position.offset, position.offset),
            r.infos->ParseError_0.buff@ == failure_excerpt(source@, position),
    {
        CompileError {
            code,
            msg,
            infos: ErrorInfos::ParseError(
                ParseError {
                    span: (position.offset, position.offset),
                    buff: get_buff_from_perror(source, position),
                },
            ),
        }
    }

    /// The rendered excerpt.
    pub fn render(&self) -> (r: String)
        ensures
            r@ == self.buff@,
    {
        self.buff.clone()
    }
}

} // verus!
