//! Extraction of numbered source lines around a span.
use vstd::prelude::*;

use crate::text::{append_chars, chars_of, count_newlines, decimal, decimal_chars, lemma_count_newlines_prefix, string_of};

verus! {

/// The lines of `s`: the pieces between line breaks, in order. A text with
/// `k` line breaks has `k + 1` lines (the last one may be empty).
pub open spec fn lines(s: Seq<char>) -> Seq<Seq<char>>
    decreases s.len(),
{
    if s.len() == 0 {
        seq![Seq::<char>::empty()]
    } else {
        let p = lines(s.drop_last());
        if s.last() == '\n' {
            p.push(Seq::<char>::empty())
        } else {
            p.update(p.len() - 1, p.last().push(s.last()))
        }
    }
}

/// `line` preceded by its number and a gutter: `"<n> | <line>"`.
pub open spec fn numbered(n: nat, line: Seq<char>) -> Seq<char> {
    decimal(n) + seq![' ', '|', ' '] + line
}

/// The pieces of `parts` separated by line breaks.
pub open spec fn joined(parts: Seq<Seq<char>>) -> Seq<char>
    decreases parts.len(),
{
    if parts.len() == 0 {
        Seq::empty()
    } else if parts.len() == 1 {
        parts[0]
    } else {
        joined(parts.drop_last()) + seq!['\n'] + parts.last()
    }
}

/// `idx` moved back to the end of `s` when it lies beyond it.
pub open spec fn clamp(idx: int, s: Seq<char>) -> int {
    if idx <= s.len() {
        idx
    } else {
        s.len() as int
    }
}

/// Index (from zero) of the line that holds offset `idx`.
pub open spec fn line_num(idx: int, s: Seq<char>) -> nat {
    count_newlines(s.subrange(0, clamp(idx, s)))
}

/// Lines `first` to `last` of `s`, each numbered from one.
pub open spec fn numbered_lines(s: Seq<char>, first: nat, last: nat) -> Seq<Seq<char>> {
    Seq::new(
        if first <= last { (last - first + 1) as nat } else { 0 },
        |j: int| numbered((first + j + 1) as nat, lines(s)[first + j]),
    )
}

/// The lines of `s` that a span `(start, end)` touches, numbered from one and
/// separated by line breaks.
pub open spec fn content_at_span(s: Seq<char>, span: (usize, usize)) -> Seq<char> {
    joined(numbered_lines(s, line_num(span.0 as int, s), line_num(span.1 as int, s)))
}

/// A text has one line more than it has line breaks.
pub proof fn lemma_lines_len(s: Seq<char>)
    ensures
        lines(s).len() == count_newlines(s) + 1,
    decreases s.len(),
{
    if s.len() > 0 {
        lemma_lines_len(s.drop_last());
    }
}

/// Index (from zero) of the line of `data` that holds offset `idx`; an offset
/// past the end counts as the end.
pub fn get_line_num(idx: usize, data: &String) -> (r: usize)
    ensures
        r == line_num(idx as int, data@),
        r <= count_newlines(data@),
{
    let data = chars_of(data.as_str());
    let end: usize = if idx <= data.len() { idx } else { data.len() };
    let mut n: usize = 0;
    let mut i: usize = 0;
    while i < end
        invariant
            i <= end <= data@.len(),
            n == count_newlines(data@.subrange(0, i as int)),
            n <= i,
        decreases end - i,
    {
        proof {
            assert(data@.subrange(0, i as int + 1).drop_last() =~= data@.subrange(0, i as int));
        }
        if data[i] == '\n' {
            n = n + 1;
        }
        i = i + 1;
    }
    proof {
        lemma_count_newlines_prefix(data@, end as int);
    }
    n
}

/// All lines of `data`, in order.
fn split_lines(data: &Vec<char>) -> (r: Vec<Vec<char>>)
    ensures
        r@.len() == lines(data@).len(),
        forall|k: int| 0 <= k < r@.len() ==> #[trigger] r@[k]@ == lines(data@)[k],
{
    let mut done: Vec<Vec<char>> = Vec::new();
    let mut cur: Vec<char> = Vec::new();
    let mut i: usize = 0;
    while i < data.len()
        invariant
            i <= data@.len(),
            lines(data@.subrange(0, i as int)).len() == done@.len() + 1,
            forall|k: int|
                0 <= k < done@.len() ==> #[trigger] done@[k]@ == lines(data@.subrange(0, i as int))[k],
            cur@ == lines(data@.subrange(0, i as int)).last(),
        decreases data@.len() - i,
    {
        proof {
            assert(data@.subrange(0, i as int + 1).drop_last() =~= data@.subrange(0, i as int));
        }
        if data[i] == '\n' {
            let finished = cur;
            done.push(finished);
            cur = Vec::new();
            proof {
                assert(cur@ =~= Seq::<char>::empty());
            }
        } else {
            cur.push(data[i]);
        }
        i = i + 1;
    }
    done.push(cur);
    proof {
        assert(data@.subrange(0, i as int) =~= data@);
    }
    done
}

/// Line number `line` (from zero) of `data`.
pub fn get_line(line: usize, data: &String) -> (r: String)
    requires
        line <= count_newlines(data@),
    ensures
        r@ == lines(data@)[line as int],
{
    let d = chars_of(data.as_str());
    let all = split_lines(&d);
    proof {
        lemma_lines_len(data@);
    }
    string_of(&all[line])
}

/// The lines of `data` that the span touches, each preceded by its number
/// (from one) and a `" | "` gutter, separated by line breaks. Offsets past
/// the end of `data` count as its end.
pub fn get_content_at_span(data: &String, span: (usize, usize)) -> (r: String)
    ensures
        r@ == content_at_span(data@, span),
{
    let d = chars_of(data.as_str());
    let first = get_line_num(span.0, data);
    let last = get_line_num(span.1, data);
    let all = split_lines(&d);
    proof {
        lemma_lines_len(d@);
    }
    let ghost parts = numbered_lines(d@, first as nat, last as nat);
    let total: usize = all.len();
    let mut out: Vec<char> = Vec::new();
    if first <= last {
        let mut n: usize = first;
        while n <= last
            invariant
                first <= n <= last + 1,
                last < total,
                total == all@.len(),
                all@.len() == lines(d@).len(),
                forall|k: int| 0 <= k < all@.len() ==> #[trigger] all@[k]@ == lines(d@)[k],
                parts == numbered_lines(d@, first as nat, last as nat),
                out@ == joined(parts.subrange(0, n - first)),
            decreases last + 1 - n,
        {
            if n > first {
                out.push('\n');
            }
            let mut num = decimal_chars(n + 1);
            num.push(' ');
            num.push('|');
            num.push(' ');
            append_chars(&mut num, &all[n]);
            proof {
                assert(num@ =~= numbered((n + 1) as nat, lines(d@)[n as int]));
                assert(parts.subrange(0, n + 1 - first).drop_last() =~= parts.subrange(0, n - first));
            }
            append_chars(&mut out, &num);
            n = n + 1;
        }
        proof {
            assert(parts.subrange(0, n - first) =~= parts);
        }
    } else {
        proof {
            assert(parts.len() == 0);
        }
    }
    string_of(&out)
}

} // verus!
