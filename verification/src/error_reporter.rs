//! Diagnostics: an error message with the place in the source it refers to,
//! and the lines that show it under the source line, with a caret.
use vstd::prelude::*;
use crate::text::{chars_of, decimal_string, join2, join3, owned, spec_decimal, string_from_chars};

verus! {

/// An error found in a program, with the line and column it refers to.
#[derive(Debug)]
pub struct Diagnostic {
    pub line: usize,
    pub col: usize,
    pub message: String,
    pub hint: Option<String>,
}

/// The index of the first line feed at or after `i`, or the length.
pub open spec fn line_end(s: Seq<char>, i: int) -> int
    decreases s.len() - i,
{
    if i >= s.len() || s[i] == '\n' { i } else { line_end(s, i + 1) }
}

/// A line without the carriage return that ended it.
pub open spec fn strip_cr(l: Seq<char>) -> Seq<char> {
    if l.len() > 0 && l.last() == '\r' { l.drop_last() } else { l }
}

/// The lines of a text as `str::lines` gives them: split at `\n` or
/// `\r\n`, without the terminators, and without an empty line after a final
/// terminator.
pub open spec fn text_lines(s: Seq<char>) -> Seq<Seq<char>>
    decreases s.len(),
{
    if s.len() == 0 {
        seq![]
    } else {
        let e = line_end(s, 0);
        if e >= s.len() {
            seq![s]
        } else {
            proof { lemma_line_end(s, 0); }
            seq![strip_cr(s.take(e))] + text_lines(s.skip(e + 1))
        }
    }
}

/// `line_end` lies between its start and the end.
pub proof fn lemma_line_end(s: Seq<char>, i: int)
    requires
        0 <= i <= s.len(),
    ensures
        i <= line_end(s, i) <= s.len(),
        line_end(s, i) < s.len() ==> s[line_end(s, i)] == '\n',
        forall|k: int| i <= k < line_end(s, i) ==> s[k] != '\n',
    decreases s.len() - i,
{
    if i < s.len() && s[i] != '\n' {
        lemma_line_end(s, i + 1);
    }
}

/// The blanks under the characters `cs`: four for a tab, one for any
/// other character.
pub open spec fn pad_chars(cs: Seq<char>) -> Seq<char>
    decreases cs.len(),
{
    if cs.len() == 0 {
        seq![]
    } else {
        pad_chars(cs.drop_last()) + (if cs.last() == '\t' { seq![' ', ' ', ' ', ' '] } else { seq![' '] })
    }
}

/// The blanks under the characters of `line` before column `col` (all of
/// them for column 0).
pub open spec fn caret_pad(line: Seq<char>, col: usize) -> Seq<char> {
    let n = if col == 0 { line.len() as int } else if col - 1 < line.len() { col - 1 } else { line.len() as int };
    pad_chars(line.take(n))
}

/// `n` blanks.
pub open spec fn blanks(n: nat) -> Seq<char>
    decreases n,
{
    if n == 0 { seq![] } else { blanks((n - 1) as nat).push(' ') }
}

/// The lines that show one diagnostic.
pub open spec fn diagnostic_lines(lines: Seq<Seq<char>>, d: Diagnostic) -> Seq<Seq<char>> {
    let head = seq![
        "\x1b[31;1merror\x1b[0m: "@ + d.message@,
        "\x1b[34;1m -->\x1b[0m line "@ + spec_decimal(d.line as nat) + ":"@ + spec_decimal(d.col as nat),
    ];
    let pad = blanks(spec_decimal(d.line as nat).len());
    let shown = if 1 <= d.line && d.line - 1 < lines.len() {
        let content = lines[d.line - 1];
        seq![
            "\x1b[34;1m"@ + pad + " |\x1b[0m"@,
            "\x1b[34;1m"@ + spec_decimal(d.line as nat) + " |\x1b[0m "@ + content,
            "\x1b[34;1m"@ + pad + " |\x1b[0m "@ + caret_pad(content, d.col) + "\x1b[31;1m^\x1b[0m"@,
        ]
    } else {
        seq![]
    };
    head + shown + seq![Seq::<char>::empty()]
}

/// The lines that show the diagnostics, one after the other.
pub open spec fn report_lines(lines: Seq<Seq<char>>, errors: Seq<Diagnostic>) -> Seq<Seq<char>>
    decreases errors.len(),
{
    if errors.len() == 0 {
        seq![]
    } else {
        report_lines(lines, errors.drop_last()) + diagnostic_lines(lines, errors.last())
    }
}

/// The lines of `source` (see `text_lines`).
pub fn source_lines(source: &str) -> (r: Vec<Vec<char>>)
    ensures
        r@.len() == text_lines(source@).len(),
        forall|i: int| 0 <= i < r@.len() ==> #[trigger] r@[i]@ == text_lines(source@)[i],
{
    let cs = chars_of(source);
    let mut out: Vec<Vec<char>> = Vec::new();
    let mut start: usize = 0;
    proof {
        assert(cs@.skip(0) =~= cs@);
    }
    while start < cs.len()
        invariant
            cs@ == source@,
            start <= cs@.len(),
            forall|i: int| 0 <= i < out@.len() ==> #[trigger] out@[i]@ == text_lines(source@)[i],
            out@.len() + text_lines(cs@.skip(start as int)).len() == text_lines(source@).len(),
            forall|i: int| 0 <= i < text_lines(cs@.skip(start as int)).len() ==>
                #[trigger] text_lines(cs@.skip(start as int))[i] == text_lines(source@)[out@.len() + i],
        decreases cs@.len() - start,
    {
        let ghost rest = cs@.skip(start as int);
        let mut line: Vec<char> = Vec::new();
        let mut i = start;
        while i < cs.len() && cs[i] != '\n'
            invariant
                start <= i <= cs@.len(),
                line@ == cs@.subrange(start as int, i as int),
                forall|k: int| start <= k < i ==> cs@[k] != '\n',
            decreases cs@.len() - i,
        {
            line.push(cs[i]);
            i += 1;
            assert(line@ =~= cs@.subrange(start as int, i as int));
        }
        proof {
            lemma_line_end(rest, 0);
            assert forall|k: int| 0 <= k < i - start implies rest[k] != '\n' by {
                assert(rest[k] == cs@[start + k]);
            }
            if i < cs@.len() {
                assert(rest[i - start] == '\n');
            }
            assert(line_end(rest, 0) == i - start) by {
                lemma_line_end_at(rest, i - start);
            }
        }
        let ghost old_out = out@;
        let ghost s0 = start as int;
        let ghost e = i - start;
        proof {
            if text_lines(rest).len() > 0 {
                assert(text_lines(rest)[0] == text_lines(source@)[old_out.len() as int]);
            }
        }
        if i < cs.len() {
            let ghost raw = line@;
            if line.len() > 0 && line[line.len() - 1] == '\r' {
                line.pop();
            }
            proof {
                assert(rest.take(i - start) =~= cs@.subrange(start as int, i as int));
                assert(line@ == strip_cr(raw));
                assert(rest.skip(i - start + 1) =~= cs@.skip(i + 1));
            }
            out.push(line);
            start = i + 1;
            proof {
                let tl = text_lines(rest);
                let tail = text_lines(cs@.skip(start as int));
                assert(rest.skip(e + 1) =~= cs@.skip(start as int));
                assert(tl =~= seq![strip_cr(rest.take(e))] + tail);
                assert(tl[0] == text_lines(source@)[old_out.len() as int]);
                assert forall|k: int| 0 <= k < out@.len() implies #[trigger] out@[k]@ == text_lines(source@)[k] by {
                    if k < old_out.len() {
                        assert(out@[k] == old_out[k]);
                    }
                }
                assert forall|k: int| 0 <= k < tail.len() implies
                    #[trigger] tail[k] == text_lines(source@)[out@.len() + k] by {
                    assert(tail[k] == tl[k + 1]);
                    assert(tl[k + 1] == text_lines(cs@.skip(s0))[k + 1]);
                }
            }
        } else {
            proof {
                assert(rest =~= cs@.subrange(start as int, i as int));
            }
            out.push(line);
            start = i;
            proof {
                assert(cs@.skip(start as int) =~= Seq::<char>::empty());
                assert(text_lines(rest) == seq![rest]);
                assert forall|k: int| 0 <= k < out@.len() implies #[trigger] out@[k]@ == text_lines(source@)[k] by {
                    if k < old_out.len() {
                        assert(out@[k] == old_out[k]);
                    }
                }
            }
        }
    }
    proof {
        assert(cs@.skip(start as int) =~= Seq::<char>::empty());
    }
    out
}

/// `line_end` finds the first line feed.
proof fn lemma_line_end_at(s: Seq<char>, e: int)
    requires
        0 <= e <= s.len(),
        e < s.len() ==> s[e] == '\n',
        forall|k: int| 0 <= k < e ==> s[k] != '\n',
    ensures
        line_end(s, 0) == e,
{
    lemma_line_end_from(s, 0, e);
}

/// `line_end` from `i` finds the first line feed at or after it.
proof fn lemma_line_end_from(s: Seq<char>, i: int, e: int)
    requires
        0 <= i <= e <= s.len(),
        e < s.len() ==> s[e] == '\n',
        forall|k: int| i <= k < e ==> s[k] != '\n',
    ensures
        line_end(s, i) == e,
    decreases e - i,
{
    if i < e {
        lemma_line_end_from(s, i + 1, e);
    }
}


/// `n` blanks.
fn blank_text(n: usize) -> (r: String)
    ensures
        r@ == blanks(n as nat),
{
    let mut out: Vec<char> = Vec::new();
    let mut i: usize = 0;
    while i < n
        invariant
            i <= n,
            out@ == blanks(i as nat),
        decreases n - i,
    {
        out.push(' ');
        i += 1;
    }
    string_from_chars(out.as_slice())
}

/// The blanks under the characters of `line` before column `col`.
fn caret_pad_text(line: &Vec<char>, col: usize) -> (r: String)
    ensures
        r@ == caret_pad(line@, col),
{
    let n = if col == 0 { line.len() } else if col - 1 < line.len() { col - 1 } else { line.len() };
    let mut out: Vec<char> = Vec::new();
    let mut i: usize = 0;
    while i < n
        invariant
            i <= n,
            n <= line@.len(),
            out@ == pad_chars(line@.take(i as int)),
        decreases n - i,
    {
        if line[i] == '\t' {
            out.push(' ');
            out.push(' ');
            out.push(' ');
            out.push(' ');
        } else {
            out.push(' ');
        }
        proof {
            assert(line@.take(i as int + 1).drop_last() =~= line@.take(i as int));
        }
        i += 1;
    }
    string_from_chars(out.as_slice())
}

/// The lines that show the diagnostics under the lines of `source`: for
/// each, the message, the place, the source line with a caret under the
/// column, and an empty line.
pub fn report_errors(source: &str, errors: &[Diagnostic]) -> (out: Vec<String>)
    requires
        forall|i: int| 0 <= i < errors@.len() ==> #[trigger] errors@[i].line >= 1,
    ensures
        out@.len() == report_lines(text_lines(source@), errors@).len(),
        forall|i: int| 0 <= i < out@.len() ==> #[trigger] out@[i]@ == report_lines(text_lines(source@), errors@)[i],
{
    let lines = source_lines(source);
    let ghost tl = text_lines(source@);
    let mut out: Vec<String> = Vec::new();
    let mut k: usize = 0;
    while k < errors.len()
        invariant
            k <= errors@.len(),
            lines@.len() == tl.len(),
            forall|i: int| 0 <= i < lines@.len() ==> #[trigger] lines@[i]@ == tl[i],
            out@.len() == report_lines(tl, errors@.take(k as int)).len(),
            forall|i: int| 0 <= i < out@.len() ==> #[trigger] out@[i]@ == report_lines(tl, errors@.take(k as int))[i],
        decreases errors@.len() - k,
    {
        let d = &errors[k];
        let ghost before = out@;
        let ghost want = diagnostic_lines(tl, *d);
        let line_text = decimal_string(d.line);
        out.push(join2("\x1b[31;1merror\x1b[0m: ", d.message.as_str()));
        out.push(join3(join2("\x1b[34;1m -->\x1b[0m line ", line_text.as_str()).as_str(), ":",
            decimal_string(d.col).as_str()));
        let ghost shown: bool = 1 <= d.line && d.line - 1 < tl.len();
        if d.line >= 1 && d.line - 1 < lines.len() {
            let pad = blank_text(chars_of(line_text.as_str()).len());
            let content = &lines[d.line - 1];
            out.push(join3("\x1b[34;1m", pad.as_str(), " |\x1b[0m"));
            out.push(join3(join3("\x1b[34;1m", line_text.as_str(), " |\x1b[0m ").as_str(),
                string_from_chars(content.as_slice()).as_str(), ""));
            let caret = caret_pad_text(content, d.col);
            out.push(join3(join3("\x1b[34;1m", pad.as_str(), " |\x1b[0m ").as_str(), caret.as_str(),
                "\x1b[31;1m^\x1b[0m"));
        }
        out.push(String::new());
        proof {
            assert(errors@.take(k as int + 1).drop_last() =~= errors@.take(k as int));
            assert(errors@.take(k as int + 1).last() == *d);
            reveal_strlit("");
            let n0 = before.len() as int;
            assert(out@[n0]@ == want[0]);
            assert(out@[n0 + 1]@ == want[1]);
            if shown {
                assert(out@[n0 + 2]@ == want[2]);
                assert(out@[n0 + 3]@ == want[3]);
                assert(out@[n0 + 4]@ == want[4]);
                assert(out@[n0 + 5]@ == want[5]);
            } else {
                assert(out@[n0 + 2]@ == want[2]);
            }
            assert(out@.len() == before.len() + want.len());
            assert forall|i: int| 0 <= i < out@.len() implies
                #[trigger] out@[i]@ == report_lines(tl, errors@.take(k as int + 1))[i] by {
                if i >= before.len() {
                    assert(report_lines(tl, errors@.take(k as int + 1))[i] == want[i - before.len()]);
                } else {
                    assert(out@[i] == before[i]);
                }
            }
        }
        k += 1;
    }
    proof {
        assert(errors@.take(errors@.len() as int) =~= errors@);
    }
    out
}

} // verus!
