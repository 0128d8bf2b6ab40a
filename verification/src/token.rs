//! Turning source text into lines of tokens.
//!
//! A token is a maximal run of non-whitespace characters, except that a
//! `"` toggles a quoted state in which whitespace is ordinary content, so
//! a quoted span is one token, quotes included.  Before tokenizing, a
//! line is trimmed and everything from the first `;` on is discarded —
//! also inside quotes, so a `;` in a string literal truncates the line.

use crate::defs::{is_space, is_space_char};
use vstd::prelude::*;

verus! {

/// One step of the tokenizing scan: `buf` is the token being collected,
/// `acc` the tokens already emitted, `in_str` the quoted state.
pub open spec fn tok_rec(
    s: Seq<char>,
    i: int,
    in_str: bool,
    buf: Seq<char>,
    acc: Seq<Seq<char>>,
) -> Seq<Seq<char>>
    decreases s.len() - i,
{
    if i < 0 || i >= s.len() {
        if buf.len() == 0 {
            acc
        } else {
            acc.push(buf)
        }
    } else {
        let c = s[i];
        let quoted = if c == '"' {
            !in_str
        } else {
            in_str
        };
        if is_space_char(c) && !quoted {
            if buf.len() == 0 {
                tok_rec(s, i + 1, quoted, buf, acc)
            } else {
                tok_rec(s, i + 1, quoted, Seq::empty(), acc.push(buf))
            }
        } else {
            tok_rec(s, i + 1, quoted, buf.push(c), acc)
        }
    }
}

/// The tokens of one line.
pub open spec fn tokens_of(s: Seq<char>) -> Seq<Seq<char>> {
    tok_rec(s, 0, false, Seq::empty(), Seq::empty())
}

/// The same scan with the quoted state left out: plain splitting on runs
/// of whitespace.
pub open spec fn split_rec(s: Seq<char>, i: int, buf: Seq<char>, acc: Seq<Seq<char>>) -> Seq<
    Seq<char>,
>
    decreases s.len() - i,
{
    if i < 0 || i >= s.len() {
        if buf.len() == 0 {
            acc
        } else {
            acc.push(buf)
        }
    } else {
        let c = s[i];
        if is_space_char(c) {
            if buf.len() == 0 {
                split_rec(s, i + 1, buf, acc)
            } else {
                split_rec(s, i + 1, Seq::empty(), acc.push(buf))
            }
        } else {
            split_rec(s, i + 1, buf.push(c), acc)
        }
    }
}

/// Splitting a line on runs of whitespace.
pub open spec fn split_whitespace(s: Seq<char>) -> Seq<Seq<char>> {
    split_rec(s, 0, Seq::empty(), Seq::empty())
}

proof fn lemma_tok_split_agree(s: Seq<char>, i: int, buf: Seq<char>, acc: Seq<Seq<char>>)
    requires
        forall|j: int| 0 <= j < s.len() ==> s[j] != '"',
    ensures
        tok_rec(s, i, false, buf, acc) == split_rec(s, i, buf, acc),
    decreases s.len() - i,
{
    if 0 <= i < s.len() {
        let c = s[i];
        if is_space_char(c) {
            if buf.len() == 0 {
                lemma_tok_split_agree(s, i + 1, buf, acc);
            } else {
                lemma_tok_split_agree(s, i + 1, Seq::empty(), acc.push(buf));
            }
        } else {
            lemma_tok_split_agree(s, i + 1, buf.push(c), acc);
        }
    }
}

/// On a line without quote characters the tokenizer agrees with plain
/// splitting on runs of whitespace.
pub proof fn lemma_tokens_no_quotes(s: Seq<char>)
    requires
        forall|j: int| 0 <= j < s.len() ==> s[j] != '"',
    ensures
        tokens_of(s) == split_whitespace(s),
{
    lemma_tok_split_agree(s, 0, Seq::empty(), Seq::empty());
}

/// Splits one line into tokens.
pub fn tokenize(line: &str) -> (r: Vec<String>)
    ensures
        r.deep_view() == tokens_of(line@),
{
    let ghost s = line@;
    let len = line.unicode_len();
    let mut tokens: Vec<String> = Vec::new();
    let mut start: usize = 0;
    let mut in_str = false;
    let mut i: usize = 0;
    proof {
        assert(s.subrange(0, 0) =~= Seq::<char>::empty());
        assert(tokens.deep_view() =~= Seq::<Seq<char>>::empty());
    }
    while i < len
        invariant
            s == line@,
            len == s.len(),
            i <= len,
            start <= i,
            tok_rec(s, i as int, in_str, s.subrange(start as int, i as int), tokens.deep_view())
                == tokens_of(s),
        decreases len - i,
    {
        let ghost i0 = i as int;
        let ghost in0 = in_str;
        let ghost prev_buf = s.subrange(start as int, i as int);
        let ghost prev_acc = tokens.deep_view();
        let c = line.get_char(i);
        if c == '"' {
            in_str = !in_str;
        }
        if is_space(c) && !in_str {
            if start < i {
                let token = line.substring_char(start, i).to_owned();
                tokens.push(token);
                proof {
                    assert(tokens.deep_view() =~= prev_acc.push(prev_buf));
                }
            }
            start = i + 1;
        }
        i += 1;
        proof {
            let quoted = if s[i0] == '"' {
                !in0
            } else {
                in0
            };
            assert(quoted == in_str);
            if is_space_char(s[i0]) && !quoted {
                assert(s.subrange(start as int, i as int) =~= Seq::<char>::empty());
                if prev_buf.len() == 0 {
                    assert(prev_buf =~= Seq::<char>::empty());
                    assert(tok_rec(s, i0, in0, prev_buf, prev_acc) == tok_rec(
                        s,
                        i0 + 1,
                        quoted,
                        Seq::<char>::empty(),
                        prev_acc,
                    ));
                } else {
                    assert(tok_rec(s, i0, in0, prev_buf, prev_acc) == tok_rec(
                        s,
                        i0 + 1,
                        quoted,
                        Seq::<char>::empty(),
                        prev_acc.push(prev_buf),
                    ));
                }
            } else {
                assert(s.subrange(start as int, i as int) =~= prev_buf.push(s[i0]));
                assert(tok_rec(s, i0, in0, prev_buf, prev_acc) == tok_rec(
                    s,
                    i0 + 1,
                    quoted,
                    prev_buf.push(s[i0]),
                    prev_acc,
                ));
            }
        }
    }
    if start < len {
        let token = line.substring_char(start, len).to_owned();
        let ghost prev_acc = tokens.deep_view();
        tokens.push(token);
        proof {
            assert(tokens.deep_view() =~= prev_acc.push(s.subrange(start as int, len as int)));
        }
    }
    tokens
}

/// Index of the first `;` in `s` at or after `i`, or the length of `s`
/// when there is none.
pub open spec fn comment_start(s: Seq<char>, i: int) -> int
    decreases s.len() - i,
{
    if i < 0 || i >= s.len() {
        s.len() as int
    } else if s[i] == ';' {
        i
    } else {
        comment_start(s, i + 1)
    }
}

/// A line with everything from the first `;` on removed.
pub open spec fn stripped(s: Seq<char>) -> Seq<char> {
    s.subrange(0, comment_start(s, 0))
}

/// Removes the comment: everything from the first `;` to the end of the
/// line, also when the `;` stands inside a quoted span.
pub fn strip_comment(line: &str) -> (r: String)
    ensures
        r@ == stripped(line@),
{
    let len = line.unicode_len();
    let mut j: usize = 0;
    while j < len && line.get_char(j) != ';'
        invariant
            len == line@.len(),
            j <= len,
            comment_start(line@, 0) == comment_start(line@, j as int),
        decreases len - j,
    {
        j += 1;
    }
    line.substring_char(0, j).to_owned()
}

/// `s` without its leading whitespace.
pub open spec fn trim_front(s: Seq<char>) -> Seq<char>
    decreases s.len(),
{
    if s.len() > 0 && is_space_char(s[0]) {
        trim_front(s.drop_first())
    } else {
        s
    }
}

/// `s` without its trailing whitespace.
pub open spec fn trim_back(s: Seq<char>) -> Seq<char>
    decreases s.len(),
{
    if s.len() > 0 && is_space_char(s.last()) {
        trim_back(s.drop_last())
    } else {
        s
    }
}

/// `s` without leading and trailing whitespace.
pub open spec fn trimmed(s: Seq<char>) -> Seq<char> {
    trim_back(trim_front(s))
}

/// Removes leading and trailing whitespace.
pub fn trim(line: &str) -> (r: String)
    ensures
        r@ == trimmed(line@),
{
    let ghost s = line@;
    let len = line.unicode_len();
    let mut lo: usize = 0;
    proof {
        assert(s.subrange(0, len as int) =~= s);
    }
    while lo < len && is_space(line.get_char(lo))
        invariant
            s == line@,
            len == s.len(),
            lo <= len,
            trim_front(s) == trim_front(s.subrange(lo as int, len as int)),
        decreases len - lo,
    {
        proof {
            let sub = s.subrange(lo as int, len as int);
            assert(sub.drop_first() =~= s.subrange(lo as int + 1, len as int));
        }
        lo += 1;
    }
    let mut hi: usize = len;
    while hi > lo && is_space(line.get_char(hi - 1))
        invariant
            s == line@,
            len == s.len(),
            lo <= hi <= len,
            trim_back(s.subrange(lo as int, len as int)) == trim_back(
                s.subrange(lo as int, hi as int),
            ),
        decreases hi,
    {
        proof {
            let sub = s.subrange(lo as int, hi as int);
            assert(sub.drop_last() =~= s.subrange(lo as int, hi as int - 1));
        }
        hi -= 1;
    }
    line.substring_char(lo, hi).to_owned()
}

/// The tokens of one raw source line: trim it, drop it when nothing is
/// left, and otherwise strip its comment and tokenize what remains.  A
/// line that held only a comment still counts as a line, with no tokens.
pub open spec fn line_tokens(line: Seq<char>) -> Option<Seq<Seq<char>>> {
    if trimmed(line).len() == 0 {
        None
    } else {
        Some(tokens_of(stripped(trimmed(line))))
    }
}

/// Parses one raw source line; `None` for a blank line.
pub fn parse_line(line: &str) -> (r: Option<Vec<String>>)
    ensures
        match r {
            Some(tokens) => line_tokens(line@) == Some(tokens.deep_view()),
            None => line_tokens(line@) is None,
        },
{
    let t = trim(line);
    if t.as_str().is_empty() {
        None
    } else {
        let rest = strip_comment(t.as_str());
        Some(tokenize(rest.as_str()))
    }
}

/// What one raw line contributes to the program: one line of tokens, or
/// nothing when it is blank.
pub open spec fn emit_line(line: Seq<char>) -> Seq<Seq<Seq<char>>> {
    match line_tokens(line) {
        Some(t) => seq![t],
        None => Seq::empty(),
    }
}

/// One step of splitting the source text on line feeds and parsing each
/// line: `line` is the line being collected, `acc` the lines already kept.
pub open spec fn src_rec(s: Seq<char>, i: int, line: Seq<char>, acc: Seq<Seq<Seq<char>>>) -> Seq<
    Seq<Seq<char>>,
>
    decreases s.len() - i,
{
    if i < 0 || i >= s.len() {
        acc + emit_line(line)
    } else if s[i] == '\n' {
        src_rec(s, i + 1, Seq::empty(), acc + emit_line(line))
    } else {
        src_rec(s, i + 1, line.push(s[i]), acc)
    }
}

/// The program a whole source text denotes: its lines, each trimmed, its
/// blank lines dropped, comments stripped, the rest tokenized.
pub open spec fn parsed_source(s: Seq<char>) -> Seq<Seq<Seq<char>>> {
    src_rec(s, 0, Seq::empty(), Seq::empty())
}

/// Parses a whole source text into lines of tokens.
pub fn parse_source(text: &str) -> (r: Vec<Vec<String>>)
    ensures
        r.deep_view() == parsed_source(text@),
{
    let ghost s = text@;
    let len = text.unicode_len();
    let mut lines: Vec<Vec<String>> = Vec::new();
    let mut ls: usize = 0;
    let mut i: usize = 0;
    proof {
        assert(s.subrange(0, 0) =~= Seq::<char>::empty());
        assert(lines.deep_view() =~= Seq::<Seq<Seq<char>>>::empty());
    }
    while i < len
        invariant
            s == text@,
            len == s.len(),
            i <= len,
            ls <= i,
            src_rec(s, i as int, s.subrange(ls as int, i as int), lines.deep_view())
                == parsed_source(s),
        decreases len - i,
    {
        let ghost i0 = i as int;
        let ghost prev_line = s.subrange(ls as int, i as int);
        let ghost prev_acc = lines.deep_view();
        let c = text.get_char(i);
        if c == '\n' {
            let piece = text.substring_char(ls, i);
            match parse_line(piece) {
                Some(tokens) => {
                    lines.push(tokens);
                    proof {
                        assert(lines.deep_view() =~= prev_acc + emit_line(prev_line));
                    }
                },
                None => {
                    proof {
                        assert(prev_acc + emit_line(prev_line) =~= prev_acc);
                    }
                },
            }
            ls = i + 1;
        }
        i += 1;
        proof {
            if s[i0] == '\n' {
                assert(s.subrange(ls as int, i as int) =~= Seq::<char>::empty());
                assert(src_rec(s, i0, prev_line, prev_acc) == src_rec(
                    s,
                    i0 + 1,
                    Seq::<char>::empty(),
                    prev_acc + emit_line(prev_line),
                ));
            } else {
                assert(s.subrange(ls as int, i as int) =~= prev_line.push(s[i0]));
                assert(src_rec(s, i0, prev_line, prev_acc) == src_rec(
                    s,
                    i0 + 1,
                    prev_line.push(s[i0]),
                    prev_acc,
                ));
            }
        }
    }
    let piece = text.substring_char(ls, len);
    let ghost prev_acc = lines.deep_view();
    let ghost last_line = s.subrange(ls as int, len as int);
    match parse_line(piece) {
        Some(tokens) => {
            lines.push(tokens);
            proof {
                assert(lines.deep_view() =~= prev_acc + emit_line(last_line));
            }
        },
        None => {
            proof {
                assert(prev_acc + emit_line(last_line) =~= prev_acc);
            }
        },
    }
    lines
}

} // verus!
