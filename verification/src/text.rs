//! Escaping for the record log and the lower-casing tokenizer.
//!
//! The record log is line oriented, so a stored field must not contain a raw
//! newline, and the field separator `|` must be distinguishable from a `|`
//! inside a field.  `escape` protects `\`, newline and `|`; `unescape`
//! reverses it and leaves every other `\X` pair, and a trailing `\`, alone.

use vstd::prelude::*;

use crate::chars::alphanumeric;
use crate::chars::char_alphanumeric;
use crate::chars::chars_text;
use crate::chars::lower_char;
use crate::chars::text_chars;
use crate::chars::to_lower;

verus! {

/// What one character becomes in a stored field.
pub open spec fn escape_char(c: char) -> Seq<char> {
    if c == '\\' {
        seq!['\\', '\\']
    } else if c == '\n' {
        seq!['\\', 'n']
    } else if c == '|' {
        seq!['\\', '|']
    } else {
        seq![c]
    }
}

/// The escaped form of a whole field.
pub open spec fn escape_seq(s: Seq<char>) -> Seq<char>
    decreases s.len(),
{
    if s.len() == 0 {
        Seq::empty()
    } else {
        escape_char(s[0]) + escape_seq(s.drop_first())
    }
}

/// The raw field behind an escaped one.  A pair `\X` with `X` none of
/// `n`, `|`, `\` stays as it is, and a trailing `\` stays a `\`.
pub open spec fn unescape_seq(s: Seq<char>) -> Seq<char>
    decreases s.len(),
{
    if s.len() == 0 {
        Seq::empty()
    } else if s[0] == '\\' {
        if s.len() == 1 {
            seq!['\\']
        } else if s[1] == 'n' {
            seq!['\n'] + unescape_seq(s.skip(2))
        } else if s[1] == '|' {
            seq!['|'] + unescape_seq(s.skip(2))
        } else if s[1] == '\\' {
            seq!['\\'] + unescape_seq(s.skip(2))
        } else {
            seq!['\\', s[1]] + unescape_seq(s.skip(2))
        }
    } else {
        seq![s[0]] + unescape_seq(s.drop_first())
    }
}

proof fn lemma_escape_seq_push(s: Seq<char>, c: char)
    ensures
        escape_seq(s.push(c)) == escape_seq(s) + escape_char(c),
    decreases s.len(),
{
    if s.len() == 0 {
        assert(s.push(c)[0] == c);
        assert(s.push(c).drop_first() =~= Seq::<char>::empty());
        assert(escape_seq(s.push(c)) == escape_char(c) + escape_seq(Seq::<char>::empty()));
        assert(escape_seq(s) == Seq::<char>::empty());
        assert(escape_char(c) + Seq::<char>::empty() =~= Seq::<char>::empty() + escape_char(c));
    } else {
        assert(s.push(c).drop_first() =~= s.drop_first().push(c));
        lemma_escape_seq_push(s.drop_first(), c);
        assert(escape_seq(s.push(c)) =~= escape_seq(s) + escape_char(c));
    }
}

/// Escapes a field for storage: `\` becomes `\\`, newline becomes `\n`,
/// `|` becomes `\|`; everything else passes through.
pub fn escape(input: &str) -> (r: String)
    ensures
        r@ == escape_seq(input@),
{
    let chars = text_chars(input);
    let mut out: Vec<char> = Vec::new();
    let mut i: usize = 0;
    while i < chars.len()
        invariant
            i <= chars.len(),
            chars@ == input@,
            out@ == escape_seq(input@.take(i as int)),
        decreases chars.len() - i,
    {
        let c = chars[i];
        if c == '\\' {
            out.push('\\');
            out.push('\\');
        } else if c == '\n' {
            out.push('\\');
            out.push('n');
        } else if c == '|' {
            out.push('\\');
            out.push('|');
        } else {
            out.push(c);
        }
        proof {
            assert(input@.take(i + 1) =~= input@.take(i as int).push(input@[i as int]));
            lemma_escape_seq_push(input@.take(i as int), input@[i as int]);
        }
        i = i + 1;
    }
    proof {
        assert(input@.take(chars@.len() as int) =~= input@);
    }
    chars_text(&out)
}

/// Undoes `escape`: `\\`, `\n`, `\|` become `\`, newline, `|`; any other
/// `\X` pair and a trailing `\` are kept verbatim.
pub fn unescape(input: &str) -> (r: String)
    ensures
        r@ == unescape_seq(input@),
{
    let chars = text_chars(input);
    let mut out: Vec<char> = Vec::new();
    let mut i: usize = 0;
    proof {
        assert(input@.skip(0) =~= input@);
        assert(out@ + unescape_seq(input@) =~= unescape_seq(input@));
    }
    while i < chars.len()
        invariant
            i <= chars.len(),
            chars@ == input@,
            unescape_seq(input@) == out@ + unescape_seq(input@.skip(i as int)),
        decreases chars.len() - i,
    {
        let ghost pre = input@.skip(i as int);
        proof {
            assert(pre.len() == chars@.len() - i);
            assert(pre[0] == input@[i as int]);
        }
        let c = chars[i];
        let ghost prev = out@;
        if c == '\\' {
            if i + 1 < chars.len() {
                proof {
                    assert(pre[1] == input@[i + 1]);
                }
                let n = chars[i + 1];
                let ghost head = if n == 'n' {
                    seq!['\n']
                } else if n == '|' {
                    seq!['|']
                } else if n == '\\' {
                    seq!['\\']
                } else {
                    seq!['\\', n]
                };
                if n == 'n' {
                    out.push('\n');
                } else if n == '|' {
                    out.push('|');
                } else if n == '\\' {
                    out.push('\\');
                } else {
                    out.push('\\');
                    out.push(n);
                }
                proof {
                    assert(pre.skip(2) =~= input@.skip(i + 2));
                    assert(unescape_seq(pre) == head + unescape_seq(pre.skip(2)));
                    assert(out@ =~= prev + head);
                    assert(prev + (head + unescape_seq(pre.skip(2))) =~= (prev + head)
                        + unescape_seq(pre.skip(2)));
                }
                i = i + 2;
            } else {
                out.push('\\');
                proof {
                    assert(pre.len() == 1);
                    assert(input@.skip(i + 1) =~= Seq::<char>::empty());
                    assert(out@ =~= prev + seq!['\\']);
                    assert(prev + (seq!['\\'] + unescape_seq(Seq::<char>::empty())) =~= (prev
                        + seq!['\\']) + unescape_seq(Seq::<char>::empty()));
                    assert(unescape_seq(pre) =~= seq!['\\']);
                    assert(seq!['\\'] =~= seq!['\\'] + unescape_seq(Seq::<char>::empty()));
                }
                i = i + 1;
            }
        } else {
            out.push(c);
            proof {
                assert(pre.drop_first() =~= input@.skip(i + 1));
                assert(unescape_seq(pre) == seq![pre[0]] + unescape_seq(pre.drop_first()));
                assert(out@ =~= prev + seq![c]);
                assert(prev + (seq![c] + unescape_seq(pre.drop_first())) =~= (prev + seq![c])
                    + unescape_seq(pre.drop_first()));
            }
            i = i + 1;
        }
    }
    proof {
        assert(input@.skip(chars@.len() as int) =~= Seq::<char>::empty());
    }
    chars_text(&out)
}

/// Escaping loses nothing: unescaping an escaped field gives the field
/// back, for every sequence of characters.
pub proof fn lemma_unescape_escape(s: Seq<char>)
    ensures
        unescape_seq(escape_seq(s)) == s,
    decreases s.len(),
{
    if s.len() == 0 {
        assert(unescape_seq(escape_seq(s)) =~= s);
    } else {
        let c = s[0];
        let rest = s.drop_first();
        lemma_unescape_escape(rest);
        let e = escape_char(c) + escape_seq(rest);
        assert(escape_seq(s) == e);
        if c == '\\' || c == '\n' || c == '|' {
            assert(e.len() >= 2);
            assert(e[0] == '\\');
            assert(e.skip(2) =~= escape_seq(rest));
            assert(unescape_seq(escape_seq(s)) =~= s);
        } else {
            assert(e[0] == c);
            assert(e.drop_first() =~= escape_seq(rest));
            assert(unescape_seq(escape_seq(s)) =~= s);
        }
    }
}

/// A text flattened to one printed line: every newline becomes a space,
/// every other character passes through.
pub open spec fn flatten_seq(s: Seq<char>) -> Seq<char> {
    s.map_values(
        |c: char|
            if c == '\n' {
                ' '
            } else {
                c
            },
    )
}

/// Replaces newlines by single spaces, the way the printed rows do.
pub fn flatten_newlines(input: &str) -> (r: String)
    ensures
        r@ == flatten_seq(input@),
{
    let chars = text_chars(input);
    let mut out: Vec<char> = Vec::new();
    let mut i: usize = 0;
    while i < chars.len()
        invariant
            i <= chars.len(),
            chars@ == input@,
            out@ == flatten_seq(input@.take(i as int)),
        decreases chars.len() - i,
    {
        let c = chars[i];
        if c == '\n' {
            out.push(' ');
        } else {
            out.push(c);
        }
        proof {
            assert(input@.take(i + 1) =~= input@.take(i as int).push(input@[i as int]));
            assert(out@ =~= flatten_seq(input@.take(i + 1)));
        }
        i = i + 1;
    }
    proof {
        assert(input@.take(chars@.len() as int) =~= input@);
    }
    chars_text(&out)
}

/// Escaping a field free of `|` yields text free of `|`: the separator
/// can then never appear inside the first fields of a line.
pub proof fn lemma_escape_no_pipe(s: Seq<char>)
    requires
        forall|k: int| 0 <= k < s.len() ==> s[k] != '|',
    ensures
        forall|j: int| 0 <= j < escape_seq(s).len() ==> escape_seq(s)[j] != '|',
    decreases s.len(),
{
    if s.len() > 0 {
        let head = escape_char(s[0]);
        let rest = s.drop_first();
        assert(forall|k: int| 0 <= k < rest.len() ==> rest[k] == s[k + 1] && s[k + 1] != '|');
        lemma_escape_no_pipe(rest);
        assert(forall|j: int| 0 <= j < head.len() ==> head[j] != '|');
        assert(forall|j: int|
            0 <= j < escape_seq(s).len() ==> escape_seq(s)[j] == (if j < head.len() {
                head[j]
            } else {
                escape_seq(rest)[j - head.len()]
            }));
    }
}

/// The token list of a text, read left to right while a partial token
/// `buf` is open: maximal runs of alphanumeric characters, folded to
/// lower case, with every separator dropped.
pub open spec fn tokens_from(s: Seq<char>, buf: Seq<char>) -> Seq<Seq<char>>
    decreases s.len(),
{
    if s.len() == 0 {
        if buf.len() == 0 {
            Seq::empty()
        } else {
            seq![buf]
        }
    } else if alphanumeric(s[0]) {
        tokens_from(s.drop_first(), buf.push(lower_char(s[0])))
    } else if buf.len() == 0 {
        tokens_from(s.drop_first(), Seq::empty())
    } else {
        seq![buf] + tokens_from(s.drop_first(), Seq::empty())
    }
}

/// The token list of a text.
pub open spec fn tokens_of(s: Seq<char>) -> Seq<Seq<char>> {
    tokens_from(s, Seq::empty())
}

/// Splits a text into lower-cased alphanumeric runs; every other character
/// separates tokens and is discarded.
pub fn tokenize(text: &str) -> (r: Vec<String>)
    ensures
        r@.map_values(|t: String| t@) == tokens_of(text@),
{
    let chars = text_chars(text);
    let mut tokens: Vec<String> = Vec::new();
    let mut buf: Vec<char> = Vec::new();
    let mut i: usize = 0;
    proof {
        assert(text@.skip(0) =~= text@);
        assert(tokens@.map_values(|t: String| t@) =~= Seq::<Seq<char>>::empty());
        assert(Seq::<Seq<char>>::empty() + tokens_from(text@, buf@) =~= tokens_from(
            text@,
            buf@,
        ));
    }
    while i < chars.len()
        invariant
            i <= chars.len(),
            chars@ == text@,
            tokens_of(text@) == tokens@.map_values(|t: String| t@) + tokens_from(
                text@.skip(i as int),
                buf@,
            ),
        decreases chars.len() - i,
    {
        let ghost pre = text@.skip(i as int);
        let ghost done = tokens@.map_values(|t: String| t@);
        let c = chars[i];
        proof {
            assert(pre.len() == chars@.len() - i);
            assert(pre[0] == text@[i as int]);
            assert(pre.drop_first() =~= text@.skip(i + 1));
        }
        if char_alphanumeric(c) {
            buf.push(to_lower(c));
        } else if buf.len() > 0 {
            let ghost run = buf@;
            let token = chars_text(&buf);
            tokens.push(token);
            buf = Vec::new();
            proof {
                assert(tokens_from(pre, run) == seq![run] + tokens_from(
                    pre.drop_first(),
                    Seq::empty(),
                ));
                assert(tokens@.map_values(|t: String| t@) =~= done.push(run));
                assert(done + (seq![run] + tokens_from(pre.drop_first(), Seq::empty()))
                    =~= done.push(run) + tokens_from(pre.drop_first(), Seq::empty()));
            }
        } else {
            proof {
                assert(buf@ =~= Seq::<char>::empty());
                assert(tokens_from(pre, buf@) == tokens_from(pre.drop_first(), Seq::empty()));
            }
        }
        i = i + 1;
    }
    proof {
        assert(text@.skip(chars@.len() as int) =~= Seq::<char>::empty());
    }
    if buf.len() > 0 {
        let ghost run = buf@;
        let ghost done = tokens@.map_values(|t: String| t@);
        let token = chars_text(&buf);
        tokens.push(token);
        proof {
            assert(tokens_from(Seq::<char>::empty(), run) =~= seq![run]);
            assert(tokens@.map_values(|t: String| t@) =~= done.push(run));
            assert(done + seq![run] =~= done.push(run));
        }
    } else {
        proof {
            assert(buf@ =~= Seq::<char>::empty());
            assert(tokens_from(Seq::<char>::empty(), buf@) =~= Seq::<Seq<char>>::empty());
            let done = tokens@.map_values(|t: String| t@);
            assert(done + Seq::<Seq<char>>::empty() =~= done);
        }
    }
    tokens
}

} // verus!
