//! The shape of a stored floating-point field.
//!
//! The store never computes with the weight of a record or the components
//! of a vector; it only has to decide whether a field would parse as a
//! float, because a line whose numeric field would not parse is dropped.
//! `float_text` states the grammar the standard float parser documents:
//! an optional sign, then `inf`, `infinity` or `nan` in any case, or a
//! decimal number with an optional fraction and an optional exponent.

use vstd::prelude::*;

use crate::chars::lower_char;
use crate::chars::to_lower;
use crate::num::all_digits;
use crate::num::is_digit;
use crate::num::signed_body;

verus! {

/// Every character folded to lower case.
pub open spec fn lower_seq(s: Seq<char>) -> Seq<char> {
    s.map_values(|c: char| lower_char(c))
}

/// The three non-numeric float spellings, in any case.
pub open spec fn inf_nan_text(s: Seq<char>) -> bool {
    ||| lower_seq(s) == seq!['i', 'n', 'f']
    ||| lower_seq(s) == seq!['i', 'n', 'f', 'i', 'n', 'i', 't', 'y']
    ||| lower_seq(s) == seq!['n', 'a', 'n']
}

/// Digits with an optional decimal point: `123`, `123.`, `123.45` or `.45`.
pub open spec fn mantissa_text(m: Seq<char>) -> bool {
    ||| (m.len() > 0 && all_digits(m))
    ||| (exists|d: int|
        0 <= d < m.len() && #[trigger] m[d] == '.' && all_digits(m.take(d)) && all_digits(
            m.skip(d + 1),
        ) && (d > 0 || m.len() > d + 1))
}

/// An exponent part: `e` or `E`, an optional sign, then digits.
pub open spec fn exp_text(u: Seq<char>) -> bool {
    u.len() > 0 && (u[0] == 'e' || u[0] == 'E') && {
        let w = signed_body(u.drop_first());
        w.len() > 0 && all_digits(w)
    }
}

/// A mantissa followed by an optional exponent.
pub open spec fn number_text(t: Seq<char>) -> bool {
    exists|i: int|
        0 <= i <= t.len() && #[trigger] mantissa_text(t.take(i)) && (i == t.len() || exp_text(
            t.skip(i),
        ))
}

/// A field the standard float parser accepts: an optional sign, then one
/// of the three special words or a number.
pub open spec fn float_text(s: Seq<char>) -> bool {
    let b = signed_body(s);
    inf_nan_text(b) || number_text(b)
}

/// The characters a float field can be made of.
pub open spec fn float_char_ok(c: char) -> bool {
    ||| c == '+'
    ||| c == '-'
    ||| c == '.'
    ||| c == 'e'
    ||| c == 'E'
    ||| is_digit(c)
    ||| lower_char(c) == 'i'
    ||| lower_char(c) == 'n'
    ||| lower_char(c) == 'f'
    ||| lower_char(c) == 'a'
    ||| lower_char(c) == 't'
    ||| lower_char(c) == 'y'
}

/// A float field holds only signs, digits, a point, an exponent mark or
/// the letters of the special words; in particular never `|`, `,`, `\` or
/// a newline.
pub proof fn lemma_float_text_chars(s: Seq<char>)
    requires
        float_text(s),
    ensures
        forall|i: int| 0 <= i < s.len() ==> float_char_ok(#[trigger] s[i]),
{
    let b = signed_body(s);
    let off: int = if s.len() > 0 && (s[0] == '+' || s[0] == '-') {
        1
    } else {
        0
    };
    assert(b =~= s.skip(off));
    assert forall|j: int| 0 <= j < b.len() implies float_char_ok(#[trigger] b[j]) by {
        if inf_nan_text(b) {
            assert(lower_seq(b)[j] == lower_char(b[j]));
            let lc = lower_char(b[j]);
            if lower_seq(b) == seq!['i', 'n', 'f'] {
                assert(lower_seq(b).len() == b.len());
                assert(b.len() == 3);
                if j == 0 {
                    assert(lc == 'i');
                } else if j == 1 {
                    assert(lc == 'n');
                } else {
                    assert(lc == 'f');
                }
            } else if lower_seq(b) == seq!['i', 'n', 'f', 'i', 'n', 'i', 't', 'y'] {
                assert(lower_seq(b).len() == b.len());
                assert(b.len() == 8);
                if j == 0 || j == 3 || j == 5 {
                    assert(lc == 'i');
                } else if j == 1 || j == 4 {
                    assert(lc == 'n');
                } else if j == 2 {
                    assert(lc == 'f');
                } else if j == 6 {
                    assert(lc == 't');
                } else {
                    assert(lc == 'y');
                }
            } else {
                assert(lower_seq(b) == seq!['n', 'a', 'n']);
                assert(lower_seq(b).len() == b.len());
                assert(b.len() == 3);
                if j == 0 || j == 2 {
                    assert(lc == 'n');
                } else {
                    assert(lc == 'a');
                }
            }
        } else {
            assert(number_text(b));
            let i0 = choose|i0: int|
                0 <= i0 <= b.len() && #[trigger] mantissa_text(b.take(i0)) && (i0 == b.len()
                    || exp_text(b.skip(i0)));
            if j < i0 {
                let m = b.take(i0);
                assert(m[j] == b[j]);
                if m.len() > 0 && all_digits(m) {
                    assert(is_digit(m[j]));
                } else {
                    let d = choose|d: int|
                        0 <= d < m.len() && #[trigger] m[d] == '.' && all_digits(m.take(d))
                            && all_digits(m.skip(d + 1)) && (d > 0 || m.len() > d + 1);
                    if j < d {
                        assert(m.take(d)[j] == m[j]);
                        assert(is_digit(m[j]));
                    } else if j == d {
                        assert(m[j] == '.');
                    } else {
                        assert(m.skip(d + 1)[j - d - 1] == m[j]);
                        assert(is_digit(m[j]));
                    }
                }
            } else {
                let u = b.skip(i0);
                assert(i0 < b.len());
                assert(exp_text(u));
                assert(u[j - i0] == b[j]);
                if j == i0 {
                    assert(u[0] == 'e' || u[0] == 'E');
                } else {
                    let v = u.drop_first();
                    assert(v =~= b.skip(i0 + 1));
                    let soff: int = if v.len() > 0 && (v[0] == '+' || v[0] == '-') {
                        1
                    } else {
                        0
                    };
                    let w = signed_body(v);
                    assert(w =~= v.skip(soff));
                    assert(v[j - i0 - 1] == b[j]);
                    if j == i0 + 1 && soff == 1 {
                        assert(b[j] == '+' || b[j] == '-');
                    } else {
                        assert(w[j - i0 - 1 - soff] == v[j - i0 - 1]);
                        assert(is_digit(w[j - i0 - 1 - soff]));
                    }
                }
            }
        }
    }
    assert forall|i: int| 0 <= i < s.len() implies float_char_ok(#[trigger] s[i]) by {
        if i < off {
            assert(s[i] == '+' || s[i] == '-');
        } else {
            assert(b[i - off] == s[i]);
        }
    }
}

/// Whether the characters from `start` on, folded to lower case, spell
/// exactly the word `w`.
fn lowered_equals(s: &Vec<char>, start: usize, w: &Vec<char>) -> (r: bool)
    requires
        start <= s@.len(),
    ensures
        r == (lower_seq(s@.skip(start as int)) == w@),
{
    let ghost b = s@.skip(start as int);
    if s.len() - start != w.len() {
        proof {
            assert(lower_seq(b).len() == b.len());
        }
        return false;
    }
    let mut j: usize = 0;
    while j < w.len()
        invariant
            0 <= j <= w@.len(),
            s@.len() <= usize::MAX,
            start + w@.len() == s@.len(),
            b == s@.skip(start as int),
            b.len() == w@.len(),
            forall|k: int| 0 <= k < j ==> lower_seq(b)[k] == w@[k],
        decreases w.len() - j,
    {
        let c = to_lower(s[start + j]);
        proof {
            assert(b[j as int] == s@[start + j]);
            assert(lower_seq(b)[j as int] == lower_char(b[j as int]));
        }
        if c != w[j] {
            proof {
                assert(lower_seq(b)[j as int] != w@[j as int]);
            }
            return false;
        }
        j = j + 1;
    }
    proof {
        assert(lower_seq(b) =~= w@);
    }
    true
}

/// Whether the characters in `[from, to)` are all decimal digits.
fn digits_range(s: &Vec<char>, from: usize, to: usize) -> (r: bool)
    requires
        from <= to <= s@.len(),
    ensures
        r == all_digits(s@.subrange(from as int, to as int)),
{
    let ghost m = s@.subrange(from as int, to as int);
    let mut j: usize = from;
    while j < to
        invariant
            from <= j <= to <= s@.len(),
            m == s@.subrange(from as int, to as int),
            forall|k: int| 0 <= k < j - from ==> is_digit(m[k]),
        decreases to - j,
    {
        let c = s[j];
        proof {
            assert(m[j - from] == s@[j as int]);
        }
        let u = c as u32;
        if u < 48 || u > 57 {
            proof {
                assert(!is_digit(m[j - from]));
            }
            return false;
        }
        j = j + 1;
    }
    true
}

/// The first position in `[from, to)` holding `a` or `c2`, or `to`.
fn find_first(s: &Vec<char>, from: usize, to: usize, a: char, c2: char) -> (r: usize)
    requires
        from <= to <= s@.len(),
    ensures
        from <= r <= to,
        r < to ==> (s@[r as int] == a || s@[r as int] == c2),
        forall|k: int| from <= k < r ==> s@[k] != a && s@[k] != c2,
    decreases to - from,
{
    let mut j: usize = from;
    while j < to
        invariant
            from <= j <= to <= s@.len(),
            forall|k: int| from <= k < j ==> s@[k] != a && s@[k] != c2,
        decreases to - j,
    {
        let c = s[j];
        if c == a || c == c2 {
            return j;
        }
        j = j + 1;
    }
    to
}

/// Whether `[from, to)` reads as a mantissa.
fn mantissa_check(s: &Vec<char>, from: usize, to: usize) -> (r: bool)
    requires
        from <= to <= s@.len(),
    ensures
        r == mantissa_text(s@.subrange(from as int, to as int)),
{
    let ghost m = s@.subrange(from as int, to as int);
    let dot = find_first(s, from, to, '.', '.');
    if dot == to {
        let r = to > from && digits_range(s, from, to);
        proof {
            if r {
                assert(mantissa_text(m));
            } else {
                assert(!(m.len() > 0 && all_digits(m)));
                assert(forall|d: int| 0 <= d < m.len() ==> m[d] == s@[from + d] && m[d] != '.');
                assert(!mantissa_text(m));
            }
        }
        r
    } else {
        let ghost dd = dot - from;
        proof {
            assert(m[dd] == s@[dot as int]);
            assert(m[dd] == '.');
            assert(!is_digit(m[dd]));
            assert(!(m.len() > 0 && all_digits(m)));
        }
        let before = digits_range(s, from, dot);
        let after = digits_range(s, dot + 1, to);
        let nonempty = dot > from || to > dot + 1;
        let r = before && after && nonempty;
        proof {
            assert(m.take(dd) =~= s@.subrange(from as int, dot as int));
            assert(m.skip(dd + 1) =~= s@.subrange(dot + 1, to as int));
            if r {
                assert(0 <= dd < m.len() && m[dd] == '.' && all_digits(m.take(dd)) && all_digits(
                    m.skip(dd + 1),
                ) && (dd > 0 || m.len() > dd + 1));
                assert(mantissa_text(m));
            } else {
                assert forall|d: int|
                    0 <= d < m.len() && #[trigger] m[d] == '.' implies !(all_digits(m.take(d))
                    && all_digits(m.skip(d + 1)) && (d > 0 || m.len() > d + 1)) by {
                    if d < dd {
                        assert(m[d] == s@[from + d]);
                        assert(s@[from + d] != '.');
                        assert(false);
                    } else if d > dd {
                        assert(m.take(d)[dd] == m[dd]);
                        assert(!is_digit(m.take(d)[dd]));
                        assert(!all_digits(m.take(d)));
                    } else {
                        if all_digits(m.take(d)) && all_digits(m.skip(d + 1)) && (d > 0 || m.len()
                            > d + 1) {
                            assert(false);
                        }
                    }
                }
                assert(!mantissa_text(m));
            }
        }
        r
    }
}

/// Whether the suffix starting at `from` reads as an exponent part.
fn exp_check(s: &Vec<char>, from: usize) -> (r: bool)
    requires
        from < s@.len(),
    ensures
        r == exp_text(s@.skip(from as int)),
{
    let ghost u = s@.skip(from as int);
    proof {
        assert(u[0] == s@[from as int]);
        assert(u.drop_first() =~= s@.skip(from + 1));
    }
    let c = s[from];
    if c != 'e' && c != 'E' {
        return false;
    }
    let n = s.len();
    let mut q = from + 1;
    if q < n && (s[q] == '+' || s[q] == '-') {
        q = q + 1;
    }
    let ghost v = s@.skip(from + 1);
    let ghost w = signed_body(v);
    proof {
        assert(w =~= s@.skip(q as int));
        assert(s@.skip(q as int) =~= s@.subrange(q as int, n as int));
    }
    if q == n {
        proof {
            assert(w.len() == 0);
        }
        return false;
    }
    let r = digits_range(s, q, n);
    proof {
        assert(w.len() == n - q);
    }
    r
}

/// Whether the whole field would parse as a float: the grammar the
/// standard parser documents for `f32`.
pub fn is_float_text(s: &Vec<char>) -> (r: bool)
    ensures
        r == float_text(s@),
{
    let n = s.len();
    let mut start: usize = 0;
    if n > 0 && (s[0] == '+' || s[0] == '-') {
        start = 1;
    }
    let ghost b = signed_body(s@);
    proof {
        assert(b =~= s@.skip(start as int));
    }
    let mut w: Vec<char> = Vec::new();
    w.push('i');
    w.push('n');
    w.push('f');
    let inf3 = lowered_equals(s, start, &w);
    proof {
        assert(w@ =~= seq!['i', 'n', 'f']);
    }
    if inf3 {
        return true;
    }
    w.push('i');
    w.push('n');
    w.push('i');
    w.push('t');
    w.push('y');
    let inf8 = lowered_equals(s, start, &w);
    proof {
        assert(w@ =~= seq!['i', 'n', 'f', 'i', 'n', 'i', 't', 'y']);
    }
    if inf8 {
        return true;
    }
    let mut w2: Vec<char> = Vec::new();
    w2.push('n');
    w2.push('a');
    w2.push('n');
    let nan3 = lowered_equals(s, start, &w2);
    proof {
        assert(w2@ =~= seq!['n', 'a', 'n']);
    }
    if nan3 {
        return true;
    }
    // Not one of the words, so only a number can make the field valid.
    let p = find_first(s, start, n, 'e', 'E');
    let ghost pi = p - start;
    proof {
        assert(b.len() == n - start);
        assert(b.take(pi) =~= s@.subrange(start as int, p as int));
        assert(b.skip(pi) =~= s@.skip(p as int));
    }
    let mant_ok = mantissa_check(s, start, p);
    let exp_ok: bool = if p == n {
        true
    } else {
        exp_check(s, p)
    };
    let r = mant_ok && exp_ok;
    proof {
        if r {
            assert(0 <= pi <= b.len() && mantissa_text(b.take(pi)) && (pi == b.len() || exp_text(
                b.skip(pi),
            )));
            assert(number_text(b));
        } else {
            assert forall|i: int|
                0 <= i <= b.len() implies !(#[trigger] mantissa_text(b.take(i)) && (i == b.len()
                || exp_text(b.skip(i)))) by {
                if i < pi {
                    assert(b.skip(i)[0] == b[i]);
                    assert(b[i] == s@[start + i]);
                    assert(s@[start + i] != 'e' && s@[start + i] != 'E');
                    assert(!exp_text(b.skip(i)));
                    assert(i < b.len());
                } else if i > pi {
                    assert(b.take(i)[pi] == b[pi]);
                    assert(b[pi] == s@[p as int]);
                    assert(!is_digit(b.take(i)[pi]));
                    assert(!(b.take(i).len() > 0 && all_digits(b.take(i))));
                    assert forall|d: int|
                        0 <= d < b.take(i).len() && #[trigger] b.take(i)[d] == '.' implies !(
                    all_digits(b.take(i).take(d)) && all_digits(b.take(i).skip(d + 1)) && (d > 0
                        || b.take(i).len() > d + 1)) by {
                        let m = b.take(i);
                        if d < pi {
                            assert(m.skip(d + 1)[pi - d - 1] == m[pi]);
                            assert(!is_digit(m.skip(d + 1)[pi - d - 1]));
                        } else if d > pi {
                            assert(m.take(d)[pi] == m[pi]);
                            assert(!is_digit(m.take(d)[pi]));
                        } else {
                            assert(m[d] == b[pi]);
                            assert(b[pi] == 'e' || b[pi] == 'E');
                            assert(false);
                        }
                    }
                    assert(!mantissa_text(b.take(i)));
                } else {
                    if !mant_ok {
                        assert(!mantissa_text(b.take(pi)));
                    } else {
                        assert(p < n);
                        assert(!exp_text(b.skip(pi)));
                        assert(i != b.len());
                    }
                }
            }
            assert(!number_text(b));
        }
    }
    r
}

} // verus!
