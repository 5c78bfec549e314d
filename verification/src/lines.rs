//! Splitting a line into fields and joining fields back into a line.
//!
//! Record lines are split on `|` into at most five fields (the text field
//! may contain further `|`), vector lines on `|` into three and their value
//! field on `,` without a limit.

use vstd::prelude::*;

verus! {

/// The fields of `cur + s` split on `c` into at most `n` pieces, where
/// `cur` is the piece being read.  With `n <= 1` the rest is one piece.
pub open spec fn splitn_from(s: Seq<char>, c: char, n: int, cur: Seq<char>) -> Seq<Seq<char>>
    decreases s.len(),
{
    if s.len() == 0 {
        seq![cur]
    } else if n <= 1 {
        seq![cur + s]
    } else if s[0] == c {
        seq![cur] + splitn_from(s.drop_first(), c, n - 1, Seq::empty())
    } else {
        splitn_from(s.drop_first(), c, n, cur.push(s[0]))
    }
}

/// A line split on `c` into at most `n` fields, as `str::splitn` splits.
pub open spec fn splitn(s: Seq<char>, c: char, n: int) -> Seq<Seq<char>> {
    splitn_from(s, c, n, Seq::empty())
}

/// The fields of `cur + s` split on every `c`.
pub open spec fn split_from(s: Seq<char>, c: char, cur: Seq<char>) -> Seq<Seq<char>>
    decreases s.len(),
{
    if s.len() == 0 {
        seq![cur]
    } else if s[0] == c {
        seq![cur] + split_from(s.drop_first(), c, Seq::empty())
    } else {
        split_from(s.drop_first(), c, cur.push(s[0]))
    }
}

/// A string split on every `c`, as `str::split` splits.
pub open spec fn split_all(s: Seq<char>, c: char) -> Seq<Seq<char>> {
    split_from(s, c, Seq::empty())
}

/// Fields joined with `c` between them.
pub open spec fn join_char(vs: Seq<Seq<char>>, c: char) -> Seq<char>
    decreases vs.len(),
{
    if vs.len() == 0 {
        Seq::empty()
    } else if vs.len() == 1 {
        vs[0]
    } else {
        vs[0] + seq![c] + join_char(vs.drop_first(), c)
    }
}

/// Splits into at most `n` fields on `c`, keeping any further `c` inside
/// the last field.
pub fn split_limit(v: &Vec<char>, c: char, n: usize) -> (r: Vec<Vec<char>>)
    requires
        n >= 1,
    ensures
        r@.map_values(|p: Vec<char>| p@) == splitn(v@, c, n as int),
{
    let mut parts: Vec<Vec<char>> = Vec::new();
    let mut cur: Vec<char> = Vec::new();
    let mut i: usize = 0;
    proof {
        assert(v@.skip(0) =~= v@);
        assert(parts@.map_values(|p: Vec<char>| p@) =~= Seq::<Seq<char>>::empty());
        assert(Seq::<Seq<char>>::empty() + splitn_from(v@, c, n as int, cur@) =~= splitn_from(
            v@,
            c,
            n as int,
            cur@,
        ));
    }
    while i < v.len()
        invariant
            i <= v@.len(),
            parts@.len() < n,
            splitn(v@, c, n as int) == parts@.map_values(|p: Vec<char>| p@) + splitn_from(
                v@.skip(i as int),
                c,
                n - parts@.len(),
                cur@,
            ),
        decreases v@.len() - i,
    {
        let ghost pre = v@.skip(i as int);
        let ghost done = parts@.map_values(|p: Vec<char>| p@);
        let ghost left = n - parts@.len();
        proof {
            assert(pre.len() == v@.len() - i);
            assert(pre[0] == v@[i as int]);
            assert(pre.drop_first() =~= v@.skip(i + 1));
        }
        let x = v[i];
        if parts.len() + 1 < n && x == c {
            let ghost piece = cur@;
            parts.push(cur);
            cur = Vec::new();
            proof {
                assert(splitn_from(pre, c, left, piece) == seq![piece] + splitn_from(
                    pre.drop_first(),
                    c,
                    left - 1,
                    Seq::empty(),
                ));
                assert(parts@.map_values(|p: Vec<char>| p@) =~= done.push(piece));
                assert(done + (seq![piece] + splitn_from(pre.drop_first(), c, left - 1, Seq::empty()))
                    =~= done.push(piece) + splitn_from(pre.drop_first(), c, left - 1, Seq::empty()));
            }
        } else {
            let ghost piece = cur@;
            cur.push(x);
            proof {
                if left <= 1 {
                    assert(splitn_from(pre, c, left, piece) == seq![piece + pre]);
                    assert(splitn_from(pre.drop_first(), c, left, cur@) == seq![
                        cur@ + pre.drop_first(),
                    ]);
                    assert(piece + pre =~= cur@ + pre.drop_first());
                } else {
                    assert(splitn_from(pre, c, left, piece) == splitn_from(
                        pre.drop_first(),
                        c,
                        left,
                        cur@,
                    ));
                }
            }
        }
        i = i + 1;
    }
    proof {
        assert(v@.skip(v@.len() as int) =~= Seq::<char>::empty());
        assert(splitn_from(Seq::empty(), c, n - parts@.len(), cur@) == seq![cur@]);
    }
    let ghost done = parts@.map_values(|p: Vec<char>| p@);
    parts.push(cur);
    proof {
        assert(parts@.map_values(|p: Vec<char>| p@) =~= done.push(parts@.last()@));
        assert(done + seq![parts@.last()@] =~= done.push(parts@.last()@));
    }
    parts
}

/// Splits on every `c`.
pub fn split_every(v: &Vec<char>, c: char) -> (r: Vec<Vec<char>>)
    ensures
        r@.map_values(|p: Vec<char>| p@) == split_all(v@, c),
{
    let mut parts: Vec<Vec<char>> = Vec::new();
    let mut cur: Vec<char> = Vec::new();
    let mut i: usize = 0;
    proof {
        assert(v@.skip(0) =~= v@);
        assert(parts@.map_values(|p: Vec<char>| p@) =~= Seq::<Seq<char>>::empty());
        assert(Seq::<Seq<char>>::empty() + split_from(v@, c, cur@) =~= split_from(v@, c, cur@));
    }
    while i < v.len()
        invariant
            i <= v@.len(),
            split_all(v@, c) == parts@.map_values(|p: Vec<char>| p@) + split_from(
                v@.skip(i as int),
                c,
                cur@,
            ),
        decreases v@.len() - i,
    {
        let ghost pre = v@.skip(i as int);
        let ghost done = parts@.map_values(|p: Vec<char>| p@);
        proof {
            assert(pre.len() == v@.len() - i);
            assert(pre[0] == v@[i as int]);
            assert(pre.drop_first() =~= v@.skip(i + 1));
        }
        let x = v[i];
        if x == c {
            let ghost piece = cur@;
            parts.push(cur);
            cur = Vec::new();
            proof {
                assert(parts@.map_values(|p: Vec<char>| p@) =~= done.push(piece));
                assert(done + (seq![piece] + split_from(pre.drop_first(), c, Seq::empty()))
                    =~= done.push(piece) + split_from(pre.drop_first(), c, Seq::empty()));
            }
        } else {
            cur.push(x);
        }
        i = i + 1;
    }
    proof {
        assert(v@.skip(v@.len() as int) =~= Seq::<char>::empty());
        assert(split_from(Seq::empty(), c, cur@) == seq![cur@]);
    }
    let ghost done = parts@.map_values(|p: Vec<char>| p@);
    parts.push(cur);
    proof {
        assert(parts@.map_values(|p: Vec<char>| p@) =~= done.push(parts@.last()@));
        assert(done + seq![parts@.last()@] =~= done.push(parts@.last()@));
    }
    parts
}

/// Walking a piece free of the separator only lengthens the open field.
proof fn lemma_split_from_clean(a: Seq<char>, rest: Seq<char>, c: char, cur: Seq<char>)
    requires
        forall|k: int| 0 <= k < a.len() ==> a[k] != c,
    ensures
        split_from(a + rest, c, cur) == split_from(rest, c, cur + a),
    decreases a.len(),
{
    if a.len() == 0 {
        assert(a + rest =~= rest);
        assert(cur + a =~= cur);
    } else {
        let s = a + rest;
        assert(s[0] == a[0]);
        assert(s.len() > 0);
        assert(s.drop_first() =~= a.drop_first() + rest);
        assert(forall|k: int| 0 <= k < a.drop_first().len() ==> a.drop_first()[k] == a[k + 1]);
        lemma_split_from_clean(a.drop_first(), rest, c, cur.push(a[0]));
        assert(cur.push(a[0]) + a.drop_first() =~= cur + a);
    }
}

/// A separator in front closes the open field.
proof fn lemma_split_from_sep(rest: Seq<char>, c: char, cur: Seq<char>)
    ensures
        split_from(seq![c] + rest, c, cur) == seq![cur] + split_from(rest, c, Seq::empty()),
{
    let s = seq![c] + rest;
    assert(s.len() > 0);
    assert(s[0] == c);
    assert(s.drop_first() =~= rest);
}

/// Joining fields with a separator none of them holds, then splitting on
/// it, gives the fields back.
pub proof fn lemma_split_join(vs: Seq<Seq<char>>, c: char)
    requires
        vs.len() >= 1,
        forall|i: int, k: int| 0 <= i < vs.len() && 0 <= k < vs[i].len() ==> vs[i][k] != c,
    ensures
        split_all(join_char(vs, c), c) == vs,
    decreases vs.len(),
{
    if vs.len() == 1 {
        let a = join_char(vs, c);
        assert(a == vs[0]);
        assert(a =~= a + Seq::<char>::empty());
        lemma_split_from_clean(a, Seq::empty(), c, Seq::empty());
        assert(Seq::<char>::empty() + a =~= a);
        assert(split_from(Seq::empty(), c, a) == seq![a]);
        assert(seq![a] =~= vs);
    } else {
        let head = vs[0];
        let rest = vs.drop_first();
        assert(forall|i: int, k: int|
            0 <= i < rest.len() && 0 <= k < rest[i].len() ==> rest[i][k] == vs[i + 1][k] && vs[i
                + 1][k] != c);
        lemma_split_join(rest, c);
        let tail = join_char(rest, c);
        assert(join_char(vs, c) == head + seq![c] + tail);
        assert(head + seq![c] + tail =~= head + (seq![c] + tail));
        lemma_split_from_clean(head, seq![c] + tail, c, Seq::empty());
        assert(Seq::<char>::empty() + head =~= head);
        lemma_split_from_sep(tail, c, head);
        assert(seq![head] + split_all(tail, c) =~= vs);
    }
}

/// Appending one more field extends the joined line by a separator and
/// the field.
pub proof fn lemma_join_push(vs: Seq<Seq<char>>, t: Seq<char>, c: char)
    ensures
        join_char(vs.push(t), c) == if vs.len() == 0 {
            t
        } else {
            join_char(vs, c) + seq![c] + t
        },
    decreases vs.len(),
{
    let s = vs.push(t);
    if vs.len() == 0 {
        assert(s.len() == 1);
        assert(s[0] == t);
        assert(join_char(s, c) == t);
    } else {
        assert(s.len() >= 2);
        assert(s[0] == vs[0]);
        assert(s.drop_first() =~= vs.drop_first().push(t));
        lemma_join_push(vs.drop_first(), t, c);
        if vs.len() == 1 {
            assert(join_char(s, c) == vs[0] + seq![c] + t);
            assert(join_char(vs, c) == vs[0]);
        } else {
            assert(join_char(s, c) == s[0] + seq![c] + (join_char(vs.drop_first(), c) + seq![c]
                + t));
            assert(join_char(vs, c) == vs[0] + seq![c] + join_char(vs.drop_first(), c));
            assert(s[0] + seq![c] + (join_char(vs.drop_first(), c) + seq![c] + t) =~= (vs[0]
                + seq![c] + join_char(vs.drop_first(), c)) + seq![c] + t);
        }
    }
}

/// Walking a piece free of the separator only lengthens the open field.
pub proof fn lemma_splitn_from_clean(a: Seq<char>, rest: Seq<char>, c: char, n: int, cur: Seq<char>)
    requires
        n >= 2,
        forall|k: int| 0 <= k < a.len() ==> a[k] != c,
    ensures
        splitn_from(a + rest, c, n, cur) == splitn_from(rest, c, n, cur + a),
    decreases a.len(),
{
    if a.len() == 0 {
        assert(a + rest =~= rest);
        assert(cur + a =~= cur);
    } else {
        let s = a + rest;
        assert(s[0] == a[0]);
        assert(s.len() > 0);
        if rest.len() == 0 && a.len() == 1 {
        }
        assert(s.drop_first() =~= a.drop_first() + rest);
        assert(forall|k: int| 0 <= k < a.drop_first().len() ==> a.drop_first()[k] == a[k + 1]);
        lemma_splitn_from_clean(a.drop_first(), rest, c, n, cur.push(a[0]));
        assert(cur.push(a[0]) + a.drop_first() =~= cur + a);
        assert(splitn_from(s, c, n, cur) == splitn_from(a.drop_first() + rest, c, n, cur.push(a[0])));
    }
}

/// A separator in front closes the open field.
pub proof fn lemma_splitn_from_sep(rest: Seq<char>, c: char, n: int, cur: Seq<char>)
    requires
        n >= 2,
    ensures
        splitn_from(seq![c] + rest, c, n, cur) == seq![cur] + splitn_from(
            rest,
            c,
            n - 1,
            Seq::empty(),
        ),
{
    let s = seq![c] + rest;
    assert(s.len() > 0);
    assert(s[0] == c);
    assert(s.drop_first() =~= rest);
}

/// With the limit down to one, everything left is the last field.
pub proof fn lemma_splitn_from_last(rest: Seq<char>, c: char, cur: Seq<char>)
    ensures
        splitn_from(rest, c, 1, cur) == seq![cur + rest],
{
    if rest.len() == 0 {
        assert(cur + rest =~= cur);
    }
}

} // verus!
