//! Vector entries and the vector log's line format.
//!
//! One entry per line, three fields separated by `|`: id, declared
//! dimension, and the components joined by `,`.  A line is accepted only
//! if the number of float-shaped components equals the declared
//! dimension; otherwise it is dropped silently.  The components stay
//! text here: only the unverified scorer reads them as floats.

use vstd::prelude::*;

use crate::chars::chars_text;
use crate::chars::text_chars;
use crate::floattext::float_char_ok;
use crate::floattext::float_text;
use crate::floattext::is_float_text;
use crate::floattext::lemma_float_text_chars;
use crate::lines::join_char;
use crate::lines::lemma_join_push;
use crate::lines::lemma_split_join;
use crate::lines::lemma_splitn_from_clean;
use crate::lines::lemma_splitn_from_last;
use crate::lines::lemma_splitn_from_sep;
use crate::lines::split_all;
use crate::lines::split_every;
use crate::lines::split_limit;
use crate::lines::splitn;
use crate::num::dec_digits;
use crate::num::format_u128;
use crate::num::is_digit;
use crate::num::lemma_dec_digits_props;
use crate::num::lemma_parse_u128_digits;
use crate::num::lemma_parse_usize_digits;
use crate::num::parse_u128;
use crate::num::parse_u128_spec;
use crate::num::parse_usize;
use crate::num::parse_usize_spec;
use crate::num::all_digits;
use crate::record::Record;

verus! {

/// One line of the vector log: an id and the component texts.
#[derive(Clone, Debug, PartialEq)]
pub struct VectorEntry {
    pub id: u128,
    pub values: Vec<String>,
}

/// The mathematical content of a vector entry.
pub open spec fn vector_entry_data(e: VectorEntry) -> (u128, Seq<Seq<char>>) {
    (e.id, e.values@.map_values(|v: String| v@))
}

/// The float-shaped components among the split pieces, in order.
pub open spec fn keep_floats(ts: Seq<Seq<char>>) -> Seq<Seq<char>> {
    ts.filter(|t: Seq<char>| float_text(t))
}

proof fn lemma_keep_floats_empty()
    ensures
        keep_floats(Seq::empty()) == Seq::<Seq<char>>::empty(),
{
    reveal(Seq::filter);
}

proof fn lemma_keep_floats_push(ts: Seq<Seq<char>>, t: Seq<char>)
    ensures
        keep_floats(ts.push(t)) == if float_text(t) {
            keep_floats(ts).push(t)
        } else {
            keep_floats(ts)
        },
{
    reveal(Seq::filter);
    assert(ts.push(t).drop_last() =~= ts);
    assert(ts.push(t).last() == t);
}

proof fn lemma_keep_floats_all(ts: Seq<Seq<char>>)
    requires
        forall|i: int| 0 <= i < ts.len() ==> float_text(#[trigger] ts[i]),
    ensures
        keep_floats(ts) == ts,
    decreases ts.len(),
{
    reveal(Seq::filter);
    if ts.len() == 0 {
        assert(keep_floats(ts) =~= ts);
    } else {
        let d = ts.drop_last();
        assert(forall|i: int| 0 <= i < d.len() ==> d[i] == ts[i] && float_text(#[trigger] ts[i]));
        lemma_keep_floats_all(d);
        assert(float_text(ts.last()));
        assert(keep_floats(ts) == keep_floats(d).push(ts.last()));
        assert(d.push(ts.last()) =~= ts);
    }
}

/// The line an entry is stored as: id, dimension, joined components.
pub open spec fn vector_line_seq(id: u128, vs: Seq<Seq<char>>) -> Seq<char> {
    dec_digits(id as int) + seq!['|'] + dec_digits(vs.len() as int) + seq!['|'] + join_char(
        vs,
        ',',
    )
}

/// What a vector line parses to, if anything: the float-shaped
/// components, accepted only when their number equals the declared
/// dimension.
pub open spec fn parse_vector_data(s: Seq<char>) -> Option<(u128, Seq<Seq<char>>)> {
    let parts = splitn(s, '|', 3);
    if parts.len() == 3 {
        match parse_u128_spec(parts[0]) {
            Some(id) => match parse_usize_spec(parts[1]) {
                Some(dim) => {
                    let vals = keep_floats(split_all(parts[2], ','));
                    if vals.len() == dim {
                        Some((id, vals))
                    } else {
                        None
                    }
                },
                None => None,
            },
            None => None,
        }
    } else {
        None
    }
}

/// Serializes one entry as a line of the vector log.
pub fn vector_line(id: u128, values: &Vec<String>) -> (out: String)
    ensures
        out@ == vector_line_seq(id, values@.map_values(|v: String| v@)),
{
    let ghost vsv = values@.map_values(|v: String| v@);
    let mut line: Vec<char> = format_u128(id);
    line.push('|');
    let mut dim_part = format_u128(values.len() as u128);
    line.append(&mut dim_part);
    line.push('|');
    let ghost prefix = line@;
    proof {
        assert(prefix =~= dec_digits(id as int) + seq!['|'] + dec_digits(vsv.len() as int) + seq![
            '|',
        ]);
        assert(join_char(vsv.take(0), ',') =~= Seq::<char>::empty());
        assert(line@ =~= prefix + join_char(vsv.take(0), ','));
    }
    let mut j: usize = 0;
    while j < values.len()
        invariant
            j <= values@.len(),
            vsv == values@.map_values(|v: String| v@),
            vsv.len() == values@.len(),
            line@ == prefix + join_char(vsv.take(j as int), ','),
        decreases values@.len() - j,
    {
        let ghost before = line@;
        if j > 0 {
            line.push(',');
        }
        let mut part = text_chars(values[j].as_str());
        let ghost vj = part@;
        line.append(&mut part);
        proof {
            assert(vj == vsv[j as int]);
            assert(vsv.take(j + 1) =~= vsv.take(j as int).push(vsv[j as int]));
            lemma_join_push(vsv.take(j as int), vsv[j as int], ',');
            if j == 0 {
                assert(vsv.take(0).len() == 0);
                assert(join_char(vsv.take(1), ',') == vj);
                assert(line@ =~= prefix + vj);
            } else {
                assert(join_char(vsv.take(j + 1), ',') == join_char(vsv.take(j as int), ',')
                    + seq![','] + vj);
                assert(line@ =~= before + seq![','] + vj);
                assert(before + seq![','] + vj =~= prefix + (join_char(vsv.take(j as int), ',')
                    + seq![','] + vj));
            }
        }
        j = j + 1;
    }
    proof {
        assert(vsv.take(vsv.len() as int) =~= vsv);
    }
    chars_text(&line)
}

/// Parses one line of the vector log; a dimension mismatch or any other
/// malformation gives nothing.
pub fn parse_vector_line(line: &str) -> (r: Option<VectorEntry>)
    ensures
        match r {
            Some(e) => parse_vector_data(line@) == Some(vector_entry_data(e)),
            None => parse_vector_data(line@) is None,
        },
{
    let chars = text_chars(line);
    let parts = split_limit(&chars, '|', 3);
    let ghost sparts = splitn(line@, '|', 3);
    proof {
        assert(parts@.map_values(|p: Vec<char>| p@) == sparts);
        assert(parts@.len() == sparts.len());
    }
    if parts.len() != 3 {
        return None;
    }
    proof {
        assert(parts@.map_values(|p: Vec<char>| p@)[0] == sparts[0]);
        assert(parts@.map_values(|p: Vec<char>| p@)[1] == sparts[1]);
        assert(parts@.map_values(|p: Vec<char>| p@)[2] == sparts[2]);
    }
    let id = match parse_u128(&parts[0]) {
        Some(v) => v,
        None => {
            return None;
        },
    };
    let dim = match parse_usize(&parts[1]) {
        Some(v) => v,
        None => {
            return None;
        },
    };
    let tokens = split_every(&parts[2], ',');
    let ghost stoks = split_all(sparts[2], ',');
    proof {
        assert(tokens@.map_values(|p: Vec<char>| p@) == stoks);
        assert(tokens@.len() == stoks.len());
    }
    let mut kept: Vec<String> = Vec::new();
    let mut j: usize = 0;
    proof {
        lemma_keep_floats_empty();
        assert(stoks.take(0) =~= Seq::<Seq<char>>::empty());
        assert(kept@.map_values(|v: String| v@) =~= keep_floats(stoks.take(0)));
    }
    while j < tokens.len()
        invariant
            j <= tokens@.len(),
            stoks == tokens@.map_values(|p: Vec<char>| p@),
            stoks.len() == tokens@.len(),
            kept@.map_values(|v: String| v@) == keep_floats(stoks.take(j as int)),
        decreases tokens@.len() - j,
    {
        let ghost done = kept@.map_values(|v: String| v@);
        proof {
            assert(stoks[j as int] == tokens@[j as int]@);
            assert(stoks.take(j + 1) =~= stoks.take(j as int).push(stoks[j as int]));
            lemma_keep_floats_push(stoks.take(j as int), stoks[j as int]);
        }
        if is_float_text(&tokens[j]) {
            let piece = chars_text(&tokens[j]);
            kept.push(piece);
            proof {
                assert(kept@.map_values(|v: String| v@) =~= done.push(piece@));
            }
        }
        j = j + 1;
    }
    proof {
        assert(stoks.take(stoks.len() as int) =~= stoks);
    }
    if kept.len() != dim {
        return None;
    }
    Some(VectorEntry { id, values: kept })
}

/// Serializes the vector log for a store: the line at each position
/// carries the id of the record at the same position, so the two logs
/// stay in lockstep when both are written from the same record list.
pub fn vector_lines(records: &Vec<Record>, values: &Vec<Vec<String>>) -> (r: Vec<String>)
    requires
        values@.len() == records@.len(),
    ensures
        r@.len() == records@.len(),
        forall|i: int|
            0 <= i < records@.len() ==> r@[i]@ == vector_line_seq(
                (#[trigger] records@[i]).id,
                values@[i]@.map_values(|v: String| v@),
            ),
{
    let mut out: Vec<String> = Vec::new();
    let mut i: usize = 0;
    while i < records.len()
        invariant
            i <= records@.len(),
            values@.len() == records@.len(),
            out@.len() == i,
            forall|k: int|
                0 <= k < i ==> out@[k]@ == vector_line_seq(
                    (#[trigger] records@[k]).id,
                    values@[k]@.map_values(|v: String| v@),
                ),
        decreases records@.len() - i,
    {
        let line = vector_line(records[i].id, &values[i]);
        out.push(line);
        i = i + 1;
    }
    out
}

/// The entries behind a list of lines, in order, bad lines dropped.
pub open spec fn vectors_data_of(ls: Seq<Seq<char>>) -> Seq<(u128, Seq<Seq<char>>)>
    decreases ls.len(),
{
    if ls.len() == 0 {
        Seq::empty()
    } else {
        match parse_vector_data(ls[0]) {
            Some(d) => seq![d] + vectors_data_of(ls.drop_first()),
            None => vectors_data_of(ls.drop_first()),
        }
    }
}

/// Parses a whole vector log, dropping malformed lines; empty input
/// yields an empty map.  Later entries with a repeated id are meant to
/// win when the caller builds its map, so order is preserved.
pub fn vectors_from_lines(lines: &Vec<String>) -> (r: Vec<VectorEntry>)
    ensures
        r@.map_values(|e: VectorEntry| vector_entry_data(e)) == vectors_data_of(
            lines@.map_values(|l: String| l@),
        ),
        lines@.len() == 0 ==> r@.len() == 0,
{
    let ghost lviews = lines@.map_values(|l: String| l@);
    let mut out: Vec<VectorEntry> = Vec::new();
    let mut i: usize = 0;
    proof {
        assert(lviews.skip(0) =~= lviews);
        assert(out@.map_values(|e: VectorEntry| vector_entry_data(e)) =~= Seq::<
            (u128, Seq<Seq<char>>),
        >::empty());
        assert(Seq::<(u128, Seq<Seq<char>>)>::empty() + vectors_data_of(lviews)
            =~= vectors_data_of(lviews));
    }
    while i < lines.len()
        invariant
            i <= lines@.len(),
            lviews == lines@.map_values(|l: String| l@),
            lviews.len() == lines@.len(),
            vectors_data_of(lviews) == out@.map_values(|e: VectorEntry| vector_entry_data(e))
                + vectors_data_of(lviews.skip(i as int)),
        decreases lines@.len() - i,
    {
        let ghost pre = lviews.skip(i as int);
        let ghost done = out@.map_values(|e: VectorEntry| vector_entry_data(e));
        proof {
            assert(pre.len() == lviews.len() - i);
            assert(pre[0] == lviews[i as int]);
            assert(lviews[i as int] == lines@[i as int]@);
            assert(pre.drop_first() =~= lviews.skip(i + 1));
        }
        match parse_vector_line(lines[i].as_str()) {
            Some(e) => {
                let ghost d = vector_entry_data(e);
                out.push(e);
                proof {
                    assert(out@.map_values(|x: VectorEntry| vector_entry_data(x)) =~= done.push(d));
                    assert(done + (seq![d] + vectors_data_of(pre.drop_first())) =~= done.push(d)
                        + vectors_data_of(pre.drop_first()));
                }
            },
            None => {},
        }
        i = i + 1;
    }
    proof {
        assert(lviews.skip(lviews.len() as int) =~= Seq::<Seq<char>>::empty());
        assert(out@.map_values(|e: VectorEntry| vector_entry_data(e)) + Seq::<
            (u128, Seq<Seq<char>>),
        >::empty() =~= out@.map_values(|e: VectorEntry| vector_entry_data(e)));
    }
    out
}

/// Writing an entry and reading the line back gives the same id and the
/// same components, whenever every component is float-shaped.
#[verifier::rlimit(60)]
pub proof fn lemma_vector_round_trip(id: u128, vs: Seq<Seq<char>>)
    requires
        1 <= vs.len() <= usize::MAX,
        forall|i: int| 0 <= i < vs.len() ==> float_text(#[trigger] vs[i]),
    ensures
        parse_vector_data(vector_line_seq(id, vs)) == Some((id, vs)),
{
    let sep = seq!['|'];
    let a = dec_digits(id as int);
    let dimtext = dec_digits(vs.len() as int);
    let joined = join_char(vs, ',');
    let line = vector_line_seq(id, vs);

    lemma_dec_digits_props(id as int);
    assert(forall|j: int| 0 <= j < a.len() ==> is_digit(#[trigger] a[j]) && a[j] != '|');
    lemma_dec_digits_props(vs.len() as int);
    assert(all_digits(dimtext));
    assert(forall|j: int|
        0 <= j < dimtext.len() ==> is_digit(#[trigger] dimtext[j]) && dimtext[j] != '|');

    let u1 = dimtext + sep + joined;
    assert(line =~= a + (sep + u1));
    lemma_splitn_from_clean(a, sep + u1, '|', 3, Seq::empty());
    assert(Seq::<char>::empty() + a =~= a);
    lemma_splitn_from_sep(u1, '|', 3, a);
    assert(u1 =~= dimtext + (sep + joined));
    lemma_splitn_from_clean(dimtext, sep + joined, '|', 2, Seq::empty());
    assert(Seq::<char>::empty() + dimtext =~= dimtext);
    lemma_splitn_from_sep(joined, '|', 2, dimtext);
    lemma_splitn_from_last(joined, '|', Seq::empty());
    assert(Seq::<char>::empty() + joined =~= joined);
    let parts = splitn(line, '|', 3);
    assert(parts =~= seq![a] + (seq![dimtext] + seq![joined]));
    assert(parts =~= seq![a, dimtext, joined]);
    assert(parts[0] == a && parts[1] == dimtext && parts[2] == joined);

    lemma_parse_u128_digits(id);
    lemma_parse_usize_digits(vs.len() as usize);
    assert forall|i: int, k: int|
        0 <= i < vs.len() && 0 <= k < vs[i].len() implies vs[i][k] != ',' by {
        lemma_float_text_chars(vs[i]);
        assert(float_char_ok(vs[i][k]));
    }
    lemma_split_join(vs, ',');
    lemma_keep_floats_all(vs);
    assert(parse_vector_data(line) == Some((id, vs)));
}

/// After both logs are rewritten from one record list, every record has
/// a matching vector line: the line at its position carries its id and
/// parses back to exactly the components written for it, with the
/// declared dimension equal to their number.
pub proof fn lemma_vector_log_matches(ids: Seq<u128>, vals: Seq<Seq<Seq<char>>>)
    requires
        vals.len() == ids.len(),
        forall|i: int| 0 <= i < vals.len() ==> (#[trigger] vals[i]).len() == 256,
        forall|i: int, k: int|
            0 <= i < vals.len() && 0 <= k < vals[i].len() ==> float_text(#[trigger] vals[i][k]),
    ensures
        forall|i: int|
            0 <= i < ids.len() ==> parse_vector_data(
                vector_line_seq(#[trigger] ids[i], vals[i]),
            ) == Some((ids[i], vals[i])),
{
    assert forall|i: int|
        0 <= i < ids.len() implies parse_vector_data(vector_line_seq(#[trigger] ids[i], vals[i]))
        == Some((ids[i], vals[i])) by {
        lemma_vector_round_trip(ids[i], vals[i]);
    }
}

} // verus!
