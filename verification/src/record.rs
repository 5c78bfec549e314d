//! Records and the record log's line format.
//!
//! One record per line, five fields separated by `|`:
//! id, timestamp, escaped kind, weight, escaped text.  The text field is
//! the tail of the line, so an escaped `|` inside it does not end it.
//! A line that does not yield exactly five fields, or whose numeric
//! fields do not parse, is dropped silently.

use vstd::prelude::*;

use crate::chars::chars_text;
use crate::chars::text_chars;
use crate::floattext::float_text;
use crate::floattext::is_float_text;
use crate::floattext::lemma_float_text_chars;
use crate::floattext::float_char_ok;
use crate::lines::lemma_splitn_from_clean;
use crate::lines::lemma_splitn_from_last;
use crate::lines::lemma_splitn_from_sep;
use crate::lines::split_limit;
use crate::lines::splitn;
use crate::num::all_digits;
use crate::num::dec_digits;
use crate::num::format_i64;
use crate::num::format_u128;
use crate::num::int_digits;
use crate::num::is_digit;
use crate::num::lemma_dec_digits_props;
use crate::num::lemma_parse_i64_digits;
use crate::num::lemma_parse_u128_digits;
use crate::num::parse_i64;
use crate::num::parse_i64_spec;
use crate::num::parse_u128;
use crate::num::parse_u128_spec;
use crate::text::escape;
use crate::text::escape_seq;
use crate::text::lemma_escape_no_pipe;
use crate::text::lemma_unescape_escape;
use crate::text::unescape;
use crate::text::unescape_seq;

verus! {

/// One stored memory.  The weight is kept as the decimal text it came
/// with; only the unverified scorer reads it as a float.
#[derive(Clone, Debug, PartialEq)]
pub struct Record {
    pub id: u128,
    pub ts: i64,
    pub kind: String,
    pub weight: String,
    pub text: String,
}

/// The mathematical content of a record.
pub ghost struct RecordData {
    pub id: u128,
    pub ts: i64,
    pub kind: Seq<char>,
    pub weight: Seq<char>,
    pub text: Seq<char>,
}

pub open spec fn record_data(r: Record) -> RecordData {
    RecordData { id: r.id, ts: r.ts, kind: r.kind@, weight: r.weight@, text: r.text@ }
}

/// A weight field the parser will take back.
pub open spec fn record_wf(r: Record) -> bool {
    float_text(r.weight@)
}

/// A kind free of `|`: such a kind survives the line format unchanged.
pub open spec fn kind_clean(k: Seq<char>) -> bool {
    forall|i: int| 0 <= i < k.len() ==> k[i] != '|'
}

/// The line a record is stored as.
pub open spec fn record_line_seq(d: RecordData) -> Seq<char> {
    dec_digits(d.id as int) + seq!['|'] + int_digits(d.ts as int) + seq!['|'] + escape_seq(d.kind)
        + seq!['|'] + d.weight + seq!['|'] + escape_seq(d.text)
}

/// What a line parses to, if anything: five fields, numeric id and
/// timestamp, a weight shaped like a float, kind and text unescaped.
pub open spec fn parse_record_data(s: Seq<char>) -> Option<RecordData> {
    let parts = splitn(s, '|', 5);
    if parts.len() == 5 {
        match parse_u128_spec(parts[0]) {
            Some(id) => match parse_i64_spec(parts[1]) {
                Some(ts) => if float_text(parts[3]) {
                    Some(
                        RecordData {
                            id,
                            ts,
                            kind: unescape_seq(parts[2]),
                            weight: parts[3],
                            text: unescape_seq(parts[4]),
                        },
                    )
                } else {
                    None
                },
                None => None,
            },
            None => None,
        }
    } else {
        None
    }
}

/// Serializes a record as one line of the record log.
pub fn record_line(r: &Record) -> (out: String)
    ensures
        out@ == record_line_seq(record_data(*r)),
{
    let mut line: Vec<char> = format_u128(r.id);
    let ghost a = line@;
    line.push('|');
    let mut ts_part = format_i64(r.ts);
    let ghost bts = ts_part@;
    line.append(&mut ts_part);
    line.push('|');
    let kind_escaped = escape(r.kind.as_str());
    let mut kind_part = text_chars(kind_escaped.as_str());
    let ghost ck = kind_part@;
    line.append(&mut kind_part);
    line.push('|');
    let mut weight_part = text_chars(r.weight.as_str());
    let ghost w = weight_part@;
    line.append(&mut weight_part);
    line.push('|');
    let text_escaped = escape(r.text.as_str());
    let mut text_part = text_chars(text_escaped.as_str());
    let ghost e = text_part@;
    line.append(&mut text_part);
    proof {
        assert(line@ =~= a + seq!['|'] + bts + seq!['|'] + ck + seq!['|'] + w + seq!['|'] + e);
    }
    chars_text(&line)
}

/// Parses one line of the record log; a malformed line gives nothing.
pub fn parse_record_line(line: &str) -> (r: Option<Record>)
    ensures
        match r {
            Some(rec) => parse_record_data(line@) == Some(record_data(rec)) && record_wf(rec),
            None => parse_record_data(line@) is None,
        },
{
    let chars = text_chars(line);
    let parts = split_limit(&chars, '|', 5);
    let ghost sparts = splitn(line@, '|', 5);
    proof {
        assert(parts@.map_values(|p: Vec<char>| p@) == sparts);
        assert(parts@.len() == sparts.len());
    }
    if parts.len() != 5 {
        return None;
    }
    proof {
        assert(parts@.map_values(|p: Vec<char>| p@)[0] == sparts[0]);
        assert(parts@.map_values(|p: Vec<char>| p@)[1] == sparts[1]);
        assert(parts@.map_values(|p: Vec<char>| p@)[2] == sparts[2]);
        assert(parts@.map_values(|p: Vec<char>| p@)[3] == sparts[3]);
        assert(parts@.map_values(|p: Vec<char>| p@)[4] == sparts[4]);
    }
    let id = match parse_u128(&parts[0]) {
        Some(v) => v,
        None => {
            return None;
        },
    };
    let ts = match parse_i64(&parts[1]) {
        Some(v) => v,
        None => {
            return None;
        },
    };
    if !is_float_text(&parts[3]) {
        return None;
    }
    let kind_text = chars_text(&parts[2]);
    let kind = unescape(kind_text.as_str());
    let weight = chars_text(&parts[3]);
    let body_text = chars_text(&parts[4]);
    let text = unescape(body_text.as_str());
    Some(Record { id, ts, kind, weight, text })
}

/// Serializes a whole store: one line per record, in order.
pub fn record_lines(records: &Vec<Record>) -> (r: Vec<String>)
    ensures
        r@.len() == records@.len(),
        forall|i: int|
            0 <= i < records@.len() ==> r@[i]@ == record_line_seq(record_data(#[trigger] records@[i])),
{
    let mut out: Vec<String> = Vec::new();
    let mut i: usize = 0;
    while i < records.len()
        invariant
            i <= records@.len(),
            out@.len() == i,
            forall|k: int|
                0 <= k < i ==> out@[k]@ == record_line_seq(record_data(#[trigger] records@[k])),
        decreases records@.len() - i,
    {
        let line = record_line(&records[i]);
        out.push(line);
        i = i + 1;
    }
    out
}

/// The records behind a list of lines, in order, bad lines dropped.
pub open spec fn records_data_of(ls: Seq<Seq<char>>) -> Seq<RecordData>
    decreases ls.len(),
{
    if ls.len() == 0 {
        Seq::empty()
    } else {
        match parse_record_data(ls[0]) {
            Some(d) => seq![d] + records_data_of(ls.drop_first()),
            None => records_data_of(ls.drop_first()),
        }
    }
}

/// Parses a whole record log, dropping malformed lines; empty input
/// yields an empty store.
pub fn records_from_lines(lines: &Vec<String>) -> (r: Vec<Record>)
    ensures
        r@.map_values(|x: Record| record_data(x)) == records_data_of(
            lines@.map_values(|l: String| l@),
        ),
        lines@.len() == 0 ==> r@.len() == 0,
{
    let ghost lviews = lines@.map_values(|l: String| l@);
    let mut out: Vec<Record> = Vec::new();
    let mut i: usize = 0;
    proof {
        assert(lviews.skip(0) =~= lviews);
        assert(out@.map_values(|x: Record| record_data(x)) =~= Seq::<RecordData>::empty());
        assert(Seq::<RecordData>::empty() + records_data_of(lviews) =~= records_data_of(lviews));
    }
    while i < lines.len()
        invariant
            i <= lines@.len(),
            lviews == lines@.map_values(|l: String| l@),
            lviews.len() == lines@.len(),
            records_data_of(lviews) == out@.map_values(|x: Record| record_data(x))
                + records_data_of(lviews.skip(i as int)),
        decreases lines@.len() - i,
    {
        let ghost pre = lviews.skip(i as int);
        let ghost done = out@.map_values(|x: Record| record_data(x));
        proof {
            assert(pre.len() == lviews.len() - i);
            assert(pre[0] == lviews[i as int]);
            assert(lviews[i as int] == lines@[i as int]@);
            assert(pre.drop_first() =~= lviews.skip(i + 1));
        }
        match parse_record_line(lines[i].as_str()) {
            Some(rec) => {
                out.push(rec);
                proof {
                    assert(out@.map_values(|x: Record| record_data(x)) =~= done.push(
                        record_data(rec),
                    ));
                    assert(done + (seq![record_data(rec)] + records_data_of(pre.drop_first()))
                        =~= done.push(record_data(rec)) + records_data_of(pre.drop_first()));
                }
            },
            None => {},
        }
        i = i + 1;
    }
    proof {
        assert(lviews.skip(lviews.len() as int) =~= Seq::<Seq<char>>::empty());
        assert(out@.map_values(|x: Record| record_data(x)) + Seq::<RecordData>::empty()
            =~= out@.map_values(|x: Record| record_data(x)));
    }
    out
}

/// Writing a record and reading the line back gives the record again,
/// field for field, whenever its weight is float-shaped and its kind
/// holds no `|`.
#[verifier::rlimit(60)]
pub proof fn lemma_record_round_trip(d: RecordData)
    requires
        float_text(d.weight),
        kind_clean(d.kind),
    ensures
        parse_record_data(record_line_seq(d)) == Some(d),
{
    let sep = seq!['|'];
    let a = dec_digits(d.id as int);
    let bts = int_digits(d.ts as int);
    let ck = escape_seq(d.kind);
    let w = d.weight;
    let e = escape_seq(d.text);
    let line = record_line_seq(d);

    lemma_dec_digits_props(d.id as int);
    assert(forall|j: int| 0 <= j < a.len() ==> is_digit(#[trigger] a[j]) && a[j] != '|');
    if d.ts < 0 {
        lemma_dec_digits_props(-(d.ts as int));
        assert(bts == seq!['-'] + dec_digits(-(d.ts as int)));
        assert(forall|j: int|
            0 <= j < bts.len() ==> #[trigger] bts[j] == (if j == 0 {
                '-'
            } else {
                dec_digits(-(d.ts as int))[j - 1]
            }));
        assert(forall|j: int| 0 <= j < bts.len() ==> #[trigger] bts[j] != '|');
    } else {
        lemma_dec_digits_props(d.ts as int);
        assert(bts == dec_digits(d.ts as int));
        assert(all_digits(bts));
        assert(forall|j: int| 0 <= j < bts.len() ==> is_digit(#[trigger] bts[j]) && bts[j] != '|');
    }
    lemma_escape_no_pipe(d.kind);
    lemma_float_text_chars(w);
    assert forall|j: int| 0 <= j < w.len() implies #[trigger] w[j] != '|' by {
        assert(float_char_ok(w[j]));
    }

    // Split the line back into its five fields.
    let u1 = bts + sep + ck + sep + w + sep + e;
    let u2 = ck + sep + w + sep + e;
    let u3 = w + sep + e;
    let u4 = e;
    assert(line =~= a + (sep + u1));
    lemma_splitn_from_clean(a, sep + u1, '|', 5, Seq::empty());
    assert(Seq::<char>::empty() + a =~= a);
    lemma_splitn_from_sep(u1, '|', 5, a);
    assert(u1 =~= bts + (sep + u2));
    lemma_splitn_from_clean(bts, sep + u2, '|', 4, Seq::empty());
    assert(Seq::<char>::empty() + bts =~= bts);
    lemma_splitn_from_sep(u2, '|', 4, bts);
    assert(u2 =~= ck + (sep + u3));
    lemma_splitn_from_clean(ck, sep + u3, '|', 3, Seq::empty());
    assert(Seq::<char>::empty() + ck =~= ck);
    lemma_splitn_from_sep(u3, '|', 3, ck);
    assert(u3 =~= w + (sep + u4));
    lemma_splitn_from_clean(w, sep + u4, '|', 2, Seq::empty());
    assert(Seq::<char>::empty() + w =~= w);
    lemma_splitn_from_sep(u4, '|', 2, w);
    lemma_splitn_from_last(u4, '|', Seq::empty());
    assert(Seq::<char>::empty() + u4 =~= u4);
    let parts = splitn(line, '|', 5);
    assert(parts =~= seq![a] + (seq![bts] + (seq![ck] + (seq![w] + seq![e]))));
    assert(parts =~= seq![a, bts, ck, w, e]);
    assert(parts[0] == a && parts[1] == bts && parts[2] == ck && parts[3] == w && parts[4] == e);

    lemma_parse_u128_digits(d.id);
    lemma_parse_i64_digits(d.ts);
    lemma_unescape_escape(d.kind);
    lemma_unescape_escape(d.text);
    assert(parse_record_data(line) == Some(d));
}

} // verus!
