//! The line-indexed decoder: an earlier dictionary form whose entries are
//! text lines, keyed by the cumulative byte offset at which each parseable
//! line starts.  Kept alongside the byte-offset dictionary for traces
//! produced against such dictionaries.

use crate::format::{find_and_replace_printf_format_specifiers, spec_pf_result};
use crate::num::{parse_i32_dec, push_dec_u64, spec_dec_bytes, spec_i32_val, spec_parses_as_i32};
use crate::parser::{lemma_dec_bytes_ascii, spec_timestamp_chars, DecodeError, SyslogParser};
use crate::records::{
    lemma_records_args_bounded, parse_records, spec_records, spec_remainder, spec_views_of,
    RecView,
};
use crate::sessions::{spec_split_lines, split_lines};
use crate::text::{
    ascii_to_string, bytes_to_string, lossy_of, spec_ascii_chars, spec_split_all, split_all,
};
use vstd::prelude::*;
use vstd::string::{StringExecFns, StringSliceAdditionalSpecFns};
use vstd::utf8::encode_utf8;

use rayon::iter::{IndexedParallelIterator, IntoParallelRefIterator, ParallelIterator};

verus! {

/// One dictionary line: the five `;`-separated fields, as text, plus the
/// cumulative byte offset at which the line starts.
#[derive(Debug, Clone)]
pub struct CsvRecord {
    pub args_num: String,
    pub log_level: String,
    pub log_src_line: String,
    pub log_module: String,
    pub log_str: String,
    pub mem_offset: usize,
}

/// The mathematical image of a dictionary line, over raw bytes.
pub struct CsvV {
    pub args_num: Seq<u8>,
    pub log_level: Seq<u8>,
    pub log_src_line: Seq<u8>,
    pub log_module: Seq<u8>,
    pub log_str: Seq<u8>,
}

/// Whether the record carries the decoded fields of `v` at offset `off`.
pub open spec fn spec_csv_matches(r: CsvRecord, v: CsvV, off: int) -> bool {
    &&& r.args_num@ == lossy_of(v.args_num)
    &&& r.log_level@ == lossy_of(v.log_level)
    &&& r.log_src_line@ == lossy_of(v.log_src_line)
    &&& r.log_module@ == lossy_of(v.log_module)
    &&& r.log_str@ == lossy_of(v.log_str)
    &&& r.mem_offset == off
}

/// A line with a trailing carriage return loses it, as `str::lines` does.
pub open spec fn spec_strip_cr(l: Seq<u8>) -> Seq<u8> {
    if l.len() > 0 && l.last() == 13 {
        l.drop_last()
    } else {
        l
    }
}

/// The lines of `s` as Rust's `str::lines` yields them.
pub open spec fn spec_rust_lines(s: Seq<u8>) -> Seq<Seq<u8>> {
    spec_split_lines(s).map_values(|l: Seq<u8>| spec_strip_cr(l))
}

/// The five fields of a dictionary line, if it has at least five.
pub open spec fn spec_csv_line(l: Seq<u8>) -> Option<CsvV> {
    let parts = spec_split_all(l, 59);
    if parts.len() >= 5 {
        Some(
            CsvV {
                args_num: parts[0],
                log_level: parts[1],
                log_src_line: parts[2],
                log_module: parts[3],
                log_str: parts[4],
            },
        )
    } else {
        None
    }
}

/// The `(offset, fields)` pairs of the dictionary lines: each parseable line
/// is keyed by the running byte total, which advances by the line's length
/// plus one only for lines that parse.
pub open spec fn spec_csv_from(lines: Seq<Seq<u8>>, off: int) -> Seq<(int, CsvV)>
    decreases lines.len(),
{
    if lines.len() == 0 {
        Seq::empty()
    } else {
        match spec_csv_line(lines.first()) {
            Some(v) => seq![(off, v)] + spec_csv_from(
                lines.drop_first(),
                off + lines.first().len() + 1,
            ),
            None => spec_csv_from(lines.drop_first(), off),
        }
    }
}

/// All `(offset, fields)` pairs of the dictionary content `s`.
pub open spec fn spec_csv_records(s: Seq<u8>) -> Seq<(int, CsvV)> {
    spec_csv_from(spec_rust_lines(s), 0)
}

/// The total weight of a line list: each line's length plus one.
pub open spec fn spec_lines_weight(lines: Seq<Seq<u8>>) -> int
    decreases lines.len(),
{
    if lines.len() == 0 {
        0
    } else {
        lines.first().len() + 1 + spec_lines_weight(lines.drop_first())
    }
}

/// Stripping carriage returns never increases the weight.
proof fn lemma_weight_strip(lines: Seq<Seq<u8>>)
    ensures
        spec_lines_weight(lines.map_values(|l: Seq<u8>| spec_strip_cr(l))) <= spec_lines_weight(
            lines,
        ),
        spec_lines_weight(lines) >= 0,
    decreases lines.len(),
{
    if lines.len() > 0 {
        lemma_weight_strip(lines.drop_first());
        assert(lines.map_values(|l: Seq<u8>| spec_strip_cr(l)).drop_first() =~= lines.drop_first(
        ).map_values(|l: Seq<u8>| spec_strip_cr(l)));
    }
}

/// The weight of a split is at most the content's length plus one.
proof fn lemma_split_weight(s: Seq<u8>)
    ensures
        spec_lines_weight(spec_split_lines(s)) <= s.len() + 1,
    decreases s.len(),
{
    if s.len() > 0 {
        let e = crate::text::spec_find_byte(s, 10, 0);
        crate::text::lemma_find_byte(s, 10, 0);
        if e >= s.len() {
            assert(spec_split_lines(s) == seq![s]);
            assert(spec_split_lines(s).first() == s);
            assert(spec_split_lines(s).drop_first() =~= Seq::<Seq<u8>>::empty());
            assert(spec_lines_weight(Seq::<Seq<u8>>::empty()) == 0);
            assert(spec_lines_weight(spec_split_lines(s)) == s.len() + 1);
        } else {
            lemma_split_weight(s.skip(e + 1));
            assert(spec_split_lines(s).first() == s.take(e));
            assert(spec_split_lines(s).drop_first() =~= spec_split_lines(s.skip(e + 1)));
            assert(spec_lines_weight(spec_split_lines(s)) == e + 1 + spec_lines_weight(
                spec_split_lines(s.skip(e + 1)),
            ));
        }
    }
}

impl CsvRecord {
    /// Finds the first record stored at the given byte offset.
    pub fn find_by_mem_offset<'a>(records: &'a [CsvRecord], offset: usize) -> (r: Option<
        &'a CsvRecord,
    >)
        ensures
            match r {
                Some(rec) => spec_find_record(records@, offset as int) == Some(*rec),
                None => spec_find_record(records@, offset as int) is None,
            },
    {
        let n = records.len();
        let mut i: usize = 0;
        proof {
            assert(records@.skip(0) =~= records@);
        }
        while i < n
            invariant
                0 <= i <= n,
                n == records@.len(),
                spec_find_record(records@, offset as int) == spec_find_record(
                    records@.skip(i as int),
                    offset as int,
                ),
            decreases n - i,
        {
            proof {
                assert(records@.skip(i as int).first() == records@[i as int]);
                assert(records@.skip(i as int).drop_first() =~= records@.skip(i + 1));
            }
            if records[i].mem_offset == offset {
                return Some(&records[i]);
            }
            i += 1;
        }
        None
    }
}

/// The first record of `records` stored at offset `off`.
pub open spec fn spec_find_record(records: Seq<CsvRecord>, off: int) -> Option<CsvRecord>
    decreases records.len(),
{
    if records.len() == 0 {
        None
    } else if records.first().mem_offset == off {
        Some(records.first())
    } else {
        spec_find_record(records.drop_first(), off)
    }
}

/// Strips a trailing carriage return from each of `lines`.
fn rust_lines_of(s: &[u8]) -> (r: Vec<Vec<u8>>)
    ensures
        r@.map_values(|v: Vec<u8>| v@) == spec_rust_lines(s@),
{
    let raw = split_lines(s);
    let ghost rviews = raw@.map_values(|v: Vec<u8>| v@);
    let n = raw.len();
    let mut out: Vec<Vec<u8>> = Vec::new();
    let mut i: usize = 0;
    while i < n
        invariant
            0 <= i <= n,
            n == raw@.len(),
            rviews == raw@.map_values(|v: Vec<u8>| v@),
            out@.len() == i,
            forall|k: int|
                0 <= k < i ==> (#[trigger] out@[k])@ == spec_strip_cr(rviews[k]),
        decreases n - i,
    {
        let line = &raw[i];
        let ln = line.len();
        let stripped = if ln > 0 && line[ln - 1] == 13 {
            crate::text::sub_vec(line.as_slice(), 0, ln - 1)
        } else {
            crate::text::sub_vec(line.as_slice(), 0, ln)
        };
        proof {
            assert(rviews[i as int] == raw@[i as int]@);
            if ln > 0 && raw@[i as int]@.last() == 13 {
                assert(stripped@ =~= spec_strip_cr(rviews[i as int]));
            } else {
                assert(stripped@ =~= spec_strip_cr(rviews[i as int]));
            }
        }
        out.push(stripped);
        i += 1;
    }
    proof {
        assert(out@.map_values(|v: Vec<u8>| v@) =~= spec_rust_lines(s@));
    }
    out
}

/// Reads the line-indexed dictionary from its text content: every line with
/// at least five `;`-separated fields becomes a record keyed by the running
/// byte offset.
pub fn read_syslog_dict(file_path: &str) -> (r: Vec<CsvRecord>)
    ensures
        r@.len() == spec_csv_records(file_path.spec_bytes()).len(),
        forall|i: int|
            0 <= i < r@.len() ==> spec_csv_matches(
                #[trigger] r@[i],
                spec_csv_records(file_path.spec_bytes())[i].1,
                spec_csv_records(file_path.spec_bytes())[i].0,
            ),
{
    let s = file_path.as_bytes();
    let lines = rust_lines_of(s);
    let ghost lviews = lines@.map_values(|v: Vec<u8>| v@);
    let ghost pairs = spec_csv_records(s@);
    proof {
        lemma_split_weight(s@);
        lemma_weight_strip(spec_split_lines(s@));
        assert(lviews.skip(0) =~= lviews);
    }
    let total = s.len();
    let n = lines.len();
    let mut out: Vec<CsvRecord> = Vec::new();
    let mut off: usize = 0;
    let mut i: usize = 0;
    while i < n
        invariant
            0 <= i <= n,
            n == lines@.len(),
            total == s@.len(),
            lviews == lines@.map_values(|v: Vec<u8>| v@),
            i < n ==> off + spec_lines_weight(lviews.skip(i as int)) <= total + 1,
            pairs == spec_csv_records(s@),
            pairs.len() == out@.len() + spec_csv_from(lviews.skip(i as int), off as int).len(),
            forall|k: int|
                0 <= k < out@.len() ==> spec_csv_matches(
                    #[trigger] out@[k],
                    pairs[k].1,
                    pairs[k].0,
                ),
            forall|k: int|
                out@.len() <= k < pairs.len() ==> #[trigger] pairs[k] == spec_csv_from(
                    lviews.skip(i as int),
                    off as int,
                )[k - out@.len()],
        decreases n - i,
    {
        let ghost tail = lviews.skip(i as int);
        let ghost before = out@;
        let ghost off0 = off as int;
        proof {
            assert(tail.first() == lviews[i as int]);
            assert(lviews[i as int] == lines@[i as int]@);
            assert(tail.drop_first() =~= lviews.skip(i + 1));
            assert(spec_lines_weight(tail) == tail.first().len() + 1 + spec_lines_weight(
                tail.drop_first(),
            ));
            lemma_weight_nonneg(tail.drop_first());
        }
        let line = &lines[i];
        let parts = split_all(line.as_slice(), 59);
        let ghost pviews = parts@.map_values(|v: Vec<u8>| v@);
        if parts.len() >= 5 {
            let ghost v = spec_csv_line(tail.first())->Some_0;
            proof {
                assert(pviews[0] == parts@[0]@ && pviews[1] == parts@[1]@ && pviews[2]
                    == parts@[2]@ && pviews[3] == parts@[3]@ && pviews[4] == parts@[4]@);
                assert(spec_csv_from(tail, off as int) == seq![((off as int), v)] + spec_csv_from(
                    tail.drop_first(),
                    off + tail.first().len() + 1,
                ));
                assert(pairs[before.len() as int] == ((off as int), v));
            }
            let rec = CsvRecord {
                args_num: bytes_to_string(&parts[0]),
                log_level: bytes_to_string(&parts[1]),
                log_src_line: bytes_to_string(&parts[2]),
                log_module: bytes_to_string(&parts[3]),
                log_str: bytes_to_string(&parts[4]),
                mem_offset: off,
            };
            out.push(rec);
            proof {
                assert forall|k: int|
                    0 <= k < out@.len() implies spec_csv_matches(
                    #[trigger] out@[k],
                    pairs[k].1,
                    pairs[k].0,
                ) by {
                    if k < before.len() {
                        assert(out@[k] == before[k]);
                        assert(spec_csv_matches(before[k], pairs[k].1, pairs[k].0));
                    } else {
                        assert(out@[k] == rec);
                    }
                }
            }
            if i + 1 < n {
                proof {
                    assert(lviews.skip(i + 1).len() >= 1);
                    assert(spec_lines_weight(tail.drop_first()) >= 1);
                    assert(off + tail.first().len() + 1 <= total);
                }
                off = off + line.len() + 1;
            }
            proof {
                if i + 1 < n {
                    assert(off == off0 + tail.first().len() + 1);
                    assert forall|k: int|
                        out@.len() <= k < pairs.len() implies #[trigger] pairs[k] == spec_csv_from(
                        lviews.skip(i + 1),
                        off as int,
                    )[k - out@.len()] by {
                        assert(pairs[k] == spec_csv_from(tail, off0)[k - before.len()]);
                    }
                } else {
                    assert(lviews.skip(i + 1) =~= Seq::<Seq<u8>>::empty());
                    assert(spec_csv_from(tail, off0) == seq![(off0, v)] + spec_csv_from(
                        lviews.skip(i + 1),
                        off0 + tail.first().len() + 1,
                    ));
                    assert(spec_csv_from(lviews.skip(i + 1), off0 + tail.first().len() + 1) =~= Seq::<
                        (int, CsvV),
                    >::empty());
                    assert(spec_csv_from(lviews.skip(i + 1), off as int) =~= Seq::<
                        (int, CsvV),
                    >::empty());
                    assert(pairs.len() == out@.len());
                }
            }
        } else {
            proof {
                assert(spec_csv_from(tail, off0) == spec_csv_from(tail.drop_first(), off0));
                assert forall|k: int|
                    out@.len() <= k < pairs.len() implies #[trigger] pairs[k] == spec_csv_from(
                    lviews.skip(i + 1),
                    off as int,
                )[k - out@.len()] by {
                    assert(pairs[k] == spec_csv_from(tail, off0)[k - before.len()]);
                }
            }
        }
        i += 1;
    }
    proof {
        assert(lviews.skip(n as int) =~= Seq::<Seq<u8>>::empty());
        assert(spec_csv_from(lviews.skip(n as int), off as int) =~= Seq::<(int, CsvV)>::empty());
    }
    out
}

/// Every line weighs at least one.
proof fn lemma_weight_nonneg(lines: Seq<Seq<u8>>)
    ensures
        spec_lines_weight(lines) >= lines.len(),
    decreases lines.len(),
{
    if lines.len() > 0 {
        lemma_weight_nonneg(lines.drop_first());
    }
}

/// One record of the binary trace, with its arguments already rendered as
/// decimal strings.
#[derive(Debug)]
pub struct ParsedData {
    pub timestamp: u32,
    pub num_args: u8,
    pub arg_offset: u32,
    pub args: Vec<String>,
}

/// The decimal display of a 32-bit word.
pub open spec fn spec_dec_chars(n: u32) -> Seq<char> {
    spec_ascii_chars(spec_dec_bytes(n as nat))
}

/// Whether `p` carries the record `r`, its arguments as decimal strings.
pub open spec fn spec_pd_matches(p: ParsedData, r: RecView) -> bool {
    &&& p.timestamp == r.timestamp_ms
    &&& p.num_args as int == r.args.len()
    &&& p.arg_offset == r.dict_offset
    &&& p.args@.len() == r.args.len()
    &&& forall|i: int|
        0 <= i < r.args.len() ==> (#[trigger] p.args@[i])@ == spec_dec_chars(r.args[i])
}

/// Renders a 32-bit word as its decimal string.
fn u32_dec_string(n: u32) -> (r: String)
    ensures
        r@ == spec_dec_chars(n),
{
    let mut b: Vec<u8> = Vec::new();
    push_dec_u64(&mut b, n as u64);
    proof {
        lemma_dec_bytes_ascii(n as nat);
    }
    ascii_to_string(&b)
}

/// Parses the binary trace into records with stringified arguments.  Fails
/// exactly when the data ends inside a record's argument words; one to seven
/// trailing bytes, too few for a header, are silently ignored.
pub fn parse_binary_data(contents: &[u8]) -> (r: Result<Vec<ParsedData>, DecodeError>)
    ensures
        match r {
            Ok(v) => spec_remainder(contents@).len() < 8 && v@.len() == spec_records(
                contents@,
            ).len() && forall|i: int|
                0 <= i < v@.len() ==> spec_pd_matches(#[trigger] v@[i], spec_records(contents@)[i]),
            Err(e) => spec_remainder(contents@).len() >= 8 && e == DecodeError::Truncated,
        },
{
    let (entries, rest) = parse_records(contents);
    if rest.len() >= 8 {
        return Err(DecodeError::Truncated);
    }
    let ghost recs = spec_records(contents@);
    proof {
        lemma_records_args_bounded(contents@);
    }
    let n = entries.len();
    let mut out: Vec<ParsedData> = Vec::new();
    let mut i: usize = 0;
    while i < n
        invariant
            0 <= i <= n,
            n == entries@.len(),
            recs == spec_records(contents@),
            spec_views_of(entries@) == recs,
            forall|k: int| 0 <= k < recs.len() ==> 0 <= (#[trigger] recs[k]).args.len() <= 15,
            out@.len() == i,
            forall|k: int| 0 <= k < i ==> spec_pd_matches(#[trigger] out@[k], recs[k]),
        decreases n - i,
    {
        let e = &entries[i];
        proof {
            assert(spec_views_of(entries@)[i as int] == entries@[i as int]@);
        }
        let na = e.arguments.len();
        let mut args: Vec<String> = Vec::new();
        let mut j: usize = 0;
        while j < na
            invariant
                0 <= j <= na,
                na == e.arguments@.len(),
                args@.len() == j,
                forall|k: int|
                    0 <= k < j ==> (#[trigger] args@[k])@ == spec_dec_chars(e.arguments@[k]),
            decreases na - j,
        {
            args.push(u32_dec_string(e.arguments[j]));
            j += 1;
        }
        out.push(
            ParsedData {
                timestamp: e.timestamp_ms,
                num_args: na as u8,
                arg_offset: e.log_id,
                args,
            },
        );
        i += 1;
    }
    Ok(out)
}

/// The line decoded from one record, if its offset resolves and the entry's
/// level passes the filter: the timestamp, the module in brackets, and the
/// template with its specifiers replaced by the record's argument strings.
pub open spec fn spec_decode_one(records: Seq<CsvRecord>, item: ParsedData, log_level: i32) -> Option<
    Seq<char>,
> {
    let off = if item.arg_offset > 0 {
        item.arg_offset - 1
    } else {
        0
    };
    match spec_find_record(records, off as int) {
        None => None,
        Some(rec) => {
            let lvl_bytes = encode_utf8(rec.log_level@);
            let lvl = if spec_parses_as_i32(lvl_bytes) {
                spec_i32_val(lvl_bytes)
            } else {
                0
            };
            if lvl <= log_level {
                Some(
                    spec_timestamp_chars(item.timestamp) + "\t\t["@ + rec.log_module@ + "]\t"@
                        + lossy_of(
                        spec_pf_result(
                            encode_utf8(rec.log_str@),
                            item.args@.map_values(|s: String| encode_utf8(s@)),
                        ),
                    ),
                )
            } else {
                None
            }
        },
    }
}

/// The decoded lines for a record sequence, in input order.
pub open spec fn spec_decode(records: Seq<CsvRecord>, items: Seq<ParsedData>, log_level: i32) -> Seq<
    Seq<char>,
>
    decreases items.len(),
{
    if items.len() == 0 {
        Seq::empty()
    } else {
        (match spec_decode_one(records, items.first(), log_level) {
            Some(l) => seq![l],
            None => Seq::<Seq<char>>::empty(),
        }) + spec_decode(records, items.drop_first(), log_level)
    }
}

/// Decodes one record against the dictionary lines.
fn decode_one(records: &Vec<CsvRecord>, item: &ParsedData, log_level: i32) -> (r: Option<String>)
    ensures
        match r {
            Some(s) => spec_decode_one(records@, *item, log_level) == Some(s@),
            None => spec_decode_one(records@, *item, log_level) is None,
        },
{
    let off: u32 = if item.arg_offset > 0 {
        item.arg_offset - 1
    } else {
        0
    };
    let rec = match CsvRecord::find_by_mem_offset(records.as_slice(), off as usize) {
        Some(rec) => rec,
        None => {
            return None;
        },
    };
    let lvl = match parse_i32_dec(rec.log_level.as_str().as_bytes()) {
        Some(v) => v,
        None => 0,
    };
    if lvl > log_level {
        return None;
    }
    let message = find_and_replace_printf_format_specifiers(rec.log_str.as_str(), &item.args);
    let mut line = SyslogParser::format_timestamp(item.timestamp);
    line.append("\t\t[");
    line.append(rec.log_module.as_str());
    line.append("]\t");
    line.append(message.as_str());
    Some(line)
}

/// Relies on rayon's indexed parallel iterator: `par_iter().map(..)` over a
/// `Vec` keeps items indexed, and `collect_into_vec` writes each result at
/// its input's index, so the output order is the input order.
#[verifier::external_body]
fn par_decode(records: &Vec<CsvRecord>, data: &Vec<ParsedData>, log_level: i32) -> (r: Vec<
    Option<String>,
>)
    ensures
        r@.len() == data@.len(),
        forall|i: int|
            0 <= i < data@.len() ==> ((#[trigger] r@[i]) is Some <==> spec_decode_one(
                records@,
                data@[i],
                log_level,
            ) is Some),
        forall|i: int|
            0 <= i < data@.len() ==> ((#[trigger] r@[i]) is Some ==> r@[i]->0@ == spec_decode_one(
                records@,
                data@[i],
                log_level,
            )->0),
{
    let mut out: Vec<Option<String>> = Vec::new();
    data.par_iter().map(|item| decode_one(records, item, log_level)).collect_into_vec(&mut out);
    out
}

/// The line-indexed decoder: the dictionary lines it resolves records
/// against.
pub struct LogDecoder {
    pub records: Vec<CsvRecord>,
}

impl LogDecoder {
    /// Builds a decoder from the dictionary's text content.
    pub fn new(dict_content: &str) -> (r: LogDecoder)
        ensures
            r.records@.len() == spec_csv_records(dict_content.spec_bytes()).len(),
            forall|i: int|
                0 <= i < r.records@.len() ==> spec_csv_matches(
                    #[trigger] r.records@[i],
                    spec_csv_records(dict_content.spec_bytes())[i].1,
                    spec_csv_records(dict_content.spec_bytes())[i].0,
                ),
    {
        LogDecoder { records: read_syslog_dict(dict_content) }
    }

    /// Decodes the records in input order, in parallel under the hood, and
    /// drops those that do not resolve or do not pass the severity filter.
    pub fn decode_logs(&self, data: Vec<ParsedData>, log_level: i32) -> (r: Vec<String>)
        ensures
            r@.map_values(|s: String| s@) == spec_decode(self.records@, data@, log_level),
    {
        let opts = par_decode(&self.records, &data, log_level);
        let n = opts.len();
        let mut out: Vec<String> = Vec::new();
        let mut i: usize = 0;
        proof {
            assert(data@.skip(0) =~= data@);
            assert(out@.map_values(|s: String| s@) + spec_decode(self.records@, data@, log_level)
                =~= spec_decode(self.records@, data@, log_level));
        }
        while i < n
            invariant
                0 <= i <= n,
                n == opts@.len(),
                n == data@.len(),
                forall|k: int|
                    0 <= k < n ==> ((#[trigger] opts@[k]) is Some <==> spec_decode_one(
                        self.records@,
                        data@[k],
                        log_level,
                    ) is Some),
                forall|k: int|
                    0 <= k < n ==> ((#[trigger] opts@[k]) is Some ==> opts@[k]->0@
                        == spec_decode_one(self.records@, data@[k], log_level)->0),
                spec_decode(self.records@, data@, log_level) == out@.map_values(|s: String| s@)
                    + spec_decode(self.records@, data@.skip(i as int), log_level),
            decreases n - i,
        {
            let ghost tail = data@.skip(i as int);
            let ghost out0 = out@;
            proof {
                assert(tail.first() == data@[i as int]);
                assert(tail.drop_first() =~= data@.skip(i + 1));
                assert(spec_decode(self.records@, tail, log_level) == (match spec_decode_one(
                    self.records@,
                    tail.first(),
                    log_level,
                ) {
                    Some(l) => seq![l],
                    None => Seq::<Seq<char>>::empty(),
                }) + spec_decode(self.records@, tail.drop_first(), log_level));
            }
            match &opts[i] {
                Some(s) => {
                    out.push(String::from_str(s.as_str()));
                    proof {
                        assert(out@ =~= out0.push(out@.last()));
                        assert(out@.map_values(|s: String| s@) =~= out0.map_values(
                            |s: String| s@,
                        ) + seq![opts@[i as int]->0@]);
                    }
                },
                None => {},
            }
            i += 1;
        }
        proof {
            assert(data@.skip(n as int) =~= Seq::<ParsedData>::empty());
            assert(spec_decode(self.records@, Seq::<ParsedData>::empty(), log_level) =~= Seq::<
                Seq<char>,
            >::empty());
            assert(out@.map_values(|s: String| s@) + Seq::<Seq<char>>::empty() =~= out@.map_values(
                |s: String| s@,
            ));
        }
        out
    }
}

} // verus!
