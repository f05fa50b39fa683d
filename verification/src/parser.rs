//! The decode pipeline: records are parsed from the binary stream, resolved
//! against the dictionary, filtered by severity, and rendered into lines.

use crate::dictionary::{
    resolve_entry, resolve_raw, spec_resolve, load_dictionary_pairs, spec_dict_pairs,
    spec_entry_matches, spec_pairs_match, LogEntry,
};
use crate::format::{format_message_bytes, spec_format_bytes};
use crate::num::{push_dec_u64, spec_dec_bytes};
use crate::records::{
    parse_records, spec_records, spec_remainder, spec_views_of, BinaryLogEntry, RecView,
    lemma_records_append, lemma_remainder_incomplete,
};
use crate::text::{
    ascii_to_string, bytes_to_string, lossy_of, push_all, spec_ascii_chars, spec_is_ascii_bytes,
};
use vstd::prelude::*;
use vstd::string::{StrSliceExecFns, StringExecFns, StringSliceAdditionalSpecFns};

verus! {

/// Why a whole decode request fails.
#[derive(Debug, Clone, Copy, PartialEq, Eq, Structural)]
pub enum DecodeError {
    /// The input is larger than the configured ceiling; nothing was parsed.
    SizeLimitExceeded,
    /// The input ends in the middle of a record's argument words.
    Truncated,
}

/// Chunk size for streaming decode of large inputs.
pub const CHUNK_SIZE: usize = 16 * 1024 * 1024;

/// Hard ceiling on input size, enforced before parsing begins.
pub const MAX_FILE_SIZE: u64 = 2 * 1024 * 1024 * 1024;

/// One decoded, rendered log line.
#[derive(Debug, Clone)]
pub struct ParsedLog {
    pub timestamp_formatted: String,
    pub log_level: u8,
    pub module_name: String,
    pub formatted_message: String,
}

/// The mathematical image of a decoded log line.
pub struct ParsedLogV {
    pub timestamp_formatted: Seq<char>,
    pub log_level: u8,
    pub module_name: Seq<char>,
    pub formatted_message: Seq<char>,
}

impl View for ParsedLog {
    type V = ParsedLogV;

    open spec fn view(&self) -> ParsedLogV {
        ParsedLogV {
            timestamp_formatted: self.timestamp_formatted@,
            log_level: self.log_level,
            module_name: self.module_name@,
            formatted_message: self.formatted_message@,
        }
    }
}

/// The views of a sequence of log lines.
pub open spec fn spec_log_views(v: Seq<ParsedLog>) -> Seq<ParsedLogV> {
    v.map_values(|l: ParsedLog| l@)
}

/// The display form of a record timestamp: its decimal value then `ms`.
pub open spec fn spec_timestamp_chars(ts: u32) -> Seq<char> {
    spec_ascii_chars(spec_dec_bytes(ts as nat) + seq![109u8, 115u8])
}

/// Decimal digits and the letters `m`, `s` are ASCII.
pub proof fn lemma_dec_bytes_ascii(n: nat)
    ensures
        spec_is_ascii_bytes(spec_dec_bytes(n)),
    decreases n,
{
    if n >= 10 {
        lemma_dec_bytes_ascii(n / 10);
        assert(spec_dec_bytes(n) == spec_dec_bytes(n / 10) + seq![crate::num::spec_dec_digit(n % 10)]);
    }
}


/// Whether the record at `r` passes the dictionary and the severity filter:
/// its offset resolves, and the entry's level is at most the threshold.
pub open spec fn spec_included(dict: Seq<u8>, r: RecView, min_log_level: u8) -> bool {
    &&& spec_resolve(dict, r.dict_offset) is Some
    &&& spec_resolve(dict, r.dict_offset)->Some_0.log_level <= min_log_level
}

/// Raising the severity threshold only adds lines: a record included at a
/// lower threshold is included at every higher one.
pub proof fn lemma_threshold_monotone(dict: Seq<u8>, r: RecView, t1: u8, t2: u8)
    requires
        t1 <= t2,
        spec_included(dict, r, t1),
    ensures
        spec_included(dict, r, t2),
{
}

/// The line produced for one record, if it is included.
pub open spec fn spec_process(dict: Seq<u8>, r: RecView, min_log_level: u8) -> Option<ParsedLogV> {
    if spec_included(dict, r, min_log_level) {
        let e = spec_resolve(dict, r.dict_offset)->Some_0;
        Some(
            ParsedLogV {
                timestamp_formatted: spec_timestamp_chars(r.timestamp_ms),
                log_level: e.log_level,
                module_name: lossy_of(e.module),
                formatted_message: lossy_of(spec_format_bytes(e.template, r.args)),
            },
        )
    } else {
        None
    }
}

/// The lines produced for a sequence of records, in input order.
pub open spec fn spec_pipeline(dict: Seq<u8>, recs: Seq<RecView>, min_log_level: u8) -> Seq<
    ParsedLogV,
>
    decreases recs.len(),
{
    if recs.len() == 0 {
        Seq::empty()
    } else {
        (match spec_process(dict, recs.first(), min_log_level) {
            Some(l) => seq![l],
            None => Seq::<ParsedLogV>::empty(),
        }) + spec_pipeline(dict, recs.drop_first(), min_log_level)
    }
}

/// The pipeline distributes over concatenation of record sequences.
pub proof fn lemma_pipeline_append(dict: Seq<u8>, a: Seq<RecView>, b: Seq<RecView>, min: u8)
    ensures
        spec_pipeline(dict, a + b, min) == spec_pipeline(dict, a, min) + spec_pipeline(
            dict,
            b,
            min,
        ),
    decreases a.len(),
{
    if a.len() == 0 {
        assert(a + b =~= b);
        assert(spec_pipeline(dict, a, min) + spec_pipeline(dict, b, min) =~= spec_pipeline(
            dict,
            b,
            min,
        ));
    } else {
        assert((a + b).first() == a.first());
        assert((a + b).drop_first() =~= a.drop_first() + b);
        lemma_pipeline_append(dict, a.drop_first(), b, min);
        assert(spec_pipeline(dict, a + b, min) =~= spec_pipeline(dict, a, min) + spec_pipeline(
            dict,
            b,
            min,
        ));
    }
}

/// The default severity label table.
pub open spec fn spec_default_level_names() -> Seq<Seq<char>> {
    seq![
        "Critical"@,
        "FatalError"@,
        "Error"@,
        "Warning"@,
        "Info"@,
        "Debug"@,
        "Verbose"@,
    ]
}

/// The label for a level under a table: the table's entry, or `Unknown`.
pub open spec fn spec_level_label(names: Seq<Seq<char>>, level: u8) -> Seq<char> {
    if level < names.len() {
        names[level as int]
    } else {
        "Unknown"@
    }
}

/// `s` left-aligned in a field of twelve characters, padded with spaces.
pub open spec fn spec_pad12(s: Seq<char>) -> Seq<char> {
    if s.len() < 12 {
        s + Seq::new((12 - s.len()) as nat, |i: int| ' ')
    } else {
        s
    }
}

/// One rendered output line: the padded timestamp, optionally the severity
/// label in brackets, the module in brackets, and the message, tab-separated.
pub open spec fn spec_line(
    names: Seq<Seq<char>>,
    l: ParsedLogV,
    include_log_level: bool,
) -> Seq<char> {
    if include_log_level {
        spec_pad12(l.timestamp_formatted) + "\t["@ + spec_level_label(names, l.log_level) + "]\t["@
            + l.module_name + "]\t"@ + l.formatted_message
    } else {
        spec_pad12(l.timestamp_formatted) + "\t["@ + l.module_name + "]\t"@ + l.formatted_message
    }
}

/// The rendered output lines for a dictionary, label table, trace and
/// threshold: the pipeline's lines, each formatted for display.
pub open spec fn spec_rendered(
    dict: Seq<u8>,
    names: Seq<Seq<char>>,
    data: Seq<u8>,
    min_log_level: u8,
    include_log_level: bool,
) -> Seq<Seq<char>> {
    spec_pipeline(dict, spec_records(data), min_log_level).map_values(
        |l: ParsedLogV| spec_line(names, l, include_log_level),
    )
}

/// The lines joined by single newlines, with no trailing newline.
pub open spec fn spec_join_lines(lines: Seq<Seq<char>>) -> Seq<char>
    decreases lines.len(),
{
    if lines.len() == 0 {
        Seq::empty()
    } else if lines.len() == 1 {
        lines.first()
    } else {
        spec_join_lines(lines.drop_last()) + seq!['\n'] + lines.last()
    }
}

/// Joins rendered lines with newlines.
pub fn join_lines(lines: &Vec<String>) -> (r: String)
    ensures
        r@ == spec_join_lines(lines@.map_values(|s: String| s@)),
{
    let ghost lviews = lines@.map_values(|s: String| s@);
    let n = lines.len();
    let mut out = String::new();
    let mut i: usize = 0;
    proof {
        assert(lviews.take(0) =~= Seq::<Seq<char>>::empty());
    }
    while i < n
        invariant
            0 <= i <= n,
            n == lines@.len(),
            lviews == lines@.map_values(|s: String| s@),
            out@ == spec_join_lines(lviews.take(i as int)),
        decreases n - i,
    {
        proof {
            assert(lviews.take(i + 1).drop_last() =~= lviews.take(i as int));
            assert(lviews.take(i + 1).last() == lviews[i as int]);
            assert(lviews[i as int] == lines@[i as int]@);
            if i == 0 {
                assert(lviews.take(1).first() == lviews[0]);
            }
        }
        if i > 0 {
            out.append("\n");
            proof {
                reveal_strlit("\n");
                assert("\n"@ =~= seq!['\n']);
            }
        }
        out.append(lines[i].as_str());
        proof {
            if i == 0 {
                assert(out@ =~= lviews.take(1).first());
            }
        }
        i += 1;
    }
    proof {
        assert(lviews.take(n as int) =~= lviews);
    }
    out
}

/// The parser: the raw dictionary bytes, the indexed entry table built from
/// them, and the injectable severity label table.
pub struct SyslogParser {
    pub dictionary: Vec<(u32, LogEntry)>,
    pub raw_dictionary: Vec<u8>,
    pub level_names: Vec<String>,
}

/// The views of the severity labels.
pub open spec fn spec_name_views(names: Seq<String>) -> Seq<Seq<char>> {
    names.map_values(|s: String| s@)
}

impl SyslogParser {
    /// The entry table is exactly what loading the raw bytes yields.
    pub open spec fn wf(&self) -> bool {
        spec_pairs_match(self.dictionary@, spec_dict_pairs(self.raw_dictionary@))
    }

    /// Builds a parser over the given dictionary bytes.  Loading never fails:
    /// malformed entries are skipped, one by one.
    pub fn new(dictionary_bytes: Vec<u8>) -> (r: SyslogParser)
        ensures
            r.wf(),
            r.raw_dictionary@ == dictionary_bytes@,
            spec_name_views(r.level_names@) == spec_default_level_names(),
    {
        let dictionary = load_dictionary_pairs(dictionary_bytes.as_slice());
        let level_names = Self::default_level_names();
        SyslogParser { dictionary, raw_dictionary: dictionary_bytes, level_names }
    }

    /// The default severity label table, index by numeric level.
    pub fn default_level_names() -> (r: Vec<String>)
        ensures
            spec_name_views(r@) == spec_default_level_names(),
    {
        let mut names: Vec<String> = Vec::new();
        names.push(String::from_str("Critical"));
        names.push(String::from_str("FatalError"));
        names.push(String::from_str("Error"));
        names.push(String::from_str("Warning"));
        names.push(String::from_str("Info"));
        names.push(String::from_str("Debug"));
        names.push(String::from_str("Verbose"));
        proof {
            assert(spec_name_views(names@) =~= spec_default_level_names());
        }
        names
    }

    /// Replaces the severity label table used for rendering.
    pub fn set_level_names(&mut self, names: Vec<String>)
        ensures
            final(self).level_names == names,
            final(self).dictionary == old(self).dictionary,
            final(self).raw_dictionary == old(self).raw_dictionary,
    {
        self.level_names = names;
    }

    /// The default label for a numeric severity level.
    pub fn log_level_to_string(level: u8) -> (r: &'static str)
        ensures
            r@ == spec_level_label(spec_default_level_names(), level),
    {
        match level {
            0 => "Critical",
            1 => "FatalError",
            2 => "Error",
            3 => "Warning",
            4 => "Info",
            5 => "Debug",
            6 => "Verbose",
            _ => "Unknown",
        }
    }

    /// How many entries the dictionary holds.
    pub fn dictionary_size(&self) -> (r: usize)
        requires
            self.wf(),
        ensures
            r == spec_dict_pairs(self.raw_dictionary@).len(),
    {
        self.dictionary.len()
    }

    /// Resolves a dictionary entry by its byte offset.  An offset at or past
    /// the end of the buffer is "not found", never a failure.
    pub fn get_entry_by_byte_offset(&self, byte_offset: u32) -> (r: Option<LogEntry>)
        ensures
            match r {
                Some(e) => spec_resolve(self.raw_dictionary@, byte_offset) is Some
                    && spec_entry_matches(e, spec_resolve(self.raw_dictionary@, byte_offset)->Some_0),
                None => spec_resolve(self.raw_dictionary@, byte_offset) is None,
            },
            byte_offset >= self.raw_dictionary@.len() ==> r is None,
    {
        resolve_entry(self.raw_dictionary.as_slice(), byte_offset)
    }

    /// Parses every complete record of a chunk, returning the records and the
    /// unparsed trailing bytes to carry into the next chunk.
    pub fn parse_chunk(&self, data: &[u8]) -> (r: (Vec<BinaryLogEntry>, Vec<u8>))
        ensures
            spec_views_of(r.0@) == spec_records(data@),
            r.1@ == spec_remainder(data@),
    {
        parse_records(data)
    }

    /// Resolves, filters and renders one record.  Returns a line exactly when
    /// the record's offset resolves and the entry's level passes the filter.
    pub fn process_binary_entry(&self, entry: &BinaryLogEntry, min_log_level: u8) -> (r: Option<
        ParsedLog,
    >)
        ensures
            match r {
                Some(l) => spec_process(self.raw_dictionary@, entry@, min_log_level) == Some(l@),
                None => spec_process(self.raw_dictionary@, entry@, min_log_level) is None,
            },
            r is Some <==> spec_included(self.raw_dictionary@, entry@, min_log_level),
    {
        let raw = match resolve_raw(self.raw_dictionary.as_slice(), entry.log_id) {
            Some(raw) => raw,
            None => {
                return None;
            },
        };
        if raw.log_level > min_log_level {
            return None;
        }
        let timestamp_formatted = Self::format_timestamp(entry.timestamp_ms);
        let message_bytes = format_message_bytes(
            raw.template.as_slice(),
            entry.arguments.as_slice(),
        );
        let formatted_message = bytes_to_string(&message_bytes);
        let module_name = bytes_to_string(&raw.module);
        Some(ParsedLog { timestamp_formatted, log_level: raw.log_level, module_name, formatted_message })
    }

    /// Processes a batch of records in order, appending the included lines.
    fn process_entries(&self, entries: &Vec<BinaryLogEntry>, min_log_level: u8, out: &mut Vec<
        ParsedLog,
    >)
        ensures
            spec_log_views(final(out)@) == spec_log_views(old(out)@) + spec_pipeline(
                self.raw_dictionary@,
                spec_views_of(entries@),
                min_log_level,
            ),
    {
        let ghost dict = self.raw_dictionary@;
        let ghost recs = spec_views_of(entries@);
        let n = entries.len();
        let mut i: usize = 0;
        proof {
            assert(recs.skip(0) =~= recs);
            assert(spec_log_views(out@) + spec_pipeline(dict, recs.skip(0), min_log_level)
                =~= spec_log_views(old(out)@) + spec_pipeline(dict, recs, min_log_level));
        }
        while i < n
            invariant
                0 <= i <= n,
                n == entries@.len(),
                dict == self.raw_dictionary@,
                recs == spec_views_of(entries@),
                spec_log_views(old(out)@) + spec_pipeline(dict, recs, min_log_level)
                    == spec_log_views(out@) + spec_pipeline(dict, recs.skip(i as int), min_log_level),
            decreases n - i,
        {
            let ghost out0 = out@;
            let ghost tailr = recs.skip(i as int);
            proof {
                assert(tailr.first() == recs[i as int]);
                assert(recs[i as int] == entries@[i as int]@);
                assert(tailr.drop_first() =~= recs.skip(i + 1));
            }
            match self.process_binary_entry(&entries[i], min_log_level) {
                Some(l) => {
                    out.push(l);
                    proof {
                        assert(out@ =~= out0.push(l));
                        assert(spec_log_views(out@) =~= spec_log_views(out0) + seq![l@]);
                    }
                },
                None => {},
            }
            proof {
                assert(spec_pipeline(dict, tailr, min_log_level) == (match spec_process(
                    dict,
                    tailr.first(),
                    min_log_level,
                ) {
                    Some(l) => seq![l],
                    None => Seq::<ParsedLogV>::empty(),
                }) + spec_pipeline(dict, tailr.drop_first(), min_log_level));
            }
            i += 1;
        }
        proof {
            assert(recs.skip(n as int) =~= Seq::<RecView>::empty());
            assert(spec_pipeline(dict, recs.skip(n as int), min_log_level) =~= Seq::<
                ParsedLogV,
            >::empty());
            assert(spec_log_views(out@) + Seq::<ParsedLogV>::empty() =~= spec_log_views(out@));
        }
    }

    /// Buffered decode: parses the whole buffer in one pass.  A trailing
    /// incomplete record is dropped, exactly as the streaming path drops it.
    pub fn parse_binary_legacy(&self, data: &[u8], min_log_level: u8) -> (r: Vec<ParsedLog>)
        ensures
            spec_log_views(r@) == spec_pipeline(
                self.raw_dictionary@,
                spec_records(data@),
                min_log_level,
            ),
    {
        let (entries, _rest) = parse_records(data);
        let mut out: Vec<ParsedLog> = Vec::new();
        self.process_entries(&entries, min_log_level, &mut out);
        out
    }

    /// Streaming decode: consumes the input in fixed-size chunks, carrying
    /// the unparsed remainder of each chunk into the next, and holding only
    /// one chunk and one partial record in memory at a time.  Produces
    /// exactly the lines of the buffered decode.
    pub fn parse_binary_streaming(&self, data: &[u8], min_log_level: u8) -> (r: Vec<ParsedLog>)
        ensures
            spec_log_views(r@) == spec_pipeline(
                self.raw_dictionary@,
                spec_records(data@),
                min_log_level,
            ),
    {
        self.parse_binary_chunked(data, CHUNK_SIZE, min_log_level)
    }

    /// Streaming decode with an explicit chunk size.
    pub fn parse_binary_chunked(&self, data: &[u8], chunk_size: usize, min_log_level: u8) -> (r:
        Vec<ParsedLog>)
        requires
            chunk_size >= 1,
        ensures
            spec_log_views(r@) == spec_pipeline(
                self.raw_dictionary@,
                spec_records(data@),
                min_log_level,
            ),
    {
        let ghost dict = self.raw_dictionary@;
        let n = data.len();
        let mut out: Vec<ParsedLog> = Vec::new();
        let mut rem: Vec<u8> = Vec::new();
        let mut pos: usize = 0;
        proof {
            assert(rem@ + data@.skip(0) =~= data@);
            assert(spec_log_views(out@) =~= Seq::<ParsedLogV>::empty());
            assert(Seq::<ParsedLogV>::empty() + spec_pipeline(dict, spec_records(data@), min_log_level)
                =~= spec_pipeline(dict, spec_records(data@), min_log_level));
        }
        while pos < n
            invariant
                0 <= pos <= n,
                n == data@.len(),
                chunk_size >= 1,
                dict == self.raw_dictionary@,
                !crate::records::spec_has_complete_record(rem@),
                spec_pipeline(dict, spec_records(data@), min_log_level) == spec_log_views(out@)
                    + spec_pipeline(dict, spec_records(rem@ + data@.skip(pos as int)), min_log_level),
            decreases n - pos,
        {
            let end = if n - pos < chunk_size {
                n
            } else {
                pos + chunk_size
            };
            let ghost rem0 = rem@;
            let mut combined = rem;
            push_all(&mut combined, vstd::slice::slice_subrange(data, pos, end));
            let (entries, new_rem) = parse_records(combined.as_slice());
            self.process_entries(&entries, min_log_level, &mut out);
            rem = new_rem;
            proof {
                let chunk = data@.subrange(pos as int, end as int);
                let rest = data@.skip(end as int);
                assert(combined@ =~= rem0 + chunk);
                assert(rem0 + data@.skip(pos as int) =~= (rem0 + chunk) + rest);
                lemma_records_append(rem0 + chunk, rest);
                lemma_remainder_incomplete(rem0 + chunk);
                assert(rem@ == spec_remainder(rem0 + chunk));
                lemma_pipeline_append(
                    dict,
                    spec_records(rem0 + chunk),
                    spec_records(rem@ + rest),
                    min_log_level,
                );
                assert(spec_records((rem0 + chunk) + rest) == spec_records(rem0 + chunk)
                    + spec_records(rem@ + rest));
            }
            pos = end;
        }
        proof {
            assert(data@.skip(n as int) =~= Seq::<u8>::empty());
            assert(rem@ + data@.skip(n as int) =~= rem@);
            assert(spec_records(rem@) =~= Seq::<RecView>::empty());
            assert(spec_pipeline(dict, Seq::<RecView>::empty(), min_log_level) =~= Seq::<
                ParsedLogV,
            >::empty());
            assert(spec_log_views(out@) + Seq::<ParsedLogV>::empty() =~= spec_log_views(out@));
        }
        out
    }

    /// Renders a record timestamp, for example `1234ms`.
    pub fn format_timestamp(timestamp_ms: u32) -> (r: String)
        ensures
            r@ == spec_timestamp_chars(timestamp_ms),
    {
        let mut bytes: Vec<u8> = Vec::new();
        push_dec_u64(&mut bytes, timestamp_ms as u64);
        bytes.push(109);
        bytes.push(115);
        proof {
            lemma_dec_bytes_ascii(timestamp_ms as nat);
            assert(bytes@ =~= spec_dec_bytes(timestamp_ms as nat) + seq![109u8, 115u8]);
        }
        ascii_to_string(&bytes)
    }

    /// Substitutes `arguments` into `template`: the placeholder scan with
    /// the merged-hex rule, then quote stripping.
    pub fn format_message(&self, template: &str, arguments: &[u32]) -> (r: String)
        ensures
            r@ == lossy_of(spec_format_bytes(template.spec_bytes(), arguments@)),
    {
        let rendered = format_message_bytes(template.as_bytes(), arguments);
        bytes_to_string(&rendered)
    }

    /// Parses one dictionary entry from its text line.  Fails exactly when
    /// the line has too few fields or an unparsable level.
    pub fn parse_dictionary_line(line: &str) -> (r: Result<
        LogEntry,
        crate::dictionary::FormatError,
    >)
        ensures
            match r {
                Ok(e) => crate::dictionary::spec_parse_entry(line.spec_bytes()) is Ok
                    && spec_entry_matches(
                    e,
                    crate::dictionary::spec_parse_entry(line.spec_bytes())->Ok_0,
                ),
                Err(err) => crate::dictionary::spec_parse_entry(line.spec_bytes()) == Err::<
                    crate::dictionary::EntryV,
                    crate::dictionary::FormatError,
                >(err),
            },
    {
        crate::dictionary::parse_entry_bytes(line.as_bytes())
    }

    /// The label this parser renders for a numeric severity level.
    pub fn level_label(&self, level: u8) -> (r: &str)
        ensures
            r@ == spec_level_label(spec_name_views(self.level_names@), level),
    {
        let idx = level as usize;
        if idx < self.level_names.len() {
            proof {
                assert(spec_name_views(self.level_names@)[idx as int] == self.level_names@[idx as int]@);
            }
            self.level_names[idx].as_str()
        } else {
            "Unknown"
        }
    }

    /// Renders one line: padded timestamp, optional severity label, module
    /// and message.
    pub fn format_line(&self, log: &ParsedLog, include_log_level: bool) -> (r: String)
        ensures
            r@ == spec_line(spec_name_views(self.level_names@), log@, include_log_level),
    {
        let mut line = String::new();
        line.append(log.timestamp_formatted.as_str());
        let ts_len = log.timestamp_formatted.as_str().unicode_len();
        let mut j = ts_len;
        proof {
            assert(line@ =~= log.timestamp_formatted@ + Seq::new(0nat, |i: int| ' '));
        }
        while j < 12
            invariant
                ts_len <= j,
                ts_len < 12 ==> j <= 12,
                ts_len >= 12 ==> j == ts_len,
                ts_len == log.timestamp_formatted@.len(),
                line@ == log.timestamp_formatted@ + Seq::new((j - ts_len) as nat, |i: int| ' '),
            decreases 12 - j,
        {
            line.append(" ");
            proof {
                reveal_strlit(" ");
                assert(" "@ =~= seq![' ']);
                assert(log.timestamp_formatted@ + Seq::new((j - ts_len) as nat, |i: int| ' ')
                    + seq![' '] =~= log.timestamp_formatted@ + Seq::new(
                    (j + 1 - ts_len) as nat,
                    |i: int| ' ',
                ));
            }
            j += 1;
        }
        proof {
            if ts_len >= 12 {
                assert(line@ =~= spec_pad12(log.timestamp_formatted@));
            } else {
                assert(line@ =~= spec_pad12(log.timestamp_formatted@));
            }
        }
        line.append("\t[");
        if include_log_level {
            line.append(self.level_label(log.log_level));
            line.append("]\t[");
            line.append(log.module_name.as_str());
            line.append("]\t");
            line.append(log.formatted_message.as_str());
            proof {
                assert(line@ =~= spec_line(
                    spec_name_views(self.level_names@),
                    log@,
                    include_log_level,
                ));
            }
        } else {
            line.append(log.module_name.as_str());
            line.append("]\t");
            line.append(log.formatted_message.as_str());
            proof {
                assert(line@ =~= spec_line(
                    spec_name_views(self.level_names@),
                    log@,
                    include_log_level,
                ));
            }
        }
        line
    }

    /// Renders all lines, in order, without severity labels.
    pub fn format_logs(&self, logs: &[ParsedLog]) -> (r: Vec<String>)
        ensures
            r@.len() == logs@.len(),
            forall|i: int|
                0 <= i < r@.len() ==> (#[trigger] r@[i])@ == spec_line(
                    spec_name_views(self.level_names@),
                    logs@[i]@,
                    false,
                ),
    {
        self.format_logs_with_options(logs, false)
    }

    /// Renders all lines, in order, with or without severity labels.
    pub fn format_logs_with_options(&self, logs: &[ParsedLog], include_log_level: bool) -> (r: Vec<
        String,
    >)
        ensures
            r@.len() == logs@.len(),
            forall|i: int|
                0 <= i < r@.len() ==> (#[trigger] r@[i])@ == spec_line(
                    spec_name_views(self.level_names@),
                    logs@[i]@,
                    include_log_level,
                ),
    {
        let n = logs.len();
        let mut out: Vec<String> = Vec::new();
        let mut i: usize = 0;
        while i < n
            invariant
                0 <= i <= n,
                n == logs@.len(),
                out@.len() == i,
                forall|k: int|
                    0 <= k < i ==> (#[trigger] out@[k])@ == spec_line(
                        spec_name_views(self.level_names@),
                        logs@[k]@,
                        include_log_level,
                    ),
            decreases n - i,
        {
            let line = self.format_line(&logs[i], include_log_level);
            out.push(line);
            i += 1;
        }
        out
    }

    /// Decodes a whole binary trace into one newline-joined text block:
    /// decode, filter, render, join — the flat form of the shared pipeline.
    pub fn decode_text(&self, data: &[u8], min_log_level: u8, include_log_level: bool) -> (r:
        Result<String, DecodeError>)
        ensures
            match r {
                Ok(s) => data@.len() <= MAX_FILE_SIZE && s@ == spec_join_lines(
                    spec_rendered(
                        self.raw_dictionary@,
                        spec_name_views(self.level_names@),
                        data@,
                        min_log_level,
                        include_log_level,
                    ),
                ),
                Err(e) => data@.len() > MAX_FILE_SIZE && e == DecodeError::SizeLimitExceeded,
            },
    {
        let logs = match self.parse_binary(data, min_log_level) {
            Ok(logs) => logs,
            Err(e) => {
                return Err(e);
            },
        };
        let lines = self.format_logs_with_options(logs.as_slice(), include_log_level);
        let ghost names = spec_name_views(self.level_names@);
        proof {
            assert(lines@.map_values(|s: String| s@) =~= spec_rendered(
                self.raw_dictionary@,
                names,
                data@,
                min_log_level,
                include_log_level,
            ));
        }
        Ok(join_lines(&lines))
    }

    /// Decodes a whole binary trace into the ordered session list: decode,
    /// filter, render, join, segment — the structured form of the same
    /// pipeline.
    pub fn decode_sessions(&self, data: &[u8], min_log_level: u8, include_log_level: bool) -> (r:
        Result<Vec<crate::sessions::LogSession>, DecodeError>)
        ensures
            match r {
                Ok(sessions) => {
                    let ss = crate::sessions::spec_sessions(
                        vstd::utf8::encode_utf8(
                            spec_join_lines(
                                spec_rendered(
                                    self.raw_dictionary@,
                                    spec_name_views(self.level_names@),
                                    data@,
                                    min_log_level,
                                    include_log_level,
                                ),
                            ),
                        ),
                    );
                    &&& data@.len() <= MAX_FILE_SIZE
                    &&& sessions@.len() == ss.len()
                    &&& forall|i: int|
                        0 <= i < sessions@.len() ==> {
                            &&& (#[trigger] sessions@[i]).id == i
                            &&& sessions@[i].content@ == crate::text::lossy_of(ss[i].content)
                            &&& (match (sessions@[i].timestamp, ss[i].timestamp) {
                                (Some(t), Some(tv)) => t@ == crate::text::lossy_of(tv),
                                (None, None) => true,
                                _ => false,
                            })
                        }
                },
                Err(e) => data@.len() > MAX_FILE_SIZE && e == DecodeError::SizeLimitExceeded,
            },
    {
        let text = match self.decode_text(data, min_log_level, include_log_level) {
            Ok(text) => text,
            Err(e) => {
                return Err(e);
            },
        };
        Ok(crate::sessions::parse_log_sessions(text.as_str()))
    }

    /// Decodes a whole binary trace.  Inputs over the size ceiling are
    /// rejected before parsing; large inputs go through the streaming path,
    /// which produces exactly what the buffered path produces.
    pub fn parse_binary(&self, data: &[u8], min_log_level: u8) -> (r: Result<
        Vec<ParsedLog>,
        DecodeError,
    >)
        ensures
            match r {
                Ok(logs) => data@.len() <= MAX_FILE_SIZE && spec_log_views(logs@) == spec_pipeline(
                    self.raw_dictionary@,
                    spec_records(data@),
                    min_log_level,
                ),
                Err(e) => data@.len() > MAX_FILE_SIZE && e == DecodeError::SizeLimitExceeded,
            },
    {
        if data.len() as u64 > MAX_FILE_SIZE {
            return Err(DecodeError::SizeLimitExceeded);
        }
        if data.len() > CHUNK_SIZE {
            Ok(self.parse_binary_streaming(data, min_log_level))
        } else {
            Ok(self.parse_binary_legacy(data, min_log_level))
        }
    }
}

} // verus!
