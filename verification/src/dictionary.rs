//! The template dictionary: a byte buffer of entries separated by NUL bytes,
//! addressed by the byte offset at which an entry starts.
//!
//! Each entry reads `num_args;log_level;source_file:line;module_name;template`.
//! The argument count field is informational only — the binary record is
//! authoritative — and the source location is ignored.  A malformed entry is
//! skipped; loading never fails on a single bad line.

use crate::num::{parse_u8_dec, spec_dec_body, spec_dec_val, spec_parses_as_uint};
use crate::text::{
    bytes_to_string, find_byte, lemma_find_byte, lossy_of, spec_find_byte, spec_trim, sub_vec,
    trim_bytes,
};
use vstd::prelude::*;

verus! {

/// Why a single dictionary entry failed to parse.
#[derive(Debug, Clone, Copy, PartialEq, Eq, Structural)]
pub enum FormatError {
    /// The entry has fewer than five `;`-separated fields.
    MissingField,
    /// The log level field is not an unsigned 8-bit decimal number.
    BadLevel,
}

/// A parsed dictionary entry: severity, module name, and message template.
#[derive(Debug, Clone)]
pub struct LogEntry {
    pub log_level: u8,
    pub module_name: String,
    pub log_message: String,
}

/// The mathematical image of a dictionary entry, over raw bytes.
pub struct EntryV {
    pub log_level: u8,
    pub module: Seq<u8>,
    pub template: Seq<u8>,
}

/// Whether the executable entry carries exactly the bytes of `v`, decoded.
pub open spec fn spec_entry_matches(e: LogEntry, v: EntryV) -> bool {
    &&& e.log_level == v.log_level
    &&& e.module_name@ == lossy_of(v.module)
    &&& e.log_message@ == lossy_of(v.template)
}

/// The result of parsing one dictionary entry from its (already isolated)
/// bytes: five `;`-separated fields, of which the level, module and template
/// matter; the template is the whole remainder after the fourth separator.
pub open spec fn spec_parse_entry(s: Seq<u8>) -> Result<EntryV, FormatError> {
    let e0 = spec_find_byte(s, 59, 0);
    let e1 = spec_find_byte(s, 59, e0 + 1);
    let e2 = spec_find_byte(s, 59, e1 + 1);
    let e3 = spec_find_byte(s, 59, e2 + 1);
    if e0 >= s.len() || e1 >= s.len() || e2 >= s.len() || e3 >= s.len() {
        Err(FormatError::MissingField)
    } else {
        let lvl = spec_trim(s.subrange(e0 + 1, e1));
        if !spec_parses_as_uint(lvl, u8::MAX as nat) {
            Err(FormatError::BadLevel)
        } else {
            Ok(
                EntryV {
                    log_level: spec_dec_val(spec_dec_body(lvl)) as u8,
                    module: spec_trim(s.subrange(e2 + 1, e3)),
                    template: spec_trim(s.subrange(e3 + 1, s.len() as int)),
                },
            )
        }
    }
}

/// A dictionary entry still in raw bytes, before any text decoding.
pub struct RawEntry {
    pub log_level: u8,
    pub module: Vec<u8>,
    pub template: Vec<u8>,
}

/// Whether the raw entry carries exactly the fields of `v`.
pub open spec fn spec_raw_matches(e: RawEntry, v: EntryV) -> bool {
    &&& e.log_level == v.log_level
    &&& e.module@ == v.module
    &&& e.template@ == v.template
}

/// Parses one dictionary entry from raw bytes, keeping the fields as bytes.
/// Returns `Err` exactly when the entry has too few fields or a bad level.
pub fn parse_entry_raw(s: &[u8]) -> (r: Result<RawEntry, FormatError>)
    ensures
        match r {
            Ok(e) => spec_parse_entry(s@) is Ok && spec_raw_matches(e, spec_parse_entry(s@)->Ok_0),
            Err(err) => spec_parse_entry(s@) == Err::<EntryV, FormatError>(err),
        },
{
    let n = s.len();
    let e0 = find_byte(s, 59, 0);
    proof {
        lemma_find_byte(s@, 59, 0);
    }
    if e0 >= n {
        return Err(FormatError::MissingField);
    }
    let e1 = find_byte(s, 59, e0 + 1);
    proof {
        lemma_find_byte(s@, 59, e0 + 1);
    }
    if e1 >= n {
        return Err(FormatError::MissingField);
    }
    let e2 = find_byte(s, 59, e1 + 1);
    proof {
        lemma_find_byte(s@, 59, e1 + 1);
    }
    if e2 >= n {
        return Err(FormatError::MissingField);
    }
    let e3 = find_byte(s, 59, e2 + 1);
    proof {
        lemma_find_byte(s@, 59, e2 + 1);
    }
    if e3 >= n {
        return Err(FormatError::MissingField);
    }
    let lvl_field = sub_vec(s, e0 + 1, e1);
    let lvl_bytes = trim_bytes(lvl_field.as_slice());
    let log_level = match parse_u8_dec(lvl_bytes.as_slice()) {
        Some(v) => v,
        None => {
            return Err(FormatError::BadLevel);
        },
    };
    let module_field = sub_vec(s, e2 + 1, e3);
    let module = trim_bytes(module_field.as_slice());
    let template_field = sub_vec(s, e3 + 1, n);
    let template = trim_bytes(template_field.as_slice());
    Ok(RawEntry { log_level, module, template })
}

/// Decodes a raw entry's text fields into a `LogEntry`.
pub fn raw_to_entry(raw: &RawEntry) -> (r: LogEntry)
    ensures
        r.log_level == raw.log_level,
        r.module_name@ == lossy_of(raw.module@),
        r.log_message@ == lossy_of(raw.template@),
{
    LogEntry {
        log_level: raw.log_level,
        module_name: bytes_to_string(&raw.module),
        log_message: bytes_to_string(&raw.template),
    }
}

/// Parses one dictionary entry from raw bytes into decoded text fields.
/// Returns `Err` exactly when the entry has too few fields or a bad level.
pub fn parse_entry_bytes(s: &[u8]) -> (r: Result<LogEntry, FormatError>)
    ensures
        match r {
            Ok(e) => spec_parse_entry(s@) is Ok && spec_entry_matches(e, spec_parse_entry(s@)->Ok_0),
            Err(err) => spec_parse_entry(s@) == Err::<EntryV, FormatError>(err),
        },
{
    match parse_entry_raw(s) {
        Ok(raw) => Ok(raw_to_entry(&raw)),
        Err(e) => Err(e),
    }
}

/// The entry resolved by byte offset `offset` against the raw dictionary:
/// `None` past the end, on an empty segment, or on a malformed entry.
pub open spec fn spec_resolve(d: Seq<u8>, offset: u32) -> Option<EntryV> {
    let off = offset as int;
    if off >= d.len() {
        None
    } else {
        let end = spec_find_byte(d, 0, off);
        if end == off {
            None
        } else {
            let seg = spec_trim(d.subrange(off, end));
            if seg.len() == 0 {
                None
            } else {
                match spec_parse_entry(seg) {
                    Ok(e) => Some(e),
                    Err(_) => None,
                }
            }
        }
    }
}

/// Resolves a byte offset against the raw dictionary bytes, keeping the
/// entry's fields as bytes.  An offset at or past the end of the buffer is
/// simply "not found", never a failure.
pub fn resolve_raw(d: &[u8], offset: u32) -> (r: Option<RawEntry>)
    ensures
        match r {
            Some(e) => spec_resolve(d@, offset) is Some && spec_raw_matches(
                e,
                spec_resolve(d@, offset)->Some_0,
            ),
            None => spec_resolve(d@, offset) is None,
        },
        offset >= d@.len() ==> r is None,
{
    let n = d.len();
    if offset as usize >= n {
        return None;
    }
    let off = offset as usize;
    let end = find_byte(d, 0, off);
    proof {
        lemma_find_byte(d@, 0, off as int);
    }
    if end == off {
        return None;
    }
    let seg_field = sub_vec(d, off, end);
    let seg = trim_bytes(seg_field.as_slice());
    if seg.len() == 0 {
        return None;
    }
    match parse_entry_raw(seg.as_slice()) {
        Ok(e) => Some(e),
        Err(_) => None,
    }
}

/// Resolves a byte offset against the raw dictionary bytes.  An offset at or
/// past the end of the buffer is simply "not found", never a failure.
pub fn resolve_entry(d: &[u8], offset: u32) -> (r: Option<LogEntry>)
    ensures
        match r {
            Some(e) => spec_resolve(d@, offset) is Some && spec_entry_matches(
                e,
                spec_resolve(d@, offset)->Some_0,
            ),
            None => spec_resolve(d@, offset) is None,
        },
        offset >= d@.len() ==> r is None,
{
    match resolve_raw(d, offset) {
        Some(raw) => Some(raw_to_entry(&raw)),
        None => None,
    }
}

/// The `(offset, entry)` pairs that loading the dictionary from position `p`
/// onward produces: segments are delimited by NUL bytes, a segment's key is
/// the position where it starts, and segments that are blank or malformed are
/// skipped while their offsets stay consumed.
pub open spec fn spec_dict_from(d: Seq<u8>, p: int) -> Seq<(u32, EntryV)>
    decreases d.len() + 1 - p,
    when 0 <= p
    via spec_dict_from_decreases
{
    if p >= d.len() {
        Seq::empty()
    } else {
        let end = spec_find_byte(d, 0, p);
        let seg = spec_trim(d.subrange(p, end));
        let here = if seg.len() > 0 {
            match spec_parse_entry(seg) {
                Ok(e) => seq![(p as u32, e)],
                Err(_) => Seq::empty(),
            }
        } else {
            Seq::<(u32, EntryV)>::empty()
        };
        here + spec_dict_from(d, end + 1)
    }
}

#[via_fn]
proof fn spec_dict_from_decreases(d: Seq<u8>, p: int) {
    if 0 <= p < d.len() {
        lemma_find_byte(d, 0, p);
    }
}

/// All `(offset, entry)` pairs of the dictionary bytes `d`.
pub open spec fn spec_dict_pairs(d: Seq<u8>) -> Seq<(u32, EntryV)> {
    spec_dict_from(d, 0)
}

/// Offsets produced from position `p` onward are at least `p` and strictly
/// increasing.
proof fn lemma_dict_from_offsets(d: Seq<u8>, p: int)
    requires
        0 <= p,
        d.len() <= u32::MAX,
    ensures
        forall|i: int|
            0 <= i < spec_dict_from(d, p).len() ==> (#[trigger] spec_dict_from(d, p)[i].0) >= p,
        forall|i: int, j: int|
            0 <= i < j < spec_dict_from(d, p).len() ==> spec_dict_from(d, p)[i].0 < spec_dict_from(
                d,
                p,
            )[j].0,
    decreases d.len() + 1 - p,
{
    if p < d.len() {
        let end = spec_find_byte(d, 0, p);
        lemma_find_byte(d, 0, p);
        lemma_dict_from_offsets(d, end + 1);
        let rest = spec_dict_from(d, end + 1);
        let here = spec_dict_from(d, p);
        assert forall|i: int| 0 <= i < here.len() implies (#[trigger] here[i].0) >= p by {
            if here.len() > rest.len() && i == 0 {
                assert(here[0].0 == p as u32);
            } else {
                assert(here[i].0 == rest[i - (here.len() - rest.len())].0);
            }
        }
    }
}

/// Dictionary keys are unique per load: each key is the byte position where
/// its segment starts, so the keys are strictly increasing in buffer order.
pub proof fn lemma_dict_offsets_unique(d: Seq<u8>)
    requires
        d.len() <= u32::MAX,
    ensures
        forall|i: int, j: int|
            0 <= i < j < spec_dict_pairs(d).len() ==> spec_dict_pairs(d)[i].0 < spec_dict_pairs(
                d,
            )[j].0,
{
    lemma_dict_from_offsets(d, 0);
}

/// Whether the loaded table `out` carries, pair for pair, the offsets and
/// decoded entries of `pairs`.
pub open spec fn spec_pairs_match(out: Seq<(u32, LogEntry)>, pairs: Seq<(u32, EntryV)>) -> bool {
    &&& out.len() == pairs.len()
    &&& forall|i: int|
        0 <= i < out.len() ==> (#[trigger] out[i]).0 == pairs[i].0 && spec_entry_matches(
            out[i].1,
            pairs[i].1,
        )
}

/// Loads the indexed dictionary table from the raw bytes: one `(offset,
/// entry)` pair per parseable segment, in buffer order.
pub fn load_dictionary_pairs(d: &[u8]) -> (r: Vec<(u32, LogEntry)>)
    ensures
        spec_pairs_match(r@, spec_dict_pairs(d@)),
{
    let n = d.len();
    let mut out: Vec<(u32, LogEntry)> = Vec::new();
    let mut p: usize = 0;
    while p < n
        invariant
            0 <= p,
            n == d@.len(),
            spec_dict_pairs(d@).len() == out@.len() + spec_dict_from(d@, p as int).len(),
            forall|i: int|
                0 <= i < out@.len() ==> (#[trigger] out@[i]).0 == spec_dict_pairs(d@)[i].0
                    && spec_entry_matches(out@[i].1, spec_dict_pairs(d@)[i].1),
            forall|i: int|
                out@.len() <= i < spec_dict_pairs(d@).len() ==> #[trigger] spec_dict_pairs(d@)[i]
                    == spec_dict_from(d@, p as int)[i - out@.len()],
        decreases n - p,
    {
        let end = find_byte(d, 0, p);
        proof {
            lemma_find_byte(d@, 0, p as int);
        }
        let seg_field = sub_vec(d, p, end);
        let seg = trim_bytes(seg_field.as_slice());
        let ghost pairs = spec_dict_pairs(d@);
        let ghost before = out@;
        let ghost seg_spec = spec_trim(d@.subrange(p as int, end as int));
        let ghost here = (if seg_spec.len() > 0 {
            match spec_parse_entry(seg_spec) {
                Ok(e) => seq![((p as usize) as u32, e)],
                Err(_) => Seq::<(u32, EntryV)>::empty(),
            }
        } else {
            Seq::<(u32, EntryV)>::empty()
        });
        let ghost rest = spec_dict_from(d@, end + 1);
        proof {
            assert(seg@ == seg_spec);
            assert(spec_dict_from(d@, p as int) == here + rest);
        }
        if seg.len() > 0 {
            match parse_entry_bytes(seg.as_slice()) {
                Ok(e) => {
                    let key = #[verifier::truncate] (p as u32);
                    proof {
                        assert(here == seq![(key, spec_parse_entry(seg_spec)->Ok_0)]);
                        assert(pairs[before.len() as int] == here[0]);
                    }
                    out.push((key, e));
                    proof {
                        assert(out@ =~= before.push((key, e)));
                        assert forall|i: int|
                            0 <= i < out@.len() implies (#[trigger] out@[i]).0 == pairs[i].0
                            && spec_entry_matches(out@[i].1, pairs[i].1) by {
                            if i < before.len() {
                                assert(before[i].0 == pairs[i].0 && spec_entry_matches(
                                    before[i].1,
                                    pairs[i].1,
                                ));
                                assert(out@[i] == before[i]);
                            } else {
                                assert(out@[i] == (key, e));
                                assert(pairs[i] == here[0]);
                            }
                        }
                    }
                },
                Err(_) => {
                    proof {
                        assert(here =~= Seq::<(u32, EntryV)>::empty());
                    }
                },
            }
        } else {
            proof {
                assert(here =~= Seq::<(u32, EntryV)>::empty());
            }
        }
        proof {
            assert(pairs.len() == out@.len() + rest.len());
            assert forall|i: int|
                out@.len() <= i < pairs.len() implies pairs[i] == rest[i - out@.len()] by {
                assert(pairs[i] == spec_dict_from(d@, p as int)[i - before.len()]);
            }
        }
        if end < n {
            p = end + 1;
        } else {
            proof {
                assert(spec_dict_from(d@, end + 1) =~= Seq::<(u32, EntryV)>::empty());
                assert(spec_dict_from(d@, n as int) =~= Seq::<(u32, EntryV)>::empty());
            }
            p = n;
        }
    }
    proof {
        assert(spec_dict_from(d@, p as int) =~= Seq::<(u32, EntryV)>::empty());
    }
    out
}

} // verus!
