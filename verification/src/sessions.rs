//! Grouping of rendered log lines into per-boot sessions.
//!
//! A single forward pass accumulates lines into the current session.  A line
//! holding the reset-cause marker closes the open session, as does a zero
//! timestamp after a non-zero one was seen.  A `Date time set rcvd:` line
//! sets the current session's human-readable timestamp.  Decoder banner lines
//! are dropped.  Afterwards, sessions with at most one non-blank line are
//! discarded and the survivors are renumbered from zero.

use crate::num::{
    parse_u64_dec, push_dec_u64, spec_dec_bytes, spec_dec_body, spec_dec_val, spec_parses_as_uint,
};
use crate::text::{
    bytes_to_string, contains_sub, find_sub, lossy_of, push_all, spec_contains, spec_match_at,
    spec_trim, starts_with, sub_vec, trim_bytes,
};
use crate::text::{find_byte, lemma_find_byte, spec_find_byte};
use vstd::prelude::*;
use vstd::string::StringSliceAdditionalSpecFns;

verus! {

/// One boot-cycle session: a sequential id, the session's text block, and an
/// optional human-readable timestamp derived from an epoch line.
#[derive(Debug, Clone)]
pub struct LogSession {
    pub id: usize,
    pub content: String,
    pub timestamp: Option<String>,
}

/// The mathematical image of a session, over raw bytes.
pub struct SessV {
    pub content: Seq<u8>,
    pub timestamp: Option<Seq<u8>>,
}

/// The segmenter's running state: closed sessions, the open accumulator, the
/// pending timestamp, and whether a non-zero line timestamp was seen.
pub struct SegState {
    pub sessions: Seq<SessV>,
    pub cur: Seq<u8>,
    pub cur_time: Option<Seq<u8>>,
    pub seen_nonzero: bool,
}

/// `s` split at every newline byte; a trailing newline yields no extra line.
pub open spec fn spec_split_lines(s: Seq<u8>) -> Seq<Seq<u8>>
    decreases s.len(),
    when true
    via spec_split_lines_decreases
{
    if s.len() == 0 {
        Seq::empty()
    } else {
        let e = spec_find_byte(s, 10, 0);
        if e >= s.len() {
            seq![s]
        } else {
            seq![s.take(e)] + spec_split_lines(s.skip(e + 1))
        }
    }
}

#[via_fn]
proof fn spec_split_lines_decreases(s: Seq<u8>) {
    if s.len() > 0 {
        lemma_find_byte(s, 10, 0);
    }
}

/// The first position at or after `from` where `pat` occurs in `s`, or `-1`.
pub open spec fn spec_find_first(s: Seq<u8>, pat: Seq<u8>, from: int) -> int
    decreases s.len() + 1 - from,
    when from >= 0
{
    if from + pat.len() > s.len() {
        -1
    } else if spec_match_at(s, pat, from) {
        from
    } else {
        spec_find_first(s, pat, from + 1)
    }
}

/// `spec_find_first` returns exactly the first match position.
pub proof fn lemma_find_first_is(s: Seq<u8>, pat: Seq<u8>, from: int, i: int)
    requires
        0 <= from <= i,
        spec_match_at(s, pat, i),
        forall|j: int| from <= j < i ==> !spec_match_at(s, pat, j),
    ensures
        spec_find_first(s, pat, from) == i,
    decreases i - from,
{
    if from < i {
        lemma_find_first_is(s, pat, from + 1, i);
    }
}

/// When `pat` occurs nowhere in `s`, `spec_find_first` returns `-1`.
pub proof fn lemma_find_first_none(s: Seq<u8>, pat: Seq<u8>, from: int)
    requires
        0 <= from,
        forall|j: int| !spec_match_at(s, pat, j),
    ensures
        spec_find_first(s, pat, from) == -1,
    decreases s.len() + 1 - from,
{
    if from + pat.len() <= s.len() {
        lemma_find_first_none(s, pat, from + 1);
    }
}

/// The epoch seconds announced by a `Date time set rcvd:` line, standalone or
/// embedded after a timestamp and module prefix.
pub open spec fn spec_date_time(l: Seq<u8>) -> Option<u64> {
    let pat = ("Date time set rcvd:").spec_bytes();
    let i = spec_find_first(l, pat, 0);
    if i < 0 {
        None
    } else {
        let after = spec_trim(l.skip(i + pat.len()));
        if spec_parses_as_uint(after, u64::MAX as nat) {
            Some(spec_dec_val(spec_dec_body(after)) as u64)
        } else {
            None
        }
    }
}

/// The milliseconds timestamp at the head of a rendered line: the decimal
/// prefix before the first `ms` followed by a tab.
pub open spec fn spec_line_ts(l: Seq<u8>) -> Option<u64> {
    let pat = ("ms\t").spec_bytes();
    let i = spec_find_first(l, pat, 0);
    if i < 0 {
        None
    } else {
        let pre = l.take(i);
        if spec_parses_as_uint(pre, u64::MAX as nat) {
            Some(spec_dec_val(spec_dec_body(pre)) as u64)
        } else {
            None
        }
    }
}

/// Whether the line is a decoder diagnostic banner, which is never appended
/// to any session.
pub open spec fn spec_is_banner(l: Seq<u8>) -> bool {
    ||| spec_contains(l, ("Using default dictionnay").spec_bytes())
    ||| spec_contains(l, ("Using default dictionary").spec_bytes())
    ||| spec_match_at(l, ("Using default").spec_bytes(), 0)
}

/// The bytes of the human-readable timestamp for epoch seconds `e`.
pub open spec fn spec_epoch_bytes(e: u64) -> Seq<u8> {
    ("Epoch: ").spec_bytes() + spec_dec_bytes(e as nat)
}

/// The closed session built from the open accumulator.
pub open spec fn spec_close(st: SegState) -> SessV {
    SessV { content: spec_trim(st.cur), timestamp: st.cur_time }
}

/// One step of the segmenter on a raw (untrimmed) line.
pub open spec fn spec_step(st: SegState, raw_line: Seq<u8>) -> SegState {
    let l = spec_trim(raw_line);
    if l.len() == 0 {
        st
    } else if spec_is_banner(l) {
        st
    } else if spec_date_time(l) is Some {
        SegState {
            sessions: st.sessions,
            cur: st.cur + l + seq![10u8],
            cur_time: Some(spec_epoch_bytes(spec_date_time(l)->0)),
            seen_nonzero: st.seen_nonzero,
        }
    } else if spec_contains(l, ("System Reset Cause").spec_bytes()) {
        if st.cur.len() > 0 {
            SegState {
                sessions: st.sessions + seq![spec_close(st)],
                cur: l + seq![10u8],
                cur_time: None,
                seen_nonzero: false,
            }
        } else {
            SegState {
                sessions: st.sessions,
                cur: st.cur + l + seq![10u8],
                cur_time: st.cur_time,
                seen_nonzero: st.seen_nonzero,
            }
        }
    } else if spec_line_ts(l) == Some(0u64) && st.seen_nonzero && st.cur.len() > 0 {
        SegState {
            sessions: st.sessions + seq![spec_close(st)],
            cur: l + seq![10u8],
            cur_time: None,
            seen_nonzero: false,
        }
    } else {
        SegState {
            sessions: st.sessions,
            cur: st.cur + l + seq![10u8],
            cur_time: st.cur_time,
            seen_nonzero: st.seen_nonzero || (match spec_line_ts(l) {
                Some(ts) => ts > 0,
                None => false,
            }),
        }
    }
}

/// The segmenter's state after consuming all of `lines`.
pub open spec fn spec_fold(st: SegState, lines: Seq<Seq<u8>>) -> SegState
    decreases lines.len(),
{
    if lines.len() == 0 {
        st
    } else {
        spec_fold(spec_step(st, lines.first()), lines.drop_first())
    }
}

/// Folding one more line is one more step.
pub proof fn lemma_fold_snoc(st: SegState, lines: Seq<Seq<u8>>, x: Seq<u8>)
    ensures
        spec_fold(st, lines.push(x)) == spec_step(spec_fold(st, lines), x),
    decreases lines.len(),
{
    if lines.len() == 0 {
        assert(lines.push(x).first() == x);
        assert(lines.push(x).drop_first() =~= Seq::<Seq<u8>>::empty());
        assert(spec_fold(st, lines.push(x)) == spec_fold(
            spec_step(st, x),
            lines.push(x).drop_first(),
        ));
        assert(spec_fold(spec_step(st, x), Seq::<Seq<u8>>::empty()) == spec_step(st, x));
        assert(spec_fold(st, lines) == st);
    } else {
        assert(lines.push(x).first() == lines.first());
        assert(lines.push(x).drop_first() =~= lines.drop_first().push(x));
        assert(spec_fold(st, lines.push(x)) == spec_fold(
            spec_step(st, lines.first()),
            lines.drop_first().push(x),
        ));
        lemma_fold_snoc(spec_step(st, lines.first()), lines.drop_first(), x);
        assert(spec_fold(st, lines) == spec_fold(spec_step(st, lines.first()), lines.drop_first()));
    }
}

/// The segmenter's initial state.
pub open spec fn spec_init() -> SegState {
    SegState { sessions: Seq::empty(), cur: Seq::empty(), cur_time: None, seen_nonzero: false }
}

/// All sessions cut from the content bytes, before the short-session filter:
/// the fold over its lines, plus the final accumulator if non-empty.
pub open spec fn spec_raw_sessions(b: Seq<u8>) -> Seq<SessV> {
    let st = spec_fold(spec_init(), spec_split_lines(b));
    if st.cur.len() > 0 {
        st.sessions + seq![spec_close(st)]
    } else {
        st.sessions
    }
}

/// How many lines of `lines` are non-blank after trimming.
pub open spec fn spec_count_nonblank_in(lines: Seq<Seq<u8>>) -> int
    decreases lines.len(),
{
    if lines.len() == 0 {
        0
    } else {
        spec_count_nonblank_in(lines.drop_last()) + (if spec_trim(lines.last()).len() > 0 {
            1int
        } else {
            0int
        })
    }
}

/// How many non-blank lines the content block `c` holds.
pub open spec fn spec_nonblank(c: Seq<u8>) -> int {
    spec_count_nonblank_in(spec_split_lines(c))
}

/// Whether a session survives the post-filter: more than one non-blank line.
pub open spec fn spec_session_kept(s: SessV) -> bool {
    spec_nonblank(s.content) > 1
}

/// The sessions of `ss` that survive the post-filter, in order.
pub open spec fn spec_keep(ss: Seq<SessV>) -> Seq<SessV>
    decreases ss.len(),
{
    if ss.len() == 0 {
        Seq::empty()
    } else {
        spec_keep(ss.drop_last()) + (if spec_session_kept(ss.last()) {
            seq![ss.last()]
        } else {
            Seq::<SessV>::empty()
        })
    }
}

/// The final ordered session list for the content bytes `b`: segmented,
/// filtered, and implicitly renumbered by position.
pub open spec fn spec_sessions(b: Seq<u8>) -> Seq<SessV> {
    spec_keep(spec_raw_sessions(b))
}

/// Splits `s` into its lines.
pub fn split_lines(s: &[u8]) -> (r: Vec<Vec<u8>>)
    ensures
        r@.map_values(|v: Vec<u8>| v@) == spec_split_lines(s@),
{
    let n = s.len();
    let mut out: Vec<Vec<u8>> = Vec::new();
    let mut p: usize = 0;
    proof {
        assert(s@.skip(0) =~= s@);
        assert(out@.map_values(|v: Vec<u8>| v@) =~= Seq::<Seq<u8>>::empty());
    }
    while p < n
        invariant
            0 <= p <= n,
            n == s@.len(),
            spec_split_lines(s@) == out@.map_values(|v: Vec<u8>| v@) + spec_split_lines(
                s@.skip(p as int),
            ),
        decreases n - p,
    {
        let ghost tail = s@.skip(p as int);
        let ghost before = out@;
        let e = find_byte(s, 10, p);
        proof {
            lemma_find_byte(s@, 10, p as int);
            assert forall|j: int| 0 <= j < tail.len() implies tail[j] == s@[p + j] by {}
            assert(spec_find_byte(tail, 10, 0) == spec_find_byte(s@, 10, p as int) - p) by {
                lemma_find_byte_shift(s@, p as int);
            }
        }
        if e >= n {
            let line = sub_vec(s, p, n);
            out.push(line);
            proof {
                assert(tail.len() > 0);
                assert(spec_find_byte(tail, 10, 0) >= tail.len());
                assert(spec_split_lines(tail) == seq![tail]);
                assert(line@ =~= tail);
                assert(out@.map_values(|v: Vec<u8>| v@) =~= before.map_values(|v: Vec<u8>| v@)
                    + seq![tail]);
                assert(s@.skip(n as int) =~= Seq::<u8>::empty());
                assert(spec_split_lines(s@.skip(n as int)) == Seq::<Seq<u8>>::empty());
                assert(before.map_values(|v: Vec<u8>| v@) + seq![tail] + Seq::<Seq<u8>>::empty()
                    =~= before.map_values(|v: Vec<u8>| v@) + seq![tail]);
            }
            p = n;
        } else {
            let line = sub_vec(s, p, e);
            out.push(line);
            proof {
                let e0 = e - p;
                assert(tail.len() > 0);
                assert(spec_find_byte(tail, 10, 0) == e0);
                assert(e0 < tail.len());
                assert(spec_split_lines(tail) == seq![tail.take(e0)] + spec_split_lines(
                    tail.skip(e0 + 1),
                ));
                assert(line@ =~= tail.take(e0));
                assert(tail.skip(e0 + 1) =~= s@.skip(e + 1));
                assert(out@.map_values(|v: Vec<u8>| v@) =~= before.map_values(|v: Vec<u8>| v@)
                    + seq![tail.take(e0)]);
            }
            p = e + 1;
        }
    }
    proof {
        assert(spec_split_lines(s@.skip(p as int)) == Seq::<Seq<u8>>::empty());
        assert(out@.map_values(|v: Vec<u8>| v@) + Seq::<Seq<u8>>::empty() =~= out@.map_values(
            |v: Vec<u8>| v@,
        ));
    }
    out
}

/// Finding a byte in the tail starting at `p` is finding it from `p`.
proof fn lemma_find_byte_shift(s: Seq<u8>, p: int)
    requires
        0 <= p <= s.len(),
    ensures
        spec_find_byte(s.skip(p), 10, 0) == spec_find_byte(s, 10, p) - p,
{
    lemma_find_byte(s, 10, p);
    let e = spec_find_byte(s, 10, p);
    let tail = s.skip(p);
    if e < s.len() {
        assert(tail[e - p] == 10);
        assert forall|j: int| 0 <= j < e - p implies tail[j] != 10 by {
            assert(tail[j] == s[p + j]);
        }
        lemma_find_byte_at(tail, e - p);
    } else {
        assert forall|j: int| 0 <= j < tail.len() implies tail[j] != 10 by {
            assert(tail[j] == s[p + j]);
        }
        lemma_find_byte_misses(tail);
        lemma_find_byte(tail, 10, 0);
    }
}

/// A byte at `i` with no earlier occurrence is found at `i`.
proof fn lemma_find_byte_at(s: Seq<u8>, i: int)
    requires
        0 <= i < s.len(),
        s[i] == 10,
        forall|j: int| 0 <= j < i ==> s[j] != 10,
    ensures
        spec_find_byte(s, 10, 0) == i,
{
    lemma_find_byte_from(s, 0, i);
}

proof fn lemma_find_byte_from(s: Seq<u8>, from: int, i: int)
    requires
        0 <= from <= i < s.len(),
        s[i] == 10,
        forall|j: int| from <= j < i ==> s[j] != 10,
    ensures
        spec_find_byte(s, 10, from) == i,
    decreases i - from,
{
    if from < i {
        lemma_find_byte_from(s, from + 1, i);
    }
}

/// A byte that occurs nowhere is found nowhere.
proof fn lemma_find_byte_misses(s: Seq<u8>)
    requires
        forall|j: int| 0 <= j < s.len() ==> s[j] != 10,
    ensures
        spec_find_byte(s, 10, 0) >= s.len(),
{
    lemma_find_byte(s, 10, 0);
    let e = spec_find_byte(s, 10, 0);
    if e < s.len() {
        assert(s[e] == 10);
    }
}

/// The epoch line marker.
fn dt_pattern() -> (r: &'static [u8])
    ensures
        r@ == ("Date time set rcvd:").spec_bytes(),
{
    ("Date time set rcvd:").as_bytes()
}

/// Reads the epoch seconds from a `Date time set rcvd:` line, if present and
/// in range; the number after the marker, trimmed.
pub fn date_time_of_bytes(l: &[u8]) -> (r: Option<u64>)
    ensures
        r == spec_date_time(l@),
{
    let pat = dt_pattern();
    match find_sub(l, pat) {
        Some(i) => {
            proof {
                lemma_find_first_is(l@, pat@, 0, i as int);
            }
            let ln = l.len();
            let after_field = sub_vec(l, i + pat.len(), ln);
            let after = trim_bytes(after_field.as_slice());
            proof {
                assert(after_field@ =~= l@.skip(i + pat@.len()));
            }
            parse_u64_dec(after.as_slice())
        },
        None => {
            proof {
                lemma_find_first_none(l@, pat@, 0);
            }
            None
        },
    }
}

/// Reads the leading milliseconds timestamp of a rendered line, if present:
/// the decimal prefix before the first `ms` followed by a tab.
pub fn line_ts_of_bytes(l: &[u8]) -> (r: Option<u64>)
    ensures
        r == spec_line_ts(l@),
{
    let pat = ("ms\t").as_bytes();
    match find_sub(l, pat) {
        Some(i) => {
            proof {
                lemma_find_first_is(l@, pat@, 0, i as int);
            }
            let pre = sub_vec(l, 0, i);
            proof {
                assert(pre@ =~= l@.take(i as int));
            }
            parse_u64_dec(pre.as_slice())
        },
        None => {
            proof {
                lemma_find_first_none(l@, pat@, 0);
            }
            None
        },
    }
}

/// Renders epoch seconds as the session's human-readable timestamp bytes.
fn epoch_bytes(e: u64) -> (r: Vec<u8>)
    ensures
        r@ == spec_epoch_bytes(e),
{
    let mut out: Vec<u8> = Vec::new();
    push_all(&mut out, ("Epoch: ").as_bytes());
    push_dec_u64(&mut out, e);
    out
}

/// Renders epoch seconds as the human-readable timestamp string.
pub fn epoch_to_local_time(epoch: u64) -> (r: String)
    ensures
        r@ == lossy_of(spec_epoch_bytes(epoch)),
{
    let b = epoch_bytes(epoch);
    bytes_to_string(&b)
}

/// Reads the epoch seconds from a `Date time set rcvd:` line of text.
pub fn parse_date_time_line(line: &str) -> (r: Option<u64>)
    ensures
        r == spec_date_time(line.spec_bytes()),
{
    date_time_of_bytes(line.as_bytes())
}

/// Reads the leading milliseconds timestamp from a rendered line of text.
pub fn extract_timestamp_from_line(line: &str) -> (r: Option<u64>)
    ensures
        r == spec_line_ts(line.spec_bytes()),
{
    line_ts_of_bytes(line.as_bytes())
}

/// Counts the non-blank lines of a content block.
pub fn count_nonblank(c: &[u8]) -> (r: usize)
    ensures
        r as int == spec_nonblank(c@),
        r <= c@.len() + 1,
{
    let lines = split_lines(c);
    let ghost lviews = lines@.map_values(|v: Vec<u8>| v@);
    let n = lines.len();
    let mut count: usize = 0;
    let mut i: usize = 0;
    proof {
        assert(lviews.take(0) =~= Seq::<Seq<u8>>::empty());
        lemma_split_count(c@);
    }
    while i < n
        invariant
            0 <= i <= n,
            n == lines@.len(),
            lviews == lines@.map_values(|v: Vec<u8>| v@),
            count as int == spec_count_nonblank_in(lviews.take(i as int)),
            count <= i,
        decreases n - i,
    {
        let t = trim_bytes(lines[i].as_slice());
        proof {
            assert(lviews.take(i + 1).drop_last() =~= lviews.take(i as int));
            assert(lviews.take(i + 1).last() == lviews[i as int]);
            assert(lviews[i as int] == lines@[i as int]@);
        }
        if t.len() > 0 {
            count += 1;
        }
        i += 1;
    }
    proof {
        assert(lviews.take(n as int) =~= lviews);
    }
    count
}

/// A session still in raw bytes, before text decoding.
struct SessRaw {
    content: Vec<u8>,
    timestamp: Option<Vec<u8>>,
}

/// The view of a raw session.
spec fn spec_raw_view(s: SessRaw) -> SessV {
    SessV {
        content: s.content@,
        timestamp: match s.timestamp {
            Some(v) => Some(v@),
            None => None,
        },
    }
}

/// The views of a sequence of raw sessions.
spec fn spec_raw_views(v: Seq<SessRaw>) -> Seq<SessV> {
    v.map_values(|s: SessRaw| spec_raw_view(s))
}

/// The view of an optional byte buffer.
spec fn spec_opt_bytes(o: Option<Vec<u8>>) -> Option<Seq<u8>> {
    match o {
        Some(v) => Some(v@),
        None => None,
    }
}

/// Closes the accumulator into a session and keeps it if it has more than
/// one non-blank line.
fn flush_session(kept: &mut Vec<SessRaw>, cur: Vec<u8>, cur_time: Option<Vec<u8>>)
    ensures
        ({
            let s = SessV { content: spec_trim(cur@), timestamp: spec_opt_bytes(cur_time) };
            spec_raw_views(final(kept)@) == spec_raw_views(old(kept)@) + (if spec_session_kept(s) {
                seq![s]
            } else {
                Seq::<SessV>::empty()
            })
        }),
{
    let ghost s = SessV { content: spec_trim(cur@), timestamp: spec_opt_bytes(cur_time) };
    let ghost before = kept@;
    let content = trim_bytes(cur.as_slice());
    let cnt = count_nonblank(content.as_slice());
    if cnt > 1 {
        kept.push(SessRaw { content, timestamp: cur_time });
        proof {
            assert(kept@ =~= before.push(SessRaw { content, timestamp: cur_time }));
            assert(spec_raw_view(SessRaw { content, timestamp: cur_time }) == s);
            assert(spec_raw_views(kept@) =~= spec_raw_views(before) + seq![s]);
        }
    } else {
        proof {
            assert(spec_raw_views(kept@) + Seq::<SessV>::empty() =~= spec_raw_views(kept@));
        }
    }
}

/// Groups rendered lines into boot-cycle sessions: reset-cause lines and a
/// return to zero timestamps open new sessions, epoch lines set the open
/// session's timestamp, banner lines are dropped; sessions with at most one
/// non-blank line are discarded, and the survivors are renumbered from zero.
pub fn parse_log_sessions(log_content: &str) -> (r: Vec<LogSession>)
    ensures
        ({
            let ss = spec_sessions(log_content.spec_bytes());
            &&& r@.len() == ss.len()
            &&& forall|i: int|
                0 <= i < r@.len() ==> {
                    &&& (#[trigger] r@[i]).id == i
                    &&& r@[i].content@ == lossy_of(ss[i].content)
                    &&& (match (r@[i].timestamp, ss[i].timestamp) {
                        (Some(t), Some(tv)) => t@ == lossy_of(tv),
                        (None, None) => true,
                        _ => false,
                    })
                }
        }),
{
    let bytes = log_content.as_bytes();
    let lines = split_lines(bytes);
    let ghost lviews = lines@.map_values(|v: Vec<u8>| v@);
    let n = lines.len();
    let mut kept: Vec<SessRaw> = Vec::new();
    let ghost mut raws: Seq<SessV> = Seq::empty();
    let mut cur: Vec<u8> = Vec::new();
    let mut cur_time: Option<Vec<u8>> = None;
    let mut seen_nonzero: bool = false;
    let mut i: usize = 0;
    proof {
        assert(lviews.take(0) =~= Seq::<Seq<u8>>::empty());
        assert(spec_fold(spec_init(), lviews.take(0)) == spec_init());
        assert(spec_raw_views(kept@) =~= Seq::<SessV>::empty());
        assert(spec_keep(Seq::<SessV>::empty()) == Seq::<SessV>::empty());
    }
    while i < n
        invariant
            0 <= i <= n,
            n == lines@.len(),
            lviews == lines@.map_values(|v: Vec<u8>| v@),
            ({
                let st = spec_fold(spec_init(), lviews.take(i as int));
                &&& raws == st.sessions
                &&& cur@ == st.cur
                &&& spec_opt_bytes(cur_time) == st.cur_time
                &&& seen_nonzero == st.seen_nonzero
            }),
            spec_raw_views(kept@) == spec_keep(raws),
        decreases n - i,
    {
        let ghost st = spec_fold(spec_init(), lviews.take(i as int));
        let ghost st2 = spec_step(st, lviews[i as int]);
        proof {
            assert(lviews.take(i + 1) =~= lviews.take(i as int).push(lviews[i as int]));
            lemma_fold_snoc(spec_init(), lviews.take(i as int), lviews[i as int]);
            assert(spec_fold(spec_init(), lviews.take(i + 1)) == st2);
            assert(lviews[i as int] == lines@[i as int]@);
        }
        let l = trim_bytes(lines[i].as_slice());
        proof {
            assert(l@ == spec_trim(lviews[i as int]));
        }
        if l.len() == 0 {
            // blank line: dropped
        } else if contains_sub(l.as_slice(), ("Using default dictionnay").as_bytes()) || contains_sub(
            l.as_slice(),
            ("Using default dictionary").as_bytes(),
        ) || starts_with(l.as_slice(), ("Using default").as_bytes()) {
            proof {
                assert(spec_is_banner(l@));
            }
        } else {
            proof {
                assert(!spec_is_banner(l@));
            }
            let dt = date_time_of_bytes(l.as_slice());
            match dt {
                Some(epoch) => {
                    cur_time = Some(epoch_bytes(epoch));
                    push_all(&mut cur, l.as_slice());
                    cur.push(10);
                    proof {
                        assert(cur@ =~= st.cur + l@ + seq![10u8]);
                    }
                },
                None => {
                    if contains_sub(l.as_slice(), ("System Reset Cause").as_bytes()) {
                        if cur.len() > 0 {
                            let prev_cur = cur;
                            let prev_time = cur_time;
                            let ghost closed = SessV {
                                content: spec_trim(prev_cur@),
                                timestamp: spec_opt_bytes(prev_time),
                            };
                            flush_session(&mut kept, prev_cur, prev_time);
                            proof {
                                assert(closed == spec_close(st));
                                raws = raws.push(closed);
                                assert(raws.drop_last() =~= st.sessions);
                                assert(raws =~= st.sessions + seq![closed]);
                                assert(spec_keep(raws) == spec_keep(st.sessions) + (
                                if spec_session_kept(closed) {
                                    seq![closed]
                                } else {
                                    Seq::<SessV>::empty()
                                }));
                            }
                            cur = Vec::new();
                            push_all(&mut cur, l.as_slice());
                            cur.push(10);
                            cur_time = None;
                            seen_nonzero = false;
                            proof {
                                assert(cur@ =~= l@ + seq![10u8]);
                            }
                        } else {
                            push_all(&mut cur, l.as_slice());
                            cur.push(10);
                            proof {
                                assert(cur@ =~= st.cur + l@ + seq![10u8]);
                            }
                        }
                    } else {
                        let ts = line_ts_of_bytes(l.as_slice());
                        let is_zero = match ts {
                            Some(v) => v == 0,
                            None => false,
                        };
                        if is_zero && seen_nonzero && cur.len() > 0 {
                            let prev_cur = cur;
                            let prev_time = cur_time;
                            let ghost closed = SessV {
                                content: spec_trim(prev_cur@),
                                timestamp: spec_opt_bytes(prev_time),
                            };
                            flush_session(&mut kept, prev_cur, prev_time);
                            proof {
                                assert(closed == spec_close(st));
                                raws = raws.push(closed);
                                assert(raws.drop_last() =~= st.sessions);
                                assert(raws =~= st.sessions + seq![closed]);
                                assert(spec_keep(raws) == spec_keep(st.sessions) + (
                                if spec_session_kept(closed) {
                                    seq![closed]
                                } else {
                                    Seq::<SessV>::empty()
                                }));
                            }
                            cur = Vec::new();
                            push_all(&mut cur, l.as_slice());
                            cur.push(10);
                            cur_time = None;
                            seen_nonzero = false;
                            proof {
                                assert(cur@ =~= l@ + seq![10u8]);
                            }
                        } else {
                            push_all(&mut cur, l.as_slice());
                            cur.push(10);
                            let has_pos = match ts {
                                Some(v) => v > 0,
                                None => false,
                            };
                            if has_pos {
                                seen_nonzero = true;
                            }
                            proof {
                                assert(cur@ =~= st.cur + l@ + seq![10u8]);
                            }
                        }
                    }
                },
            }
        }
        i += 1;
    }
    proof {
        assert(lviews.take(n as int) =~= lviews);
    }
    let ghost st = spec_fold(spec_init(), lviews);
    if cur.len() > 0 {
        let prev_cur = cur;
        let prev_time = cur_time;
        let ghost closed = SessV {
            content: spec_trim(prev_cur@),
            timestamp: spec_opt_bytes(prev_time),
        };
        flush_session(&mut kept, prev_cur, prev_time);
        proof {
            assert(closed == spec_close(st));
            raws = raws.push(closed);
            assert(raws.drop_last() =~= st.sessions);
            assert(raws =~= st.sessions + seq![closed]);
            assert(spec_keep(raws) == spec_keep(st.sessions) + (if spec_session_kept(closed) {
                seq![closed]
            } else {
                Seq::<SessV>::empty()
            }));
            assert(raws == spec_raw_sessions(bytes@));
        }
    } else {
        proof {
            assert(raws == spec_raw_sessions(bytes@));
        }
    }
    proof {
        assert(spec_raw_views(kept@) == spec_sessions(bytes@));
    }
    let ghost ss = spec_sessions(log_content.spec_bytes());
    let m = kept.len();
    let mut out: Vec<LogSession> = Vec::new();
    let mut j: usize = 0;
    while j < m
        invariant
            0 <= j <= m,
            m == kept@.len(),
            spec_raw_views(kept@) == ss,
            out@.len() == j,
            forall|k: int|
                0 <= k < j ==> {
                    &&& (#[trigger] out@[k]).id == k
                    &&& out@[k].content@ == lossy_of(ss[k].content)
                    &&& (match (out@[k].timestamp, ss[k].timestamp) {
                        (Some(t), Some(tv)) => t@ == lossy_of(tv),
                        (None, None) => true,
                        _ => false,
                    })
                },
        decreases m - j,
    {
        let s = &kept[j];
        let content = bytes_to_string(&s.content);
        let timestamp = match &s.timestamp {
            Some(v) => Some(bytes_to_string(v)),
            None => None,
        };
        proof {
            assert(spec_raw_views(kept@)[j as int] == spec_raw_view(kept@[j as int]));
        }
        out.push(LogSession { id: j, content, timestamp });
        j += 1;
    }
    out
}

/// A block of `n` bytes has at most `n + 1` lines, so at most `n + 1`
/// non-blank lines.
proof fn lemma_split_count(c: Seq<u8>)
    ensures
        spec_count_nonblank_in(spec_split_lines(c)) <= c.len() + 1,
        0 <= spec_count_nonblank_in(spec_split_lines(c)),
{
    lemma_count_le(spec_split_lines(c));
    lemma_split_len(c);
}

proof fn lemma_count_le(lines: Seq<Seq<u8>>)
    ensures
        0 <= spec_count_nonblank_in(lines) <= lines.len(),
    decreases lines.len(),
{
    if lines.len() > 0 {
        lemma_count_le(lines.drop_last());
    }
}

proof fn lemma_split_len(c: Seq<u8>)
    ensures
        spec_split_lines(c).len() <= c.len() + 1,
    decreases c.len(),
{
    if c.len() > 0 {
        let e = spec_find_byte(c, 10, 0);
        lemma_find_byte(c, 10, 0);
        if e < c.len() {
            lemma_split_len(c.skip(e + 1));
        }
    }
}

} // verus!
