//! The binary record stream.
//!
//! A record is `timestamp_ms: u32` little-endian, a packed `u32` little-endian
//! whose top four bits are the argument count and whose low 28 bits are the
//! dictionary byte offset, then that many further `u32` little-endian words.
//! The stream has no delimiters: parsing is greedy, and a trailing incomplete
//! record is carried as a remainder so that streaming in chunks reproduces the
//! buffered parse exactly.

use vstd::prelude::*;

verus! {

/// A decoded binary record: timestamp, dictionary byte offset, and arguments.
pub struct BinaryLogEntry {
    pub timestamp_ms: u32,
    pub log_id: u32,
    pub arguments: Vec<u32>,
}

/// The mathematical image of one binary record.
pub struct RecView {
    pub timestamp_ms: u32,
    pub dict_offset: u32,
    pub args: Seq<u32>,
}

impl View for BinaryLogEntry {
    type V = RecView;

    open spec fn view(&self) -> RecView {
        RecView { timestamp_ms: self.timestamp_ms, dict_offset: self.log_id, args: self.arguments@ }
    }
}

/// The record views of a sequence of entries.
pub open spec fn spec_views_of(v: Seq<BinaryLogEntry>) -> Seq<RecView> {
    v.map_values(|e: BinaryLogEntry| e@)
}

/// The `u32` stored little-endian in the four given bytes.
pub open spec fn spec_le32(b0: u8, b1: u8, b2: u8, b3: u8) -> u32 {
    (b0 as int + b1 as int * 0x100 + b2 as int * 0x10000 + b3 as int * 0x1000000) as u32
}

/// The argument count packed into the top four bits.
pub open spec fn spec_arg_count(packed: u32) -> int {
    packed as int / 0x10000000
}

/// The dictionary byte offset packed into the low 28 bits.
pub open spec fn spec_dict_offset(packed: u32) -> u32 {
    (packed as int % 0x10000000) as u32
}

/// The argument words stored at `i`, `i + 4`, ... for `n` words.
pub open spec fn spec_args_at(d: Seq<u8>, i: int, n: int) -> Seq<u32>
    decreases n,
{
    if n <= 0 {
        Seq::empty()
    } else {
        seq![spec_le32(d[i], d[i + 1], d[i + 2], d[i + 3])] + spec_args_at(d, i + 4, n - 1)
    }
}

/// A record's argument sequence has exactly `n` words.
pub proof fn lemma_args_at_len(d: Seq<u8>, i: int, n: int)
    requires
        n >= 0,
    ensures
        spec_args_at(d, i, n).len() == n,
    decreases n,
{
    if n > 0 {
        lemma_args_at_len(d, i + 4, n - 1);
    }
}

/// Every parsed record carries at most fifteen argument words.
pub proof fn lemma_records_args_bounded(d: Seq<u8>)
    ensures
        forall|k: int|
            0 <= k < spec_records(d).len() ==> 0 <= (#[trigger] spec_records(d)[k]).args.len()
                <= 15,
    decreases d.len(),
{
    if spec_has_complete_record(d) {
        let n = spec_arg_count(spec_head_packed(d));
        assert(0 <= n <= 15) by {
            assert(spec_head_packed(d) as int / 0x10000000 <= 15);
        }
        lemma_args_at_len(d, 8, n);
        lemma_records_args_bounded(d.skip(spec_rec_size(d)));
        assert forall|k: int|
            0 <= k < spec_records(d).len() implies 0 <= (#[trigger] spec_records(d)[k]).args.len()
            <= 15 by {
            if k == 0 {
            } else {
                assert(spec_records(d)[k] == spec_records(d.skip(spec_rec_size(d)))[k - 1]);
            }
        }
    }
}

/// The packed header word of the record starting at the head of `d`.
pub open spec fn spec_head_packed(d: Seq<u8>) -> u32
    recommends
        d.len() >= 8,
{
    spec_le32(d[4], d[5], d[6], d[7])
}

/// The total size in bytes of the record starting at the head of `d`.
pub open spec fn spec_rec_size(d: Seq<u8>) -> int
    recommends
        d.len() >= 8,
{
    8 + 4 * spec_arg_count(spec_head_packed(d))
}

/// Whether `d` starts with a complete record, header and all argument words.
pub open spec fn spec_has_complete_record(d: Seq<u8>) -> bool {
    d.len() >= 8 && d.len() >= spec_rec_size(d)
}

/// The record starting at the head of `d`, assuming it is complete.
pub open spec fn spec_first_record(d: Seq<u8>) -> RecView
    recommends
        spec_has_complete_record(d),
{
    RecView {
        timestamp_ms: spec_le32(d[0], d[1], d[2], d[3]),
        dict_offset: spec_dict_offset(spec_head_packed(d)),
        args: spec_args_at(d, 8, spec_arg_count(spec_head_packed(d))),
    }
}

/// All complete records of `d`, in order, parsed greedily from the front.
pub open spec fn spec_records(d: Seq<u8>) -> Seq<RecView>
    decreases d.len(),
{
    if spec_has_complete_record(d) {
        seq![spec_first_record(d)] + spec_records(d.skip(spec_rec_size(d)))
    } else {
        Seq::empty()
    }
}

/// How many bytes the complete records of `d` occupy.
pub open spec fn spec_consumed(d: Seq<u8>) -> int
    decreases d.len(),
{
    if spec_has_complete_record(d) {
        spec_rec_size(d) + spec_consumed(d.skip(spec_rec_size(d)))
    } else {
        0
    }
}

/// The unparsed tail of `d`: what follows its complete records.
pub open spec fn spec_remainder(d: Seq<u8>) -> Seq<u8> {
    d.skip(spec_consumed(d))
}

/// The consumed prefix lies within the data.
pub proof fn lemma_consumed_bounds(d: Seq<u8>)
    ensures
        0 <= spec_consumed(d) <= d.len(),
    decreases d.len(),
{
    if spec_has_complete_record(d) {
        lemma_consumed_bounds(d.skip(spec_rec_size(d)));
    }
}

/// The remainder never holds a complete record.
pub proof fn lemma_remainder_incomplete(d: Seq<u8>)
    ensures
        !spec_has_complete_record(spec_remainder(d)),
        spec_records(spec_remainder(d)) == Seq::<RecView>::empty(),
        spec_remainder(spec_remainder(d)) == spec_remainder(d),
    decreases d.len(),
{
    lemma_consumed_bounds(d);
    if spec_has_complete_record(d) {
        let k = spec_rec_size(d);
        lemma_consumed_bounds(d.skip(k));
        lemma_remainder_incomplete(d.skip(k));
        assert(d.skip(k).skip(spec_consumed(d.skip(k))) =~= d.skip(spec_consumed(d)));
    } else {
        assert(d.skip(0) =~= d);
    }
}

/// Argument words depend only on the bytes they occupy.
proof fn lemma_args_agree(d1: Seq<u8>, d2: Seq<u8>, i: int, n: int)
    requires
        0 <= i,
        0 <= n,
        i + 4 * n <= d1.len(),
        i + 4 * n <= d2.len(),
        forall|j: int| 0 <= j < i + 4 * n ==> d1[j] == d2[j],
    ensures
        spec_args_at(d1, i, n) == spec_args_at(d2, i, n),
    decreases n,
{
    if n > 0 {
        lemma_args_agree(d1, d2, i + 4, n - 1);
    }
}

/// Appending bytes after a complete record leaves that record as it is.
proof fn lemma_first_record_agree(x: Seq<u8>, y: Seq<u8>)
    requires
        spec_has_complete_record(x),
    ensures
        spec_has_complete_record(x + y),
        spec_rec_size(x + y) == spec_rec_size(x),
        spec_first_record(x + y) == spec_first_record(x),
    decreases y.len(),
{
    let d = x + y;
    assert(d[0] == x[0] && d[1] == x[1] && d[2] == x[2] && d[3] == x[3]);
    assert(d[4] == x[4] && d[5] == x[5] && d[6] == x[6] && d[7] == x[7]);
    let n = spec_arg_count(spec_head_packed(x));
    assert(0 <= n <= 15) by {
        assert(spec_head_packed(x) as int / 0x10000000 <= 15);
    }
    lemma_args_agree(x, d, 8, n);
}

/// Parsing is compositional: the records of `x + y` are the records of `x`
/// followed by the records of `x`'s remainder joined with `y`, and the final
/// remainder agrees.  This is what makes chunked streaming sound.
pub proof fn lemma_records_append(x: Seq<u8>, y: Seq<u8>)
    ensures
        spec_records(x + y) == spec_records(x) + spec_records(spec_remainder(x) + y),
        spec_remainder(x + y) == spec_remainder(spec_remainder(x) + y),
    decreases x.len(),
{
    lemma_consumed_bounds(x);
    if spec_has_complete_record(x) {
        let k = spec_rec_size(x);
        lemma_first_record_agree(x, y);
        assert((x + y).skip(k) =~= x.skip(k) + y);
        lemma_records_append(x.skip(k), y);
        lemma_consumed_bounds(x.skip(k));
        assert(spec_consumed(x) == k + spec_consumed(x.skip(k)));
        assert(spec_remainder(x) =~= x.skip(k).skip(spec_consumed(x.skip(k))));
        assert(spec_remainder(x) == spec_remainder(x.skip(k)));
        assert(spec_records(x + y) =~= spec_records(x) + spec_records(spec_remainder(x) + y));
        // remainder of x + y: consumed(x + y) advances through the first record
        assert(spec_consumed(x + y) == k + spec_consumed((x + y).skip(k)));
        lemma_consumed_bounds((x + y).skip(k));
        assert(spec_remainder(x + y) =~= (x + y).skip(k).skip(spec_consumed((x + y).skip(k))));
        assert(spec_remainder(x + y) == spec_remainder((x + y).skip(k)));
    } else {
        assert(x.skip(0) =~= x);
        assert(spec_remainder(x) + y =~= x + y);
        assert(spec_records(x) + spec_records(x + y) =~= spec_records(x + y));
    }
}

/// The concatenation of a sequence of chunks.
pub open spec fn spec_flatten(chunks: Seq<Seq<u8>>) -> Seq<u8>
    decreases chunks.len(),
{
    if chunks.len() == 0 {
        Seq::empty()
    } else {
        chunks.first() + spec_flatten(chunks.drop_first())
    }
}

/// The records produced by feeding `chunks` one at a time into a parser that
/// carries the unparsed remainder `rem` forward between chunks.
pub open spec fn spec_stream_records(rem: Seq<u8>, chunks: Seq<Seq<u8>>) -> Seq<RecView>
    decreases chunks.len(),
{
    if chunks.len() == 0 {
        Seq::empty()
    } else {
        spec_records(rem + chunks.first()) + spec_stream_records(
            spec_remainder(rem + chunks.first()),
            chunks.drop_first(),
        )
    }
}

/// The remainder left after feeding `chunks` one at a time.
pub open spec fn spec_stream_remainder(rem: Seq<u8>, chunks: Seq<Seq<u8>>) -> Seq<u8>
    decreases chunks.len(),
{
    if chunks.len() == 0 {
        rem
    } else {
        spec_stream_remainder(spec_remainder(rem + chunks.first()), chunks.drop_first())
    }
}

proof fn lemma_stream_records_general(rem: Seq<u8>, chunks: Seq<Seq<u8>>)
    requires
        !spec_has_complete_record(rem),
    ensures
        spec_stream_records(rem, chunks) == spec_records(rem + spec_flatten(chunks)),
        spec_stream_remainder(rem, chunks) == spec_remainder(rem + spec_flatten(chunks)),
    decreases chunks.len(),
{
    if chunks.len() == 0 {
        assert(rem + spec_flatten(chunks) =~= rem);
        assert(spec_records(rem) =~= Seq::<RecView>::empty());
        assert(spec_consumed(rem) == 0);
        assert(spec_remainder(rem) =~= rem);
        assert(spec_stream_records(rem, chunks) =~= spec_records(rem + spec_flatten(chunks)));
    } else {
        let c = chunks.first();
        let rest = chunks.drop_first();
        let rem2 = spec_remainder(rem + c);
        lemma_remainder_incomplete(rem + c);
        lemma_stream_records_general(rem2, rest);
        lemma_records_append(rem + c, spec_flatten(rest));
        assert(rem + spec_flatten(chunks) =~= (rem + c) + spec_flatten(rest));
    }
}

/// Splitting the input into chunks and carrying the unparsed remainder
/// forward between chunks yields exactly the records, and the trailing
/// remainder, of parsing the whole input at once.
pub proof fn lemma_streaming_matches_buffered(chunks: Seq<Seq<u8>>)
    ensures
        spec_stream_records(Seq::empty(), chunks) == spec_records(spec_flatten(chunks)),
        spec_stream_remainder(Seq::empty(), chunks) == spec_remainder(spec_flatten(chunks)),
{
    lemma_stream_records_general(Seq::empty(), chunks);
    assert(Seq::empty() + spec_flatten(chunks) =~= spec_flatten(chunks));
}

/// Reads the `u32` stored little-endian at `data[i..i + 4]`.
pub fn read_le32(data: &[u8], i: usize) -> (r: u32)
    requires
        i + 4 <= data@.len(),
    ensures
        r == spec_le32(data@[i as int], data@[i + 1], data@[i + 2], data@[i + 3]),
{
    data[i] as u32 + data[i + 1] as u32 * 0x100 + data[i + 2] as u32 * 0x10000 + data[i + 3] as u32
        * 0x1000000
}

/// Parses every complete record of `data` and returns them together with the
/// unparsed trailing bytes.
pub fn parse_records(data: &[u8]) -> (r: (Vec<BinaryLogEntry>, Vec<u8>))
    ensures
        spec_views_of(r.0@) == spec_records(data@),
        r.1@ == spec_remainder(data@),
{
    let n = data.len();
    let mut entries: Vec<BinaryLogEntry> = Vec::new();
    let mut offset: usize = 0;
    proof {
        assert(data@.skip(0) =~= data@);
        assert(spec_views_of(entries@) =~= Seq::<RecView>::empty());
    }
    loop
        invariant
            0 <= offset <= n,
            n == data@.len(),
            spec_records(data@) =~= spec_views_of(entries@) + spec_records(data@.skip(offset as int)),
            spec_remainder(data@) == spec_remainder(data@.skip(offset as int)),
        ensures
            0 <= offset <= n,
            !spec_has_complete_record(data@.skip(offset as int)),
        decreases n - offset,
    {
        let ghost tail = data@.skip(offset as int);
        let avail = n - offset;
        if avail < 8 {
            proof {
                assert(!spec_has_complete_record(tail));
            }
            break;
        }
        let timestamp_ms = read_le32(data, offset);
        let packed = read_le32(data, offset + 4);
        let num_args: u32 = packed / 0x10000000;
        let log_offset: u32 = packed % 0x10000000;
        proof {
            assert(tail[0] == data@[offset as int] && tail[1] == data@[offset + 1] && tail[2]
                == data@[offset + 2] && tail[3] == data@[offset + 3]);
            assert(tail[4] == data@[offset + 4] && tail[5] == data@[offset + 5] && tail[6]
                == data@[offset + 6] && tail[7] == data@[offset + 7]);
            assert(spec_head_packed(tail) == packed);
            assert(num_args <= 15);
        }
        let need: usize = 8 + 4 * (num_args as usize);
        if need > avail {
            proof {
                assert(spec_rec_size(tail) == need);
                assert(!spec_has_complete_record(tail));
            }
            break;
        }
        let mut arguments: Vec<u32> = Vec::new();
        proof {
            assert(arguments@ =~= spec_args_at(data@, offset + 8, 0));
        }
        let mut j: usize = 0;
        while j < num_args as usize
            invariant
                0 <= j <= num_args,
                num_args <= 15,
                offset + 8 + 4 * (num_args as int) <= n,
                n == data@.len(),
                arguments@ =~= spec_args_at(data@, offset + 8, j as int),
            decreases num_args - j,
        {
            proof {
                lemma_args_snoc(data@, offset + 8, j as int);
            }
            arguments.push(read_le32(data, offset + 8 + 4 * j));
            j += 1;
        }
        proof {
            lemma_args_agree_skip(data@, offset as int, num_args as int);
            assert(spec_has_complete_record(tail));
            assert(spec_first_record(tail) == RecView {
                timestamp_ms,
                dict_offset: log_offset,
                args: arguments@,
            });
        }
        let ghost entries0 = entries@;
        let entry = BinaryLogEntry { timestamp_ms, log_id: log_offset, arguments };
        let ghost entry_v = entry@;
        entries.push(entry);
        offset = offset + need;
        proof {
            let k = spec_rec_size(tail);
            assert(k == need);
            assert(tail.skip(k) =~= data@.skip(offset as int));
            assert(spec_views_of(entries@) =~= spec_views_of(entries0) + seq![entry_v]);
            assert(spec_records(tail) == seq![spec_first_record(tail)] + spec_records(tail.skip(k)));
            assert(spec_records(data@) =~= spec_views_of(entries@) + spec_records(
                data@.skip(offset as int),
            ));
            assert(spec_consumed(tail) == k + spec_consumed(tail.skip(k)));
            lemma_consumed_bounds(tail.skip(k));
            assert(tail.skip(spec_consumed(tail)) =~= tail.skip(k).skip(spec_consumed(tail.skip(k))));
            assert(spec_remainder(tail) == spec_remainder(data@.skip(offset as int)));
        }
    }
    let rest = crate::text::sub_vec(data, offset, n);
    proof {
        let tail = data@.skip(offset as int);
        assert(spec_records(tail) =~= Seq::<RecView>::empty());
        assert(spec_views_of(entries@) + Seq::<RecView>::empty() =~= spec_views_of(entries@));
        assert(spec_consumed(tail) == 0);
        assert(tail.skip(0) =~= tail);
        assert(rest@ =~= tail);
    }
    (entries, rest)
}

/// One more argument word extends the argument sequence by one.
proof fn lemma_args_snoc(d: Seq<u8>, i: int, j: int)
    requires
        0 <= i,
        0 <= j,
        i + 4 * j + 4 <= d.len(),
    ensures
        spec_args_at(d, i, j + 1) == spec_args_at(d, i, j) + seq![
            spec_le32(d[i + 4 * j], d[i + 4 * j + 1], d[i + 4 * j + 2], d[i + 4 * j + 3]),
        ],
    decreases j,
{
    if j > 0 {
        lemma_args_snoc(d, i + 4, j - 1);
        assert(spec_args_at(d, i, j + 1) =~= spec_args_at(d, i, j) + seq![
            spec_le32(d[i + 4 * j], d[i + 4 * j + 1], d[i + 4 * j + 2], d[i + 4 * j + 3]),
        ]);
    } else {
        assert(spec_args_at(d, i + 4, 0) =~= Seq::<u32>::empty());
        assert(spec_args_at(d, i, 0) =~= Seq::<u32>::empty());
        assert(spec_args_at(d, i, 1) =~= seq![spec_le32(d[i], d[i + 1], d[i + 2], d[i + 3])]);
    }
}

/// The arguments of the record at `offset` read the same from the whole
/// buffer as from the tail that starts at `offset`.
proof fn lemma_args_agree_skip(d: Seq<u8>, offset: int, n: int)
    requires
        0 <= offset,
        0 <= n,
        offset + 8 + 4 * n <= d.len(),
    ensures
        spec_args_at(d.skip(offset), 8, n) == spec_args_at(d, offset + 8, n),
    decreases n,
{
    lemma_args_shift(d, offset, 8, n);
}

proof fn lemma_args_shift(d: Seq<u8>, offset: int, i: int, n: int)
    requires
        0 <= offset,
        8 <= i,
        0 <= n,
        offset + i + 4 * n <= d.len(),
    ensures
        spec_args_at(d.skip(offset), i, n) == spec_args_at(d, offset + i, n),
    decreases n,
{
    if n > 0 {
        lemma_args_shift(d, offset, i + 4, n - 1);
    }
}

} // verus!
