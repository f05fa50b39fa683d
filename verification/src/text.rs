//! Byte-string utilities: whitespace trimming, substring search, splitting,
//! and the one conversion from raw bytes to `String`.

use vstd::prelude::*;

verus! {

/// A name for what `String::from_utf8_lossy` returns on arbitrary bytes.
pub uninterp spec fn lossy_of(s: Seq<u8>) -> Seq<char>;

/// Relies on `String::from_utf8_lossy`: the result is a function of the bytes
/// alone, and on valid UTF-8 input it is exactly their decoding.
#[verifier::external_body]
pub fn bytes_to_string(v: &Vec<u8>) -> (r: String)
    ensures
        r@ == lossy_of(v@),
        vstd::utf8::valid_utf8(v@) ==> r@ == vstd::utf8::decode_utf8(v@),
{
    String::from_utf8_lossy(v).into_owned()
}

/// Whether every byte of `s` is ASCII.
pub open spec fn spec_is_ascii_bytes(s: Seq<u8>) -> bool {
    forall|i: int| 0 <= i < s.len() ==> #[trigger] s[i] < 128
}

/// The characters that a sequence of ASCII bytes stands for.
pub open spec fn spec_ascii_chars(s: Seq<u8>) -> Seq<char> {
    s.map(|i: int, b: u8| b as char)
}

/// ASCII bytes are valid UTF-8 and decode to their own characters.
pub proof fn lemma_ascii_decode(s: Seq<u8>)
    requires
        spec_is_ascii_bytes(s),
    ensures
        vstd::utf8::valid_utf8(s),
        vstd::utf8::decode_utf8(s) == spec_ascii_chars(s),
    decreases s.len(),
{
    if s.len() > 0 {
        let b = s[0];
        assert(b < 128);
        assert(b & 0x7F == b) by (bit_vector)
            requires
                b < 128,
        ;
        assert(vstd::utf8::is_leading_byte_width_1(b));
        assert(vstd::utf8::decode_first_codepoint(s) == b as u32);
        assert(vstd::utf8::length_of_first_codepoint(s) == 1);
        assert(vstd::utf8::valid_first_scalar(s));
        assert(vstd::utf8::pop_first_scalar(s) =~= s.drop_first());
        lemma_ascii_decode(s.drop_first());
        assert(vstd::utf8::valid_utf8(s));
        assert((b as u32) as char == b as char);
        assert(vstd::utf8::decode_utf8(s) =~= spec_ascii_chars(s));
    } else {
        assert(vstd::utf8::decode_utf8(s) =~= spec_ascii_chars(s));
    }
}

/// Converts ASCII bytes to the `String` of exactly those characters.
pub fn ascii_to_string(v: &Vec<u8>) -> (r: String)
    requires
        spec_is_ascii_bytes(v@),
    ensures
        r@ == spec_ascii_chars(v@),
{
    proof {
        lemma_ascii_decode(v@);
    }
    bytes_to_string(v)
}

/// Whether `b` is one of the ASCII whitespace characters that Rust's
/// `str::trim` removes.
pub open spec fn spec_is_ws(b: u8) -> bool {
    b == 32 || b == 9 || b == 10 || b == 11 || b == 12 || b == 13
}

/// `s` with leading whitespace removed.
pub open spec fn spec_trim_start(s: Seq<u8>) -> Seq<u8>
    decreases s.len(),
{
    if s.len() > 0 && spec_is_ws(s[0]) {
        spec_trim_start(s.drop_first())
    } else {
        s
    }
}

/// `s` with trailing whitespace removed.
pub open spec fn spec_trim_end(s: Seq<u8>) -> Seq<u8>
    decreases s.len(),
{
    if s.len() > 0 && spec_is_ws(s.last()) {
        spec_trim_end(s.drop_last())
    } else {
        s
    }
}

/// `s` with leading and trailing whitespace removed.
pub open spec fn spec_trim(s: Seq<u8>) -> Seq<u8> {
    spec_trim_end(spec_trim_start(s))
}

/// Whether `b` is ASCII whitespace.
pub fn is_ws_byte(b: u8) -> (r: bool)
    ensures
        r == spec_is_ws(b),
{
    b == 32 || b == 9 || b == 10 || b == 11 || b == 12 || b == 13
}

/// Dropping a whitespace prefix does not change the trimmed string.
proof fn lemma_trim_start_skip(s: Seq<u8>, i: int)
    requires
        0 <= i <= s.len(),
        forall|j: int| 0 <= j < i ==> spec_is_ws(#[trigger] s[j]),
    ensures
        spec_trim_start(s) == spec_trim_start(s.skip(i)),
    decreases i,
{
    if i > 0 {
        assert(spec_is_ws(s[0]));
        assert(s.drop_first() =~= s.skip(1));
        assert forall|j: int| 0 <= j < i - 1 implies spec_is_ws(#[trigger] s.skip(1)[j]) by {
            assert(s.skip(1)[j] == s[j + 1]);
        }
        lemma_trim_start_skip(s.skip(1), i - 1);
        assert(s.skip(1).skip(i - 1) =~= s.skip(i));
    } else {
        assert(s.skip(0) =~= s);
    }
}

proof fn lemma_trim_end_take(s: Seq<u8>, i: int)
    requires
        0 <= i <= s.len(),
        forall|j: int| i <= j < s.len() ==> spec_is_ws(#[trigger] s[j]),
    ensures
        spec_trim_end(s) == spec_trim_end(s.take(i)),
    decreases s.len() - i,
{
    if i < s.len() {
        assert(s.take(s.len() as int) =~= s);
        assert(s.drop_last() =~= s.take(s.len() - 1));
        lemma_trim_end_take(s.take(s.len() - 1), i);
        assert(s.take(s.len() - 1).take(i) =~= s.take(i));
    } else {
        assert(s.take(i) =~= s);
    }
}

/// Removes leading and trailing ASCII whitespace, as `str::trim` does.
pub fn trim_bytes(s: &[u8]) -> (r: Vec<u8>)
    ensures
        r@ == spec_trim(s@),
{
    let mut lo: usize = 0;
    while lo < s.len() && is_ws_byte(s[lo])
        invariant
            0 <= lo <= s@.len(),
            forall|j: int| 0 <= j < lo ==> spec_is_ws(#[trigger] s@[j]),
        decreases s@.len() - lo,
    {
        lo += 1;
    }
    proof {
        lemma_trim_start_skip(s@, lo as int);
    }
    let mut hi: usize = s.len();
    while hi > lo && is_ws_byte(s[hi - 1])
        invariant
            lo <= hi <= s@.len(),
            forall|j: int| 0 <= j < lo ==> spec_is_ws(#[trigger] s@[j]),
            forall|j: int| hi <= j < s@.len() ==> spec_is_ws(#[trigger] s@[j]),
        decreases hi,
    {
        hi -= 1;
    }
    let mut out: Vec<u8> = Vec::new();
    let mut i: usize = lo;
    while i < hi
        invariant
            lo <= i <= hi <= s@.len(),
            out@ =~= s@.subrange(lo as int, i as int),
        decreases hi - i,
    {
        out.push(s[i]);
        i += 1;
    }
    proof {
        let t = s@.skip(lo as int);
        lemma_trim_end_take(t, hi - lo);
        if hi > lo {
            assert(!spec_is_ws(t.take(hi - lo).last()));
        }
        assert(spec_trim_end(t.take(hi - lo)) =~= t.take(hi - lo));
        assert(out@ =~= t.take(hi - lo));
    }
    out
}

/// The index of the first occurrence of `b` in `s` at or after `from`,
/// or `s.len()` if there is none.
pub open spec fn spec_find_byte(s: Seq<u8>, b: u8, from: int) -> int
    decreases s.len() - from,
{
    if from < 0 || from >= s.len() {
        s.len() as int
    } else if s[from] == b {
        from
    } else {
        spec_find_byte(s, b, from + 1)
    }
}

/// What `spec_find_byte` returns: the first match, within bounds.
pub proof fn lemma_find_byte(s: Seq<u8>, b: u8, from: int)
    requires
        0 <= from <= s.len(),
    ensures
        from <= spec_find_byte(s, b, from) <= s.len(),
        spec_find_byte(s, b, from) < s.len() ==> s[spec_find_byte(s, b, from)] == b,
        forall|j: int| from <= j < spec_find_byte(s, b, from) ==> s[j] != b,
    decreases s.len() - from,
{
    if from < s.len() && s[from] != b {
        lemma_find_byte(s, b, from + 1);
    }
}

/// Finds the first occurrence of `b` in `s` at or after `from`.
pub fn find_byte(s: &[u8], b: u8, from: usize) -> (r: usize)
    requires
        from <= s@.len(),
    ensures
        r == spec_find_byte(s@, b, from as int),
{
    let n = s.len();
    let mut i: usize = from;
    while i < n && s[i] != b
        invariant
            from <= i <= n,
            n == s@.len(),
            spec_find_byte(s@, b, from as int) == spec_find_byte(s@, b, i as int),
        decreases n - i,
    {
        i += 1;
    }
    i
}

/// `s` split at every occurrence of `sep`, keeping empty segments: the empty
/// string is one empty segment, and a trailing separator yields one more.
pub open spec fn spec_split_all(s: Seq<u8>, sep: u8) -> Seq<Seq<u8>>
    decreases s.len(),
    when true
    via spec_split_all_decreases
{
    let e = spec_find_byte(s, sep, 0);
    if e >= s.len() {
        seq![s]
    } else {
        seq![s.take(e)] + spec_split_all(s.skip(e + 1), sep)
    }
}

#[via_fn]
proof fn spec_split_all_decreases(s: Seq<u8>, sep: u8) {
    lemma_find_byte(s, sep, 0);
}

/// Splits `s` at every occurrence of `sep`, keeping empty segments.
pub fn split_all(s: &[u8], sep: u8) -> (r: Vec<Vec<u8>>)
    ensures
        r@.map_values(|v: Vec<u8>| v@) == spec_split_all(s@, sep),
{
    let n = s.len();
    let mut out: Vec<Vec<u8>> = Vec::new();
    let mut p: usize = 0;
    let mut done = false;
    proof {
        assert(s@.skip(0) =~= s@);
        assert(out@.map_values(|v: Vec<u8>| v@) =~= Seq::<Seq<u8>>::empty());
    }
    while !done
        invariant
            0 <= p <= n,
            n == s@.len(),
            !done ==> spec_split_all(s@, sep) == out@.map_values(|v: Vec<u8>| v@) + spec_split_all(
                s@.skip(p as int),
                sep,
            ),
            done ==> spec_split_all(s@, sep) == out@.map_values(|v: Vec<u8>| v@),
        decreases n + 1 - p + (if done {
            0int
        } else {
            1int
        }),
    {
        let ghost tail = s@.skip(p as int);
        let ghost before = out@;
        let e = find_byte(s, sep, p);
        proof {
            lemma_find_byte(s@, sep, p as int);
            assert forall|j: int| 0 <= j < tail.len() implies tail[j] == s@[p + j] by {}
            lemma_find_byte_shift_any(s@, sep, p as int);
        }
        if e >= n {
            let piece = sub_vec(s, p, n);
            out.push(piece);
            proof {
                assert(spec_find_byte(tail, sep, 0) >= tail.len());
                assert(spec_split_all(tail, sep) == seq![tail]);
                assert(piece@ =~= tail);
                assert(out@.map_values(|v: Vec<u8>| v@) =~= before.map_values(|v: Vec<u8>| v@)
                    + seq![tail]);
            }
            done = true;
        } else {
            let piece = sub_vec(s, p, e);
            out.push(piece);
            proof {
                let e0 = e - p;
                assert(spec_find_byte(tail, sep, 0) == e0);
                assert(e0 < tail.len());
                assert(spec_split_all(tail, sep) == seq![tail.take(e0)] + spec_split_all(
                    tail.skip(e0 + 1),
                    sep,
                ));
                assert(piece@ =~= tail.take(e0));
                assert(tail.skip(e0 + 1) =~= s@.skip(e + 1));
                assert(out@.map_values(|v: Vec<u8>| v@) =~= before.map_values(|v: Vec<u8>| v@)
                    + seq![tail.take(e0)]);
            }
            p = e + 1;
        }
    }
    out
}

/// Finding a byte in the tail starting at `p` is finding it from `p`.
pub proof fn lemma_find_byte_shift_any(s: Seq<u8>, b: u8, p: int)
    requires
        0 <= p <= s.len(),
    ensures
        spec_find_byte(s.skip(p), b, 0) == spec_find_byte(s, b, p) - p,
{
    lemma_find_byte(s, b, p);
    let e = spec_find_byte(s, b, p);
    let tail = s.skip(p);
    lemma_find_byte(tail, b, 0);
    if e < s.len() {
        assert(tail[e - p] == b);
        assert forall|j: int| 0 <= j < e - p implies tail[j] != b by {
            assert(tail[j] == s[p + j]);
        }
        lemma_find_byte_first(tail, b, 0, e - p);
    } else {
        assert forall|j: int| 0 <= j < tail.len() implies tail[j] != b by {
            assert(tail[j] == s[p + j]);
        }
        let e2 = spec_find_byte(tail, b, 0);
        if e2 < tail.len() {
            assert(tail[e2] == b);
        }
    }
}

/// A byte at `i` with no earlier occurrence from `from` is found at `i`.
pub proof fn lemma_find_byte_first(s: Seq<u8>, b: u8, from: int, i: int)
    requires
        0 <= from <= i < s.len(),
        s[i] == b,
        forall|j: int| from <= j < i ==> s[j] != b,
    ensures
        spec_find_byte(s, b, from) == i,
    decreases i - from,
{
    if from < i {
        lemma_find_byte_first(s, b, from + 1, i);
    }
}

/// Whether `pat` occurs in `s` starting at position `i`.
pub open spec fn spec_match_at(s: Seq<u8>, pat: Seq<u8>, i: int) -> bool {
    0 <= i && i + pat.len() <= s.len() && s.subrange(i, i + pat.len()) == pat
}

/// Whether `pat` occurs anywhere in `s`.
pub open spec fn spec_contains(s: Seq<u8>, pat: Seq<u8>) -> bool {
    exists|i: int| spec_match_at(s, pat, i)
}

/// Whether `pat` occurs in `s` at position `i`.
pub fn match_at(s: &[u8], pat: &[u8], i: usize) -> (r: bool)
    requires
        i + pat@.len() <= s@.len(),
    ensures
        r == spec_match_at(s@, pat@, i as int),
{
    let n = s.len();
    let m = pat.len();
    let mut j: usize = 0;
    while j < m
        invariant
            0 <= j <= m,
            m == pat@.len(),
            n == s@.len(),
            i + m <= n,
            forall|k: int| 0 <= k < j ==> s@[i + k] == #[trigger] pat@[k],
        decreases m - j,
    {
        if s[i + j] != pat[j] {
            proof {
                assert(s@.subrange(i as int, i + pat@.len())[j as int] != pat@[j as int]);
            }
            return false;
        }
        j += 1;
    }
    proof {
        assert(s@.subrange(i as int, i + pat@.len()) =~= pat@);
    }
    true
}

/// Finds the first occurrence of `pat` in `s`.
pub fn find_sub(s: &[u8], pat: &[u8]) -> (r: Option<usize>)
    ensures
        match r {
            Some(i) => spec_match_at(s@, pat@, i as int) && forall|j: int|
                0 <= j < i ==> !spec_match_at(s@, pat@, j),
            None => !spec_contains(s@, pat@),
        },
{
    let n = s.len();
    let m = pat.len();
    if m > n {
        return None;
    }
    if m == 0 {
        proof {
            assert(s@.subrange(0, 0) =~= pat@);
        }
        return Some(0);
    }
    let mut i: usize = 0;
    while i <= n - m
        invariant
            0 < m <= n,
            n == s@.len(),
            m == pat@.len(),
            0 <= i <= n - m + 1,
            forall|j: int| 0 <= j < i ==> !spec_match_at(s@, pat@, j),
        decreases n - i,
    {
        if match_at(s, pat, i) {
            return Some(i);
        }
        i += 1;
    }
    proof {
        assert forall|j: int| !spec_match_at(s@, pat@, j) by {
            if 0 <= j < i {
            } else if j > n - m {
                assert(j + pat@.len() > s@.len() || j < 0);
            }
        }
    }
    None
}

/// Whether `pat` occurs anywhere in `s`.
pub fn contains_sub(s: &[u8], pat: &[u8]) -> (r: bool)
    ensures
        r == spec_contains(s@, pat@),
{
    match find_sub(s, pat) {
        Some(_) => true,
        None => false,
    }
}

/// Whether `s` starts with `pat`.
pub fn starts_with(s: &[u8], pat: &[u8]) -> (r: bool)
    ensures
        r == spec_match_at(s@, pat@, 0),
{
    if pat.len() > s.len() {
        return false;
    }
    match_at(s, pat, 0)
}

/// Copies `s[from..to]` into a fresh vector.
pub fn sub_vec(s: &[u8], from: usize, to: usize) -> (r: Vec<u8>)
    requires
        0 <= from <= to <= s@.len(),
    ensures
        r@ == s@.subrange(from as int, to as int),
{
    let mut out: Vec<u8> = Vec::new();
    let mut i: usize = from;
    while i < to
        invariant
            from <= i <= to <= s@.len(),
            out@ =~= s@.subrange(from as int, i as int),
        decreases to - i,
    {
        out.push(s[i]);
        i += 1;
    }
    out
}

/// Appends all of `src` to `out`.
pub fn push_all(out: &mut Vec<u8>, src: &[u8])
    ensures
        final(out)@ == old(out)@ + src@,
{
    let mut i: usize = 0;
    while i < src.len()
        invariant
            0 <= i <= src@.len(),
            out@ =~= old(out)@ + src@.take(i as int),
        decreases src@.len() - i,
    {
        out.push(src[i]);
        i += 1;
    }
    proof {
        assert(src@.take(src@.len() as int) =~= src@);
    }
}

} // verus!
