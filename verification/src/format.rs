//! Substitution of record arguments into printf-style message templates.
//!
//! The template is scanned left to right; each placeholder consumes one
//! argument from the front of the remaining argument sequence.  A literal
//! `0x` followed by two or more adjacent `%x` placeholders is one logical
//! multi-byte value: each `%x` of the run consumes one argument but renders
//! only its low byte, as two hex digits under the single leading `0x`.
//! Double quotes are stripped from the final rendered text.

use crate::num::{push_dec_u64, push_hex_u32, push_hex_byte2, spec_dec_bytes, spec_hex_byte2, spec_hex_bytes};
use crate::text::push_all;
use vstd::prelude::*;
use vstd::string::{StrSliceExecFns, StringSliceAdditionalSpecFns};

verus! {

/// The bytes of the `<missing>` marker, rendered when arguments run out.
pub open spec fn spec_missing() -> Seq<u8> {
    seq![60u8, 109, 105, 115, 115, 105, 110, 103, 62]
}

/// The bytes of the `<string>` marker: string payloads never cross the wire.
pub open spec fn spec_string_marker() -> Seq<u8> {
    seq![60u8, 115, 116, 114, 105, 110, 103, 62]
}

/// Appends `<missing>` to `out`.
fn push_missing(out: &mut Vec<u8>)
    ensures
        final(out)@ == old(out)@ + spec_missing(),
{
    out.push(60);
    out.push(109);
    out.push(105);
    out.push(115);
    out.push(115);
    out.push(105);
    out.push(110);
    out.push(103);
    out.push(62);
    proof {
        assert(out@ =~= old(out)@ + spec_missing());
    }
}

/// Appends `<string>` to `out`.
fn push_string_marker(out: &mut Vec<u8>)
    ensures
        final(out)@ == old(out)@ + spec_string_marker(),
{
    out.push(60);
    out.push(115);
    out.push(116);
    out.push(114);
    out.push(105);
    out.push(110);
    out.push(103);
    out.push(62);
    proof {
        assert(out@ =~= old(out)@ + spec_string_marker());
    }
}

/// Whether `b` is one of the conversions `d`, `u`, `x`.
pub open spec fn spec_is_conv(b: u8) -> bool {
    b == 100 || b == 117 || b == 120
}

/// The placeholder at the head of `t`: its conversion byte and its length.
/// Recognized: `%s`, and `%`, optionally `l` or `ll`, then `d`, `u` or `x`.
pub open spec fn spec_placeholder(t: Seq<u8>) -> Option<(u8, int)> {
    if t.len() >= 2 && t[0] == 37 {
        if t[1] == 115 {
            Some((115u8, 2int))
        } else if spec_is_conv(t[1]) {
            Some((t[1], 2int))
        } else if t[1] == 108 {
            if t.len() >= 3 && spec_is_conv(t[2]) {
                Some((t[2], 3int))
            } else if t.len() >= 4 && t[2] == 108 && spec_is_conv(t[3]) {
                Some((t[3], 4int))
            } else {
                None
            }
        } else {
            None
        }
    } else {
        None
    }
}

/// How many adjacent `%x` placeholders stand at the head of `t`.
pub open spec fn spec_hex_run(t: Seq<u8>) -> int
    decreases t.len(),
{
    if t.len() >= 2 && t[0] == 37 && t[1] == 120 {
        1 + spec_hex_run(t.skip(2))
    } else {
        0
    }
}

/// A run of `k` `%x` placeholders covers `2 * k` bytes of the template.
pub proof fn lemma_hex_run_bounds(t: Seq<u8>)
    ensures
        0 <= 2 * spec_hex_run(t) <= t.len(),
    decreases t.len(),
{
    if t.len() >= 2 && t[0] == 37 && t[1] == 120 {
        lemma_hex_run_bounds(t.skip(2));
    }
}

/// What one placeholder renders when an argument is available.
pub open spec fn spec_render(conv: u8, arg: u32) -> Seq<u8> {
    if conv == 120 {
        seq![48u8, 120u8] + spec_hex_bytes(arg as nat)
    } else if conv == 115 {
        spec_string_marker()
    } else {
        spec_dec_bytes(arg as nat)
    }
}

/// The low bytes of the first `k` arguments, each as two hex digits.
pub open spec fn spec_hex_run_bytes(args: Seq<u32>, k: int) -> Seq<u8>
    decreases k,
{
    if k <= 0 {
        Seq::empty()
    } else {
        spec_hex_run_bytes(args, k - 1) + spec_hex_byte2((args[k - 1] as nat % 256) as u8)
    }
}

/// The rendered template before quote stripping: scanned left to right, each
/// placeholder consuming one argument from the front; a `0x` followed by two
/// or more `%x` renders as one merged hex value; a run or placeholder with no
/// argument left renders `<missing>` (a starved run consumes nothing).
pub open spec fn spec_scan(t: Seq<u8>, args: Seq<u32>) -> Seq<u8>
    decreases t.len(),
    when true
    via spec_scan_decreases
{
    if t.len() == 0 {
        Seq::empty()
    } else if t.len() >= 2 && t[0] == 48 && t[1] == 120 && spec_hex_run(t.skip(2)) >= 2 {
        let k = spec_hex_run(t.skip(2));
        if args.len() >= k {
            seq![48u8, 120u8] + spec_hex_run_bytes(args, k) + spec_scan(
                t.skip(2 + 2 * k),
                args.skip(k),
            )
        } else {
            spec_missing() + spec_scan(t.skip(2 + 2 * k), args)
        }
    } else {
        match spec_placeholder(t) {
            Some((conv, w)) => if args.len() > 0 {
                spec_render(conv, args[0]) + spec_scan(t.skip(w), args.drop_first())
            } else {
                spec_missing() + spec_scan(t.skip(w), args)
            },
            None => seq![t[0]] + spec_scan(t.skip(1), args),
        }
    }
}

#[via_fn]
proof fn spec_scan_decreases(t: Seq<u8>, args: Seq<u32>) {
    if t.len() >= 2 && t[0] == 48 && t[1] == 120 && spec_hex_run(t.skip(2)) >= 2 {
        lemma_hex_run_bounds(t.skip(2));
    }
}

/// `s` with every double-quote byte removed.
pub open spec fn spec_strip_quotes(s: Seq<u8>) -> Seq<u8>
    decreases s.len(),
{
    if s.len() == 0 {
        Seq::empty()
    } else {
        spec_strip_quotes(s.drop_last()) + (if s.last() == 34 {
            Seq::<u8>::empty()
        } else {
            seq![s.last()]
        })
    }
}

/// The fully rendered message for a template and its arguments.
pub open spec fn spec_format_bytes(t: Seq<u8>, args: Seq<u32>) -> Seq<u8> {
    spec_strip_quotes(spec_scan(t, args))
}

/// Removes every double-quote byte of `s`.
pub fn strip_quotes(s: &[u8]) -> (r: Vec<u8>)
    ensures
        r@ == spec_strip_quotes(s@),
{
    let n = s.len();
    let mut out: Vec<u8> = Vec::new();
    let mut i: usize = 0;
    proof {
        assert(s@.take(0) =~= Seq::<u8>::empty());
    }
    while i < n
        invariant
            0 <= i <= n,
            n == s@.len(),
            out@ == spec_strip_quotes(s@.take(i as int)),
        decreases n - i,
    {
        proof {
            assert(s@.take(i + 1).drop_last() =~= s@.take(i as int));
            assert(s@.take(i + 1).last() == s@[i as int]);
        }
        if s[i] != 34 {
            out.push(s[i]);
        }
        i += 1;
    }
    proof {
        assert(s@.take(n as int) =~= s@);
    }
    out
}

/// The placeholder at position `i` of `t`, if any: conversion and width.
fn placeholder_at(t: &[u8], i: usize) -> (r: Option<(u8, usize)>)
    requires
        i < t@.len(),
    ensures
        match r {
            Some(p) => spec_placeholder(t@.skip(i as int)) == Some((p.0, p.1 as int)) && 1 <= p.1
                && i + p.1 <= t@.len(),
            None => spec_placeholder(t@.skip(i as int)) is None,
        },
{
    let n = t.len();
    let ghost tl = t@.skip(i as int);
    proof {
        assert forall|j: int| 0 <= j < tl.len() implies tl[j] == t@[i + j] by {}
    }
    if t[i] != 37 || i + 1 >= n {
        return None;
    }
    let b1 = t[i + 1];
    if b1 == 115 {
        return Some((115, 2));
    }
    if b1 == 100 || b1 == 117 || b1 == 120 {
        return Some((b1, 2));
    }
    if b1 != 108 {
        return None;
    }
    if i + 2 < n {
        let b2 = t[i + 2];
        if b2 == 100 || b2 == 117 || b2 == 120 {
            return Some((b2, 3));
        }
        if b2 == 108 && i + 3 < n {
            let b3 = t[i + 3];
            if b3 == 100 || b3 == 117 || b3 == 120 {
                return Some((b3, 4));
            }
        }
    }
    None
}

/// Counts the adjacent `%x` placeholders starting at position `from`.
fn count_hex_pairs(t: &[u8], from: usize) -> (k: usize)
    requires
        from <= t@.len(),
    ensures
        k as int == spec_hex_run(t@.skip(from as int)),
        from + 2 * k <= t@.len(),
{
    let n = t.len();
    let mut j: usize = 0;
    proof {
        assert(t@.skip(from as int).skip(0) =~= t@.skip(from as int));
    }
    while from + 2 * j < n && from + 2 * j + 1 < n && t[from + 2 * j] == 37 && t[from + 2 * j + 1]
        == 120
        invariant
            0 <= j,
            from + 2 * j <= n,
            n == t@.len(),
            spec_hex_run(t@.skip(from as int)) == j + spec_hex_run(t@.skip(from + 2 * j)),
        decreases n - 2 * j,
    {
        proof {
            let u = t@.skip(from + 2 * j);
            assert(u[0] == t@[from + 2 * j] && u[1] == t@[from + 2 * j + 1]);
            assert(u.skip(2) =~= t@.skip(from + 2 * (j + 1)));
            assert(spec_hex_run(u) == 1 + spec_hex_run(u.skip(2)));
        }
        j += 1;
    }
    proof {
        let u = t@.skip(from + 2 * j);
        if from + 2 * j + 1 < n {
            assert(u[0] == t@[from + 2 * j]);
            assert(u.len() >= 2);
            if u.len() >= 2 && u[0] == 37 && u[1] == 120 {
                assert(t@[from + 2 * j] == 37 && t@[from + 2 * j + 1] == 120);
                assert(false);
            }
        }
        assert(spec_hex_run(u) == 0);
        lemma_hex_run_bounds(t@.skip(from as int));
    }
    j
}

/// Renders `template` with `args` into bytes: the left-to-right scan, before
/// quote stripping.
#[verifier::rlimit(100)]
pub fn scan_template(template: &[u8], args: &[u32]) -> (r: Vec<u8>)
    ensures
        r@ == spec_scan(template@, args@),
{
    let n = template.len();
    let na = args.len();
    let mut out: Vec<u8> = Vec::new();
    let mut i: usize = 0;
    let mut ai: usize = 0;
    proof {
        assert(template@.skip(0) =~= template@);
        assert(args@.skip(0) =~= args@);
    }
    while i < n
        invariant
            0 <= i <= n,
            0 <= ai <= na,
            n == template@.len(),
            na == args@.len(),
            spec_scan(template@, args@) == out@ + spec_scan(
                template@.skip(i as int),
                args@.skip(ai as int),
            ),
        decreases n - i,
    {
        let ghost tl = template@.skip(i as int);
        let ghost ar = args@.skip(ai as int);
        proof {
            assert forall|j: int| 0 <= j < tl.len() implies tl[j] == template@[i + j] by {}
            assert forall|j: int| 0 <= j < ar.len() implies ar[j] == args@[ai + j] by {}
        }
        let mut k: usize = 0;
        if template[i] == 48 && i + 1 < n && template[i + 1] == 120 {
            k = count_hex_pairs(template, i + 2);
            proof {
                assert(tl.skip(2) =~= template@.skip(i + 2));
            }
        }
        if k >= 2 {
            proof {
                assert(tl.len() >= 2 && tl[0] == 48 && tl[1] == 120);
                assert(spec_hex_run(tl.skip(2)) == k);
                assert(tl.skip(2 + 2 * (k as int)) =~= template@.skip(i + 2 + 2 * (k as int)));
            }
            let ghost out0 = out@;
            if k <= na - ai {
                out.push(48);
                out.push(120);
                proof {
                    assert(out@ =~= out0 + seq![48u8, 120u8] + spec_hex_run_bytes(ar, 0));
                }
                let mut m: usize = 0;
                while m < k
                    invariant
                        0 <= m <= k,
                        ai + k <= na,
                        na == args@.len(),
                        ar == args@.skip(ai as int),
                        out@ == out0 + seq![48u8, 120u8] + spec_hex_run_bytes(ar, m as int),
                    decreases k - m,
                {
                    push_hex_byte2(&mut out, (args[ai + m] % 256) as u8);
                    proof {
                        assert(ar[m as int] == args@[ai + m]);
                        assert(spec_hex_run_bytes(ar, m + 1) == spec_hex_run_bytes(ar, m as int)
                            + spec_hex_byte2((ar[m as int] as nat % 256) as u8));
                        assert(out@ =~= out0 + seq![48u8, 120u8] + spec_hex_run_bytes(ar, m + 1));
                    }
                    m += 1;
                }
                proof {
                    assert(ar.len() >= k);
                    assert(ar.skip(k as int) =~= args@.skip(ai + k));
                    assert(spec_scan(tl, ar) == seq![48u8, 120u8] + spec_hex_run_bytes(ar, k as int)
                        + spec_scan(tl.skip(2 + 2 * (k as int)), ar.skip(k as int)));
                    assert(out@ =~= out0 + (seq![48u8, 120u8] + spec_hex_run_bytes(ar, k as int)));
                }
                ai += k;
            } else {
                push_missing(&mut out);
                proof {
                    assert(ar.len() < k);
                    assert(spec_scan(tl, ar) == spec_missing() + spec_scan(
                        tl.skip(2 + 2 * (k as int)),
                        ar,
                    ));
                }
            }
            i += 2 + 2 * k;
        } else {
            match placeholder_at(template, i) {
                Some((conv, w)) => {
                    proof {
                        assert(!(tl.len() >= 2 && tl[0] == 48 && tl[1] == 120 && spec_hex_run(
                            tl.skip(2),
                        ) >= 2));
                        assert(tl.skip(w as int) =~= template@.skip(i + w));
                    }
                    let ghost out0 = out@;
                    if ai < na {
                        let arg = args[ai];
                        proof {
                            assert(ar[0] == arg);
                            assert(ar.drop_first() =~= args@.skip(ai + 1));
                            assert(spec_scan(tl, ar) == spec_render(conv, arg) + spec_scan(
                                tl.skip(w as int),
                                ar.drop_first(),
                            ));
                        }
                        if conv == 120 {
                            out.push(48);
                            out.push(120);
                            push_hex_u32(&mut out, arg);
                            proof {
                                assert(out@ =~= out0 + spec_render(conv, arg));
                            }
                        } else if conv == 115 {
                            push_string_marker(&mut out);
                        } else {
                            push_dec_u64(&mut out, arg as u64);
                        }
                        ai += 1;
                    } else {
                        push_missing(&mut out);
                        proof {
                            assert(ar.len() == 0);
                            assert(spec_scan(tl, ar) == spec_missing() + spec_scan(
                                tl.skip(w as int),
                                ar,
                            ));
                        }
                    }
                    i += w;
                },
                None => {
                    proof {
                        assert(!(tl.len() >= 2 && tl[0] == 48 && tl[1] == 120 && spec_hex_run(
                            tl.skip(2),
                        ) >= 2));
                        assert(tl[0] == template@[i as int]);
                        assert(tl.skip(1) =~= template@.skip(i + 1));
                        assert(spec_scan(tl, ar) == seq![tl[0]] + spec_scan(tl.skip(1), ar));
                    }
                    out.push(template[i]);
                    i += 1;
                },
            }
        }
    }
    proof {
        assert(spec_scan(template@.skip(i as int), args@.skip(ai as int)) == Seq::<u8>::empty());
        assert(out@ + Seq::<u8>::empty() =~= out@);
    }
    out
}

/// Renders `template` with `args` and strips double quotes: the full
/// formatted message as bytes.
pub fn format_message_bytes(template: &[u8], args: &[u32]) -> (r: Vec<u8>)
    ensures
        r@ == spec_format_bytes(template@, args@),
{
    let scanned = scan_template(template, args);
    strip_quotes(scanned.as_slice())
}

/// Whether `b` is a printf flag character: `-`, `+`, space, `#` or `0`.
pub open spec fn spec_is_pf_flag(b: u8) -> bool {
    b == 45 || b == 43 || b == 32 || b == 35 || b == 48
}

/// Whether `b` is a printf conversion character.
pub open spec fn spec_is_pf_conv(b: u8) -> bool {
    ||| b == 100 || b == 105 || b == 117 || b == 111 || b == 120 || b == 88
    ||| b == 102 || b == 70 || b == 101 || b == 69 || b == 103 || b == 71
    ||| b == 97 || b == 65 || b == 99 || b == 115 || b == 112 || b == 110
}

/// The first index at or after `from` whose byte is not a printf flag.
pub open spec fn spec_skip_flags(t: Seq<u8>, from: int) -> int
    decreases t.len() - from,
{
    if from < 0 || from >= t.len() {
        t.len() as int
    } else if spec_is_pf_flag(t[from]) {
        spec_skip_flags(t, from + 1)
    } else {
        from
    }
}

/// The first index at or after `from` whose byte is not a decimal digit.
pub open spec fn spec_skip_digits(t: Seq<u8>, from: int) -> int
    decreases t.len() - from,
{
    if from < 0 || from >= t.len() {
        t.len() as int
    } else if crate::num::spec_is_dec_digit(t[from]) {
        spec_skip_digits(t, from + 1)
    } else {
        from
    }
}

/// Skipping never moves backwards or past the end.
pub proof fn lemma_skip_bounds(t: Seq<u8>, from: int)
    requires
        0 <= from <= t.len(),
    ensures
        from <= spec_skip_flags(t, from) <= t.len(),
        from <= spec_skip_digits(t, from) <= t.len(),
    decreases t.len() - from,
{
    if from < t.len() {
        lemma_skip_bounds(t, from + 1);
    }
}

/// The length of the printf specifier at the head of `t`, if one stands
/// there: `%`, flags, a width, an optional precision, and a conversion.
pub open spec fn spec_pf_len(t: Seq<u8>) -> Option<int> {
    if t.len() >= 1 && t[0] == 37 {
        let f = spec_skip_flags(t, 1);
        let d = spec_skip_digits(t, f);
        let p = if d < t.len() && t[d] == 46 && spec_skip_digits(t, d + 1) > d + 1 {
            spec_skip_digits(t, d + 1)
        } else {
            d
        };
        if p < t.len() && spec_is_pf_conv(t[p]) {
            Some(p + 1)
        } else {
            None
        }
    } else {
        None
    }
}

/// A recognized specifier covers at least one byte of the template.
pub proof fn lemma_pf_len_bounds(t: Seq<u8>)
    ensures
        match spec_pf_len(t) {
            Some(w) => 1 <= w <= t.len(),
            None => true,
        },
{
    if t.len() >= 1 && t[0] == 37 {
        lemma_skip_bounds(t, 1);
        let f = spec_skip_flags(t, 1);
        lemma_skip_bounds(t, f);
        let d = spec_skip_digits(t, f);
        if d < t.len() {
            lemma_skip_bounds(t, d + 1);
        }
    }
}

/// The template with each printf specifier replaced, left to right, by the
/// next replacement, or by nothing once the replacements run out.
pub open spec fn spec_pf_scan(t: Seq<u8>, reps: Seq<Seq<u8>>) -> Seq<u8>
    decreases t.len(),
    when true
    via spec_pf_scan_decreases
{
    if t.len() == 0 {
        Seq::empty()
    } else {
        match spec_pf_len(t) {
            Some(w) => (if reps.len() > 0 {
                reps[0]
            } else {
                Seq::<u8>::empty()
            }) + spec_pf_scan(
                t.skip(w),
                if reps.len() > 0 {
                    reps.drop_first()
                } else {
                    reps
                },
            ),
            None => seq![t[0]] + spec_pf_scan(t.skip(1), reps),
        }
    }
}

#[via_fn]
proof fn spec_pf_scan_decreases(t: Seq<u8>, reps: Seq<Seq<u8>>) {
    lemma_pf_len_bounds(t);
}

/// The replaced template with double quotes stripped.
pub open spec fn spec_pf_result(t: Seq<u8>, reps: Seq<Seq<u8>>) -> Seq<u8> {
    spec_strip_quotes(spec_pf_scan(t, reps))
}

/// The printf specifier starting at position `i`, if any: its total width.
fn pf_len_at(t: &[u8], i: usize) -> (r: Option<usize>)
    requires
        i < t@.len(),
    ensures
        ({
            let tl = t@.skip(i as int);
            match r {
                Some(w) => spec_pf_len(tl) == Some(w as int) && 1 <= w && i + w <= t@.len(),
                None => spec_pf_len(tl) is None,
            }
        }),
{
    let n = t.len();
    let ghost tl = t@.skip(i as int);
    proof {
        assert forall|j: int| 0 <= j < tl.len() implies tl[j] == t@[i + j] by {}
    }
    if t[i] != 37 {
        return None;
    }
    let mut f: usize = i + 1;
    while f < n && (t[f] == 45 || t[f] == 43 || t[f] == 32 || t[f] == 35 || t[f] == 48)
        invariant
            i + 1 <= f <= n,
            n == t@.len(),
            tl == t@.skip(i as int),
            spec_skip_flags(tl, 1) == spec_skip_flags(tl, f - i),
            forall|j: int| 0 <= j < tl.len() ==> tl[j] == t@[i + j],
        decreases n - f,
    {
        f += 1;
    }
    proof {
        assert(spec_skip_flags(tl, f - i) == f - i);
    }
    let mut d: usize = f;
    while d < n && t[d] >= 48 && t[d] <= 57
        invariant
            i + 1 <= f <= d <= n,
            n == t@.len(),
            tl == t@.skip(i as int),
            spec_skip_digits(tl, f - i) == spec_skip_digits(tl, d - i),
            forall|j: int| 0 <= j < tl.len() ==> tl[j] == t@[i + j],
        decreases n - d,
    {
        proof {
            assert(tl[d - i] == t@[d as int]);
        }
        d += 1;
    }
    proof {
        assert(spec_skip_digits(tl, d - i) == d - i);
    }
    let mut p: usize = d;
    if d < n && t[d] == 46 {
        let mut q: usize = d + 1;
        while q < n && t[q] >= 48 && t[q] <= 57
            invariant
                i + 1 <= d + 1 <= q <= n,
                n == t@.len(),
                tl == t@.skip(i as int),
                spec_skip_digits(tl, d + 1 - i) == spec_skip_digits(tl, q - i),
                forall|j: int| 0 <= j < tl.len() ==> tl[j] == t@[i + j],
            decreases n - q,
        {
            proof {
                assert(tl[q - i] == t@[q as int]);
            }
            q += 1;
        }
        proof {
            assert(spec_skip_digits(tl, q - i) == q - i);
        }
        if q > d + 1 {
            p = q;
        }
    }
    if p < n {
        let c = t[p];
        let is_conv = c == 100 || c == 105 || c == 117 || c == 111 || c == 120 || c == 88 || c
            == 102 || c == 70 || c == 101 || c == 69 || c == 103 || c == 71 || c == 97 || c == 65
            || c == 99 || c == 115 || c == 112 || c == 110;
        if is_conv {
            return Some(p + 1 - i);
        }
    }
    None
}

/// Replaces each printf specifier of `input` with the next replacement, in
/// order, before quote stripping.
#[verifier::rlimit(50)]
pub fn pf_scan_bytes(input: &[u8], reps: &Vec<Vec<u8>>) -> (r: Vec<u8>)
    ensures
        r@ == spec_pf_scan(input@, reps@.map_values(|v: Vec<u8>| v@)),
{
    let ghost rviews = reps@.map_values(|v: Vec<u8>| v@);
    let n = input.len();
    let nr = reps.len();
    let mut out: Vec<u8> = Vec::new();
    let mut i: usize = 0;
    let mut ri: usize = 0;
    proof {
        assert(input@.skip(0) =~= input@);
        assert(rviews.skip(0) =~= rviews);
    }
    while i < n
        invariant
            0 <= i <= n,
            0 <= ri <= nr,
            n == input@.len(),
            nr == reps@.len(),
            rviews == reps@.map_values(|v: Vec<u8>| v@),
            spec_pf_scan(input@, rviews) == out@ + spec_pf_scan(
                input@.skip(i as int),
                rviews.skip(ri as int),
            ),
        decreases n - i,
    {
        let ghost tl = input@.skip(i as int);
        let ghost rr = rviews.skip(ri as int);
        let ghost out0 = out@;
        match pf_len_at(input, i) {
            Some(w) => {
                proof {
                    assert(tl.skip(w as int) =~= input@.skip(i + w));
                }
                if ri < nr {
                    push_all(&mut out, reps[ri].as_slice());
                    proof {
                        assert(rr[0] == rviews[ri as int]);
                        assert(rviews[ri as int] == reps@[ri as int]@);
                        assert(rr.drop_first() =~= rviews.skip(ri + 1));
                        assert(spec_pf_scan(tl, rr) == rr[0] + spec_pf_scan(
                            tl.skip(w as int),
                            rr.drop_first(),
                        ));
                    }
                    ri += 1;
                } else {
                    proof {
                        assert(rr.len() == 0);
                        assert(spec_pf_scan(tl, rr) == Seq::<u8>::empty() + spec_pf_scan(
                            tl.skip(w as int),
                            rr,
                        ));
                        assert(out@ =~= out0 + Seq::<u8>::empty());
                    }
                }
                i += w;
            },
            None => {
                proof {
                    assert(tl[0] == input@[i as int]);
                    assert(tl.skip(1) =~= input@.skip(i + 1));
                    assert(spec_pf_scan(tl, rr) == seq![tl[0]] + spec_pf_scan(tl.skip(1), rr));
                }
                out.push(input[i]);
                i += 1;
            },
        }
    }
    proof {
        assert(spec_pf_scan(input@.skip(i as int), rviews.skip(ri as int)) == Seq::<u8>::empty());
        assert(out@ + Seq::<u8>::empty() =~= out@);
    }
    out
}

/// Replaces each printf-style format specifier of `input` with the next
/// replacement string, in order; exhausted replacements render as nothing,
/// and double quotes are stripped from the result.
pub fn find_and_replace_printf_format_specifiers(input: &str, replacements: &Vec<String>) -> (r:
    String)
    ensures
        r@ == crate::text::lossy_of(
            spec_pf_result(
                input.spec_bytes(),
                replacements@.map_values(|s: String| vstd::utf8::encode_utf8(s@)),
            ),
        ),
{
    let nr = replacements.len();
    let mut reps: Vec<Vec<u8>> = Vec::new();
    let mut j: usize = 0;
    while j < nr
        invariant
            0 <= j <= nr,
            nr == replacements@.len(),
            reps@.len() == j,
            forall|k: int|
                0 <= k < j ==> (#[trigger] reps@[k])@ == vstd::utf8::encode_utf8(
                    replacements@[k]@,
                ),
        decreases nr - j,
    {
        let b = replacements[j].as_str().as_bytes_vec();
        reps.push(b);
        j += 1;
    }
    proof {
        assert(reps@.map_values(|v: Vec<u8>| v@) =~= replacements@.map_values(
            |s: String| vstd::utf8::encode_utf8(s@),
        ));
    }
    let scanned = pf_scan_bytes(input.as_bytes(), &reps);
    let stripped = strip_quotes(scanned.as_slice());
    crate::text::bytes_to_string(&stripped)
}

} // verus!
