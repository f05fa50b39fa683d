//! Display helpers for timestamps shown in the session browser.

use crate::num::{push_dec_u64, spec_dec_bytes, spec_dec_bytes_pad};
use crate::text::{ascii_to_string, spec_ascii_chars, spec_is_ascii_bytes};
use vstd::prelude::*;

verus! {

/// The display form of a millisecond timestamp: `MM:SS.mmm`, or `SS.mmm`
/// when under a minute, each part zero padded.
pub open spec fn spec_ts_display_bytes(ms: nat) -> Seq<u8> {
    let total = ms / 1000;
    let frac = ms % 1000;
    let m = total / 60;
    let s = total % 60;
    if m > 0 {
        spec_dec_bytes_pad(m, 2) + seq![58u8] + spec_dec_bytes_pad(s, 2) + seq![46u8]
            + spec_dec_bytes_pad(frac, 3)
    } else {
        spec_dec_bytes_pad(s, 2) + seq![46u8] + spec_dec_bytes_pad(frac, 3)
    }
}

/// Zero padding keeps a decimal rendering ASCII.
proof fn lemma_dec_pad_ascii(n: nat, w: nat)
    ensures
        spec_is_ascii_bytes(spec_dec_bytes_pad(n, w)),
{
    crate::parser::lemma_dec_bytes_ascii(n);
}

/// Renders a millisecond timestamp as `MM:SS.mmm` (or `SS.mmm` under a
/// minute), as the session browser displays it.
pub fn format_timestamp_ms(timestamp_ms: u64) -> (r: String)
    ensures
        r@ == spec_ascii_chars(spec_ts_display_bytes(timestamp_ms as nat)),
{
    let total_seconds = timestamp_ms / 1000;
    let milliseconds = timestamp_ms % 1000;
    let minutes = total_seconds / 60;
    let seconds = total_seconds % 60;
    let mut out: Vec<u8> = Vec::new();
    if minutes > 0 {
        crate::num::push_dec_pad2(&mut out, minutes);
        out.push(58);
        crate::num::push_dec_pad2(&mut out, seconds);
        out.push(46);
        crate::num::push_dec_pad3(&mut out, milliseconds);
        proof {
            assert(out@ =~= spec_ts_display_bytes(timestamp_ms as nat));
        }
    } else {
        crate::num::push_dec_pad2(&mut out, seconds);
        out.push(46);
        crate::num::push_dec_pad3(&mut out, milliseconds);
        proof {
            assert(out@ =~= spec_ts_display_bytes(timestamp_ms as nat));
        }
    }
    proof {
        lemma_dec_pad_ascii((timestamp_ms as nat / 1000) / 60, 2);
        lemma_dec_pad_ascii((timestamp_ms as nat / 1000) % 60, 2);
        lemma_dec_pad_ascii(timestamp_ms as nat % 1000, 3);
    }
    ascii_to_string(&out)
}

} // verus!
