//! Service-facing helpers: mapping a firmware version name to the matching
//! decoder dictionary, and the error payload returned to callers.

use crate::text::{spec_match_at, spec_split_all, split_all, starts_with, sub_vec};
use vstd::prelude::*;
use vstd::string::StringSliceAdditionalSpecFns;
use vstd::utf8::encode_utf8;

verus! {

/// The error payload handed back to a caller.
#[derive(Debug, Clone)]
pub struct ErrorResponse {
    pub error: String,
}

impl ErrorResponse {
    /// Wraps a message as an error payload.
    pub fn new(error: String) -> (r: ErrorResponse)
        ensures
            r.error == error,
    {
        ErrorResponse { error }
    }
}

/// The decoder name chosen for a firmware version string: the version digits
/// after the `Quara_fw_` prefix select a known decoder, with a fallback on
/// the major and minor version alone.
pub open spec fn spec_decoder_for(s: Seq<u8>) -> Option<Seq<u8>> {
    let pre = ("Quara_fw_").spec_bytes();
    if !spec_match_at(s, pre, 0) {
        None
    } else {
        let parts = spec_split_all(s.skip(pre.len() as int), 46);
        if parts.len() < 3 {
            None
        } else {
            let major = parts[0];
            let minor = parts[1];
            let patch = parts[2];
            if major == ("9").spec_bytes() && minor == ("17").spec_bytes() && patch == (
            "3").spec_bytes() {
                Some(("decoder_9_17_3_1").spec_bytes())
            } else if major == ("9").spec_bytes() && minor == ("17").spec_bytes() && patch == (
            "2").spec_bytes() {
                Some(("decoder_9_17_2_1").spec_bytes())
            } else if major == ("9").spec_bytes() && minor == ("12").spec_bytes() && patch == (
            "2").spec_bytes() {
                Some(("decoder_9_12_2_0").spec_bytes())
            } else if major == ("9").spec_bytes() && minor == ("6").spec_bytes() && patch == (
            "1").spec_bytes() {
                Some(("decoder_9_6_1_0").spec_bytes())
            } else if major == ("9").spec_bytes() && minor == ("17").spec_bytes() {
                Some(("decoder_9_17_3_1").spec_bytes())
            } else if major == ("9").spec_bytes() && minor == ("12").spec_bytes() {
                Some(("decoder_9_12_2_0").spec_bytes())
            } else if major == ("9").spec_bytes() && minor == ("6").spec_bytes() {
                Some(("decoder_9_6_1_0").spec_bytes())
            } else {
                None
            }
        }
    }
}

/// Whether the bytes of `a` equal `b`.
fn bytes_eq(a: &[u8], b: &[u8]) -> (r: bool)
    ensures
        r == (a@ == b@),
{
    if a.len() != b.len() {
        proof {
            assert(a@ != b@);
        }
        return false;
    }
    let n = a.len();
    let mut i: usize = 0;
    while i < n
        invariant
            0 <= i <= n,
            n == a@.len() == b@.len(),
            forall|j: int| 0 <= j < i ==> a@[j] == #[trigger] b@[j],
        decreases n - i,
    {
        if a[i] != b[i] {
            return false;
        }
        i += 1;
    }
    proof {
        assert(a@ =~= b@);
    }
    true
}

/// Picks the decoder dictionary for a firmware version name, for example
/// `Quara_fw_9.17.3.13`, falling back on the nearest known decoder of the
/// same major and minor version.
pub fn map_firmware_version_to_decoder(firmware_version: &str) -> (r: Option<String>)
    ensures
        match r {
            Some(v) => spec_decoder_for(firmware_version.spec_bytes()) == Some(encode_utf8(v@)),
            None => spec_decoder_for(firmware_version.spec_bytes()) is None,
        },
{
    let s = firmware_version.as_bytes();
    let pre = ("Quara_fw_").as_bytes();
    if !starts_with(s, pre) {
        return None;
    }
    let rest = sub_vec(s, pre.len(), s.len());
    proof {
        assert(rest@ =~= s@.skip(pre@.len() as int));
    }
    let parts = split_all(rest.as_slice(), 46);
    if parts.len() < 3 {
        return None;
    }
    let ghost pviews = parts@.map_values(|v: Vec<u8>| v@);
    proof {
        assert(pviews[0] == parts@[0]@ && pviews[1] == parts@[1]@ && pviews[2] == parts@[2]@);
    }
    let major = parts[0].as_slice();
    let minor = parts[1].as_slice();
    let patch = parts[2].as_slice();
    let nine = ("9").as_bytes();
    let seventeen = ("17").as_bytes();
    let twelve = ("12").as_bytes();
    let six = ("6").as_bytes();
    if bytes_eq(major, nine) && bytes_eq(minor, seventeen) && bytes_eq(patch, ("3").as_bytes()) {
        Some(String::from_str("decoder_9_17_3_1"))
    } else if bytes_eq(major, nine) && bytes_eq(minor, seventeen) && bytes_eq(
        patch,
        ("2").as_bytes(),
    ) {
        Some(String::from_str("decoder_9_17_2_1"))
    } else if bytes_eq(major, nine) && bytes_eq(minor, twelve) && bytes_eq(
        patch,
        ("2").as_bytes(),
    ) {
        Some(String::from_str("decoder_9_12_2_0"))
    } else if bytes_eq(major, nine) && bytes_eq(minor, six) && bytes_eq(patch, ("1").as_bytes()) {
        Some(String::from_str("decoder_9_6_1_0"))
    } else if bytes_eq(major, nine) && bytes_eq(minor, seventeen) {
        Some(String::from_str("decoder_9_17_3_1"))
    } else if bytes_eq(major, nine) && bytes_eq(minor, twelve) {
        Some(String::from_str("decoder_9_12_2_0"))
    } else if bytes_eq(major, nine) && bytes_eq(minor, six) {
        Some(String::from_str("decoder_9_6_1_0"))
    } else {
        None
    }
}

} // verus!
