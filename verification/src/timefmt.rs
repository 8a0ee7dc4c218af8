//! Rendering of timeline offsets as `HH:MM:SS,mmm` timestamps, and trimming
//! of trailing whitespace from the finished subtitle blob.

use vstd::prelude::*;
use vstd::string::{StrSliceExecFns, StringExecFns};
use crate::digits::{padded_dec, to_padded_decimal};

verus! {

/// The timestamp text for an offset of `ns` nanoseconds from the start of the
/// timeline: hours unbounded and at least two digits, minutes and seconds two
/// digits, milliseconds three digits.
pub open spec fn time_chars(ns: int) -> Seq<char> {
    let secs = ns / 1_000_000_000;
    let millis = (ns % 1_000_000_000) / 1_000_000;
    padded_dec((secs / 3600) as nat, 2) + seq![':'] + padded_dec(((secs % 3600) / 60) as nat, 2)
        + seq![':'] + padded_dec((secs % 60) as nat, 2) + seq![','] + padded_dec(millis as nat, 3)
}

/// Renders the offset `ns` (nanoseconds) as `HH:MM:SS,mmm`.
pub fn format_time(ns: u128) -> (r: String)
    ensures
        r@ == time_chars(ns as int),
{
    let secs: u128 = ns / 1_000_000_000;
    let millis: u128 = (ns % 1_000_000_000) / 1_000_000;
    let mut r = to_padded_decimal(secs / 3600, 2);
    r.append(":");
    let mins = to_padded_decimal((secs % 3600) / 60, 2);
    r.append(mins.as_str());
    r.append(":");
    let s2 = to_padded_decimal(secs % 60, 2);
    r.append(s2.as_str());
    r.append(",");
    let ms = to_padded_decimal(millis, 3);
    r.append(ms.as_str());
    proof {
        reveal_strlit(":");
        reveal_strlit(",");
        assert(r@ =~= time_chars(ns as int));
    }
    r
}

/// True of the characters with the Unicode `White_Space` property, the set
/// that trailing-whitespace trimming removes.
pub open spec fn is_ws(c: char) -> bool {
    let u = c as u32;
    u == 0x20 || (0x09 <= u && u <= 0x0d) || u == 0x85 || u == 0xa0 || u == 0x1680 || (0x2000 <= u
        && u <= 0x200a) || u == 0x2028 || u == 0x2029 || u == 0x202f || u == 0x205f || u == 0x3000
}

/// Decides [`is_ws`].
pub fn is_ws_char(c: char) -> (r: bool)
    ensures
        r == is_ws(c),
{
    let u = c as u32;
    u == 0x20 || (0x09 <= u && u <= 0x0d) || u == 0x85 || u == 0xa0 || u == 0x1680 || (0x2000 <= u
        && u <= 0x200a) || u == 0x2028 || u == 0x2029 || u == 0x202f || u == 0x205f || u == 0x3000
}

/// `s` with every trailing whitespace character removed.
pub open spec fn trim_ws_end(s: Seq<char>) -> Seq<char>
    decreases s.len(),
{
    if s.len() > 0 && is_ws(s.last()) {
        trim_ws_end(s.drop_last())
    } else {
        s
    }
}

/// Returns `s` with trailing whitespace removed.
pub fn trimmed_end(s: &String) -> (r: String)
    ensures
        r@ == trim_ws_end(s@),
{
    let len = s.as_str().unicode_len();
    let mut cut: usize = len;
    proof {
        assert(s@.subrange(0, len as int) =~= s@);
    }
    loop
        invariant
            cut <= len,
            len == s@.len(),
            trim_ws_end(s@) == trim_ws_end(s@.subrange(0, cut as int)),
        ensures
            cut <= len,
            len == s@.len(),
            trim_ws_end(s@) == trim_ws_end(s@.subrange(0, cut as int)),
            cut == 0 || !is_ws(s@[cut - 1]),
        decreases cut,
    {
        if cut == 0 {
            break ;
        }
        let c = s.as_str().get_char(cut - 1);
        if is_ws_char(c) {
            proof {
                assert(s@.subrange(0, cut as int).drop_last() =~= s@.subrange(0, cut - 1));
            }
            cut = cut - 1;
        } else {
            break ;
        }
    }
    let r = String::from_str(s.as_str().substring_char(0, cut));
    proof {
        if cut > 0 {
            assert(!is_ws(s@.subrange(0, cut as int).last()));
        }
        assert(trim_ws_end(s@.subrange(0, cut as int)) == s@.subrange(0, cut as int));
    }
    r
}

} // verus!
