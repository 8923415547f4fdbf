//! Type detection for xWMA (`.xwm`) and Bethesda FUZ (`.fuz`) files.
//!
//! An xWMA file is a RIFF file of form type `XWMA`: bytes 0..4 spell `RIFF`
//! and bytes 8..12 spell `XWMA`. A FUZ file starts with `FUZE`.

use crate::bytes::{field, is_word, FUZE, RIFF, XWMA};
use vstd::prelude::*;

verus! {

/// Media type of an xWMA file.
pub const XWMA_CAPS: &'static str = "audio/x-xwma";

/// Media type of a FUZ file.
pub const FUZ_CAPS: &'static str = "audio/x-fuz";

/// The file starts with the header of an xWMA file.
pub open spec fn is_xwma(s: Seq<u8>) -> bool {
    &&& s.len() >= 12
    &&& field(s, 0, 4) == RIFF@
    &&& field(s, 8, 4) == XWMA@
}

/// The file starts with the magic of a FUZ file.
pub open spec fn is_fuz(s: Seq<u8>) -> bool {
    &&& s.len() >= 4
    &&& field(s, 0, 4) == FUZE@
}

/// The media type to suggest, with the highest probability, for a file that
/// starts with the peeked bytes; nothing where no bytes could be peeked or
/// they are not the header of an xWMA file.
pub fn type_find_xwma(peeked: Option<&[u8]>) -> (found: Option<&'static str>)
    ensures
        found == (if peeked is Some && is_xwma(peeked.unwrap()@) {
            Some(XWMA_CAPS)
        } else {
            None
        }),
        found is Some <==> peeked is Some && ({
            let s = peeked.unwrap()@;
            &&& s.len() >= 12
            &&& s[0] == 0x52 && s[1] == 0x49 && s[2] == 0x46 && s[3] == 0x46
            &&& s[8] == 0x58 && s[9] == 0x57 && s[10] == 0x4d && s[11] == 0x41
        }),
{
    proof {
        if peeked is Some {
            crate::written::lemma_xwma(peeked.unwrap()@);
        }
    }
    match peeked {
        Some(data) => if data.len() >= 12 && is_word(data, 0, RIFF) && is_word(data, 8, XWMA) {
            Some(XWMA_CAPS)
        } else {
            None
        },
        None => None,
    }
}

/// The media type to suggest, with the highest probability, for a file that
/// starts with the peeked bytes; nothing where no bytes could be peeked or
/// they are not the magic of a FUZ file.
pub fn type_find_fuz(peeked: Option<&[u8]>) -> (found: Option<&'static str>)
    ensures
        found == (if peeked is Some && is_fuz(peeked.unwrap()@) {
            Some(FUZ_CAPS)
        } else {
            None
        }),
        found is Some <==> peeked is Some && ({
            let s = peeked.unwrap()@;
            s.len() >= 4 && s[0] == 0x46 && s[1] == 0x55 && s[2] == 0x5a && s[3] == 0x45
        }),
{
    proof {
        if peeked is Some {
            crate::fuz_laws::lemma_fuze(peeked.unwrap()@);
        }
    }
    match peeked {
        Some(data) => if data.len() >= 4 && is_word(data, 0, FUZE) {
            Some(FUZ_CAPS)
        } else {
            None
        },
        None => None,
    }
}

} // verus!
