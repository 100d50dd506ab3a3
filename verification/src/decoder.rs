//! Which audio files the decoder accepts.

use vstd::prelude::*;
use crate::paths::{path_extension, spec_extension};

verus! {

/// `c` with ASCII upper-case letters mapped to lower case.
pub open spec fn ascii_lower(c: char) -> char {
    if 'A' <= c && c <= 'Z' {
        ((c as u32) + 32) as char
    } else {
        c
    }
}

/// Whether `s`, case-insensitively, is `lower` (given in lower case).
pub open spec fn equals_ignoring_case(s: Seq<char>, lower: Seq<char>) -> bool {
    s.len() == lower.len() && forall|i: int| 0 <= i < s.len() ==> ascii_lower(#[trigger] s[i])
        == lower[i]
}

/// The extensions of the supported formats, in lower case.
pub open spec fn supported_extensions() -> Seq<Seq<char>> {
    seq![
        seq!['m', 'p', '3'],
        seq!['f', 'l', 'a', 'c'],
        seq!['w', 'a', 'v'],
        seq!['o', 'g', 'g'],
        seq!['a', 'a', 'c'],
        seq!['m', '4', 'a'],
    ]
}

/// Whether a file extension names a supported format, ignoring case.
pub open spec fn is_supported_extension(ext: Seq<char>) -> bool {
    exists|k: int|
        0 <= k < supported_extensions().len() && equals_ignoring_case(
            ext,
            #[trigger] supported_extensions()[k],
        )
}

/// Whether a path names a file in a supported format.
pub open spec fn spec_is_supported(path: Seq<char>) -> bool {
    match spec_extension(path) {
        Some(e) => is_supported_extension(e),
        None => false,
    }
}

fn equals_ignoring_case_exec(s: &Vec<char>, lower: &[char]) -> (b: bool)
    requires
        forall|i: int| 0 <= i < lower@.len() ==> 'a' <= #[trigger] lower@[i] <= 'z' || '0' <= lower@[i] <= '9',
    ensures
        b == equals_ignoring_case(s@, lower@),
{
    if s.len() != lower.len() {
        return false;
    }
    let mut i: usize = 0;
    while i < s.len()
        invariant
            s@.len() == lower@.len(),
            0 <= i <= s@.len(),
            forall|k: int| 0 <= k < lower@.len() ==> 'a' <= #[trigger] lower@[k] <= 'z' || '0' <= lower@[k] <= '9',
            forall|k: int| 0 <= k < i ==> ascii_lower(#[trigger] s@[k]) == lower@[k],
        decreases s@.len() - i,
    {
        let c = s[i];
        let t = lower[i];
        let same = c == t || ('A' <= c && c <= 'Z' && (c as u32) + 32 == (t as u32));
        if !same {
            return false;
        }
        i = i + 1;
    }
    true
}

/// Audio file decoding front end.
pub struct AudioDecoder;

impl AudioDecoder {
    /// Whether a file format is supported: the path's extension is one of
    /// `mp3`, `flac`, `wav`, `ogg`, `aac` or `m4a`, in any letter case.
    pub fn is_supported(path: &str) -> (b: bool)
        ensures
            b == spec_is_supported(path@),
    {
        let ext = match path_extension(path) {
            Some(e) => e,
            None => return false,
        };
        let mp3 = ['m', 'p', '3'];
        let flac = ['f', 'l', 'a', 'c'];
        let wav = ['w', 'a', 'v'];
        let ogg = ['o', 'g', 'g'];
        let aac = ['a', 'a', 'c'];
        let m4a = ['m', '4', 'a'];
        proof {
            assert(mp3@ == supported_extensions()[0]);
            assert(flac@ == supported_extensions()[1]);
            assert(wav@ == supported_extensions()[2]);
            assert(ogg@ == supported_extensions()[3]);
            assert(aac@ == supported_extensions()[4]);
            assert(m4a@ == supported_extensions()[5]);
        }
        let found = equals_ignoring_case_exec(&ext, &mp3) || equals_ignoring_case_exec(&ext, &flac)
            || equals_ignoring_case_exec(&ext, &wav) || equals_ignoring_case_exec(&ext, &ogg)
            || equals_ignoring_case_exec(&ext, &aac) || equals_ignoring_case_exec(&ext, &m4a);
        proof {
            if !found {
                assert forall|k: int| 0 <= k < supported_extensions().len() implies !equals_ignoring_case(
                    ext@,
                    #[trigger] supported_extensions()[k],
                ) by {
                    if k == 0 {
                    } else if k == 1 {
                    } else if k == 2 {
                    } else if k == 3 {
                    } else if k == 4 {
                    } else {
                    }
                }
            }
        }
        found
    }
}

} // verus!
