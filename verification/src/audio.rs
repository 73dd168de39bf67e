//! Recognition of supported audio files by their file-name extension.

use vstd::prelude::*;

verus! {

/// Index of the last `.` in `name`, or `-1` when there is none.
pub open spec fn last_dot(name: Seq<u8>) -> int
    decreases name.len(),
{
    if name.len() == 0 {
        -1
    } else if name[name.len() - 1] == 0x2eu8 {
        name.len() - 1
    } else {
        last_dot(name.take(name.len() - 1))
    }
}

/// A file name has an extension when a `.` occurs past its first byte; a
/// name that is nothing but a leading dot (a hidden file) has none.
pub open spec fn has_extension(name: Seq<u8>) -> bool {
    last_dot(name) > 0
}

/// The extension: everything after the last `.`.
pub open spec fn extension(name: Seq<u8>) -> Seq<u8> {
    name.skip(last_dot(name) + 1)
}

/// The stem of a file name: everything before the last `.` when the name
/// has an extension, the whole name otherwise.
pub open spec fn stem_of(name: Seq<u8>) -> Seq<u8> {
    if has_extension(name) {
        name.take(last_dot(name))
    } else {
        name
    }
}

/// ASCII lowercasing of one byte.
pub open spec fn lower(b: u8) -> u8 {
    if 0x41 <= b <= 0x5a {
        (b + 0x20) as u8
    } else {
        b
    }
}

/// ASCII lowercasing of a byte string.
pub open spec fn lower_seq(s: Seq<u8>) -> Seq<u8> {
    Seq::new(s.len(), |i: int| lower(s[i]))
}

/// The supported audio extensions, already lowercased:
/// `aif`, `aiff`, `flac`, `mp3`, `m4a`, `wav`.
pub open spec fn is_audio_extension(e: Seq<u8>) -> bool {
    ||| (e.len() == 3 && e[0] == 0x61u8 && e[1] == 0x69u8 && e[2] == 0x66u8)
    ||| (e.len() == 4 && e[0] == 0x61u8 && e[1] == 0x69u8 && e[2] == 0x66u8 && e[3] == 0x66u8)
    ||| (e.len() == 4 && e[0] == 0x66u8 && e[1] == 0x6cu8 && e[2] == 0x61u8 && e[3] == 0x63u8)
    ||| (e.len() == 3 && e[0] == 0x6du8 && e[1] == 0x70u8 && e[2] == 0x33u8)
    ||| (e.len() == 3 && e[0] == 0x6du8 && e[1] == 0x34u8 && e[2] == 0x61u8)
    ||| (e.len() == 3 && e[0] == 0x77u8 && e[1] == 0x61u8 && e[2] == 0x76u8)
}

/// A file is a supported audio file when its extension, compared without
/// regard to ASCII case, is one of the supported ones.
pub open spec fn spec_is_audio_file(name: Seq<u8>) -> bool {
    has_extension(name) && is_audio_extension(lower_seq(extension(name)))
}

/// ASCII lowercasing of one byte.
fn lower_byte(b: u8) -> (r: u8)
    ensures
        r == lower(b),
{
    if 0x41 <= b && b <= 0x5a {
        b + 0x20
    } else {
        b
    }
}

/// Position of the last `.` in the name, scanned from the front.
fn find_last_dot(name: &[u8]) -> (r: (bool, usize))
    ensures
        r.0 ==> r.1 < name@.len() && last_dot(name@) == r.1 as int,
        !r.0 ==> last_dot(name@) == -1,
{
    let n = name.len();
    let mut dot: usize = 0;
    let mut found = false;
    let mut i: usize = 0;
    while i < n
        invariant
            0 <= i <= n,
            n == name@.len(),
            found ==> dot < i && last_dot(name@.take(i as int)) == dot as int,
            !found ==> last_dot(name@.take(i as int)) == -1,
        decreases n - i,
    {
        proof {
            assert(name@.take(i + 1).take(i as int) =~= name@.take(i as int));
        }
        if name[i] == 0x2eu8 {
            dot = i;
            found = true;
        }
        i = i + 1;
    }
    proof {
        assert(name@.take(n as int) =~= name@);
    }
    (found, dot)
}

/// Byte length of the stem, which is the name's own prefix of that length.
pub fn stem_len_of(name: &[u8]) -> (k: usize)
    ensures
        k <= name@.len(),
        stem_of(name@) == name@.take(k as int),
{
    let (found, dot) = find_last_dot(name);
    if found && dot > 0 {
        dot
    } else {
        proof {
            assert(name@.take(name@.len() as int) =~= name@);
        }
        name.len()
    }
}

/// True when the given file name carries one of the supported audio
/// extensions, compared without regard to ASCII case.
pub fn is_audio_file(name: &[u8]) -> (r: bool)
    ensures
        r == spec_is_audio_file(name@),
{
    let n = name.len();
    let (found, dot) = find_last_dot(name);
    if !found || dot == 0 {
        return false;
    }
    let s = dot + 1;
    let elen = n - s;
    proof {
        assert(extension(name@) == name@.skip(s as int));
        assert(extension(name@).len() == elen);
    }
    if elen == 3 {
        let b0 = lower_byte(name[s]);
        let b1 = lower_byte(name[s + 1]);
        let b2 = lower_byte(name[s + 2]);
        proof {
            let e = lower_seq(extension(name@));
            assert(e[0] == lower(name@[s as int]));
            assert(e[1] == lower(name@[s as int + 1]));
            assert(e[2] == lower(name@[s as int + 2]));
        }
        (b0 == 0x61 && b1 == 0x69 && b2 == 0x66) || (b0 == 0x6d && b1 == 0x70 && b2 == 0x33) || (b0
            == 0x6d && b1 == 0x34 && b2 == 0x61) || (b0 == 0x77 && b1 == 0x61 && b2 == 0x76)
    } else if elen == 4 {
        let b0 = lower_byte(name[s]);
        let b1 = lower_byte(name[s + 1]);
        let b2 = lower_byte(name[s + 2]);
        let b3 = lower_byte(name[s + 3]);
        proof {
            let e = lower_seq(extension(name@));
            assert(e[0] == lower(name@[s as int]));
            assert(e[1] == lower(name@[s as int + 1]));
            assert(e[2] == lower(name@[s as int + 2]));
            assert(e[3] == lower(name@[s as int + 3]));
        }
        (b0 == 0x61 && b1 == 0x69 && b2 == 0x66 && b3 == 0x66) || (b0 == 0x66 && b1 == 0x6c && b2
            == 0x61 && b3 == 0x63)
    } else {
        false
    }
}

} // verus!
