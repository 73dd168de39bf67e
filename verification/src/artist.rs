//! Artist keys and the adjacency constraint.
//!
//! A track's artist key is the part of its file stem (the name with its
//! extension stripped) that precedes the first `" - "` separator, or the
//! whole stem when no separator is present. An ordering is acceptable only
//! when no two adjacent tracks share an artist key.

use crate::audio::stem_of;
use vstd::prelude::*;

verus! {

/// True when the `" - "` separator starts at byte position `i` of `name`.
pub open spec fn is_sep_at(name: Seq<u8>, i: int) -> bool {
    &&& 0 <= i
    &&& i + 3 <= name.len()
    &&& name[i] == 0x20u8
    &&& name[i + 1] == 0x2du8
    &&& name[i + 2] == 0x20u8
}

/// Index of the first `" - "` separator in a byte string, or its whole
/// length when there is none.
pub open spec fn artist_key_len(name: Seq<u8>) -> nat
    decreases name.len(),
{
    if is_sep_at(name, 0) {
        0
    } else if name.len() == 0 {
        0
    } else {
        1 + artist_key_len(name.skip(1))
    }
}

/// The artist key of a track name: everything in its stem before the first
/// `" - "` separator, or the whole stem when the separator is absent.
pub open spec fn artist_key(name: Seq<u8>) -> Seq<u8> {
    stem_of(name).take(artist_key_len(stem_of(name)) as int)
}

/// True when some adjacent pair of the ordering shares an artist key.
pub open spec fn has_adjacent_same_artist(tracks: Seq<Seq<u8>>) -> bool {
    exists|i: int|
        0 <= i && i + 1 < tracks.len() && #[trigger] artist_key(tracks[i]) == artist_key(
            tracks[i + 1],
        )
}

/// True when every track of the ordering derives one and the same artist
/// key; such a set of two or more tracks can never be ordered acceptably.
pub open spec fn all_same_artist(tracks: Seq<Seq<u8>>) -> bool {
    forall|i: int|
        0 <= i < tracks.len() ==> #[trigger] artist_key(tracks[i]) == artist_key(tracks[0])
}

/// Rearranging tracks cannot change the fact that they all share one
/// artist key.
pub proof fn lemma_same_multiset_same_keys(s1: Seq<Seq<u8>>, s2: Seq<Seq<u8>>)
    requires
        s1.to_multiset() == s2.to_multiset(),
        s1.len() >= 1,
        all_same_artist(s1),
    ensures
        all_same_artist(s2),
        s2.len() >= 1 ==> artist_key(s2[0]) == artist_key(s1[0]),
{
    broadcast use vstd::seq_lib::group_to_multiset_ensures;

    assert forall|i: int| 0 <= i < s2.len() implies #[trigger] artist_key(s2[i]) == artist_key(
        s1[0],
    ) by {
        assert(s2.contains(s2[i]));
        assert(s2.to_multiset().count(s2[i]) > 0);
        assert(s1.contains(s2[i]));
        let j = choose|j: int| 0 <= j < s1.len() && s1[j] == s2[i];
        assert(artist_key(s1[j]) == artist_key(s1[0]));
    }
}

/// Two or more tracks that all share one artist key always put two of them
/// next to each other.
pub proof fn lemma_all_same_has_adjacent(s: Seq<Seq<u8>>)
    requires
        s.len() >= 2,
        all_same_artist(s),
    ensures
        has_adjacent_same_artist(s),
{
    assert(artist_key(s[0]) == artist_key(s[0]));
    assert(artist_key(s[1]) == artist_key(s[0]));
    assert(0 <= 0 && 0 + 1 < s.len() && artist_key(s[0]) == artist_key(s[1]));
}

/// A sequence of at most one track is pinned down by its multiset.
pub proof fn lemma_short_multiset_same_seq(s1: Seq<Seq<u8>>, s2: Seq<Seq<u8>>)
    requires
        s1.to_multiset() == s2.to_multiset(),
        s1.len() <= 1,
    ensures
        s1 == s2,
{
    broadcast use vstd::seq_lib::group_to_multiset_ensures;

    assert(s1.len() == s1.to_multiset().len());
    assert(s2.len() == s2.to_multiset().len());
    if s1.len() == 0 {
        assert(s1 =~= s2);
    } else {
        assert(s2.contains(s2[0]));
        assert(s2.to_multiset().count(s2[0]) > 0);
        assert(s1.contains(s2[0]));
        let j = choose|j: int| 0 <= j < s1.len() && s1[j] == s2[0];
        assert(j == 0);
        assert(s1 =~= s2);
    }
}

/// The recursive definition of `artist_key_len` agrees with the scanning
/// characterization: if no separator starts before `i`, and one starts at
/// `i` (or `i` is the end), then the key length is `i` (or the whole length).
proof fn lemma_artist_key_len_first(name: Seq<u8>, i: int)
    requires
        0 <= i <= name.len(),
        forall|j: int| 0 <= j < i ==> !is_sep_at(name, j),
        is_sep_at(name, i) || i == name.len(),
    ensures
        is_sep_at(name, i) ==> artist_key_len(name) == i,
        !is_sep_at(name, i) ==> artist_key_len(name) == name.len(),
    decreases i,
{
    if i == 0 {
        if is_sep_at(name, 0) {
        } else {
            assert(name.len() == 0);
        }
    } else {
        let tail = name.skip(1);
        assert(!is_sep_at(name, 0));
        assert(name.len() > 0);
        assert forall|j: int| 0 <= j < i - 1 implies !is_sep_at(tail, j) by {
            assert(!is_sep_at(name, j + 1));
            if is_sep_at(tail, j) {
                assert(tail[j] == name[j + 1]);
                assert(tail[j + 1] == name[j + 2]);
                assert(tail[j + 2] == name[j + 3]);
            }
        }
        if is_sep_at(name, i) {
            assert(is_sep_at(tail, i - 1)) by {
                assert(tail[i - 1] == name[i]);
                assert(tail[i] == name[i + 1]);
                assert(tail[i + 1] == name[i + 2]);
            }
            lemma_artist_key_len_first(tail, i - 1);
        } else {
            assert(i == name.len());
            assert(!is_sep_at(tail, i - 1));
            lemma_artist_key_len_first(tail, i - 1);
        }
    }
}

/// Length of the artist key of `name`: the index of the first `" - "`
/// separator within the stem, or the stem's whole length when no separator
/// occurs there. The key itself is the name's own prefix of that length.
pub fn artist_key_len_of(name: &[u8]) -> (k: usize)
    ensures
        k == artist_key_len(stem_of(name@)),
        k <= name@.len(),
        artist_key(name@) == name@.take(k as int),
{
    let sl = crate::audio::stem_len_of(name);
    let ghost st = stem_of(name@);
    let mut i: usize = 0;
    while i < sl && sl - i >= 3
        invariant
            0 <= i <= sl,
            sl <= name@.len(),
            st == stem_of(name@),
            st == name@.take(sl as int),
            forall|j: int| 0 <= j < i ==> !is_sep_at(st, j),
        decreases sl - i,
    {
        proof {
            assert(st[i as int] == name@[i as int]);
            assert(st[i + 1] == name@[i + 1]);
            assert(st[i + 2] == name@[i + 2]);
        }
        if name[i] == 0x20u8 && name[i + 1] == 0x2du8 && name[i + 2] == 0x20u8 {
            proof {
                lemma_artist_key_len_first(st, i as int);
                assert(artist_key(name@) =~= name@.take(i as int));
            }
            return i;
        }
        i = i + 1;
    }
    proof {
        assert(st.len() == sl);
        assert(forall|j: int| 0 <= j < sl ==> !is_sep_at(st, j));
        lemma_artist_key_len_first(st, sl as int);
        assert(artist_key(name@) =~= name@.take(sl as int));
    }
    sl
}

/// The artist key of a track name, as its own byte string.
pub fn artist_key_of(name: &[u8]) -> (key: Vec<u8>)
    ensures
        key@ == artist_key(name@),
{
    let k = artist_key_len_of(name);
    let mut key: Vec<u8> = Vec::new();
    let mut j: usize = 0;
    while j < k
        invariant
            0 <= j <= k,
            k <= name@.len(),
            artist_key(name@) == name@.take(k as int),
            key@ == artist_key(name@).take(j as int),
        decreases k - j,
    {
        key.push(name[j]);
        proof {
            assert(artist_key(name@).take(j + 1) =~= artist_key(name@).take(j as int).push(
                name@[j as int],
            ));
        }
        j = j + 1;
    }
    proof {
        assert(key@ =~= artist_key(name@));
    }
    key
}

/// True when two track names derive the same artist key.
pub fn same_artist(a: &[u8], b: &[u8]) -> (r: bool)
    ensures
        r == (artist_key(a@) == artist_key(b@)),
{
    let ka = artist_key_len_of(a);
    let kb = artist_key_len_of(b);
    if ka != kb {
        proof {
            assert(artist_key(a@).len() == ka);
            assert(artist_key(b@).len() == kb);
        }
        return false;
    }
    let mut j: usize = 0;
    while j < ka
        invariant
            0 <= j <= ka,
            ka == kb,
            ka <= a@.len(),
            kb <= b@.len(),
            artist_key(a@) == a@.take(ka as int),
            artist_key(b@) == b@.take(kb as int),
            forall|m: int| 0 <= m < j ==> a@[m] == b@[m],
        decreases ka - j,
    {
        if a[j] != b[j] {
            proof {
                assert(artist_key(a@)[j as int] == a@[j as int]);
                assert(artist_key(b@)[j as int] == b@[j as int]);
            }
            return false;
        }
        j = j + 1;
    }
    proof {
        assert(artist_key(a@) =~= artist_key(b@));
    }
    true
}

/// True when some pair of consecutive tracks in the given order shares an
/// artist key; such an order is rejected by the sampler.
pub fn check_consecutive_tracks_from_same_artist(tracks: &[Vec<u8>]) -> (r: bool)
    ensures
        r == has_adjacent_same_artist(tracks.deep_view()),
{
    let n = tracks.len();
    if n < 2 {
        return false;
    }
    let mut i: usize = 0;
    while i + 1 < n
        invariant
            0 <= i < n,
            n == tracks@.len(),
            forall|j: int|
                0 <= j && j + 1 < i + 1 ==> #[trigger] artist_key(tracks.deep_view()[j])
                    != artist_key(tracks.deep_view()[j + 1]),
        decreases n - i,
    {
        let r = same_artist(tracks[i].as_slice(), tracks[i + 1].as_slice());
        proof {
            let dv = tracks.deep_view();
            assert(dv[i as int] =~= tracks@[i as int]@);
            assert(dv[i as int + 1] =~= tracks@[i as int + 1]@);
        }
        if r {
            proof {
                let dv = tracks.deep_view();
                assert(0 <= i as int && i as int + 1 < dv.len() && artist_key(dv[i as int])
                    == artist_key(dv[i as int + 1]));
            }
            return true;
        }
        i = i + 1;
    }
    false
}

} // verus!
