//! Preparation of the track set: keep only audio files, order them, and
//! drop duplicates, so that repeated runs over the same directory start
//! sampling from the same base sequence.

use crate::audio::{is_audio_file, spec_is_audio_file};
use vstd::prelude::*;

verus! {

/// Lexicographic order on byte strings, byte by byte; a proper prefix
/// comes first.
pub open spec fn lex_le(a: Seq<u8>, b: Seq<u8>) -> bool
    decreases a.len(),
{
    if a.len() == 0 {
        true
    } else if b.len() == 0 {
        false
    } else if a[0] < b[0] {
        true
    } else if a[0] > b[0] {
        false
    } else {
        lex_le(a.skip(1), b.skip(1))
    }
}

/// Ascending lexicographic order, duplicates allowed.
pub open spec fn sorted_le(s: Seq<Seq<u8>>) -> bool {
    forall|i: int| 0 <= i && i + 1 < s.len() ==> #[trigger] lex_le(s[i], s[i + 1])
}

/// Strictly ascending lexicographic order: sorted, and no two adjacent
/// entries equal.
pub open spec fn strictly_sorted(s: Seq<Seq<u8>>) -> bool {
    forall|i: int|
        0 <= i && i + 1 < s.len() ==> #[trigger] lex_le(s[i], s[i + 1]) && s[i] != s[i + 1]
}

proof fn lemma_lex_le_refl(a: Seq<u8>)
    ensures
        lex_le(a, a),
    decreases a.len(),
{
    if a.len() > 0 {
        lemma_lex_le_refl(a.skip(1));
    }
}

proof fn lemma_lex_le_total(a: Seq<u8>, b: Seq<u8>)
    ensures
        lex_le(a, b) || lex_le(b, a),
    decreases a.len(),
{
    if a.len() > 0 && b.len() > 0 && a[0] == b[0] {
        lemma_lex_le_total(a.skip(1), b.skip(1));
    }
}

proof fn lemma_lex_le_antisym(a: Seq<u8>, b: Seq<u8>)
    requires
        lex_le(a, b),
        lex_le(b, a),
    ensures
        a == b,
    decreases a.len(),
{
    if a.len() == 0 {
        assert(b.len() == 0);
        assert(a =~= b);
    } else {
        assert(b.len() > 0);
        assert(a[0] == b[0]);
        lemma_lex_le_antisym(a.skip(1), b.skip(1));
        assert(a.skip(1).len() == a.len() - 1);
        assert(b.skip(1).len() == b.len() - 1);
        assert(a.len() == b.len());
        assert forall|i: int| 1 <= i < a.len() implies a[i] == b[i] by {
            assert(a.skip(1)[i - 1] == a[i]);
            assert(b.skip(1)[i - 1] == b[i]);
        }
        assert(a =~= b);
    }
}

proof fn lemma_lex_le_trans(a: Seq<u8>, b: Seq<u8>, c: Seq<u8>)
    requires
        lex_le(a, b),
        lex_le(b, c),
    ensures
        lex_le(a, c),
    decreases a.len(),
{
    if a.len() > 0 {
        assert(b.len() > 0);
        assert(c.len() > 0);
        if a[0] == b[0] && b[0] == c[0] {
            lemma_lex_le_trans(a.skip(1), b.skip(1), c.skip(1));
        }
    }
}

proof fn lemma_sorted_le_pair(s: Seq<Seq<u8>>, i: int, j: int)
    requires
        strictly_sorted(s),
        0 <= i <= j < s.len(),
    ensures
        lex_le(s[i], s[j]),
    decreases j - i,
{
    if i == j {
        lemma_lex_le_refl(s[i]);
    } else {
        lemma_sorted_le_pair(s, i, j - 1);
        assert(lex_le(s[j - 1], s[(j - 1) + 1]));
        lemma_lex_le_trans(s[i], s[j - 1], s[j]);
    }
}

/// A strictly ascending sequence holds no entry twice.
pub proof fn lemma_strictly_sorted_no_dup(s: Seq<Seq<u8>>)
    requires
        strictly_sorted(s),
    ensures
        forall|i: int, j: int| 0 <= i < j < s.len() ==> s[i] != s[j],
{
    assert forall|i: int, j: int| 0 <= i < j < s.len() implies s[i] != s[j] by {
        if s[i] == s[j] {
            lemma_sorted_le_pair(s, i + 1, j);
            assert(lex_le(s[i], s[i + 1]));
            lemma_lex_le_antisym(s[i], s[i + 1]);
        }
    }
}

proof fn lemma_push_contains(s: Seq<Seq<u8>>, e: Seq<u8>, x: Seq<u8>)
    ensures
        s.push(e).contains(x) <==> (s.contains(x) || x == e),
{
    if s.push(e).contains(x) {
        let k = choose|k: int| 0 <= k < s.push(e).len() && s.push(e)[k] == x;
        if k < s.len() {
            assert(s[k] == x);
        }
    }
    if s.contains(x) {
        let k = choose|k: int| 0 <= k < s.len() && s[k] == x;
        assert(s.push(e)[k] == x);
    }
    if x == e {
        assert(s.push(e)[s.len() as int] == x);
    }
}

/// True when the two byte strings hold the same bytes.
fn bytes_eq(a: &[u8], b: &[u8]) -> (r: bool)
    ensures
        r == (a@ == b@),
{
    if a.len() != b.len() {
        proof {
            assert(a@.len() != b@.len());
        }
        return false;
    }
    let n = a.len();
    let mut i: usize = 0;
    while i < n
        invariant
            0 <= i <= n,
            n == a@.len(),
            n == b@.len(),
            forall|k: int| 0 <= k < i ==> a@[k] == b@[k],
        decreases n - i,
    {
        if a[i] != b[i] {
            return false;
        }
        i = i + 1;
    }
    proof {
        assert(a@ =~= b@);
    }
    true
}

/// One track name, copied out.
pub(crate) fn copy_bytes(src: &[u8]) -> (r: Vec<u8>)
    ensures
        r@ == src@,
{
    let mut t: Vec<u8> = Vec::new();
    let mut j: usize = 0;
    while j < src.len()
        invariant
            0 <= j <= src@.len(),
            t@ == src@.take(j as int),
        decreases src@.len() - j,
    {
        t.push(src[j]);
        proof {
            assert(src@.take(j + 1) =~= src@.take(j as int).push(src@[j as int]));
        }
        j = j + 1;
    }
    proof {
        assert(t@ =~= src@);
    }
    t
}

/// The audio files among the given names, in their given order.
fn filter_audio(tracks: &Vec<Vec<u8>>) -> (r: Vec<Vec<u8>>)
    ensures
        forall|x: Seq<u8>|
            #[trigger] r.deep_view().contains(x) <==> (tracks.deep_view().contains(x)
                && spec_is_audio_file(x)),
{
    let mut out: Vec<Vec<u8>> = Vec::new();
    let mut i: usize = 0;
    while i < tracks.len()
        invariant
            0 <= i <= tracks@.len(),
            forall|x: Seq<u8>|
                #[trigger] out.deep_view().contains(x) <==> (tracks.deep_view().take(
                    i as int,
                ).contains(x) && spec_is_audio_file(x)),
        decreases tracks@.len() - i,
    {
        let keep = is_audio_file(tracks[i].as_slice());
        proof {
            let dv = tracks.deep_view();
            let e = dv[i as int];
            assert(e =~= tracks@[i as int]@);
            assert(dv.take(i + 1) =~= dv.take(i as int).push(e));
            assert forall|x: Seq<u8>|
                #[trigger] dv.take(i + 1).contains(x) <==> (dv.take(i as int).contains(x) || x
                    == e) by {
                lemma_push_contains(dv.take(i as int), e, x);
            }
        }
        if keep {
            let t = copy_bytes(tracks[i].as_slice());
            let ghost prev = out.deep_view();
            out.push(t);
            proof {
                let dv = tracks.deep_view();
                let e = dv[i as int];
                assert(out.deep_view() =~= prev.push(e));
                assert forall|x: Seq<u8>|
                    #[trigger] out.deep_view().contains(x) <==> (prev.contains(x) || x == e) by {
                    lemma_push_contains(prev, e, x);
                }
            }
        }
        i = i + 1;
    }
    proof {
        assert(tracks.deep_view().take(tracks@.len() as int) =~= tracks.deep_view());
    }
    out
}

/// Lexicographic comparison of two byte strings.
fn lex_le_exec(a: &[u8], b: &[u8]) -> (r: bool)
    ensures
        r == lex_le(a@, b@),
{
    proof {
        assert(a@.skip(0) =~= a@);
        assert(b@.skip(0) =~= b@);
    }
    let mut i: usize = 0;
    loop
        invariant
            0 <= i <= a@.len(),
            i <= b@.len(),
            lex_le(a@, b@) == lex_le(a@.skip(i as int), b@.skip(i as int)),
        decreases a@.len() - i,
    {
        if i == a.len() {
            return true;
        }
        if i == b.len() {
            return false;
        }
        if a[i] < b[i] {
            return true;
        }
        if a[i] > b[i] {
            return false;
        }
        proof {
            assert(a@.skip(i as int).skip(1) =~= a@.skip(i + 1));
            assert(b@.skip(i as int).skip(1) =~= b@.skip(i + 1));
        }
        i = i + 1;
    }
}

/// Reorder the tracks in place into ascending lexicographic order, by
/// insertion, keeping exactly the same contents.
fn sort_tracks(v: &mut Vec<Vec<u8>>)
    ensures
        final (v).deep_view().to_multiset() == old(v).deep_view().to_multiset(),
        sorted_le(final (v).deep_view()),
{
    broadcast use vstd::seq_lib::group_to_multiset_ensures;

    let ghost orig_ms = v.deep_view().to_multiset();
    if v.len() < 2 {
        return ;
    }
    let mut i: usize = 1;
    while i < v.len()
        invariant
            1 <= i <= v@.len(),
            orig_ms == old(v).deep_view().to_multiset(),
            v.deep_view().to_multiset() == orig_ms,
            sorted_le(v.deep_view().take(i as int)),
        decreases v@.len() - i,
    {
        let mut p: usize = 0;
        while p < i && lex_le_exec(v[p].as_slice(), v[i].as_slice())
            invariant
                0 <= p <= i < v@.len(),
                forall|k: int| 0 <= k < p ==> lex_le(v.deep_view()[k], v.deep_view()[i as int]),
            decreases i - p,
        {
            proof {
                assert(v.deep_view()[p as int] =~= v@[p as int]@);
                assert(v.deep_view()[i as int] =~= v@[i as int]@);
            }
            p = p + 1;
        }
        proof {
            assert(v.deep_view()[p as int] =~= v@[p as int]@);
            assert(v.deep_view()[i as int] =~= v@[i as int]@);
            if p < i {
                lemma_lex_le_total(v.deep_view()[p as int], v.deep_view()[i as int]);
            }
        }
        let ghost s = v.deep_view();
        let e = v.remove(i);
        proof {
            broadcast use vstd::seq_lib::group_to_multiset_ensures;

            assert(v.deep_view() =~= s.remove(i as int));
            assert(s.contains(s[i as int]));
            assert(s.to_multiset().count(s[i as int]) > 0);
        }
        let ghost s1 = v.deep_view();
        v.insert(p, e);
        proof {
            broadcast use vstd::multiset::group_multiset_axioms;

            assert(e.deep_view() == s[i as int]);
            assert(v.deep_view() =~= s1.insert(p as int, s[i as int]));
            vstd::seq_lib::to_multiset_insert(s1, p as int, s[i as int]);
            assert(s.to_multiset().remove(s[i as int]).insert(s[i as int]) =~= s.to_multiset());

            // Sortedness of the grown prefix.
            let t = v.deep_view();
            assert forall|k: int| 0 <= k && k + 1 < i + 1 implies #[trigger] lex_le(
                t.take(i + 1)[k],
                t.take(i + 1)[k + 1],
            ) by {
                assert(forall|m: int| 0 <= m < p ==> t[m] == s[m]);
                assert(t[p as int] == s[i as int]);
                assert(forall|m: int| p < m <= i ==> t[m] == s[m - 1]);
                assert(forall|m: int|
                    0 <= m && m + 1 < i ==> #[trigger] lex_le(s.take(i as int)[m], s.take(i as int)[m + 1]));
                assert(forall|m: int| 0 <= m < i ==> s.take(i as int)[m] == s[m]);
                if k + 1 < p {
                    assert(lex_le(s.take(i as int)[k], s.take(i as int)[k + 1]));
                    assert(lex_le(s[k], s[k + 1]));
                } else if k + 1 == p {
                    assert(lex_le(s[k], s[i as int]));
                } else if k == p {
                    assert(p < i);
                    assert(lex_le(s[i as int], s[p as int]));
                } else {
                    assert(lex_le(s.take(i as int)[k - 1], s.take(i as int)[(k - 1) + 1]));
                    assert(lex_le(s[k - 1], s[k]));
                }
            }
        }
        i = i + 1;
    }
    proof {
        assert(v.deep_view().take(v@.len() as int) =~= v.deep_view());
        assert(sorted_le(v.deep_view()));
    }
}

/// Select the audio files of a directory listing and fix the base order
/// of a run: sorted ascending, duplicates dropped. The result holds
/// exactly the audio files among the given names, each once, in strictly
/// ascending order.
pub fn prepare_track_list(tracks: Vec<Vec<u8>>) -> (r: Vec<Vec<u8>>)
    ensures
        strictly_sorted(r.deep_view()),
        forall|i: int, j: int|
            0 <= i < j < r.deep_view().len() ==> r.deep_view()[i] != r.deep_view()[j],
        forall|x: Seq<u8>|
            #[trigger] r.deep_view().contains(x) <==> (tracks.deep_view().contains(x)
                && spec_is_audio_file(x)),
{
    broadcast use vstd::seq_lib::group_to_multiset_ensures;

    let mut kept = filter_audio(&tracks);
    let ghost filtered = kept.deep_view();
    sort_tracks(&mut kept);
    proof {
        assert forall|x: Seq<u8>| #[trigger] kept.deep_view().contains(x) <==> filtered.contains(
            x,
        ) by {
            if kept.deep_view().contains(x) {
                assert(kept.deep_view().to_multiset().count(x) > 0);
            }
            if filtered.contains(x) {
                assert(filtered.to_multiset().count(x) > 0);
            }
        }
    }
    let mut out: Vec<Vec<u8>> = Vec::new();
    let mut i: usize = 0;
    while i < kept.len()
        invariant
            0 <= i <= kept@.len(),
            sorted_le(kept.deep_view()),
            forall|x: Seq<u8>|
                #[trigger] kept.deep_view().contains(x) <==> (tracks.deep_view().contains(x)
                    && spec_is_audio_file(x)),
            i == 0 ==> out@.len() == 0,
            i > 0 ==> out@.len() > 0 && out.deep_view().last() == kept.deep_view()[i - 1],
            strictly_sorted(out.deep_view()),
            forall|x: Seq<u8>|
                #[trigger] out.deep_view().contains(x) <==> kept.deep_view().take(
                    i as int,
                ).contains(x),
        decreases kept@.len() - i,
    {
        let dup = if out.len() > 0 {
            bytes_eq(out[out.len() - 1].as_slice(), kept[i].as_slice())
        } else {
            false
        };
        proof {
            let kv = kept.deep_view();
            let e = kv[i as int];
            assert(e =~= kept@[i as int]@);
            assert(kv.take(i + 1) =~= kv.take(i as int).push(e));
            assert forall|x: Seq<u8>|
                #[trigger] kv.take(i + 1).contains(x) <==> (kv.take(i as int).contains(x) || x
                    == e) by {
                lemma_push_contains(kv.take(i as int), e, x);
            }
            if out@.len() > 0 {
                assert(out.deep_view().last() =~= out@[out@.len() - 1]@);
            }
        }
        if !dup {
            let t = copy_bytes(kept[i].as_slice());
            let ghost prev = out.deep_view();
            out.push(t);
            proof {
                let kv = kept.deep_view();
                let e = kv[i as int];
                assert(out.deep_view() =~= prev.push(e));
                assert forall|x: Seq<u8>|
                    #[trigger] out.deep_view().contains(x) <==> (prev.contains(x) || x == e) by {
                    lemma_push_contains(prev, e, x);
                }
                assert forall|k: int|
                    0 <= k && k + 1 < out.deep_view().len() implies #[trigger] lex_le(
                    out.deep_view()[k],
                    out.deep_view()[k + 1],
                ) && out.deep_view()[k] != out.deep_view()[k + 1] by {
                    if k + 2 < out.deep_view().len() {
                        assert(out.deep_view()[k] == prev[k]);
                        assert(out.deep_view()[k + 1] == prev[k + 1]);
                    } else {
                        assert(i > 0 ==> prev.last() == kv[i - 1]);
                        assert(i > 0 ==> lex_le(kv[i - 1], kv[(i - 1) + 1]));
                    }
                }
            }
        } else {
            proof {
                let kv = kept.deep_view();
                let e = kv[i as int];
                assert(out.deep_view().last() == e);
                assert(out.deep_view().contains(e));
            }
        }
        i = i + 1;
    }
    proof {
        assert(kept.deep_view().take(kept@.len() as int) =~= kept.deep_view());
        lemma_strictly_sorted_no_dup(out.deep_view());
    }
    out
}

} // verus!
