use vstd::prelude::*;

use super::buffer::DiscordAudioBuffer;
use super::track::{samples, sort_by_sequence, TrackState};

verus! {

/// The samples of a track: its packets ordered by sequence number, each
/// sample scaled by the track's volume.
pub open spec fn track_samples(t: TrackState) -> Seq<i16> {
    samples(sort_by_sequence(t.packets), t.volume)
}

/// `s` followed by zeros up to length `width`.
pub open spec fn padded(s: Seq<i16>, width: nat) -> Seq<i16> {
    if s.len() >= width {
        s
    } else {
        s + Seq::new((width - s.len()) as nat, |i: int| 0i16)
    }
}

/// The samples held by each vector.
pub open spec fn sample_views(r: Seq<Vec<i16>>) -> Seq<Seq<i16>> {
    r.map_values(|v: Vec<i16>| v@)
}

/// `rs` holds, in the order `ks` of SSRCs, the samples of every track of
/// `m` padded with zeros to the length `width` of the longest.
pub open spec fn aligned(rs: Seq<Seq<i16>>, ks: Seq<u32>, width: nat, m: Map<u32, TrackState>) -> bool {
    &&& ks.no_duplicates()
    &&& ks.to_set() == m.dom()
    &&& rs.len() == ks.len()
    &&& forall|k: u32| #[trigger] m.contains_key(k) ==> track_samples(m[k]).len() <= width
    &&& width == 0 || exists|k: u32| #[trigger] m.contains_key(k) && track_samples(m[k]).len() == width
    &&& forall|i: int| 0 <= i < ks.len() ==> #[trigger] rs[i] == padded(track_samples(m[ks[i]]), width)
}

/// Aligned tracks all have the length of the longest.
pub proof fn lemma_aligned_same_length(rs: Seq<Seq<i16>>, ks: Seq<u32>, width: nat, m: Map<u32, TrackState>)
    requires
        aligned(rs, ks, width, m),
    ensures
        forall|i: int| 0 <= i < rs.len() ==> (#[trigger] rs[i]).len() == width,
{
    assert forall|i: int| 0 <= i < rs.len() implies (#[trigger] rs[i]).len() == width by {
        assert(ks.to_set().contains(ks[i]));
        assert(m.contains_key(ks[i]));
    }
}

/// The samples of every track, padded with zeros to the length of the
/// longest; the tracks come in no particular order.
pub fn aligned_tracks(buffer: &DiscordAudioBuffer) -> (r: Vec<Vec<i16>>)
    ensures
        exists|ks: Seq<u32>, width: nat|
            #[trigger] aligned(sample_views(r@), ks, width, buffer@.tracks),
{
    let keys = buffer.ssrcs();
    let ghost m = buffer@.tracks;
    let mut tracks: Vec<Vec<i16>> = Vec::new();
    let mut width: usize = 0;
    let mut i: usize = 0;
    while i < keys.len()
        invariant
            i <= keys@.len(),
            m == buffer@.tracks,
            keys@.to_set() == m.dom(),
            tracks@.len() == i,
            forall|j: int| 0 <= j < i ==> #[trigger] tracks@[j]@ == track_samples(m[keys@[j]]),
            forall|j: int| 0 <= j < i ==> #[trigger] track_samples(m[keys@[j]]).len() <= width,
            width == 0 || exists|j: int| 0 <= j < i && #[trigger] track_samples(m[keys@[j]]).len() == width,
        decreases keys@.len() - i,
    {
        let k = keys[i];
        assert(keys@.to_set().contains(k));
        let t = buffer.track(k).unwrap();
        let s = t.build_packets();
        assert(s@ == track_samples(m[keys@[i as int]]));
        let ghost w0 = width;
        if s.len() > width {
            width = s.len();
        }
        tracks.push(s);
        proof {
            if width != w0 {
                assert(track_samples(m[keys@[i as int]]).len() == width);
            } else if width != 0 {
                let j0 = choose|j: int| 0 <= j < i && #[trigger] track_samples(m[keys@[j]]).len() == width;
                assert(track_samples(m[keys@[j0]]).len() == width);
            }
        }
        i = i + 1;
    }
    let mut out: Vec<Vec<i16>> = Vec::new();
    let mut j: usize = 0;
    while j < tracks.len()
        invariant
            j <= tracks@.len(),
            tracks@.len() == keys@.len(),
            out@.len() == j,
            forall|x: int| 0 <= x < keys@.len() ==> #[trigger] tracks@[x]@ == track_samples(m[keys@[x]]),
            forall|x: int| 0 <= x < keys@.len() ==> #[trigger] track_samples(m[keys@[x]]).len() <= width,
            forall|x: int| 0 <= x < j ==> #[trigger] out@[x]@ == padded(tracks@[x]@, width as nat),
        decreases tracks@.len() - j,
    {
        let mut s = tracks[j].clone();
        assert(s@ =~= tracks@[j as int]@);
        let ghost orig = s@;
        while s.len() < width
            invariant
                orig.len() <= width,
                orig.len() <= s@.len() <= width,
                s@ == orig + Seq::new((s@.len() - orig.len()) as nat, |i: int| 0i16),
            decreases width - s@.len(),
        {
            s.push(0);
            assert(s@ =~= orig + Seq::new((s@.len() - orig.len()) as nat, |i: int| 0i16));
        }
        assert(s@ =~= padded(orig, width as nat));
        out.push(s);
        j = j + 1;
    }
    proof {
        let rs = sample_views(out@);
        assert forall|k: u32| #[trigger] m.contains_key(k) implies track_samples(m[k]).len() <= width by {
            assert(keys@.to_set().contains(k));
            let x = choose|x: int| 0 <= x < keys@.len() && keys@[x] == k;
            assert(track_samples(m[keys@[x]]).len() <= width);
        }
        if width != 0 {
            let x = choose|x: int| 0 <= x < keys@.len() && #[trigger] track_samples(m[keys@[x]]).len() == width;
            assert(keys@.to_set().contains(keys@[x]));
            assert(m.contains_key(keys@[x]));
        }
        assert forall|x: int| 0 <= x < keys@.len() implies #[trigger] rs[x] == padded(track_samples(m[keys@[x]]), width as nat) by {
            assert(out@[x]@ == padded(tracks@[x]@, width as nat));
        }
        assert(aligned(rs, keys@, width as nat, m));
    }
    out
}

} // verus!
