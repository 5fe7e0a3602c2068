use std::collections::HashMap;
use vstd::std_specs::iter::IteratorSpec;
use vstd::prelude::*;

use super::packet::{silent_packet, DiscordAudioPacket, PacketView, PACKET_INTERVAL};
use super::track::{
    dropped_fill, insert_fits, lemma_inserted, silence_fill, track_from_items, Track, TrackState,
};

verus! {

broadcast use vstd::std_specs::hash::group_hash_axioms;

/// The volume, out of 255, that a new track starts with.
pub const FULL_VOLUME: u8 = 255;

/// The audio of every speaker in a voice channel, one track per SSRC.
///
/// The state `b@` holds, for each SSRC in `data`, the state of its track
/// (`b@.tracks` is `data@` with each track taken by its view), and the
/// capacity and size given to the buffer.
pub struct DiscordAudioBuffer {
    /// The track of each SSRC.
    pub data: HashMap<u32, Track>,
    capacity: usize,
    size: usize,
}

/// The abstract state of a buffer.
pub struct BufferState {
    pub tracks: Map<u32, TrackState>,
    pub capacity: nat,
    pub size: nat,
}

impl View for DiscordAudioBuffer {
    type V = BufferState;

    closed spec fn view(&self) -> BufferState {
        BufferState {
            tracks: self.data@.map_values(|t: Track| t@),
            capacity: self.capacity as nat,
            size: self.size as nat,
        }
    }
}

/// `v` is the length of the longest track, or 0 when there is none.
pub open spec fn is_largest(m: Map<u32, TrackState>, v: nat) -> bool {
    &&& forall|k: u32| #[trigger] m.contains_key(k) ==> m[k].packets.len() <= v
    &&& v == 0 || exists|k: u32| #[trigger] m.contains_key(k) && m[k].packets.len() == v
}

/// A change of a buffer: a packet arrives (`insert_item`), or the volume of
/// a speaker's track is set (`update_track_mix`).
pub enum BufferOp {
    Insert(PacketView),
    SetVolume(u32, u8),
}

/// The length of the longest track, or 0 when there is none.
pub open spec fn largest(m: Map<u32, TrackState>) -> nat {
    choose|v: nat| is_largest(m, v)
}

/// Every finite map of tracks has a longest length.
pub proof fn lemma_largest_exists(m: Map<u32, TrackState>)
    requires
        m.dom().finite(),
    ensures
        is_largest(m, largest(m)),
    decreases m.dom().len(),
{
    if m.dom().len() == 0 {
        assert forall|k: u32| #[trigger] m.contains_key(k) implies m[k].packets.len() <= 0 by {
            assert(m.dom().contains(k));
        }
        assert(is_largest(m, 0));
    } else {
        let k0 = m.dom().choose();
        let m2 = m.remove(k0);
        assert(m2.dom() =~= m.dom().remove(k0));
        lemma_largest_exists(m2);
        let v2 = largest(m2);
        let l = m[k0].packets.len();
        if l > v2 {
            assert(is_largest(m, l));
        } else {
            assert forall|k: u32| #[trigger] m.contains_key(k) implies m[k].packets.len() <= v2 by {
                if k != k0 {
                    assert(m2.contains_key(k));
                }
            }
            if v2 != 0 {
                let w = choose|k: u32| #[trigger] m2.contains_key(k) && m2[k].packets.len() == v2;
                assert(m.contains_key(w));
            }
            assert(is_largest(m, v2));
        }
    }
}

/// The longest length is unique.
pub proof fn lemma_largest_unique(m: Map<u32, TrackState>, v1: nat, v2: nat)
    requires
        is_largest(m, v1),
        is_largest(m, v2),
    ensures
        v1 == v2,
{
    if v1 < v2 {
        let w = choose|k: u32| #[trigger] m.contains_key(k) && m[k].packets.len() == v2;
        assert(m.contains_key(w));
    } else if v2 < v1 {
        let w = choose|k: u32| #[trigger] m.contains_key(k) && m[k].packets.len() == v1;
        assert(m.contains_key(w));
    }
}

/// Silent packets that line a new speaker's track up with the others: `n`
/// packets at 20 ms steps before `p`, numbered just below it (or 0 when
/// `p`'s number is too small).
pub open spec fn lead_in(p: PacketView, n: nat) -> Seq<PacketView> {
    Seq::new(
        n,
        |x: int|
            silent_packet(
                p.ssrc,
                if p.sequence > n {
                    (p.sequence - (n - x)) as u16
                } else {
                    0u16
                },
                (p.timestamp - (n - x) * PACKET_INTERVAL) as u64,
                p.stereo,
            ),
    )
}

/// How many lead-in packets a new track gets when the longest track holds
/// `largest` packets (the length taken modulo 2^16).
pub open spec fn lead_in_len(largest: nat) -> int {
    (largest % 65536) as int - 1
}

/// The track made for a new speaker whose first packet is `p`.
pub open spec fn new_track(p: PacketView, largest: nat) -> TrackState {
    if largest == 0 {
        TrackState::empty(FULL_VOLUME)
    } else {
        track_from_items(FULL_VOLUME, lead_in(p, lead_in_len(largest) as nat))
    }
}

/// A track with its `c` oldest packets dropped.
pub open spec fn without_oldest(t: TrackState, c: nat) -> TrackState {
    TrackState {
        packets: if t.packets.len() > c {
            t.packets.take(t.packets.len() - c)
        } else {
            Seq::empty()
        },
        ..t
    }
}

/// Every track with its `c` oldest packets dropped; tracks left empty are
/// removed.
pub open spec fn trimmed(m: Map<u32, TrackState>, c: nat) -> Map<u32, TrackState> {
    Map::new(
        |k: u32| m.contains_key(k) && m[k].packets.len() > c,
        |k: u32| without_oldest(m[k], c),
    )
}

impl BufferState {
    /// The track that `p` is added to.
    pub open spec fn base_track(self, p: PacketView) -> TrackState {
        if self.tracks.contains_key(p.ssrc) {
            self.tracks[p.ssrc]
        } else {
            new_track(p, largest(self.tracks))
        }
    }

    /// Adding `p` computes only values that fit their types.
    pub open spec fn can_insert(self, p: PacketView) -> bool {
        &&& (!self.tracks.contains_key(p.ssrc) && largest(self.tracks) > 0) ==> {
            &&& largest(self.tracks) % 65536 != 0
            &&& p.timestamp >= lead_in_len(largest(self.tracks)) * PACKET_INTERVAL
        }
        &&& insert_fits(self.base_track(p).prev, p)
    }

    /// The buffer after the volume of the track of `ssrc`, if there is one,
    /// is set to `volume`.
    pub open spec fn with_volume(self, ssrc: u32, volume: u8) -> BufferState {
        if self.tracks.contains_key(ssrc) {
            BufferState {
                tracks: self.tracks.insert(ssrc, TrackState { volume, ..self.tracks[ssrc] }),
                ..self
            }
        } else {
            self
        }
    }

    /// The buffer after one change.
    pub open spec fn apply(self, op: BufferOp) -> BufferState {
        match op {
            BufferOp::Insert(p) => self.with_packet(p),
            BufferOp::SetVolume(ssrc, volume) => self.with_volume(ssrc, volume),
        }
    }

    /// The buffer after the changes `ops`, first to last.
    pub open spec fn apply_all(self, ops: Seq<BufferOp>) -> BufferState
        decreases ops.len(),
    {
        if ops.len() == 0 {
            self
        } else {
            self.apply_all(ops.drop_last()).apply(ops.last())
        }
    }

    /// Every track holds at least one packet and at most `capacity`.
    pub open spec fn bounded(self) -> bool {
        forall|k: u32| #[trigger]
            self.tracks.contains_key(k) ==> 0 < self.tracks[k].packets.len() <= self.capacity
    }

    /// The buffer after `p` arrives: `p` joins its speaker's track; when that
    /// track grows beyond the capacity, every track loses as many of its
    /// oldest packets as the track exceeds it by.
    pub open spec fn with_packet(self, p: PacketView) -> BufferState {
        let t = self.base_track(p).inserted(p);
        let m = self.tracks.insert(p.ssrc, t);
        if t.packets.len() > self.capacity {
            BufferState { tracks: trimmed(m, (t.packets.len() - self.capacity) as nat), ..self }
        } else {
            BufferState { tracks: m, ..self }
        }
    }
}

/// A new buffer holds no track.
pub proof fn lemma_new_bounded(capacity: nat)
    ensures
        (BufferState { tracks: Map::empty(), capacity, size: 0 }).bounded(),
{
}

/// Adding a packet keeps every track between one packet and the capacity.
pub proof fn lemma_with_packet_bounded(s: BufferState, p: PacketView)
    requires
        s.bounded(),
    ensures
        s.with_packet(p).bounded(),
        s.with_packet(p).capacity == s.capacity,
        s.with_packet(p).size == s.size,
{
    let base = s.base_track(p);
    let t = base.inserted(p);
    lemma_inserted(base, p);
    assert(t.packets.len() > 0) by {
        if !s.tracks.contains_key(p.ssrc) && largest(s.tracks) > 0 && base.prev is Some {
            assert(base.packets.len() > 0);
        }
    }
    let m = s.tracks.insert(p.ssrc, t);
    if t.packets.len() > s.capacity {
        let c = (t.packets.len() - s.capacity) as nat;
        assert forall|k: u32| #[trigger] trimmed(m, c).contains_key(k) implies 0 < trimmed(
            m,
            c,
        )[k].packets.len() <= s.capacity by {
            assert(m[k].packets.len() <= t.packets.len());
        }
    }
}

/// While the capacity is not zero, the newest packet of a speaker that its
/// track takes in is the newest packet of that speaker's track afterwards.
pub proof fn lemma_with_packet_keeps_newest(s: BufferState, p: PacketView)
    requires
        s.capacity > 0,
        s.base_track(p).accepts(p),
    ensures
        s.with_packet(p).tracks.contains_key(p.ssrc),
        s.with_packet(p).tracks[p.ssrc].packets[0] == p,
{
    let base = s.base_track(p);
    lemma_inserted(base, p);
}

/// A new speaker whose first packet is numbered at least the length of the
/// longest track joins with a track exactly that long (lined up with it).
pub proof fn lemma_new_speaker_lined_up(s: BufferState, p: PacketView)
    requires
        !s.tracks.contains_key(p.ssrc),
        0 < largest(s.tracks) < 65536,
        p.sequence >= largest(s.tracks),
        s.can_insert(p),
    ensures
        s.base_track(p).inserted(p).packets.len() == largest(s.tracks),
{
    let l = largest(s.tracks);
    let n = (l - 1) as nat;
    let items = lead_in(p, n);
    let base = s.base_track(p);
    assert(base == track_from_items(FULL_VOLUME, items));
    if n > 0 {
        let last = items[n - 1];
        assert(last.sequence == p.sequence - 1);
        assert(last.timestamp == p.timestamp - 20);
        assert(dropped_fill(last, p) =~= Seq::<PacketView>::empty());
        assert(silence_fill(last, p) =~= Seq::<PacketView>::empty());
    }
}

/// Any sequence of changes keeps the capacity and the size, and keeps every
/// track between one packet and the capacity.
pub proof fn lemma_apply_all(s: BufferState, ops: Seq<BufferOp>)
    ensures
        s.apply_all(ops).capacity == s.capacity,
        s.apply_all(ops).size == s.size,
        s.bounded() ==> s.apply_all(ops).bounded(),
    decreases ops.len(),
{
    if ops.len() > 0 {
        lemma_apply_all(s, ops.drop_last());
        let mid = s.apply_all(ops.drop_last());
        match ops.last() {
            BufferOp::Insert(p) => {
                if mid.bounded() {
                    lemma_with_packet_bounded(mid, p);
                }
            },
            BufferOp::SetVolume(ssrc, volume) => {},
        }
    }
}

/// The tracks of a buffer are finitely many.
pub proof fn lemma_tracks_finite(b: &DiscordAudioBuffer)
    ensures
        b@.tracks.dom().finite(),
{
    assert(b@.tracks.dom() =~= b.data@.dom());
}

/// Setting the volume of one speaker's track changes that volume only: the
/// same speakers keep tracks, the speaker's packets and last packet stay,
/// and every other speaker's track is exactly as before.
pub proof fn lemma_with_volume(s: BufferState, ssrc: u32, volume: u8)
    ensures
        s.with_volume(ssrc, volume).capacity == s.capacity,
        s.with_volume(ssrc, volume).size == s.size,
        s.with_volume(ssrc, volume).tracks.dom() == s.tracks.dom(),
        s.tracks.contains_key(ssrc) ==> {
            let t = s.with_volume(ssrc, volume).tracks[ssrc];
            &&& t.volume == volume
            &&& t.packets == s.tracks[ssrc].packets
            &&& t.prev == s.tracks[ssrc].prev
        },
        forall|k: u32|
            k != ssrc && #[trigger] s.tracks.contains_key(k) ==> s.with_volume(
                ssrc,
                volume,
            ).tracks[k] == s.tracks[k],
{
    if s.tracks.contains_key(ssrc) {
        assert(s.with_volume(ssrc, volume).tracks.dom() =~= s.tracks.dom());
    }
}

fn new_track_for(p: &DiscordAudioPacket, largest: usize) -> (t: Track)
    requires
        largest > 0 ==> {
            &&& largest % 65536 != 0
            &&& p.timestamp >= lead_in_len(largest as nat) * PACKET_INTERVAL
        },
    ensures
        t@ == new_track(p@, largest as nat),
{
    if largest == 0 {
        return Track::new(FULL_VOLUME);
    }
    let len: u16 = (largest % 65536) as u16 - 1;
    let mut buffer: Vec<DiscordAudioPacket> = Vec::new();
    let mut x: u16 = 0;
    while x < len
        invariant
            x <= len,
            len == lead_in_len(largest as nat),
            p.timestamp >= len * PACKET_INTERVAL,
            buffer@.map_values(|q: DiscordAudioPacket| q@) == lead_in(p@, len as nat).take(x as int),
        decreases len - x,
    {
        let mut sequence: u16 = 0;
        if p.sequence > len {
            sequence = p.sequence - (len - x);
        }
        let q = DiscordAudioPacket::silent(
            p.ssrc,
            sequence,
            p.timestamp - (len - x) as u64 * 20,
            p.stereo,
        );
        let ghost before = buffer@;
        let ghost qv = q@;
        assert(qv == lead_in(p@, len as nat)[x as int]);
        buffer.push(q);
        assert(buffer@.map_values(|q: DiscordAudioPacket| q@) =~= before.map_values(
            |q: DiscordAudioPacket| q@,
        ).push(qv));
        assert(buffer@.map_values(|q: DiscordAudioPacket| q@) =~= lead_in(p@, len as nat).take(
            x + 1,
        ));
        x = x + 1;
    }
    assert(lead_in(p@, len as nat).take(len as int) =~= lead_in(p@, len as nat));
    Track::new_with_items(FULL_VOLUME, buffer)
}

impl DiscordAudioBuffer {
    pub fn new(capacity: usize) -> (b: Self)
        ensures
            b@ == (BufferState { tracks: Map::empty(), capacity: capacity as nat, size: 0 }),
    {
        let b = Self { data: HashMap::new(), capacity, size: 0 };
        assert(b@.tracks =~= Map::empty());
        b
    }

    pub fn capacity(&self) -> (c: usize)
        ensures
            c == self@.capacity,
    {
        self.capacity
    }

    pub fn size(&self) -> (s: usize)
        ensures
            s == self@.size,
    {
        self.size
    }

    /// Adds a packet to its speaker's track, making the track first when the
    /// speaker is new (lined up with the longest track by silent packets);
    /// when the track then holds more packets than the capacity, every track
    /// drops as many of its oldest packets as it exceeds the capacity by, and
    /// tracks left empty are removed.
    pub fn insert_item(&mut self, data: DiscordAudioPacket)
        requires
            old(self)@.can_insert(data@),
        ensures
            final(self)@ == old(self)@.with_packet(data@),
    {
        let ghost p = data@;
        let ghost before = self@;
        let ssrc = data.ssrc;
        let mut largest_track_size: usize = 0;
        if !self.data.contains_key(&ssrc) {
            largest_track_size = self.largest_track_size();
        }
        let mut track = match self.data.remove(&ssrc) {
            Some(t) => t,
            None => new_track_for(&data, largest_track_size),
        };
        assert(track@ == before.base_track(p));
        assert(self@.tracks =~= before.tracks.remove(ssrc));
        track.insert_packet(data);
        let track_size = track.len();
        let ghost t = track@;
        self.data.insert(ssrc, track);
        assert(self@.tracks =~= before.tracks.insert(ssrc, t));
        if track_size > self.capacity {
            let overflow = track_size - self.capacity;
            self.trim(overflow);
        }
    }

    /// Whether `insert_item` may be called with `data`: whether the packets
    /// it makes get sequence numbers and timestamps that fit their types.
    pub fn can_insert_item(&self, data: &DiscordAudioPacket) -> (r: bool)
        ensures
            r == self@.can_insert(data@),
    {
        match self.track(data.ssrc) {
            Some(t) => t.fits(data),
            None => {
                let largest = self.largest_track_size();
                if largest == 0 {
                    return true;
                }
                if largest % 65536 == 0 {
                    return false;
                }
                let n: u64 = (largest % 65536) as u64 - 1;
                if data.timestamp < n * 20 {
                    return false;
                }
                if n == 0 {
                    assert(lead_in(data@, 0) =~= Seq::<PacketView>::empty());
                    return true;
                }
                let ghost last = lead_in(data@, n as nat)[n - 1];
                let prev_sequence: u16 = if data.sequence as u64 > n {
                    data.sequence - 1
                } else {
                    0
                };
                let prev_timestamp: u64 = data.timestamp - 20;
                assert(last.sequence == prev_sequence && last.timestamp == prev_timestamp);
                let dropped: u64 = if data.sequence > prev_sequence {
                    (data.sequence - prev_sequence - 1) as u64
                } else {
                    0
                };
                prev_timestamp <= u64::MAX - dropped * 20
            },
        }
    }

    /// Drops the `overflow` oldest packets of every track and removes the
    /// tracks left empty.
    fn trim(&mut self, overflow: usize)
        ensures
            final(self)@ == (BufferState {
                tracks: trimmed(old(self)@.tracks, overflow as nat),
                ..old(self)@
            }),
    {
        let keys = self.ssrcs();
        let ghost orig = self@.tracks;
        let mut i: usize = 0;
        while i < keys.len()
            invariant
                i <= keys@.len(),
                keys@.to_set() == orig.dom(),
                keys@.no_duplicates(),
                self.capacity == old(self).capacity,
                self.size == old(self).size,
                forall|k: u32| #[trigger]
                    self@.tracks.contains_key(k) <==> (orig.contains_key(k) && (keys@.take(
                        i as int,
                    ).contains(k) ==> orig[k].packets.len() > overflow)),
                forall|k: u32| #[trigger]
                    self@.tracks.contains_key(k) ==> self@.tracks[k] == if keys@.take(
                        i as int,
                    ).contains(k) {
                        without_oldest(orig[k], overflow as nat)
                    } else {
                        orig[k]
                    },
            decreases keys@.len() - i,
        {
            let k = keys[i];
            let ghost done = keys@.take(i as int);
            proof {
                assert(keys@.to_set().contains(k));
                if done.contains(k) {
                    let j = choose|j: int| 0 <= j < done.len() && done[j] == k;
                    assert(keys@[j] == keys@[i as int]);
                    assert(false);
                }
                assert(!done.contains(k));
                assert(self@.tracks.contains_key(k));
                assert(self.data@.contains_key(k));
                assert(keys@.take(i + 1) =~= done.push(k));
            }
            let ghost tracks0 = self@.tracks;
            let mut t = self.data.remove(&k).unwrap();
            assert(t@ == orig[k]);
            assert(self@.tracks =~= tracks0.remove(k));
            assert(without_oldest(orig[k], 0).packets =~= orig[k].packets);
            let mut c: usize = 0;
            while c < overflow
                invariant
                    c <= overflow,
                    orig.contains_key(k),
                    t@ == without_oldest(orig[k], c as nat),
                decreases overflow - c,
            {
                t.pop();
                assert(t@.packets =~= without_oldest(orig[k], (c + 1) as nat).packets);
                c = c + 1;
            }
            if t.len() > 0 {
                let ghost tv = t@;
                let ghost tracks1 = self@.tracks;
                self.data.insert(k, t);
                assert(self@.tracks =~= tracks1.insert(k, tv));
            }
            proof {
                let next = keys@.take(i + 1);
                assert(next.contains(k)) by {
                    assert(next[i as int] == k);
                }
                assert forall|k2: u32| k2 != k implies (next.contains(k2) <==> done.contains(k2)) by {
                    if done.contains(k2) {
                        let j = choose|j: int| 0 <= j < done.len() && done[j] == k2;
                        assert(next[j] == k2);
                    }
                    if next.contains(k2) {
                        let j = choose|j: int| 0 <= j < next.len() && next[j] == k2;
                        assert(done[j] == k2);
                    }
                }
            }
            i = i + 1;
        }
        proof {
            assert(keys@.take(keys@.len() as int) =~= keys@);
            assert forall|k: u32| keys@.contains(k) <==> orig.contains_key(k) by {
                assert(keys@.to_set().contains(k) <==> keys@.contains(k));
            }
            assert(self@.tracks =~= trimmed(orig, overflow as nat));
        }
    }

    /// Sets the volume of the track of `ssrc`; fails when there is none.
    pub fn update_track_mix(&mut self, ssrc: u32, volume: u8) -> (r: Result<(), &'static str>)
        ensures
            final(self)@ == old(self)@.with_volume(ssrc, volume),
            final(self)@.capacity == old(self)@.capacity,
            final(self)@.size == old(self)@.size,
            final(self)@.tracks.dom() == old(self)@.tracks.dom(),
            old(self)@.tracks.contains_key(ssrc) ==> final(self)@.tracks[ssrc].volume == volume
                && final(self)@.tracks[ssrc].packets == old(self)@.tracks[ssrc].packets
                && final(self)@.tracks[ssrc].prev == old(self)@.tracks[ssrc].prev,
            forall|k: u32|
                k != ssrc && #[trigger] old(self)@.tracks.contains_key(k)
                    ==> final(self)@.tracks[k] == old(self)@.tracks[k],
            old(self)@.tracks.contains_key(ssrc) ==> r == Ok::<(), &'static str>(()),
            !old(self)@.tracks.contains_key(ssrc) ==> r == Err::<(), &'static str>(
                "No track for ssrc",
            ),
    {
        proof {
            lemma_with_volume(self@, ssrc, volume);
        }
        let ghost before = self@;
        match self.data.remove(&ssrc) {
            None => {
                assert(self@.tracks =~= before.tracks);
                Err("No track for ssrc")
            },
            Some(mut t) => {
                t.set_volume(volume);
                let ghost tv = t@;
                self.data.insert(ssrc, t);
                assert(self@.tracks =~= before.tracks.insert(ssrc, tv));
                Ok(())
            },
        }
    }

    /// The track of `ssrc`, if there is one.
    pub(crate) fn track(&self, ssrc: u32) -> (r: Option<&Track>)
        ensures
            match r {
                Some(t) => self@.tracks.contains_key(ssrc) && t@ == self@.tracks[ssrc],
                None => !self@.tracks.contains_key(ssrc),
            },
    {
        self.data.get(&ssrc)
    }

    /// The SSRCs that have a track.
    pub(crate) fn ssrcs(&self) -> (keys: Vec<u32>)
        ensures
            keys@.to_set() == self@.tracks.dom(),
            keys@.no_duplicates(),
    {
        let ghost ks = vstd::std_specs::hash::spec_keys_iter(&self.data).remaining().unref();
        let mut keys: Vec<u32> = Vec::new();
        for k in it: self.data.keys()
            invariant
                it.seq() == vstd::std_specs::hash::spec_keys_iter(&self.data).remaining(),
                ks == it.seq().unref(),
                keys@.len() == it.index(),
                forall|i: int| 0 <= i < it.index() ==> keys@[i] == ks[i],
        {
            keys.push(*k);
        }
        assert(keys@.len() == ks.len());
        assert(keys@ =~= ks);
        assert(self@.tracks.dom() =~= self.data@.dom());
        keys
    }

    /// The length of the longest track, or 0 when there is none.
    pub fn largest_track_size(&self) -> (max: usize)
        ensures
            is_largest(self@.tracks, max as nat),
            max == largest(self@.tracks),
    {
        let keys = self.ssrcs();
        let ghost m = self@.tracks;
        let mut max: usize = 0;
        let mut i: usize = 0;
        while i < keys.len()
            invariant
                i <= keys@.len(),
                m == self@.tracks,
                keys@.to_set() == m.dom(),
                forall|j: int| 0 <= j < i ==> #[trigger] m[keys@[j]].packets.len() <= max,
                max == 0 || exists|j: int| 0 <= j < i && #[trigger] m[keys@[j]].packets.len() == max,
            decreases keys@.len() - i,
        {
            let k = keys[i];
            assert(keys@.to_set().contains(k));
            let t = self.data.get(&k).unwrap();
            let n = t.len();
            assert(m[keys@[i as int]].packets.len() == n);
            if n > max {
                max = n;
            }
            i = i + 1;
        }
        proof {
            assert forall|k: u32| #[trigger] m.contains_key(k) implies m[k].packets.len() <= max by {
                assert(keys@.to_set().contains(k));
                let j = choose|j: int| 0 <= j < keys@.len() && keys@[j] == k;
                assert(m[keys@[j]].packets.len() <= max);
            }
            if max != 0 {
                let j = choose|j: int| 0 <= j < i && #[trigger] m[keys@[j]].packets.len() == max;
                assert(keys@.to_set().contains(keys@[j]));
                assert(m.contains_key(keys@[j]));
            }
            assert(is_largest(m, max as nat));
            lemma_largest_exists(m);
            lemma_largest_unique(m, max as nat, largest(m));
        }
        max
    }
}

} // verus!
