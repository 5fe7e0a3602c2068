use std::collections::VecDeque;
use vstd::prelude::*;

use super::packet::{opt_view, silence, silent_packet, DiscordAudioPacket, PacketView, PACKET_INTERVAL};

verus! {

broadcast use vstd::std_specs::vecdeque::group_vec_dequeue_axioms;

/// The abstract state of a track: its packets, newest first, the packet
/// that arrived last, and its volume.
pub struct TrackState {
    pub packets: Seq<PacketView>,
    pub prev: Option<PacketView>,
    pub volume: u8,
}

/// The packets of one speaker, newest at the front.
///
/// The state `t@` is made of the packets held, `prev_packet` (as `t@.prev`)
/// and `volume` (as `t@.volume`).
pub struct Track {
    data: VecDeque<DiscordAudioPacket>,
    /// The packet that arrived last: `t@.prev`.
    pub prev_packet: Option<DiscordAudioPacket>,
    /// The volume out of 255: `t@.volume`.
    pub volume: u8,
}

impl Track {
    /// The packets held, newest first.
    pub closed spec fn packets(&self) -> Seq<PacketView> {
        self.data@.map_values(|p: DiscordAudioPacket| p@)
    }
}

impl View for Track {
    type V = TrackState;

    closed spec fn view(&self) -> TrackState {
        TrackState { packets: self.packets(), prev: opt_view(self.prev_packet), volume: self.volume }
    }
}

/// A packet whose sequence number lies less than 10000 behind the last one
/// is taken to have arrived out of order.
pub open spec fn is_out_of_order(front: PacketView, p: PacketView) -> bool {
    front.sequence > p.sequence && front.sequence - p.sequence < 10000
}

/// How many sequence numbers were skipped between `front` and `p`.
pub open spec fn dropped_count(front: PacketView, p: PacketView) -> nat {
    if p.sequence > front.sequence {
        (p.sequence - front.sequence - 1) as nat
    } else {
        0
    }
}

/// Silent packets standing for the skipped sequence numbers, newest first.
pub open spec fn dropped_fill(front: PacketView, p: PacketView) -> Seq<PacketView> {
    let n = dropped_count(front, p);
    Seq::new(
        n,
        |i: int|
            silent_packet(
                p.ssrc,
                (front.sequence + (n - i)) as u16,
                (front.timestamp + (n - i) * PACKET_INTERVAL) as u64,
                p.stereo,
            ),
    )
}

/// The packet that `p`'s timestamp is compared with: the newest stand-in
/// for a skipped packet, or else `front`.
pub open spec fn gap_start(front: PacketView, p: PacketView) -> PacketView {
    if dropped_count(front, p) > 0 {
        dropped_fill(front, p)[0]
    } else {
        front
    }
}

/// How many silent frames fill a gap of `gap` milliseconds: the gap in
/// packet intervals, rounded to the nearest whole number (halves up), less
/// one; gaps of at most 40 ms are not filled.
pub open spec fn silence_frames(gap: int) -> nat {
    if gap > 40 {
        ((gap + 10) / 20 - 1) as nat
    } else {
        0
    }
}

/// Silent packets filling the time between `last` and `p`, newest first.
pub open spec fn silence_fill(last: PacketView, p: PacketView) -> Seq<PacketView> {
    let n = if p.timestamp > last.timestamp {
        silence_frames(p.timestamp - last.timestamp)
    } else {
        0
    };
    Seq::new(
        n,
        |i: int|
            silent_packet(
                p.ssrc,
                p.sequence,
                (last.timestamp + (n - i) * PACKET_INTERVAL) as u64,
                p.stereo,
            ),
    )
}

/// The stand-ins for skipped packets get timestamps that fit in a `u64`.
pub open spec fn insert_fits(prev: Option<PacketView>, p: PacketView) -> bool {
    match prev {
        Some(front) => front.timestamp + dropped_count(front, p) * PACKET_INTERVAL <= u64::MAX,
        None => true,
    }
}


/// A sample at `volume` out of 255: the product over 255, rounded toward zero.
pub open spec fn scale_sample(s: i16, volume: u8) -> i16 {
    let prod = s * volume;
    (if prod >= 0 {
        prod / 255
    } else {
        -((-prod) / 255)
    }) as i16
}

/// Every sample of `data` at `volume`.
pub open spec fn scaled(data: Seq<i16>, volume: u8) -> Seq<i16> {
    data.map_values(|s: i16| scale_sample(s, volume))
}

/// `p` placed into `sorted` after every packet whose sequence number is not
/// greater than its own.
pub open spec fn insert_by_sequence(sorted: Seq<PacketView>, p: PacketView) -> Seq<PacketView>
    decreases sorted.len(),
{
    if sorted.len() == 0 {
        seq![p]
    } else if sorted.last().sequence <= p.sequence {
        sorted.push(p)
    } else {
        insert_by_sequence(sorted.drop_last(), p).push(sorted.last())
    }
}

/// The packets ordered by sequence number; packets with equal sequence
/// numbers keep their relative order.
pub open spec fn sort_by_sequence(s: Seq<PacketView>) -> Seq<PacketView>
    decreases s.len(),
{
    if s.len() == 0 {
        s
    } else {
        insert_by_sequence(sort_by_sequence(s.drop_last()), s.last())
    }
}

/// The samples of the packets, one packet after another, at `volume`.
pub open spec fn samples(ps: Seq<PacketView>, volume: u8) -> Seq<i16>
    decreases ps.len(),
{
    if ps.len() == 0 {
        Seq::empty()
    } else {
        samples(ps.drop_last(), volume) + scaled(ps.last().data, volume)
    }
}

/// Inserting `p` where the packets after position `j`, and only those, have
/// greater sequence numbers than `p`.
proof fn lemma_insert_by_sequence_at(s: Seq<PacketView>, p: PacketView, j: int)
    requires
        0 <= j <= s.len(),
        forall|t: int| j <= t < s.len() ==> #[trigger] s[t].sequence > p.sequence,
        j > 0 ==> s[j - 1].sequence <= p.sequence,
    ensures
        insert_by_sequence(s, p) == s.insert(j, p),
    decreases s.len(),
{
    if s.len() == 0 {
        assert(s.insert(j, p) =~= seq![p]);
    } else if s.last().sequence <= p.sequence {
        assert(j == s.len());
        assert(s.insert(j, p) =~= s.push(p));
    } else {
        let d = s.drop_last();
        lemma_insert_by_sequence_at(d, p, j);
        assert(s.insert(j, p) =~= d.insert(j, p).push(s.last()));
    }
}

/// The packets are in order of sequence number.
pub open spec fn sorted_by_sequence(s: Seq<PacketView>) -> bool {
    forall|i: int, j: int| 0 <= i < j < s.len() ==> #[trigger] s[i].sequence <= #[trigger] s[j].sequence
}

/// The packets of `s` numbered `q`, in their order in `s`.
pub open spec fn numbered(s: Seq<PacketView>, q: u16) -> Seq<PacketView> {
    s.filter(|x: PacketView| x.sequence == q)
}

proof fn lemma_numbered_push(s: Seq<PacketView>, p: PacketView, q: u16)
    ensures
        numbered(s.push(p), q) == if p.sequence == q {
            numbered(s, q).push(p)
        } else {
            numbered(s, q)
        },
{
    reveal(Seq::filter);
    assert(s.push(p).drop_last() =~= s);
}

proof fn lemma_insert_by_sequence(r: Seq<PacketView>, p: PacketView)
    requires
        sorted_by_sequence(r),
    ensures
        sorted_by_sequence(insert_by_sequence(r, p)),
        insert_by_sequence(r, p).to_multiset() == r.to_multiset().insert(p),
        forall|q: u16|
            #[trigger] numbered(insert_by_sequence(r, p), q) == if p.sequence == q {
                numbered(r, q).push(p)
            } else {
                numbered(r, q)
            },
    decreases r.len(),
{
    broadcast use vstd::seq_lib::group_to_multiset_ensures;

    let e = Seq::<PacketView>::empty();
    if r.len() == 0 {
        assert(r =~= e);
        assert(seq![p] =~= e.push(p));
        assert forall|q: u16| #[trigger] numbered(insert_by_sequence(r, p), q) == if p.sequence == q {
            numbered(r, q).push(p)
        } else {
            numbered(r, q)
        } by {
            lemma_numbered_push(e, p, q);
        }
    } else if r.last().sequence <= p.sequence {
        assert forall|q: u16| #[trigger] numbered(insert_by_sequence(r, p), q) == if p.sequence == q {
            numbered(r, q).push(p)
        } else {
            numbered(r, q)
        } by {
            lemma_numbered_push(r, p, q);
        }
    } else {
        let d = r.drop_last();
        let l = r.last();
        assert(sorted_by_sequence(d));
        lemma_insert_by_sequence(d, p);
        let ins = insert_by_sequence(d, p);
        assert(r =~= d.push(l));
        assert forall|x: PacketView| #[trigger] ins.contains(x) implies x.sequence <= l.sequence by {
            assert(ins.to_multiset().count(x) > 0);
            if x != p {
                assert(d.to_multiset().count(x) > 0);
                assert(d.contains(x));
                let i = choose|i: int| 0 <= i < d.len() && d[i] == x;
                assert(r[i] == x);
                assert(r[i].sequence <= r[r.len() - 1].sequence);
            }
        }
        assert forall|i: int, j: int| 0 <= i < j < ins.push(l).len() implies #[trigger] ins.push(
            l,
        )[i].sequence <= #[trigger] ins.push(l)[j].sequence by {
            if j == ins.len() {
                assert(ins.contains(ins[i]));
            }
        }
        assert forall|q: u16| #[trigger] numbered(insert_by_sequence(r, p), q) == if p.sequence == q {
            numbered(r, q).push(p)
        } else {
            numbered(r, q)
        } by {
            lemma_numbered_push(ins, l, q);
            lemma_numbered_push(d, l, q);
        }
    }
}

/// Sorting by sequence number orders the packets, keeps every packet, and
/// keeps packets with equal numbers in their order.
pub proof fn lemma_sort_by_sequence(s: Seq<PacketView>)
    ensures
        sorted_by_sequence(sort_by_sequence(s)),
        sort_by_sequence(s).to_multiset() == s.to_multiset(),
        forall|q: u16| #[trigger] numbered(sort_by_sequence(s), q) == numbered(s, q),
    decreases s.len(),
{
    broadcast use vstd::seq_lib::group_to_multiset_ensures;

    if s.len() > 0 {
        let d = s.drop_last();
        lemma_sort_by_sequence(d);
        lemma_insert_by_sequence(sort_by_sequence(d), s.last());
        assert(s =~= d.push(s.last()));
        assert forall|q: u16| #[trigger] numbered(sort_by_sequence(s), q) == numbered(s, q) by {
            lemma_numbered_push(d, s.last(), q);
        }
    } else {
        assert(sort_by_sequence(s) == s);
    }
}

/// When the packet with the next sequence number arrives `gap` ms after the
/// last one, the track grows by the gap in packet intervals rounded to the
/// nearest whole number (halves up), at least one: that many minus one silent
/// packets, numbered like the new packet and 20 ms apart after the last one,
/// then the packet itself; the packets held before stay behind them.
pub proof fn lemma_gap_filled(t: TrackState, p: PacketView)
    requires
        t.prev is Some,
        p.sequence == t.prev.unwrap().sequence + 1,
        p.timestamp >= t.prev.unwrap().timestamp,
    ensures
        ({
            let f = t.prev.unwrap();
            let gap = p.timestamp - f.timestamp;
            let r = t.inserted(p);
            let added = r.packets.len() - t.packets.len();
            &&& gap > 40 ==> 20 * added <= gap + 10 < 20 * added + 20
            &&& gap <= 40 ==> added == 1
            &&& r.packets[0] == p
            &&& r.prev == Some(p)
            &&& r.packets.subrange(added, r.packets.len() as int) == t.packets
            &&& forall|i: int|
                1 <= i < added ==> {
                    &&& (#[trigger] r.packets[i]).data == silence()
                    &&& r.packets[i].sequence == p.sequence
                    &&& r.packets[i].ssrc == p.ssrc
                    &&& r.packets[i].timestamp == f.timestamp + 20 * (added - i)
                }
        }),
{
    let f = t.prev.unwrap();
    let gap = p.timestamp - f.timestamp;
    let r = t.inserted(p);
    assert(!is_out_of_order(f, p));
    assert(dropped_count(f, p) == 0);
    assert(dropped_fill(f, p) =~= Seq::<PacketView>::empty());
    assert(gap_start(f, p) == f);
    let sf = silence_fill(f, p);
    let n = sf.len();
    assert(r.packets =~= seq![p] + sf + t.packets);
    let added: int = r.packets.len() - t.packets.len();
    assert(added == 1 + n);
    if gap > 40 {
        assert(n == (gap + 10) / 20 - 1);
    } else {
        assert(n == 0);
    }
    assert(r.packets.subrange(added, r.packets.len() as int) =~= t.packets);
    assert forall|i: int| 1 <= i < added implies {
        &&& (#[trigger] r.packets[i]).data == silence()
        &&& r.packets[i].sequence == p.sequence
        &&& r.packets[i].ssrc == p.ssrc
        &&& r.packets[i].timestamp == f.timestamp + 20 * (added - i)
    } by {
        assert(r.packets[i] == sf[i - 1]);
        if gap > 40 {
            assert(20 * n <= gap - 10);
        }
    }
}

/// A packet that a track takes in becomes its newest packet and the last
/// one seen; the packets it held stay, in order, behind it and behind the
/// silent packets added before it; the volume stays. A packet arriving out
/// of order changes nothing.
pub proof fn lemma_inserted(t: TrackState, p: PacketView)
    ensures
        t.accepts(p) ==> {
            let r = t.inserted(p);
            let added = r.packets.len() - t.packets.len();
            &&& added >= 1
            &&& r.packets[0] == p
            &&& r.prev == Some(p)
            &&& r.volume == t.volume
            &&& r.packets.subrange(added, r.packets.len() as int) == t.packets
            &&& forall|i: int| 1 <= i < added ==> (#[trigger] r.packets[i]).data == silence()
        },
        !t.accepts(p) ==> t.inserted(p) == t,
{
    if t.accepts(p) {
        let r = t.inserted(p);
        match t.prev {
            None => {
                assert(r.packets.subrange(1, r.packets.len() as int) =~= t.packets);
            },
            Some(front) => {
                let sf = silence_fill(gap_start(front, p), p);
                let df = dropped_fill(front, p);
                let added: int = (1 + sf.len() + df.len()) as int;
                assert(r.packets.len() - t.packets.len() == added);
                assert(r.packets.subrange(added, r.packets.len() as int) =~= t.packets);
                assert forall|i: int| 1 <= i < added implies (#[trigger] r.packets[i]).data
                    == silence() by {
                    if i < 1 + sf.len() {
                        assert(r.packets[i] == sf[i - 1]);
                    } else {
                        assert(r.packets[i] == df[i - 1 - sf.len()]);
                    }
                }
            },
        }
    }
}

fn scale_sample_exec(s: i16, volume: u8) -> (r: i16)
    ensures
        r == scale_sample(s, volume),
{
    assert(-32768 * 255 <= s * volume <= 32767 * 255) by (nonlinear_arith)
        requires
            -32768 <= s <= 32767,
            0 <= volume <= 255,
    ;
    let prod: i32 = s as i32 * volume as i32;
    if prod >= 0 {
        (prod / 255) as i16
    } else {
        let q: i32 = (-prod) / 255;
        -q as i16
    }
}

impl TrackState {
    /// The track with no packets.
    pub open spec fn empty(volume: u8) -> TrackState {
        TrackState { packets: Seq::empty(), prev: None, volume }
    }

    /// Whether the track takes `p` in: it does unless `p` arrives out of
    /// order.
    pub open spec fn accepts(self, p: PacketView) -> bool {
        match self.prev {
            Some(front) => !is_out_of_order(front, p),
            None => true,
        }
    }

    /// The track after `p` arrives.
    pub open spec fn inserted(self, p: PacketView) -> TrackState {
        match self.prev {
            None => TrackState { packets: seq![p] + self.packets, prev: Some(p), volume: self.volume },
            Some(front) => {
                if is_out_of_order(front, p) {
                    self
                } else {
                    TrackState {
                        packets: seq![p] + silence_fill(gap_start(front, p), p) + dropped_fill(
                            front,
                            p,
                        ) + self.packets,
                        prev: Some(p),
                        volume: self.volume,
                    }
                }
            },
        }
    }

    /// The track after its oldest packet, if any, is dropped.
    pub open spec fn popped(self) -> TrackState {
        if self.packets.len() > 0 {
            TrackState { packets: self.packets.drop_last(), ..self }
        } else {
            self
        }
    }
}

/// The track built from `items`: the last item is the newest.
pub open spec fn track_from_items(volume: u8, items: Seq<PacketView>) -> TrackState {
    TrackState {
        packets: items.reverse(),
        prev: if items.len() == 0 {
            None
        } else {
            Some(items.last())
        },
        volume,
    }
}

impl Track {
    pub fn new(volume: u8) -> (t: Self)
        ensures
            t@ == TrackState::empty(volume),
    {
        let t = Self { data: VecDeque::new(), prev_packet: None, volume };
        assert(t.packets() =~= Seq::<PacketView>::empty());
        t
    }

    pub fn new_with_items(volume: u8, items: Vec<DiscordAudioPacket>) -> (t: Self)
        ensures
            t@ == track_from_items(volume, items@.map_values(|p: DiscordAudioPacket| p@)),
    {
        let ghost all = items@.map_values(|p: DiscordAudioPacket| p@);
        if items.len() == 0 {
            let t = Self { data: VecDeque::new(), prev_packet: None, volume };
            assert(t.packets() =~= all.reverse());
            return t;
        }
        let mut items = items;
        let mut data: VecDeque<DiscordAudioPacket> = VecDeque::new();
        while items.len() > 0
            invariant
                items@.len() <= all.len(),
                items@.map_values(|p: DiscordAudioPacket| p@) == all.take(items@.len() as int),
                data@.map_values(|p: DiscordAudioPacket| p@) == all.reverse().take(
                    all.len() - items@.len(),
                ),
            decreases items@.len(),
        {
            let ghost before = items@;
            let p = items.pop().unwrap();
            proof {
                assert(all[before.len() - 1] == p@) by {
                    assert(before.map_values(|q: DiscordAudioPacket| q@)[before.len() - 1] == p@);
                }
                assert(items@.map_values(|q: DiscordAudioPacket| q@) =~= all.take(items@.len() as int));
            }
            let ghost old_data = data@;
            let ghost k = all.len() - before.len();
            data.push_back(p);
            assert(data@.map_values(|q: DiscordAudioPacket| q@) =~= old_data.map_values(
                |q: DiscordAudioPacket| q@,
            ).push(all.reverse()[k]));
            assert(data@.map_values(|q: DiscordAudioPacket| q@) =~= all.reverse().take(
                all.len() - items@.len(),
            ));
        }
        let prev_packet = Some(data[0].duplicate());
        let t = Self { data, prev_packet, volume };
        assert(t.packets() =~= all.reverse());
        assert(t.packets()[0] == all.last());
        t
    }

    /// Adds a packet at the front. A packet that arrives out of order is
    /// ignored; skipped sequence numbers and gaps in time longer than two
    /// packets are first filled with silent packets.
    pub fn insert_packet(&mut self, data: DiscordAudioPacket)
        requires
            insert_fits(old(self)@.prev, data@),
        ensures
            final(self)@ == old(self)@.inserted(data@),
    {
        let ghost old_packets = self.packets();
        let ghost p = data@;
        let mut front: DiscordAudioPacket = match self.prev_packet.take() {
            Some(f) => f,
            None => {
                self.prev_packet = Some(data.duplicate());
                self.data.push_front(data);
                assert(self.packets() =~= seq![p] + old_packets);
                return;
            },
        };
        let ghost f0 = front@;
        if front.sequence > data.sequence && front.sequence - data.sequence < 10000 {
            self.prev_packet = Some(front);
            return;
        }
        if data.sequence != front.sequence && data.sequence > front.sequence {
            let dropped: u16 = data.sequence - front.sequence - 1;
            if dropped > 0 {
                let mut x: u16 = 0;
                while x < dropped
                    invariant
                        x <= dropped,
                        dropped == dropped_count(f0, p),
                        front@ == f0,
                        data@ == p,
                        self.prev_packet is None,
                        self.volume == old(self).volume,
                        f0.timestamp + dropped * 20 <= u64::MAX,
                        self.packets() == Seq::new(
                            x as nat,
                            |i: int|
                                silent_packet(
                                    p.ssrc,
                                    (f0.sequence + (x - i)) as u16,
                                    (f0.timestamp + (x - i) * PACKET_INTERVAL) as u64,
                                    p.stereo,
                                ),
                        ) + old_packets,
                    decreases dropped - x,
                {
                    let filler = DiscordAudioPacket::silent(
                        data.ssrc,
                        front.sequence + (x + 1),
                        front.timestamp + (x as u64 + 1) * 20,
                        data.stereo,
                    );
                    let ghost before = self.packets();
                    let ghost fv = filler@;
                    self.data.push_front(filler);
                    x = x + 1;
                    assert(self.packets() =~= seq![fv] + before);
                    assert(self.packets() =~= Seq::new(
                        x as nat,
                        |i: int|
                            silent_packet(
                                p.ssrc,
                                (f0.sequence + (x - i)) as u16,
                                (f0.timestamp + (x - i) * PACKET_INTERVAL) as u64,
                                p.stereo,
                            ),
                    ) + old_packets);
                }
                assert(self.packets() =~= dropped_fill(f0, p) + old_packets);
                front = self.data[0].duplicate();
                assert(front@ == self.packets()[0]);
            }
        }
        let ghost last = front@;
        let ghost after_drop = self.packets();
        assert(last == gap_start(f0, p));
        assert(after_drop =~= dropped_fill(f0, p) + old_packets);
        if data.timestamp > front.timestamp {
            let silence_time: u64 = data.timestamp - front.timestamp;
            if silence_time > 40 {
                let rounding: u64 = if silence_time % 20 >= 10 { 1 } else { 0 };
                let frames: u64 = silence_time / 20 + rounding - 1;
                assert(frames == silence_frames(silence_time as int));
                let mut x: u64 = 0;
                while x < frames
                    invariant
                        x <= frames,
                        frames == silence_frames(silence_time as int),
                        silence_time == p.timestamp - last.timestamp,
                        front@ == last,
                        data@ == p,
                        self.prev_packet is None,
                        self.volume == old(self).volume,
                        self.packets() == Seq::new(
                            x as nat,
                            |i: int|
                                silent_packet(
                                    p.ssrc,
                                    p.sequence,
                                    (last.timestamp + (x - i) * PACKET_INTERVAL) as u64,
                                    p.stereo,
                                ),
                        ) + after_drop,
                    decreases frames - x,
                {
                    let filler = DiscordAudioPacket::silent(
                        data.ssrc,
                        data.sequence,
                        front.timestamp + (x + 1) * 20,
                        data.stereo,
                    );
                    let ghost before = self.packets();
                    let ghost fv = filler@;
                    self.data.push_front(filler);
                    x = x + 1;
                    assert(self.packets() =~= seq![fv] + before);
                    assert(self.packets() =~= Seq::new(
                        x as nat,
                        |i: int|
                            silent_packet(
                                p.ssrc,
                                p.sequence,
                                (last.timestamp + (x - i) * PACKET_INTERVAL) as u64,
                                p.stereo,
                            ),
                    ) + after_drop);
                }
            }
        }
        assert(self.packets() =~= silence_fill(last, p) + after_drop);
        self.prev_packet = Some(data.duplicate());
        let ghost before_push = self.packets();
        self.data.push_front(data);
        assert(self.packets() =~= seq![p] + before_push);
        assert(self.packets() =~= seq![p] + silence_fill(gap_start(f0, p), p) + dropped_fill(f0, p)
            + old_packets);
    }

    /// The samples of the track, its packets ordered by sequence number
    /// (packets with equal numbers in the track's order, newest first),
    /// each sample scaled by the track's volume.
    pub fn build_packets(&self) -> (out: Vec<i16>)
        ensures
            out@ == samples(sort_by_sequence(self@.packets), self@.volume),
    {
        let ghost packets = self.packets();
        let n = self.data.len();
        let mut order: Vec<usize> = Vec::new();
        let mut k: usize = 0;
        while k < n
            invariant
                k <= n,
                n == packets.len(),
                n == self.data@.len(),
                packets == self.packets(),
                forall|i: int| 0 <= i < order@.len() ==> #[trigger] order@[i] < k,
                order@.map_values(|i: usize| packets[i as int]) == sort_by_sequence(
                    packets.take(k as int),
                ),
            decreases n - k,
        {
            let key = self.data[k].sequence;
            assert(key == packets[k as int].sequence);
            let mut j = order.len();
            loop
                invariant_except_break
                    j <= order@.len(),
                    k < n,
                    n == packets.len(),
                    n == self.data@.len(),
                    packets == self.packets(),
                    key == packets[k as int].sequence,
                    forall|i: int| 0 <= i < order@.len() ==> #[trigger] order@[i] < k,
                    forall|t: int|
                        j <= t < order@.len() ==> #[trigger] packets[order@[t] as int].sequence
                            > key,
                ensures
                    j <= order@.len(),
                    forall|t: int|
                        j <= t < order@.len() ==> #[trigger] packets[order@[t] as int].sequence
                            > key,
                    j > 0 ==> packets[order@[j - 1] as int].sequence <= key,
                decreases j,
            {
                if j == 0 {
                    break;
                }
                let idx = order[j - 1];
                assert(idx < k);
                if self.data[idx].sequence <= key {
                    break;
                }
                j = j - 1;
            }
            let ghost sorted = order@.map_values(|i: usize| packets[i as int]);
            proof {
                assert forall|t: int| j <= t < sorted.len() implies #[trigger] sorted[t].sequence
                    > packets[k as int].sequence by {
                    assert(packets[order@[t] as int].sequence > key);
                }
                lemma_insert_by_sequence_at(sorted, packets[k as int], j as int);
                assert(packets.take(k + 1).drop_last() =~= packets.take(k as int));
            }
            order.insert(j, k);
            assert(order@.map_values(|i: usize| packets[i as int]) =~= sorted.insert(
                j as int,
                packets[k as int],
            ));
            k = k + 1;
        }
        assert(packets.take(n as int) =~= packets);
        let ghost sorted = order@.map_values(|i: usize| packets[i as int]);
        let mut out: Vec<i16> = Vec::new();
        let mut m: usize = 0;
        while m < order.len()
            invariant
                m <= order@.len(),
                n == packets.len(),
                n == self.data@.len(),
                packets == self.packets(),
                forall|i: int| 0 <= i < order@.len() ==> #[trigger] order@[i] < n,
                sorted == order@.map_values(|i: usize| packets[i as int]),
                out@ == samples(sorted.take(m as int), self@.volume),
            decreases order@.len() - m,
        {
            let idx = order[m];
            assert(idx < n);
            let pkt = &self.data[idx];
            assert(pkt@ == sorted[m as int]);
            let ghost base = out@;
            let mut t: usize = 0;
            while t < pkt.data.len()
                invariant
                    t <= pkt.data@.len(),
                    out@ == base + scaled(pkt.data@.take(t as int), self@.volume),
                decreases pkt.data@.len() - t,
            {
                let v = scale_sample_exec(pkt.data[t], self.volume);
                out.push(v);
                assert(pkt.data@.take(t + 1) =~= pkt.data@.take(t as int).push(pkt.data@[t as int]));
                assert(scaled(pkt.data@.take(t + 1), self@.volume) =~= scaled(
                    pkt.data@.take(t as int),
                    self@.volume,
                ).push(v));
                t = t + 1;
            }
            assert(pkt.data@.take(t as int) =~= pkt.data@);
            assert(sorted.take(m + 1).drop_last() =~= sorted.take(m as int));
            m = m + 1;
        }
        assert(sorted.take(m as int) =~= sorted);
        out
    }

    /// Whether the silent packets standing for sequence numbers skipped
    /// before `p` get timestamps that fit in a `u64`.
    pub fn fits(&self, p: &DiscordAudioPacket) -> (r: bool)
        ensures
            r == insert_fits(self@.prev, p@),
    {
        match &self.prev_packet {
            None => true,
            Some(front) => {
                let dropped: u64 = if p.sequence > front.sequence {
                    (p.sequence - front.sequence - 1) as u64
                } else {
                    0
                };
                front.timestamp <= u64::MAX - dropped * 20
            },
        }
    }

    /// Sets the track's volume.
    pub fn set_volume(&mut self, volume: u8)
        ensures
            final(self)@ == (TrackState { volume, ..old(self)@ }),
    {
        self.volume = volume;
    }

    pub fn pop(&mut self)
        ensures
            final(self)@ == old(self)@.popped(),
    {
        self.data.pop_back();
        assert(self.packets() =~= old(self)@.popped().packets);
    }

    pub fn len(&self) -> (n: usize)
        ensures
            n == self@.packets.len(),
    {
        self.data.len()
    }
}

} // verus!
