use vstd::prelude::*;

verus! {

/// Milliseconds of audio carried by one voice packet.
pub const PACKET_INTERVAL: u8 = 20;

/// Number of samples in one voice packet.
pub const PACKET_SIZE: u16 = 1920;

/// One packet of decoded voice audio received from a speaker.
pub struct DiscordAudioPacket {
    pub ssrc: u32,
    pub sequence: u16,
    pub timestamp: u64,
    pub stereo: bool,
    pub data: Vec<i16>,
}

/// The mathematical value of a packet: its header fields and its samples.
pub struct PacketView {
    pub ssrc: u32,
    pub sequence: u16,
    pub timestamp: u64,
    pub stereo: bool,
    pub data: Seq<i16>,
}

impl View for DiscordAudioPacket {
    type V = PacketView;

    open spec fn view(&self) -> PacketView {
        PacketView {
            ssrc: self.ssrc,
            sequence: self.sequence,
            timestamp: self.timestamp,
            stereo: self.stereo,
            data: self.data@,
        }
    }
}

/// The samples of a silent packet.
pub open spec fn silence() -> Seq<i16> {
    Seq::new(PACKET_SIZE as nat, |i: int| 0i16)
}

/// A silent packet with the given header fields.
pub open spec fn silent_packet(ssrc: u32, sequence: u16, timestamp: u64, stereo: bool) -> PacketView {
    PacketView { ssrc, sequence, timestamp, stereo, data: silence() }
}

/// The view of an optional packet.
pub open spec fn opt_view(p: Option<DiscordAudioPacket>) -> Option<PacketView> {
    match p {
        Some(p) => Some(p@),
        None => None,
    }
}

impl DiscordAudioPacket {
    pub fn new(ssrc: u32, sequence: u16, timestamp: u64, stereo: bool, data: Vec<i16>) -> (p: Self)
        ensures
            p@ == (PacketView { ssrc, sequence, timestamp, stereo, data: data@ }),
    {
        Self { ssrc, sequence, timestamp, stereo, data }
    }

    /// A silent packet with the given header fields.
    pub fn silent(ssrc: u32, sequence: u16, timestamp: u64, stereo: bool) -> (p: Self)
        ensures
            p@ == silent_packet(ssrc, sequence, timestamp, stereo),
    {
        let data = vec![0i16; PACKET_SIZE as usize];
        assert(data@ =~= silence());
        Self { ssrc, sequence, timestamp, stereo, data }
    }

    /// A copy of this packet.
    pub fn duplicate(&self) -> (p: Self)
        ensures
            p@ == self@,
    {
        let data = self.data.clone();
        assert(data@ =~= self.data@);
        Self {
            ssrc: self.ssrc,
            sequence: self.sequence,
            timestamp: self.timestamp,
            stereo: self.stereo,
            data,
        }
    }
}

impl Clone for DiscordAudioPacket {
    fn clone(&self) -> (p: Self)
        ensures
            p@ == self@,
    {
        self.duplicate()
    }
}

} // verus!
