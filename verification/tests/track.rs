use cdpr::audio::packet::{DiscordAudioPacket, PACKET_SIZE};
use cdpr::audio::track::Track;

fn packet(sequence: u16, timestamp: u64, sample: i16) -> DiscordAudioPacket {
    DiscordAudioPacket::new(1, sequence, timestamp, false, vec![sample])
}

#[test]
fn first_packet_starts_the_track() {
    let mut t = Track::new(255);
    assert_eq!(t.len(), 0);
    t.insert_packet(packet(3, 60, 5));
    assert_eq!(t.len(), 1);
    assert_eq!(t.prev_packet.as_ref().unwrap().sequence, 3);
    assert_eq!(t.build_packets(), vec![5]);
}

#[test]
fn out_of_order_packet_is_ignored() {
    let mut t = Track::new(255);
    t.insert_packet(packet(10, 200, 1));
    t.insert_packet(packet(9, 180, 2));
    assert_eq!(t.len(), 1);
    assert_eq!(t.prev_packet.as_ref().unwrap().sequence, 10);
    assert_eq!(t.build_packets(), vec![1]);
}

#[test]
fn wrapped_sequence_is_taken_in() {
    let mut t = Track::new(255);
    t.insert_packet(packet(65530, 200, 1));
    t.insert_packet(packet(2, 220, 2));
    assert_eq!(t.len(), 2);
    assert_eq!(t.prev_packet.as_ref().unwrap().sequence, 2);
    // ordered by sequence number: 2 before 65530
    assert_eq!(t.build_packets(), vec![2, 1]);
}

#[test]
fn dropped_packets_are_filled_with_silence() {
    let mut t = Track::new(255);
    t.insert_packet(packet(5, 100, 1));
    t.insert_packet(packet(8, 160, 2));
    assert_eq!(t.len(), 4);
    let out = t.build_packets();
    assert_eq!(out.len(), 2 + 2 * PACKET_SIZE as usize);
    assert_eq!(out[0], 1);
    assert!(out[1..out.len() - 1].iter().all(|s| *s == 0));
    assert_eq!(out[out.len() - 1], 2);
}

#[test]
fn silence_gaps_are_filled() {
    let mut t = Track::new(255);
    t.insert_packet(packet(1, 1000, 1));
    // 100 ms later: 100 / 20 - 1 = 4 silent packets
    t.insert_packet(packet(2, 1100, 2));
    assert_eq!(t.len(), 6);
    // 40 ms is not filled
    t.insert_packet(packet(3, 1140, 3));
    assert_eq!(t.len(), 7);
    // 50 ms rounds to 3 packets: 2 silent ones
    t.insert_packet(packet(4, 1190, 4));
    assert_eq!(t.len(), 10);
    // 49 ms rounds to 2 packets: 1 silent one
    t.insert_packet(packet(5, 1239, 5));
    assert_eq!(t.len(), 12);
}

#[test]
fn pop_drops_oldest() {
    let mut t = Track::new(255);
    t.insert_packet(packet(1, 0, 1));
    t.insert_packet(packet(2, 20, 2));
    t.pop();
    assert_eq!(t.len(), 1);
    assert_eq!(t.build_packets(), vec![2]);
    t.pop();
    t.pop();
    assert_eq!(t.len(), 0);
}

#[test]
fn new_with_items_keeps_last_as_newest() {
    let items = vec![packet(1, 0, 1), packet(2, 20, 2), packet(3, 40, 3)];
    let t = Track::new_with_items(255, items);
    assert_eq!(t.len(), 3);
    assert_eq!(t.prev_packet.as_ref().unwrap().sequence, 3);
    assert_eq!(t.build_packets(), vec![1, 2, 3]);
    let empty = Track::new_with_items(9, vec![]);
    assert_eq!(empty.len(), 0);
    assert!(empty.prev_packet.is_none());
    assert_eq!(empty.volume, 9);
}

#[test]
fn build_packets_scales_by_volume() {
    let mut t = Track::new(128);
    t.insert_packet(DiscordAudioPacket::new(1, 0, 0, false, vec![255, -255, 32767, -32768, 1]));
    assert_eq!(t.build_packets(), vec![128, -128, 16447, -16448, 0]);
    t.set_volume(0);
    assert_eq!(t.build_packets(), vec![0, 0, 0, 0, 0]);
}

#[test]
fn equal_sequences_keep_track_order() {
    // silent packets share the sequence number of the packet after the gap
    let mut t = Track::new(255);
    t.insert_packet(packet(1, 0, 1));
    t.insert_packet(packet(2, 80, 2));
    let out = t.build_packets();
    assert_eq!(out[0], 1);
    assert_eq!(out[1], 2);
    assert!(out[2..].iter().all(|s| *s == 0));
    assert_eq!(out.len(), 2 + 3 * PACKET_SIZE as usize);
}
