use cdpr::audio::buffer::DiscordAudioBuffer;
use cdpr::audio::packet::{DiscordAudioPacket, PACKET_SIZE};

fn new_empty_packet(ssrc: u32, sequence: u16, timestamp: u64) -> DiscordAudioPacket {
    DiscordAudioPacket::new(ssrc, sequence, timestamp, true, vec![0; PACKET_SIZE as usize])
}

#[test]
fn limits_size_properly() {
    let mut buffer = DiscordAudioBuffer::new(5);

    let mut u1_packets = (0..100).map(|x: u16| new_empty_packet(1, x, (x * 20).into()));
    let mut u2_packets = (0..100).map(|x: u16| new_empty_packet(2, x, (x * 20).into()));
    let mut u3_packets = (0..100).map(|x: u16| new_empty_packet(3, x, (x * 20).into()));

    (0..5).for_each(|x| {
        buffer.insert_item(u1_packets.next().unwrap());
        println!("{}", x);
        buffer.insert_item(u2_packets.next().unwrap());
        println!("{}", x);
        buffer.insert_item(u3_packets.next().unwrap());
        println!("{}", x);
    });

    assert_eq!(buffer.data.len(), 3);
    buffer.data.values().for_each(|t| assert_eq!(t.len(), 5));

    (5..10).for_each(|x| {
        buffer.insert_item(u1_packets.next().unwrap());
        println!("{}", x);
        u2_packets.next();
        u3_packets.next();
    });

    assert_eq!(buffer.data.len(), 1);

    buffer.insert_item(u1_packets.next().unwrap());
    buffer.insert_item(u2_packets.next().unwrap());
    u3_packets.next();

    assert_eq!(buffer.data.len(), 2);
    buffer.data.values().for_each(|t| assert_eq!(t.len(), 5));
}

#[test]
fn new_buffer_is_empty() {
    let buffer = DiscordAudioBuffer::new(7);
    assert_eq!(buffer.capacity(), 7);
    assert_eq!(buffer.size(), 0);
    assert_eq!(buffer.data.len(), 0);
    assert_eq!(buffer.largest_track_size(), 0);
}

#[test]
fn largest_track_size_is_longest_track() {
    let mut buffer = DiscordAudioBuffer::new(100);
    for x in 0..4u16 {
        buffer.insert_item(new_empty_packet(1, x, x as u64 * 20));
    }
    assert_eq!(buffer.largest_track_size(), 4);
    buffer.insert_item(new_empty_packet(2, 50, 1000));
    // the new speaker is lined up with three silent packets before its first one
    assert_eq!(buffer.data.get(&2).unwrap().len(), 4);
    assert_eq!(buffer.largest_track_size(), 4);
}

#[test]
fn new_speaker_lead_in_is_silent_and_ordered() {
    let mut buffer = DiscordAudioBuffer::new(100);
    for x in 0..3u16 {
        buffer.insert_item(new_empty_packet(1, x, x as u64 * 20));
    }
    let mut p = new_empty_packet(2, 10, 500);
    p.data = vec![7; 4];
    buffer.insert_item(p);
    let samples = buffer.data.get(&2).unwrap().build_packets();
    // two silent packets of PACKET_SIZE samples (sequences 8 and 9), then the packet itself
    assert_eq!(samples.len(), 2 * PACKET_SIZE as usize + 4);
    assert!(samples[..2 * PACKET_SIZE as usize].iter().all(|s| *s == 0));
    assert_eq!(&samples[2 * PACKET_SIZE as usize..], &[7, 7, 7, 7]);
}

#[test]
fn zero_capacity_keeps_no_track() {
    let mut buffer = DiscordAudioBuffer::new(0);
    buffer.insert_item(new_empty_packet(1, 0, 0));
    buffer.insert_item(new_empty_packet(2, 0, 0));
    assert_eq!(buffer.data.len(), 0);
}

#[test]
fn overflow_drops_oldest_of_every_track() {
    let mut buffer = DiscordAudioBuffer::new(3);
    for x in 0..3u16 {
        buffer.insert_item(new_empty_packet(1, x, x as u64 * 20));
        buffer.insert_item(new_empty_packet(2, x, x as u64 * 20));
    }
    // a gap of 100 ms adds four silent packets: the track holds 8, five over
    buffer.insert_item(new_empty_packet(1, 3, 140));
    assert_eq!(buffer.data.len(), 1);
    assert_eq!(buffer.data.get(&1).unwrap().len(), 3);
}

#[test]
fn update_track_mix_sets_volume_or_fails() {
    let mut buffer = DiscordAudioBuffer::new(10);
    let mut p = new_empty_packet(1, 0, 0);
    p.data = vec![100, -100];
    buffer.insert_item(p);
    assert_eq!(buffer.update_track_mix(1, 100), Ok(()));
    assert_eq!(buffer.data.get(&1).unwrap().volume, 100);
    assert_eq!(buffer.data.get(&1).unwrap().build_packets(), vec![39, -39]);
    assert_eq!(buffer.update_track_mix(9, 100), Err("No track for ssrc"));
}

#[test]
fn can_insert_item_guards_overflow() {
    let mut buffer = DiscordAudioBuffer::new(100);
    assert!(buffer.can_insert_item(&new_empty_packet(1, 0, 0)));
    for x in 0..3u16 {
        buffer.insert_item(new_empty_packet(1, x, x as u64 * 20));
    }
    // a new speaker needs two lead-in packets 20 and 40 ms before its first one
    assert!(!buffer.can_insert_item(&new_empty_packet(2, 5, 20)));
    assert!(buffer.can_insert_item(&new_empty_packet(2, 5, 40)));
    let mut high = DiscordAudioBuffer::new(100);
    high.insert_item(new_empty_packet(1, 0, u64::MAX - 10));
    // skipping 9 sequence numbers would need timestamps past u64::MAX
    assert!(!high.can_insert_item(&new_empty_packet(1, 10, u64::MAX)));
    assert!(high.can_insert_item(&new_empty_packet(1, 1, u64::MAX)));
}

#[test]
fn capacity_is_kept_across_changes() {
    let mut buffer = DiscordAudioBuffer::new(4);
    for x in 0..20u16 {
        buffer.insert_item(new_empty_packet((x % 3) as u32, x, x as u64 * 20));
        let _ = buffer.update_track_mix((x % 5) as u32, 10);
        assert_eq!(buffer.capacity(), 4);
        assert_eq!(buffer.size(), 0);
        buffer.data.values().for_each(|t| assert!(t.len() >= 1 && t.len() <= 4));
    }
}
