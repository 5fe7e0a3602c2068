use cdpr::audio::buffer::DiscordAudioBuffer;
use cdpr::audio::packet::DiscordAudioPacket;
use cdpr::audio::recording::aligned_tracks;

#[test]
fn tracks_are_padded_to_the_longest() {
    let mut buffer = DiscordAudioBuffer::new(100);
    buffer.insert_item(DiscordAudioPacket::new(1, 0, 0, false, vec![1, 2, 3]));
    buffer.insert_item(DiscordAudioPacket::new(1, 1, 20, false, vec![4]));
    buffer.insert_item(DiscordAudioPacket::new(2, 7, 20, false, vec![9]));
    let mut tracks = aligned_tracks(&buffer);
    tracks.sort();
    assert_eq!(tracks.len(), 2);
    let mut expected = vec![vec![1, 2, 3, 4], vec![0; 1920 + 1]];
    expected[1][1920] = 9;
    expected[0].resize(1921, 0);
    expected.sort();
    assert_eq!(tracks, expected);
}

#[test]
fn empty_buffer_has_no_tracks() {
    let buffer = DiscordAudioBuffer::new(10);
    assert!(aligned_tracks(&buffer).is_empty());
}
