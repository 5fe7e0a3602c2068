use std::sync::{Arc, RwLock};

use cdpr::audio::buffer::DiscordAudioBuffer;
use cdpr::audio::buffer_manager::BufferManager;

#[test]
fn get_returns_what_insert_set() {
    let mut m = BufferManager::new();
    assert!(m.get(&1).is_none());
    let a = Arc::new(RwLock::new(DiscordAudioBuffer::new(3)));
    let b = Arc::new(RwLock::new(DiscordAudioBuffer::new(4)));
    assert!(m.insert(1, a.clone()).is_none());
    assert!(Arc::ptr_eq(m.get(&1).unwrap(), &a));
    let old = m.insert(1, b.clone()).unwrap();
    assert!(Arc::ptr_eq(&old, &a));
    assert_eq!(m.get(&1).unwrap().read().unwrap().capacity(), 4);
    assert!(m.get(&2).is_none());
}
