use std::collections::HashMap;
use std::sync::{Arc, RwLock};
use vstd::prelude::*;

use super::buffer::DiscordAudioBuffer;

verus! {

broadcast use vstd::std_specs::hash::group_hash_axioms;

/// `std::sync::RwLock`, a lock that hands out shared reads or one write.
/// Only carried through here: nothing of what it holds is looked at.
#[verifier::external_type_specification]
#[verifier::external_body]
#[verifier::reject_recursive_types(T)]
pub struct ExRwLock<T: ?Sized>(RwLock<T>);

/// The shared audio buffer of each guild.
pub struct BufferManager {
    buffers: HashMap<u64, Arc<RwLock<DiscordAudioBuffer>>>,
}

impl View for BufferManager {
    type V = Map<u64, Arc<RwLock<DiscordAudioBuffer>>>;

    closed spec fn view(&self) -> Map<u64, Arc<RwLock<DiscordAudioBuffer>>> {
        self.buffers@
    }
}

/// After a guild's buffer is set, the guild's buffer is the one set, and the
/// other guilds keep theirs.
pub proof fn lemma_get_after_insert(
    m: Map<u64, Arc<RwLock<DiscordAudioBuffer>>>,
    guild_id: u64,
    buffer: Arc<RwLock<DiscordAudioBuffer>>,
    other: u64,
)
    ensures
        m.insert(guild_id, buffer).contains_key(guild_id),
        m.insert(guild_id, buffer)[guild_id] == buffer,
        other != guild_id ==> (m.insert(guild_id, buffer).contains_key(other) == m.contains_key(other)
            && m.insert(guild_id, buffer)[other] == m[other]),
{
}

impl BufferManager {
    pub fn new() -> (m: Self)
        ensures
            m@ == Map::<u64, Arc<RwLock<DiscordAudioBuffer>>>::empty(),
    {
        Self { buffers: HashMap::new() }
    }

    /// Sets the buffer of a guild and returns the one it replaces.
    pub fn insert(&mut self, guild_id: u64, buffer: Arc<RwLock<DiscordAudioBuffer>>) -> (r: Option<
        Arc<RwLock<DiscordAudioBuffer>>,
    >)
        ensures
            final(self)@ == old(self)@.insert(guild_id, buffer),
            r == (if old(self)@.contains_key(guild_id) {
                Some(old(self)@[guild_id])
            } else {
                None
            }),
    {
        self.buffers.insert(guild_id, buffer)
    }

    /// The buffer of a guild.
    pub fn get(&self, guild_id: &u64) -> (r: Option<&Arc<RwLock<DiscordAudioBuffer>>>)
        ensures
            r == (if self@.contains_key(*guild_id) {
                Some(&self@[*guild_id])
            } else {
                None
            }),
    {
        self.buffers.get(guild_id)
    }
}

} // verus!
