# cdpr

The verified core of a Discord voice bot, written in Verus.

- `src/audio`: voice packets, per-speaker tracks (gap filling, ordering by
  sequence number, volume scaling), the capacity-bounded buffer of all
  speakers, the per-guild buffer registry, and the alignment of tracks for
  recording.
- `src/commands`: the decisions of the chat commands: who can be sent to the
  shadow realm and how they are named, which clip to play, which file to save.
- `src/db`: the comparison of a guild's emojis before and after an update.
- `app/`: the bot itself (serenity client, commands, event handlers, Redis and
  SQLite access, the voice receiver, sample mixing and wave output), calling
  the library.
