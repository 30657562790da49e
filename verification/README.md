# aldebaran

A verified library for a terminal assistant's persistent memory and its model registry.

- `src/text.rs` — characters, whitespace, trimming, searching and line splitting, each stated
  over `Seq<char>`.
- `src/types.rs` — memory types and the records of the memory system.
- `src/index.rs` — the `MEMORY.md` index: parsing, rendering, upserting, removing, grouping.
- `src/store.rs` — where memories live, the text of a memory file and how it is read back,
  and the composition of memories into system-prompt text within a byte budget.
- `src/capture.rs` — the capture session: recent turns, the capture prompt, and the framing
  of the JSON in the model's reply.
- `src/providers.rs` — model aliases, provider metadata, token limits, the context-window
  check and `.env` lookups.
- `app/` — the file system, the environment and serde around the library.
