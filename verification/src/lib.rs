//! Persistent memory system: typed memory files, the `MEMORY.md` index,
//! auto-capture of memories from conversation, and the model registry of
//! the DeepSeek provider.

pub mod text;
pub mod types;
pub mod index;
pub mod store;
pub mod capture;
pub mod providers;

pub use capture::MemoryCapture;
pub use store::MemoryStore;
pub use types::{
    CaptureSuggestion, IndexEntry, MemoryBlock, MemoryEntry, MemoryFrontmatter, MemoryIndex,
    MemoryType,
};
