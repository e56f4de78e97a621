pub mod delimiters;
pub mod music_library;
pub mod playlist;
pub mod queue;
mod rng;
pub mod shared;
pub mod text;
pub mod track;

pub use crate::music_library::MusicLibrary;
pub use crate::playlist::Playlist;
pub use crate::queue::Queue;
pub use crate::shared::FormatError;
pub use crate::track::Track;
