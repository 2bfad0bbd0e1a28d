//! Transcription history bookkeeping, dashboard statistics and live
//! transcript merging, with their contracts proved by Verus.

pub mod text;
pub mod live;
pub mod stats;
pub mod history;
