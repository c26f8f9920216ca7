//! Splitting live radio audio into non-silent messages, keeping a bounded
//! history of recent items for late listeners, and serving a live stream of
//! byte chunks to readers.

pub mod silence_gate;
pub mod audio_store;
pub mod audio_stream;
pub mod recent_cache;
pub mod audio_service;
pub mod encoder;
pub mod retain_laws;
