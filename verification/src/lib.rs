//! The rules of a local meeting notetaker.

pub mod audio_capture;
pub mod call_detector;
pub mod commands;
pub mod db;
pub mod device_watcher;
pub mod diarize;
pub mod digits;
pub mod grouping;
pub mod hardware;
pub mod hash;
pub mod ingest;
pub mod json;
pub mod live;
pub mod models;
pub mod monitor;
pub mod order;
pub mod paths;
pub mod pipeline;
pub mod proc_loopback;
pub mod selection;
pub mod speakers;
pub mod store;
pub mod summarize;
pub mod text;
pub mod time;
pub mod transcribe;
