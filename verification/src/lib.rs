//! Verified core of a football tactical-analysis tool: class filters, pitch
//! landmarks, playback and trim bookkeeping, frame sampling, tracker
//! bookkeeping, occupancy tallies and coach-facing insight rules.

pub mod detection;
pub mod text;
pub mod pitch_mapping;
pub mod trim;
pub mod app_state;
pub mod pitch_awareness;
pub mod metrics;
pub mod match_analysis;
pub mod tactical_insights;
pub mod tracker;
pub mod live_capture;
pub mod library;
pub mod export;
pub mod downloader;
