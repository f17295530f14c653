//! The logic of a work-intention tracker: what it observes, what it asks, what
//! it keeps, and the meetings it listens to.

pub mod analyses;
pub mod analysis;
pub mod attach;
pub mod audio;
pub mod aw;
pub mod blocks;
pub mod board;
pub mod build_info;
pub mod claude;
pub mod commands;
pub mod db;
pub mod error;
pub mod gain;
pub mod json;
pub mod laws;
pub mod laws_answers;
pub mod laws_app;
pub mod laws_board;
pub mod laws_cards;
pub mod laws_documents;
pub mod laws_files;
pub mod laws_meetings;
pub mod laws_observed;
pub mod laws_recording;
pub mod laws_rows;
pub mod laws_sessions;
pub mod laws_text;
pub mod laws_told;
pub mod level;
pub mod meeting;
pub mod meetings;
pub mod models;
pub mod notify;
pub mod observed;
pub mod ooxml;
pub mod paths;
pub mod prompt;
pub mod recommendations;
pub mod record;
pub mod resume_units;
pub mod round;
pub mod rows;
pub mod scheduler;
pub mod sort;
pub mod state;
pub mod stretches;
pub mod table;
pub mod text;
pub mod time;
pub mod transcribe;
