//! Notizli: the logic of a desktop meeting recorder.

pub mod account;
pub mod analyzer;
pub mod api;
pub mod capture;
pub mod chooser;
pub mod cli;
pub mod clock;
pub mod coreaudio;
pub mod double;
pub mod ebml;
pub mod error;
pub mod file;
pub mod health_laws;
pub mod logfile;
pub mod mixer;
pub mod pairing;
pub mod paths;
pub mod player;
pub mod reader;
pub mod reader_laws;
pub mod recorder;
pub mod repair_laws;
pub mod session;
pub mod source;
pub mod speaker;
pub mod store;
pub mod stream;
pub mod text;
pub mod text_laws;
pub mod uploader;
pub mod webm;
pub mod webm_laws;
