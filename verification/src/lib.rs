//! arches: the verified core of a bridge between Arc Timeline Recorder backups and the tools
//! that read them.

pub mod api;
pub mod backup;
pub mod calendar;
pub mod config;
pub mod confirmation;
pub mod derive;
pub mod enums;
pub mod export;
pub mod gpx;
pub mod heatmap;
pub mod highlights;
pub mod history;
pub mod ids;
pub mod ingest;
pub mod lists;
pub mod schema;
pub mod status;
pub mod text;
