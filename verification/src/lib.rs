//! The core of FastCull, a keyboard-driven photo culler: sessions and decisions,
//! folder grouping, sidecars, the move plan and the engine that applies it.
pub mod apply;
pub mod applyflow;
pub mod arrival;
pub mod controls;
pub mod decisions;
pub mod decode;
pub mod dialogs;
pub mod exif_data;
pub mod fsops;
pub mod grouping;
pub mod histogram;
pub mod input;
pub mod journal;
pub mod launch;
pub mod layout;
pub mod model;
pub mod moves;
pub mod naming;
pub mod paths;
pub mod persist;
pub mod pipeline;
pub mod plan;
pub mod preservation;
pub mod preview;
pub mod progress;
pub mod raw;
pub mod records;
pub mod safety;
pub mod scan;
pub mod session;
pub mod sidecars;
pub mod startup;
pub mod survival;
pub mod tally;
pub mod text;
pub mod ui;
pub mod xmp;
