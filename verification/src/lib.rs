pub mod ratio;
pub mod music_primitives;
pub mod composition;
pub mod text;
pub mod scan_text;
pub mod pitch_class_space;
pub mod lerdahl;
pub mod prolongational_tree;
pub mod analysis;
pub mod cfg;
pub mod scan;
pub mod compose;
pub mod lilypond;
pub mod generate;
pub mod display;
pub mod instrument_tracks;
pub mod picture;
pub mod pipeline;
pub mod chord_grammar;
