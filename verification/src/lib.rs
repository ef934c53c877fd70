//! Verified core of a markdown and PDF research workspace.

pub mod text;
pub mod pdf_link;
pub mod fuzzy;
pub mod cli;
pub mod navigation;
pub mod editor;
pub mod ink;
pub mod messages;
pub mod overlays;
pub mod workspace;
pub mod search;
pub mod paths;
pub mod integrity;
pub mod graph;
pub mod graph_stats;
pub mod graph_rank;
pub mod graph_rings;
pub mod fnv;
pub mod pdf_toc;
pub mod path_set;
pub mod pdf_annotations;
pub mod pdf_render;
pub mod ink_history;
