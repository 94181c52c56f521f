//! Polis: the verified core of a repository city and of the transcripts that
//! drive it.
pub mod age;
pub mod assembly;
pub mod blocks;
pub mod bytes;
pub mod cell_map;
pub mod city;
pub mod cut;
pub mod delta;
pub mod districts;
pub mod edges;
pub mod event;
mod folds;
pub mod forest;
pub mod founding;
pub mod growth;
pub mod heal;
pub mod index;
pub mod json;
pub mod landmarks;
pub mod line;
pub mod logical;
pub mod ordered;
pub mod path;
pub mod pieces;
pub mod planning;
pub mod project;
pub mod ranks;
pub mod record;
pub mod replay;
pub mod rng;
pub mod search;
pub mod session;
pub mod settlement;
pub mod sort;
pub mod source;
pub mod stats;
pub mod streets;
pub mod tail;
pub mod territory;
pub mod text;
pub mod time;
pub mod vicinity;
pub mod watch;
pub mod ways;
