//! Fraud scoring by nearest-neighbour search over an inverted-file index of
//! fourteen-dimensional `i16` vectors.
pub mod agree;
pub mod answers;
pub mod ascii;
pub mod balance;
pub mod binary;
pub mod built;
pub mod conn;
pub mod counts;
pub mod encode;
pub mod exact;
pub mod exact_wide;
pub mod fields;
pub mod format;
pub mod gate;
pub mod http;
pub mod image;
pub mod input;
pub mod ivf;
pub mod json;
pub mod kmeans;
pub mod labels;
pub mod layout;
pub mod members;
pub mod nearest;
pub mod normalize;
pub mod precision;
pub mod probing;
pub mod quant;
pub mod references;
pub mod ring;
pub mod scalar;
pub mod score_range;
pub mod search;
pub mod sending;
pub mod sort;
pub mod table;
pub mod ties;
pub mod tune;
pub mod values;
pub mod wide;
