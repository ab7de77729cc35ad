//! Query logic over osmflat archives.

pub mod archive;
pub mod feature;
pub mod featureset;
pub mod filter;
pub mod handle;
pub mod ieee;
pub mod land;
pub mod members;
pub mod open;
pub mod order;
pub mod query;
pub mod select;
pub mod simplify;
pub mod sorted;
pub mod tags;
pub mod text;
