//! Verified core of a browser for game release manifests.
pub mod catalog;
pub mod catalog_screen;
pub mod explorer;
pub mod explorer_screen;
pub mod number;
pub mod ordering;
pub mod progress;
pub mod release;
pub mod search;
pub mod selection;
pub mod text;
pub mod tree;
pub mod visibility;
