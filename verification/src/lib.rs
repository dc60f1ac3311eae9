pub mod cli;
pub mod fragment;
pub mod layout;
pub mod merge;
pub mod model;
pub mod normalize;
pub mod text;
pub mod unicode;
