pub mod cli;
pub mod collect;
pub mod decode;
pub mod encode;
pub mod form;
pub mod frame;
pub mod gpu;
pub mod pipeline;
pub mod text;

pub use cli::{Fit, Sort, Source};
