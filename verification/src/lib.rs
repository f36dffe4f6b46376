//! Reading PSS/E raw power-flow cases and laying out one-line diagrams of them.

pub mod number;
pub mod text;

pub mod psse;
pub mod model;
pub mod diagram;
pub mod inspect;
pub mod summary;
