pub mod bitfacts;
pub mod chebyshev;
pub mod complex;
pub mod density;
pub mod dynamics;
pub mod indexing;
pub mod kernel;
pub mod states;
pub mod terms;
