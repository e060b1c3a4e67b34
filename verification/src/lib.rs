pub mod model;
pub mod solver;
pub mod workflows;
