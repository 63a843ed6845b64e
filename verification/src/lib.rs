use vstd::prelude::*;

pub mod codec;
pub mod ecc;
pub mod field;
pub mod font;
pub mod gauss;
pub mod gf3;
pub mod matrix;
pub mod solver;
pub mod modular;
pub mod render;
pub mod rs;
pub mod rs_checks;
pub mod rs_roots;
pub mod tri_anchor;
pub mod tri_gauss_solver;
pub mod trigrid;
pub mod vision;
