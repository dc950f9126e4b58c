//! Constant tables and the models built from them.

pub mod scalefactor;
pub mod tns;
pub mod usac_acelp;
pub mod usac_arith;
pub mod usac_avq;
