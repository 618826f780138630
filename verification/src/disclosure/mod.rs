//! Witness-disclosure analysis.

pub mod abs;
pub mod abs_laws;
pub mod alike;
pub mod call_laws;
pub mod env;
pub mod flow_laws;
pub mod interp;
pub mod leaks;
pub mod lookup_laws;
pub mod memo_laws;
pub mod model;
pub mod report;
pub mod root_laws;
pub mod roots;
pub mod table_laws;
pub mod tables;
pub mod value_laws;
pub mod version;
pub mod walk_laws;
