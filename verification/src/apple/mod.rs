//! Apple container formats that carry LZVN data.

pub mod bvxn;
pub mod fs;
