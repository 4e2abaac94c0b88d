pub mod iter;
pub mod kstd;
pub mod litr;
