pub mod bits;
pub mod darray;
