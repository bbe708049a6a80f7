pub mod geokdbush;
pub mod kdbush;
pub mod order;
pub mod results;
pub mod sampling;
