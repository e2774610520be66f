//! What holds of the library as a whole: laws that relate its functions to each other.

pub mod lines;
pub mod mean;
pub mod order;
pub mod run;
pub mod written;
