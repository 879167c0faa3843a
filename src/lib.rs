pub mod laws;
pub mod limits;
pub mod pool;
pub mod results;
pub mod step;
pub mod table;
