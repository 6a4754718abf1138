pub mod adjacency;
pub mod utils;
pub mod watts_strogatz;
