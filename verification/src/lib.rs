pub mod topology;
pub mod fold;
pub mod adjacency;
pub mod mesh;
pub mod cluster;
pub mod reader;
pub mod simplify;
