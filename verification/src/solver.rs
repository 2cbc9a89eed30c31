pub mod search;
pub mod explore;
pub mod bfs;
pub mod dfs;
pub mod search_order;
pub mod distance;
pub mod random;
pub mod astar;
pub mod learned;
