pub mod example;
pub mod teacher;
pub mod session;
