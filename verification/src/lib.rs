pub mod app;
pub mod keys;
pub mod model;
pub mod text;
pub mod tree;
pub mod ui;
pub mod session;
pub mod bd;
pub mod cli;
pub mod laws;
