[package]
name = "sudoku_solver"
version = "0.1.0"
edition = "2021"
publish = false

[dependencies]
env_logger = { version = "*", default-features = false }
lazy_static = "*"
log = "*"
