[package]
name = "chess_engine"
version = "0.1.0"
edition = "2021"
publish = false

[dependencies]
shakmaty = "=0.29.4"
pgn-reader = "=0.28.0"
getrandom = "=0.2.17"
serde = { version = "=1.0.229", features = ["derive"] }
clap = { version = "=4.6.7", features = ["derive"] }
ruci = { version = "=2.1.0", features = ["gui-sync"] }
wasm-bindgen = "=0.2.130"
