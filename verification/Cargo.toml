[package]
name = "mcts"
version = "0.1.0"
edition = "2021"
publish = false

[dependencies]
anyhow = "1"
chess = "3"
ndarray = "0.16"
rand = "0.9"
rchess = "*"
