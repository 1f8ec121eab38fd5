[package]
name = "cucumber_sort"
version = "0.1.0"
edition = "2021"
publish = false

[dependencies]
ansi_term = "0.12"
big_s = "1"
camino = "1"
clap = { version = "4", features = ["derive"] }
glob = "0.3"
regex = "1"
