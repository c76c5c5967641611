[package]
name = "logrok"
version = "0.1.0"
edition = "2021"
publish = false

[dependencies]
anyhow = "1"
bitvec = "1"
clap = { version = "4", features = ["derive"] }
crossterm = "*"
lru = "*"
md5 = "*"
memchr = "2"
num_cpus = "1"
ratatui = "*"
regex = "1"
serde = { version = "1", features = ["derive"] }
