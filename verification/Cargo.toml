[package]
name = "symscan"
version = "0.1.0"
edition = "2021"
publish = false

[dependencies]
clap = { version = "*", features = ["derive"] }
foldhash = "*"
hashbrown = "*"
itertools = "*"
rapidfuzz = "*"
rayon = "*"
thiserror = "*"
