[package]
name = "bigbed_jaccard"
version = "0.1.0"
edition = "2021"
publish = false

[dependencies]
rand = "0.7"
bigtools = "*"
rayon = "1"
itertools = "*"
csv = "1"
serde = { version = "1", features = ["derive"] }
structopt = "0.3"
reqwest = { version = "*", default-features = false }
tempfile = "3"
tokio = { version = "1", features = ["rt-multi-thread", "macros"] }
