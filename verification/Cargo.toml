[package]
name = "g2048-core"
version = "0.1.0"
edition = "2021"
publish = false

[dependencies]
rand = "0.8"
rand_pcg = "0.3"
rand_distr = "0.4"
rayon = "1"
serde = { version = "1", features = ["derive"] }
toml = "0.8"
