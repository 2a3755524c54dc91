[package]
name = "kannolo"
version = "0.1.0"
edition = "2021"
publish = false

[dependencies]
clap = { version = "4", features = ["derive"] }
half = { version = "2", features = ["serde", "num-traits"] }
hdf5 = "0.8"
indicatif = "*"
optional = { version = "0.5", features = ["serde"] }
rand = "0.8"
rayon = "1"
serde = { version = "1", features = ["derive"] }
