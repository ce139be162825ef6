[package]
name = "wpkpp"
version = "0.1.0"
edition = "2021"
publish = false

[dependencies]
bitvec = "1"
rand = "0.8"
rand_seeder = "0.2"
anyhow = "1"
clap = { version = "4", features = ["derive"] }
colored = "2"
miniserde = "0.1"
