[package]
name = "gitlapse"
version = "0.1.0"
edition = "2021"
publish = false

[dependencies]
chrono = "0.4"
clap = { version = "4", features = ["derive"] }
git2 = { version = "*", default-features = false }
image = { version = "*", default-features = false, features = ["png"] }
indicatif = { version = "*", features = ["rayon"] }
palette = "*"
rand = "0.8"
rayon = "1"
