[package]
name = "celeb_shortest_distance"
version = "0.1.0"
edition = "2021"
publish = false

[dependencies]
strsim = "*"
csv = "*"
serde = { version = "*", features = ["derive"] }
