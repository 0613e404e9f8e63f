[package]
name = "hurdat2"
version = "0.1.0"
edition = "2021"
publish = false

[dependencies]
chrono = { version = "0.4", default-features = false, features = ["std"] }
geo = "0.22"
kml = "*"
rayon = "1"
