[package]
name = "vulture"
version = "0.1.0"
edition = "2021"
publish = false

[dependencies]
fixedbitset = "0.5"
smallvec = "1"
jiff = "0.2"
rayon = "1"
gtfs-structures = { version = "0.47", default-features = false }
chrono = "0.4"
rstar = "0.12"
thiserror = "2"
dot_graph = "*"
