[package]
name = "osm_test"
version = "0.1.0"
edition = "2021"
publish = false

[dependencies]
ahash = "0.8"
rand = "0.8"
rayon = "1"
indicatif = "0.17"
nalgebra = "0.32"
geojson = "0.24"
osmpbf = "0.3"
image = "0.24"
imageproc = "0.23"
serde = { version = "1", features = ["derive"] }
serde_derive = "1"
speedy = "0.8"
