[package]
name = "severance_graph"
version = "0.1.0"
edition = "2021"
publish = false

[dependencies]
fast_paths = "*"
geo = "*"
geojson = "*"
serde = { version = "*", features = ["derive"] }
serde_json = "*"
