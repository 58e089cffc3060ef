[package]
name = "rnote_engine"
version = "0.1.0"
edition = "2021"
publish = false

[dependencies]
anyhow = "1"
cairo-rs = "*"
futures = "0.3"
gtk4 = "*"
image = "*"
kurbo = "*"
log = "0.4"
nalgebra = "*"
parry2d-f64 = "*"
piet = "*"
piet-cairo = "*"
rayon = "1"
serde = { version = "1", features = ["derive"] }
serde_json = "1"
