[package]
name = "flat_spatial"
version = "0.1.0"
edition = "2021"
publish = false

[dependencies]
slotmap = "=1.1.1"
slotmapd = "=1.0.11"
fnv = "=1.0.7"
mint = "=0.5.9"
euclid = "=0.22.14"
parry2d = "=0.31.1"
retain_mut = "=0.1.9"
serde = { version = "=1.0.229", features = ["derive"] }

[dev-dependencies]
fastrand = "=2.5.0"
