[package]
name = "splatter_iron"
version = "0.1.0"
edition = "2021"
publish = false

[dependencies]
anyhow = "*"
chrono = "*"
directories = "*"
ecolor = "*"
image = "*"
serde = { version = "*", features = ["derive"] }
serde_json = "*"
xz2 = "*"
zstd = "*"
