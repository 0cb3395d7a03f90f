[package]
name = "heap_circuit"
version = "0.1.0"
edition = "2021"
publish = false

[dependencies]
p3-baby-bear = "*"
p3-field = "*"
p3-symmetric = "*"
serde = { version = "1", features = ["derive"] }
