[package]
name = "av1_grain"
version = "0.1.0"
edition = "2021"
publish = false

[dependencies]
arrayvec = { version = "=0.7.8", features = ["serde"] }
serde = { version = "=1.0.229", features = ["derive"] }
v_frame = "=0.7.0"
