[package]
name = "tjson"
version = "0.9.0"
edition = "2021"
publish = false

[dependencies]
serde_json = { version = "1", features = ["arbitrary_precision", "preserve_order"] }
serde = { version = "1", features = ["derive"] }
pico-args = "0.5"
terminal_size = "0.4"
serde_ignored = "0.1"
