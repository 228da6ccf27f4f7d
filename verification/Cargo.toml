[package]
name = "watchmux"
version = "0.1.0"
edition = "2021"
publish = false

[dependencies]
glob = "*"
libc = "*"
notify-debouncer-full = "*"
rustix = { version = "*", features = ["event", "process"] }
serde = { version = "*", features = ["derive"] }
serde_json = "*"
