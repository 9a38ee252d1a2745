[package]
name = "clipcut"
version = "0.1.0"
edition = "2021"
publish = false

[dependencies]
anyhow = "=1.0.104"
chrono = { version = "=0.4.45", default-features = false, features = ["clock", "std"] }
directories = "=6.0.0"
glow = "=0.18.0"
libmpv2 = "=7.0.0"
notify = "=8.2.1"
notify-debouncer-full = "=0.7.0"
rfd = { version = "=0.17.2", default-features = false, features = ["xdg-portal"] }
serde = { version = "=1.0.229", features = ["derive"] }
slint = { version = "=1.18.1", default-features = false, features = ["std", "compat-1-2"] }
toml = "=1.1.8"
trash = "=5.2.9"
walkdir = "=2.5.0"
which = "=8.0.6"
