[package]
name = "bywind"
version = "0.1.0"
edition = "2021"
publish = false

[dependencies]
chrono = "=0.4.45"
zstd = { version = "=0.14.3", features = ["zstdmt"] }
grib = { version = "0.15", default-features = false }
rav1e = { version = "=0.8.1", default-features = false }
rav1d = { version = "=1.1.0", default-features = false, features = ["bitdepth_8", "bitdepth_16"] }
libc = "=0.2.191"
rand = "=0.10.3"
rayon = "=1.12.0"
kiddo = "=5.3.3"
serde = { version = "=1.0.229", features = ["derive"] }
serde_json = "=1.0.154"
toml = "=1.1.8"
ureq = "=3.5.1"
log = "=0.4.35"
swarmkit = "=0.1.0"
swarmkit-sailing = "=0.2.0"
