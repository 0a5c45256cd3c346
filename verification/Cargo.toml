[package]
name = "ex_poppy"
version = "0.1.0"
edition = "2021"
publish = false

[dependencies]
poppy-filters = "=0.2.1"
rustler = "=0.34.0"
thiserror = "=1.0.69"

[dev-dependencies]
wyhash = "=0.5.0"
