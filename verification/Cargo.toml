[package]
name = "pyxis_manage"
version = "0.1.0"
edition = "2021"
publish = false

[dependencies]
pyxis-parcel = "*"
tar = "*"
zstd = "*"
xz = "*"
alpm = "*"
clap = "*"
curl = "*"
glob = "*"
indicatif = "*"
itertools = "*"
lazy_static = "*"
nix = "*"
passwd = "*"
serde = { version = "*", features = ["derive"] }
serde_yaml = "*"
sys-mount = "*"
tempfile = "*"
