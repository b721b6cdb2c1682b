[package]
name = "sssim"
version = "0.1.0"
edition = "2021"
publish = false

[dependencies]
rug = { version = "=1.19.2", default-features = false, features = ["integer"] }
# rug computes with GMP through this crate; it is named to build against the system GMP.
gmp-mpfr-sys = { version = "~1.5", default-features = false, features = ["use-system-libs"] }
sha3 = "=0.9.1"
digest = "=0.9.0"
bincode = "=1.3.3"
smtree = "=0.1.2"
serde = { version = "=1.0.229", features = ["derive"] }
serde_json = "=1.0.154"
time = { version = "=0.3.55", features = ["serde", "macros", "formatting", "parsing"] }
clap = { version = "=4.6.7", features = ["derive"] }
rusqlite = "=0.41.1"
rand = "=0.8.8"
uom = "=0.36.0"
indicatif = "=0.17.11"
rayon = "=1.12.0"
thiserror = "=1.0.69"
itertools = "=0.15.0"
