[package]
name = "temporal_ai"
version = "0.1.0"
edition = "2021"
publish = false

[dependencies]
anyhow = "*"
chrono = "*"
git2 = "*"
glob = "*"
redb = "*"
sha2 = "*"
sysinfo = "*"

[dev-dependencies]
tempfile = "*"
