[package]
name = "raid_rs"
version = "0.1.0"
edition = "2021"
publish = false

[dependencies]
anyhow = "*"
clap = { version = "*", features = ["derive", "env"] }
fuser = "*"
http = "*"
hyper-util = { version = "*", features = ["tokio"] }
libc = "*"
memmap2 = "=0.9.11"
prost = "*"
prost-types = "*"
rand = "*"
rand_distr = "*"
sha2 = "=0.11.0"
tempfile = "*"
tokio = { version = "*", features = ["full"] }
tokio-stream = "*"
tonic = "*"
tonic-prost = "*"
tower = { version = "*", features = ["util"] }
tracing = "*"
tracing-subscriber = { version = "*", features = ["env-filter"] }
