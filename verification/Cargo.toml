[package]
name = "car_mirror"
version = "0.1.0"
edition = "2021"
publish = false

[dependencies]
anyhow = "=1.0.104"
async-stream = "=0.3.6"
bytes = "=1.12.1"
cid = "=0.11.3"
deterministic-bloom = "=0.1.0"
futures = "=0.3.34"
iroh-car = "=0.5.1"
libipld = "=0.12.0"
libipld-core = "=0.12.0"
multihash = "=0.14.0"
tokio = { version = "=1.54.1", features = ["io-util"] }
tracing = "=0.1.44"
wnfs-common = "=0.3.0"
