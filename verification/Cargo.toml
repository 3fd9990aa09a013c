[package]
name = "neutopia"
version = "0.1.0"
edition = "2021"
publish = false

[dependencies]
md5 = "0.7"
ips = "*"
rand = "0.7"
rand_core = "0.5"
rand_pcg = "0.2"
radix_fmt = "1"
regex = "1"
serde = { version = "1", features = ["derive"] }
serde_json = "1"
structopt = "0.3"
failure = "0.1"
