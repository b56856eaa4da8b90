[package]
name = "chaff"
version = "0.1.0"
edition = "2021"
publish = false

[dependencies]
bpaf = { version = "*", features = ["derive"] }
iterstats = "*"
mac_address = "*"
pcap = "*"
rand = "*"
rand_distr = "*"

[dev-dependencies]
chacha20 = { version = "*", features = ["rng"] }
