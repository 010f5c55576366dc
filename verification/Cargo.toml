[package]
name = "zip_brute"
version = "0.1.0"
edition = "2021"
publish = false

[dependencies]
clap = { version = "4", features = ["cargo"] }
indicatif = "0.17"
log = "0.4"
log4rs = "1"
num_cpus = "1"
rayon = "1"
zip = { version = "0.6", default-features = false, features = ["aes-crypto", "deflate"] }
