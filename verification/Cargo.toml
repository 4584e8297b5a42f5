[package]
name = "emuman"
version = "0.1.0"
edition = "2021"
publish = false

[dependencies]
sha1_smol = "1"
zip = { version = "*", default-features = false, features = ["deflate"] }
ciborium = "*"
xattr = "*"
walkdir = "*"
rayon = "*"
dashmap = "*"
fxhash = "*"
once_cell = "*"
nohash-hasher = "*"
prettytable-rs = "*"
serde = "1"
serde_derive = "1"
