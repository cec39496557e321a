[package]
name = "surch"
version = "0.1.0"
edition = "2021"
publish = false

[dependencies]
hashbrown = "0.16"
rayon = "1"
serde_json = "1"
ignore = "0.4"
num_cpus = "1"
open = "5"
clipboard = "0.5"
rfd = { version = "0.15", default-features = false, features = ["xdg-portal", "tokio"] }
