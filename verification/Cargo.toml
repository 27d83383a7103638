[package]
name = "moxnode"
version = "0.1.0"
edition = "2021"
publish = false

[dependencies]
rand = "0.8"
time = { version = "0.3", features = ["formatting", "parsing"] }
serde = { version = "1", features = ["derive"] }
serde_json = "1"
clap = { version = "4", features = ["derive"] }
ctrlc = "3"
dashmap = "5"
num_cpus = "1"
rayon = "1"
ureq = { version = "2", default-features = false }
urlencoding = "2"
