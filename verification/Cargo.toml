[package]
name = "housecraft"
version = "0.1.0"
edition = "2021"
publish = false

[dependencies]
anyhow = "1"
chrono = "0.4"
clap = { version = "4", features = ["derive"] }
clap-verbosity-flag = "*"
comfy-table = "*"
console = "*"
csv = "1"
env_logger = "*"
highs-sys = "*"
lazy_static = "1"
log = "0.4"
mimalloc = "*"
num_cpus = "1"
once_cell = "1"
rayon = "1"
regex = "1"
serde = { version = "1", features = ["derive"] }
serde_json = "1"
stable-vec = "0.4"
