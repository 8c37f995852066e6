[package]
name = "amdl"
version = "0.1.0"
edition = "2021"
publish = false

[dependencies]
anyhow = "1"
blake3 = "1"
clap = { version = "4", features = ["derive", "env"] }
clap_complete = "4"
clap_mangen = "0.2"
ctrlc = "3"
image = { version = "0.25", default-features = false, features = ["jpeg", "png"] }
indicatif = "0.17"
libc = "0.2"
lofty = "0.22"
num_cpus = "1"
rayon = "1"
serde = { version = "1", features = ["derive"] }
serde_json = "1"
toml = "0.8"
ureq = "2"
