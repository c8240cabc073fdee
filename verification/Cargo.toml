[package]
name = "folder_differ"
version = "0.1.0"
edition = "2021"
publish = false

[dependencies]
blake3 = "*"
ignore = "*"
indicatif = "*"
jwalk = "*"
memmap2 = "*"
num_cpus = "*"
rayon = "*"
rustc-hash = "*"
thiserror = "*"
