[package]
name = "deduplicator"
version = "0.1.0"
edition = "2021"
publish = false

[dependencies]
anyhow = "=1.0.104"
bytesize = "=2.7.0"
clap = { version = "=4.6.7", features = ["derive"] }
dashmap = "=6.2.1"
fxhash = "*"
globwalk = "=0.9.1"
memmap2 = "=0.9.11"
rand = "=0.10.3"
threadpool = "=1.8.1"
unicode-segmentation = "=1.13.3"
