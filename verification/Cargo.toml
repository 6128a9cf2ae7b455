[package]
name = "sciatac_find_hash_reads"
version = "0.1.0"
edition = "2021"
publish = false

[dependencies]
flate2 = "*"
argparse = "*"
