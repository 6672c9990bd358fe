[package]
name = "p25_fec"
version = "0.1.0"
edition = "2021"
publish = false

[dependencies]
binfield_matrix = "=0.2.0"
collect_slice = "=1.2.0"
