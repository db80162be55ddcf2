[package]
name = "bdflib"
version = "0.1.0"
edition = "2021"
publish = false

[dependencies]
byteorder = "1"
crc = "1.8"
xz2 = "0.1"
crossbeam-channel = "0.5"
crossbeam-utils = "0.8"
num_cpus = "1"
