[package]
name = "nrrd"
version = "0.1.0"
edition = "2021"
publish = false

[dependencies]
bzip2 = "=0.6.1"
flate2 = "=1.1.10"
rustc_apfloat = "*"
