[package]
name = "sliderule"
version = "0.2.1"
edition = "2021"
rust-version = "1.95"
publish = false

[dependencies]
# Not used directly: pins liquid's kstring dependency to a patch that still
# builds on this toolchain's rustc (2.0.4 and 2.0.5 declare rust-version 1.96).
kstring = "=2.0.0"
liquid = "*"
os_info = "*"
globwalk = "*"
walkdir = "*"
