[package]
name = "vecls"
version = "0.1.0"
edition = "2021"
publish = false

[dependencies]
clap = { version = "4.5", features = ["env"] }
libc = "0.2"
lscolors = "*"
rustc-hash = "2"
selinux = "*"
thiserror = "2"
