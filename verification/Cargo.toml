[package]
name = "supervise"
version = "0.1.0"
edition = "2021"
publish = false

[dependencies]
argparse = "=0.2.2"
nix = { version = "=0.31.3", features = ["mount", "sched", "signal", "user"] }
signal = "=0.7.0"
unshare = "=0.7.0"
