[package]
name = "raclette"
version = "0.1.0"
edition = "2021"
publish = false

[dependencies]
mio = { version = "0.8", features = ["os-ext", "os-poll"] }
mio-signals = "*"
nix = { version = "*", features = ["process", "signal"] }
num_cpus = "*"
pico-args = "*"
term = "*"
