[package]
name = "nomouse"
version = "0.1.0"
edition = "2021"
publish = false

[dependencies]
cosmic-text = "*"
nanoid = "*"
nix = { version = "*", features = ["mman", "fs"] }
smithay-client-toolkit = { version = "*", default-features = false }
wayland-client = "*"
wayland-protocols = { version = "*", features = ["client"] }
wayland-protocols-wlr = { version = "*", features = ["client"] }
