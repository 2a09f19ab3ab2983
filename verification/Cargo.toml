[package]
name = "cart_cache"
version = "0.1.0"
edition = "2021"
publish = false

[dependencies]
slab = "0.3"

[dev-dependencies]
rand = "0.4"
