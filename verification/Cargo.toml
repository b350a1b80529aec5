[package]
name = "dijkstra"
version = "0.1.0"
edition = "2021"
publish = false

[dependencies]
bumpalo = "=3.11.0"
itertools = "=0.10.3"
log = "0.4"
rustc-hash = "=1.1.0"

[dev-dependencies]
strsim = "0.10"
typed-arena = "2.0"
