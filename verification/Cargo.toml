[package]
name = "clientserver"
version = "0.1.0"
edition = "2021"
publish = false

[dependencies]
mio = "0.6"
rustls = "0.19"
slab = "0.4"
log = "0.4"
dirs = "4"
console = "0.15"
webpki = "0.21"
