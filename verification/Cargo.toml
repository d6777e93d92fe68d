[package]
name = "net_proxy"
version = "0.1.0"
edition = "2021"
publish = false

[dependencies]
bytes = "1"
crc = "3"
libc = "0.2"
log = "0.4"
mio = { version = "1", features = ["os-poll", "os-ext", "net"] }
nix = { version = "0.24", default-features = false, features = ["socket", "event"] }
pnet = "0.35"
rand = "0.8"
socket2 = "0.5"
tracing = "0.1"

[dev-dependencies]
tempfile = "3"
