[package]
name = "rpprof"
version = "0.18.0"
edition = "2021"
publish = false

[dependencies]
backtrace = "0.3"
inferno = { version = "0.12", default-features = false, features = ["nameattr"] }
libc = "0.2"
log = "0.4"
prost = "0.14"
spin = "0.10"
symbolic-demangle = { version = "12", default-features = false, features = ["rust", "cpp"] }
