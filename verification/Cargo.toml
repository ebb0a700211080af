[package]
name = "khameleon"
version = "0.1.0"
edition = "2021"
publish = false

[dependencies]
ndarray = "=0.15.6"
rand = "=0.7.3"
indexmap = "=1.9.3"
crossbeam-utils = "=0.8.23"
bincode = "=1.3.3"
serde = { version = "=1.0.229", features = ["derive"] }
serde_derive = "=1.0.229"
serde_json = "=1.0.154"
statrs = "=0.13.0"
lp-modeler = "=0.4.3"
sled = "=0.24.1"
actix = "=0.8.3"
actix-web = { version = "=1.0.9", default-features = false }
actix-web-actors = "=1.0.4"
actix-files = "=0.1.7"
actix-session = { version = "=0.2.0", default-features = false }
actix-rt = "=0.2.6"
futures = "=0.1.31"
csv = "=1.4.0"
fern = { version = "=0.5.9", features = ["colored"] }
log = "=0.4.34"
chrono = "=0.4.19"
piston2d-graphics = "=0.40.0"
graphics_buffer = "=0.7.7"
