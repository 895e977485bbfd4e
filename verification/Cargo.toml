[package]
name = "mio_reactor"
version = "0.1.0"
edition = "2021"
publish = false

[dependencies]
parsed = "*"
sha1 = "*"
base64 = "*"
chrono = "*"
mio = { version = "*", features = ["os-poll", "net"] }
uppercut = "*"
log = "*"
env_logger = "*"
num_cpus = "*"
