[package]
name = "aurox"
version = "0.1.0"
edition = "2021"
publish = false

[dependencies]
alpm = "*"
alpm-utils = { version = "*", features = ["conf"] }
console = "*"
curl = "*"
dirs = "*"
gix = { version = "*", features = ["blocking-http-transport-curl"] }
indicatif = "*"
jiff = "*"
linkme = "*"
opentelemetry = "*"
opentelemetry_sdk = "*"
pacmanconf = "*"
rayon = "*"
regex = "1"
rkyv = "*"
serde = { version = "1", features = ["derive"] }
serde_json = "1"
signal-hook = "*"
smallvec = "1"
thiserror = "*"
toml = "*"
tracing = "*"
tracing-opentelemetry = "*"
tracing-subscriber = { version = "*", features = ["env-filter"] }
