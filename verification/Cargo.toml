[package]
name = "ghostframe_transport"
version = "0.1.0"
edition = "2021"
publish = false

[dependencies]
bytes = "1"
goog_cc = "=0.1.4"
hex = "0.4"
lru = "0.12"
quinn-proto = { version = "0.11", default-features = false, features = ["rustls-ring"] }
rayon = "1"
rcgen = { version = "0.13", default-features = false, features = ["ring", "pem"] }
rustls = { version = "0.23", default-features = false, features = ["ring", "std", "tls12"] }
sha2 = "0.10"
smallvec = "1"
thiserror = "1"
time = "0.3"
tokio = { version = "1", features = ["net", "io-util", "time", "sync", "rt", "macros"] }
tracing = "0.1"
web-transport-proto = "*"
