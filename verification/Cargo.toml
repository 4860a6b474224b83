[package]
name = "ntrip_client"
version = "0.1.0"
edition = "2021"
publish = false

[dependencies]
base64 = "*"
rtcm-rs = "*"
geoutils = "*"
isocountry = "*"
tokio = { version = "*", features = ["full"] }
reqwest = { version = "*", default-features = false, features = ["rustls-tls"] }
rustls = "*"
tokio-rustls = "*"
webpki-roots = "*"
futures = "*"
