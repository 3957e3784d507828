[package]
name = "vboxhelper"
version = "0.1.0"
edition = "2021"
publish = false

[dependencies]
uuid = "0.8"
eui48 = { version = "1", default-features = false }

[dev-dependencies]
regex = "1"
