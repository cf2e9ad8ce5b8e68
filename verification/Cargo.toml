[package]
name = "nmea_parse"
version = "0.1.0"
edition = "2021"
publish = false

[dev-dependencies]
nom = { version = "6", default-features = false, features = ["alloc"] }
