[package]
name = "scuttle"
version = "0.1.0"
edition = "2021"
publish = false

[dependencies]
rustsat = { version = "=0.5.1", features = ["multiopt"] }
rustsat-cadical = "=0.3.1"
maxpre = { version = "=0.2.3", features = ["multiopt"] }
signal-hook = "=0.3.18"
