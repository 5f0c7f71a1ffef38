[package]
name = "columnar_values"
version = "0.1.0"
edition = "2021"
publish = false

[dependencies]
jsonb = "=0.5.6"
