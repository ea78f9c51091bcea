[package]
name = "multiopen"
version = "0.1.0"
edition = "2021"
publish = false

[dependencies]
blake2b_simd = "1"
ff = "0.13"
group = "0.13"
pasta_curves = "0.5"
rand = "0.8"
subtle = "2"
