[package]
name = "sim_discrete"
version = "0.1.0"
edition = "2021"
publish = false

[dependencies]
num-bigint = "0.4"
thiserror = "2"
