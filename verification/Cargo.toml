[package]
name = "qcircuit"
version = "0.1.0"
edition = "2021"
publish = false

[dependencies]
faer = "=0.23.2"
qd = "0.7"
