[package]
name = "plcourse"
version = "0.1.0"
edition = "2021"
publish = false

[dependencies]
regex = "1"
sqlite = "=0.37.4"
zmq = "=0.10.0"
