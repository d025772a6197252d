[package]
name = "dm_driver_log"
version = "0.1.1"
edition = "2021"
publish = false

[dependencies]
encoding = "0.2"
thiserror = "2"
