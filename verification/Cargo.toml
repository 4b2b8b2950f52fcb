[package]
name = "plasma_ledger"
version = "0.1.0"
edition = "2021"
publish = false

[dependencies]
bytes = "1"
ethabi = "18"
ethereum-types = "0.14"
failure = "0.1"
parking_lot = "0.12"
