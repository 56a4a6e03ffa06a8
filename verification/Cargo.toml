[package]
name = "statement_router"
version = "0.1.0"
edition = "2021"
publish = false

[dependencies]
futures = "0.1"
parity-codec = "3.5"
parking_lot = "*"
polkadot-primitives = "*"
slice-group-by = "*"
sp-runtime = "*"
