[package]
name = "evm_types"
version = "0.1.0"
edition = "2021"
publish = false

[dependencies]
ethereum-types = "=0.14.1"
ethabi = "=18.0.0"
serde_json = "=1.0.151"
thiserror = "=1.0.69"
colored = "=2.2.0"
