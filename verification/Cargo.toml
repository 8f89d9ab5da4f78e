[package]
name = "celo_trace"
version = "0.1.0"
edition = "2021"
publish = false

[dependencies]
alloy-consensus = "*"
alloy-eips = "*"
alloy-evm = "*"
alloy-primitives = "*"
alloy-rlp = "*"
alloy-rpc-types-eth = "*"
async-trait = "*"
futures = "*"
jsonrpsee = { version = "*", features = ["server-core", "macros"] }
reth-primitives-traits = "*"
revm = { version = "*", default-features = false, features = ["std"] }
revm-bytecode = "*"
revm-inspectors = "*"
