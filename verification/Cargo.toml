[package]
name = "forge_coverage"
version = "0.1.0"
edition = "2021"
publish = false

[dependencies]
alloy-dyn-abi = { version = "=1.7.3", default-features = false, features = ["std"] }
alloy-json-abi = { version = "=1.7.3", default-features = false, features = ["std"] }
alloy-primitives = { version = "=1.7.3", default-features = false, features = ["std", "map"] }
clap = { version = "4", features = ["derive"] }
comfy-table = "=8.0.1"
evm-disassembler = "=0.6.0"
eyre = "0.6"
globset = "=0.4.21"
rayon = "1"
regex = "=1.13.1"
revm = { version = "=43.0.3", default-features = false, features = ["std"] }
semver = "=1.0.28"
serde = { version = "1", features = ["derive"] }
serde_json = "1"
solar-compiler = { version = "=0.1.8", default-features = false }
