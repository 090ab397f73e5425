[package]
name = "lsp_rpc"
version = "0.1.0"
edition = "2021"
publish = false

[dependencies]
bytes = "0.4"
futures = "0.1"
jsonrpc-core = "7"
serde = "1"
serde_json = "1"
tokio-io = "0.1"
