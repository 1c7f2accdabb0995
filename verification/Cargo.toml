[package]
name = "sevenz-rust2"
version = "0.1.0"
edition = "2021"
publish = false

[dependencies]
aes = "0.8"
cbc = "0.1"
sha2 = "0.10"
lzma-rust2 = "*"
ppmd-rust = "*"
async-compression = { version = "0.4", features = ["futures-io", "brotli", "lz4", "bzip2", "deflate", "zstd", "lzma"] }
futures = "0.3"
futures-lite = "2"
async-io = "2"
async-fs = "2"
js-sys = "0.3"
wasm-bindgen = "0.2"
