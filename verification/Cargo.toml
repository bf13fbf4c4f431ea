[package]
name = "rust_http_server"
version = "0.1.0"
edition = "2021"
publish = false

[dependencies]
argparse-rs = "*"
ascii = "*"
async-compression = { version = "*", features = ["tokio", "gzip", "deflate", "zstd", "brotli"] }
async-tempfile = "*"
base64 = "*"
chrono = "*"
compression = "*"
env_logger = "*"
log = "*"
mime_guess = "*"
ordered-float = "*"
rustls = "*"
termion = "*"
tokio = { version = "*", features = ["full"] }
tokio-rustls = "*"
urlencoding = "*"
