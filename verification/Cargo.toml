[package]
name = "polargraph"
version = "0.1.0"
edition = "2021"
publish = false

[dependencies]
tokio = { version = "1", features = ["net", "io-util", "sync", "rt", "rt-multi-thread", "macros"] }
serde = { version = "1", features = ["derive"] }
thiserror = "2"
getset = "0.1"
rand = "0.9"
noise = "0.9"
image = "0.25"
imageproc = "0.25"
ordered-float = "5"
symphonia = "0.5"
pyo3 = "0.25"
