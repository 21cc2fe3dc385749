[package]
name = "nordocs"
version = "0.1.0"
edition = "2021"
publish = false

[dependencies]
anyhow = "=1.0.104"
base64 = "=0.22.1"
blake3 = "=1.8.7"
clap = { version = "=4.6.7", features = ["derive"] }
comemo = "*"
comrak = "=0.59.0"
serde = { version = "=1.0.229", features = ["derive"] }
serde_json = "=1.0.154"
serde_yaml_ng = "=0.10.0"
thiserror = "=2.0.21"
typst = "=0.14.2"
typst-ide = "=0.14.2"
typst-kit = { version = "=0.14.2", default-features = false, features = ["fonts", "embed-fonts"] }
typst-pdf = "=0.14.2"
typst-render = "=0.14.2"
typst-svg = "=0.14.2"
