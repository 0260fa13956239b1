[package]
name = "pdfx"
version = "0.1.0"
edition = "2021"
publish = false

[dependencies]
lopdf = { version = "=0.46.0", default-features = false }
zune-jpeg = { version = "=0.5.15", default-features = false, features = ["std"] }
thiserror = "=2.0.21"
anyhow = "=1.0.104"
clap = { version = "=4.6.7", features = ["derive"] }

[dev-dependencies]
flate2 = "=1.1.10"
