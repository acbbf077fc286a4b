[package]
name = "pdfl"
version = "0.1.0"
edition = "2021"
publish = false

[dependencies]
sha2 = "=0.11.1"
regex = "=1.13.1"
serde = { version = "=1.0.229", features = ["derive"] }
serde_json = "=1.0.154"
anyhow = "=1.0.104"
clap = { version = "=4.6.7", features = ["derive"] }
clap_complete = "=4.6.11"
flate2 = "=1.1.10"
tar = "=0.4.46"
lopdf = "=0.44.0"
notify = "=8.2.1"
image = { version = "=0.25.8", default-features = false, features = ["png", "jpeg"] }
printpdf = "=0.12.8"
pdfium-render = "=0.9.5"
rxing = "=0.9.3"
