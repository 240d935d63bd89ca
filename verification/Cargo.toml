[package]
name = "relic_chunky"
version = "0.1.0"
edition = "2021"
publish = false

[dependencies]
anyhow = "=1.0.104"
flate2 = "=1.1.10"
intel_tex_2 = "=0.5.0"
link-cplusplus = "=1.0.12"
png = "=0.17.16"
quick-xml = "=0.37.5"
serde = { version = "=1.0.229", features = ["derive"] }
serde_json = "=1.0.154"

[dev-dependencies]
bcdec_rs = "*"
