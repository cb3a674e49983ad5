[package]
name = "eup_resizer"
version = "0.1.0"
edition = "2021"
publish = false

[dependencies]
anyhow = "=1.0.104"
crossbeam-channel = "=0.5.17"
directories = "=6.0.0"
eframe = { version = "=0.37.0", default-features = false, features = ["default_fonts", "glow", "x11"] }
flate2 = "=1.1.10"
image = { version = "=0.25.10", default-features = false, features = ["png"] }
intel_tex_2 = "=0.5.0"
link-cplusplus = "1"
rayon = "=1.12.0"
rfd = { version = "=0.16.1", default-features = false, features = ["xdg-portal", "tokio"] }
rpf-archive = "=0.9.4"
serde = { version = "=1.0.229", features = ["derive"] }
serde_json = "=1.0.154"
texpresso = "=2.0.2"
texture2ddecoder = "=0.1.2"
windows-sys = { version = "=0.61.2", features = ["Win32_System_Threading"] }
