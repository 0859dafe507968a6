[package]
name = "minicaldav"
version = "0.1.0"
edition = "2021"
publish = false

[dependencies]
base64 = "0.13"
url = "2"
reqwest = { version = "0.12", default-features = false }
xmltree = "0.10"
icalendar = "0.16"
ureq = "2"
log = "0.4"
env_logger = "0.10"
rpassword = "7"
serde = { version = "1", features = ["derive"] }
