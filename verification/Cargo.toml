[package]
name = "isomfolio-core"
version = "0.1.0"
edition = "2021"
publish = false

[dependencies]
sha2 = "=0.11.1"
quick-xml = "=0.37.5"
image = { version = "=0.25.10", default-features = false, features = ["jpeg"] }
plist = "=1.10.3"
serde = { version = "=1.0.229", features = ["derive"] }
serde_json = "=1.0.154"
directories = "=6.0.0"
thiserror = "=2.0.21"
rusqlite = { version = "=0.41.1", features = ["bundled"] }
notify = "=8.2.1"
xattr = "=1.7.0"
zip = { version = "=9.2.2", default-features = false }
jpeg-decoder = "=0.3.2"
kamadak-exif = "*"
