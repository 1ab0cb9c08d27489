[package]
name = "npmpink"
version = "0.1.0"
edition = "2021"
publish = false

[dependencies]
anstyle = "=1.0.14"
anyhow = "=1.0.104"
clap = { version = "=4.6.7", features = ["derive"] }
home = "=0.5.12"
ignore = "=0.4.33"
package_json_schema = "=0.3.0"
regex = "=1.13.1"
serde = { version = "=1.0.229", features = ["derive"] }
serde_json = "=1.0.151"
