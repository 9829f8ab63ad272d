[package]
name = "mini_asset_loader"
version = "0.1.0"
edition = "2021"
publish = false

[dependencies]
serde_json = "1"
zip = "*"
any_handle = "*"
