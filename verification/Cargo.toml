[package]
name = "freemkv_i18n"
version = "1.6.7"
edition = "2021"
publish = false

[dependencies]
serde_json = "1"
