[package]
name = "unic_locale_impl"
version = "0.1.0"
edition = "2021"
publish = false

[dependencies]
tinystr = "0.3"
unic-langid-impl = { version = "0.8", features = ["likelysubtags"] }
