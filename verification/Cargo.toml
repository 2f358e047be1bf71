[package]
name = "filter_effect_toggle"
version = "0.1.0"
edition = "2021"
publish = false

[dependencies]
aviutl2 = "*"
