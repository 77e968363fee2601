[package]
name = "word_hunt"
version = "0.1.0"
edition = "2021"
publish = false

[dependencies]
fxhash = "0.2"
crossterm = "0.27"
