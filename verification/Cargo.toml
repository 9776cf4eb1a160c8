[package]
name = "trueskill_spb"
version = "0.1.0"
edition = "2021"
publish = false

[dependencies]
statrs = "*"
