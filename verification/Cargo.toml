[package]
name = "rogue_core"
version = "0.1.0"
edition = "2021"
publish = false

[dependencies]
hashbrown = "*"
rand = "0.8"
regex = "1"
hecs = "*"
