[package]
name = "specs_hierarchy"
version = "0.1.0"
edition = "2021"
publish = false

[dependencies]
hibitset = "*"
shrev = "*"
specs = "*"
shred = "*"
shred-derive = "*"
