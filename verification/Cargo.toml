[package]
name = "goap"
version = "0.1.0"
edition = "2021"
publish = false

[dependencies]
pathfinding = "*"
ggez = "0.5"
cgmath = "*"
