[package]
name = "tile_clerk"
version = "0.1.0"
edition = "2021"
publish = false
