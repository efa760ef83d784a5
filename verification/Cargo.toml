[package]
name = "buddy_arena"
version = "0.1.0"
edition = "2021"
publish = false

[dependencies]
generational-arena = "0.2"
