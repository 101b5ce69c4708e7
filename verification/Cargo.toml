[package]
name = "rrt_planner"
version = "0.1.0"
edition = "2021"
publish = false

[dependencies]
rand = "0.8"
image = "0.25"
csv = "1"
