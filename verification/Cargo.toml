[package]
name = "part_world"
version = "0.1.0"
edition = "2021"
publish = false

[dependencies]
generational-arena = "=0.2.9"
nphysics2d = "=0.24.0"
ncollide2d = "=0.32.0"
nalgebra = "=0.29.0"
num-traits = "=0.2.19"
