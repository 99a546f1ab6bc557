[package]
name = "clustermesh"
version = "0.1.0"
edition = "2021"
publish = false

[dependencies]
foldhash = "=0.2.0"
ultraviolet = "=0.10.0"
tobj = "=4.0.5"
swait = "=0.1.5"
wrgpgpu = "=0.1.5"
wgpu = "=24.0.5"
