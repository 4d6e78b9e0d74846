[package]
name = "component_inliner"
version = "0.1.0"
edition = "2021"
publish = false

[dependencies]
kuchiki = "0.8"
html5ever = "0.25"
colored = "2"
glob = "0.3"
napi = "2"
napi-derive = "2"
