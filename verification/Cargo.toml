[package]
name = "pars_core"
version = "0.1.0"
edition = "2021"
publish = false

[dependencies]
bstr = "1"
pars_libs = "0.1.3"
