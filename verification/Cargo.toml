[package]
name = "kal"
version = "0.1.0"
edition = "2021"
publish = false

[dependencies]
cranelift-codegen = "=0.133.3"
cranelift-frontend = "=0.133.3"
cranelift-module = "=0.133.3"
cranelift-native = "=0.133.3"
cranelift-object = "=0.133.3"
tempfile = "=3.27.0"
