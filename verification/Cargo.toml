[package]
name = "script_compiler"
version = "0.1.0"
edition = "2021"
publish = false

[dependencies]
deno_ast = "=0.53.3"
inkwell = { version = "=0.5.0", features = ["llvm14-0-force-dynamic"] }
