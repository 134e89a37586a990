[package]
name = "react_compiler_rust"
version = "0.1.0"
edition = "2021"
publish = false

[dependencies]
clap = { version = "=4.6.7", features = ["derive"] }
miette = "=7.6.0"
oxc_allocator = "=0.141.0"
oxc_ast = "=0.141.0"
oxc_parser = "=0.141.0"
oxc_span = "=0.141.0"
tempfile = "=3.27.0"
thiserror = "=2.0.21"
