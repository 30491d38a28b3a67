[package]
name = "n0xis_core"
version = "0.1.0"
edition = "2021"
publish = false

[dependencies]
cpp_demangle = "*"
msvc-demangler = "*"
rustc-demangle = "*"
serde = { version = "1", features = ["derive"] }
thiserror = "*"
