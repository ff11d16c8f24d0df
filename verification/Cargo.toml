[package]
name = "signed_buffer"
version = "0.1.0"
edition = "2021"
publish = false

[dependencies]
siphasher = "*"
packed_struct = "*"
packed_struct_codegen = "*"
