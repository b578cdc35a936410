[package]
name = "patchouly"
version = "0.1.0"
edition = "2021"
publish = false

[dependencies]
slab = "0.4"
smallvec = "1"
object = "*"
memmap2 = "*"
thiserror = "*"
bitfields = "*"
syn = { version = "2", features = ["full"] }
quote = "1"
proc-macro2 = "1"
darling = "*"
itertools = "*"
once_cell = "*"
