[package]
name = "fontcore"
version = "0.1.0"
edition = "2021"
publish = false

[dependencies]
write-fonts = "*"
read-fonts = "*"
fontdrasil = "*"
fontir = "*"
kurbo = "*"
smol_str = "*"
thiserror = "*"
log = "*"
