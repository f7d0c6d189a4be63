[package]
name = "beamer_quickie"
version = "0.1.0"
edition = "2021"
publish = false

[dependencies]
anyhow = "1"
cairo-rs = { version = "0.18", features = ["svg"] }
glib = "0.18"
gtk4 = "0.7"
itertools = "0.12"
lazy_static = "1"
libc = "0.2"
poppler-rs = "0.22"
sourceview5 = "0.7"
synctex_sys = "*"
