[package]
name = "sysclean"
version = "0.1.0"
edition = "2021"
publish = false

[dependencies]
bytesize = "*"
which = "*"
gtk4 = "*"
libadwaita = { version = "*", features = ["v1_5"] }
