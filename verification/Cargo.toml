[package]
name = "comma"
version = "0.1.0"
edition = "2021"
publish = false

[dependencies]
xaddr = "*"
zip = { version = "2", default-features = false, features = ["deflate"] }
gettext-rs = "*"
gtk4 = "*"
libadwaita = "*"
pangocairo = "*"
