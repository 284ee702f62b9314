[package]
name = "riiry"
version = "0.1.0"
edition = "2021"
publish = false

[dependencies]
sublime_fuzzy = "*"
rff = "*"
regex = "1"
walkdir = "2"
log = "0.4"
pretty_env_logger = "0.4"
rayon = "1"
failure = "0.1"
lazy_static = "1"
glib = "0.9"
gdk = "0.12"
gtk = "0.8"
