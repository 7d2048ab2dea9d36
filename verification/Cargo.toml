[package]
name = "pwatch"
version = "0.1.0"
edition = "2021"
publish = false

[dependencies]
unicode-width = "*"
crossterm = "*"
sysinfo = "*"
getopts = "*"
atty = "*"
chrono = "*"
regex = "*"
