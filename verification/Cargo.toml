[package]
name = "freemacs"
version = "0.1.0"
edition = "2021"
publish = false

[dependencies]
regex = "1"
chrono = "0.4"
glob = "0.3"
crossterm = "*"
ncurses = "*"
