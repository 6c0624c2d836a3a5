[package]
name = "troll_maze"
version = "0.1.0"
edition = "2021"
publish = false

[dependencies]
rand = "0.3"
ansi_term = "0.9"
fern = "0.3"
log = "0.3"
termios = "0.2"
text_io = "0.1"
time = "0.1"
