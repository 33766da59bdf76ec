[package]
name = "math_scrabble"
version = "0.1.0"
edition = "2021"
publish = false

[dependencies]
num = "0.3"
rand = "0.7"
ggez = "0.5"
log = "0.4"
fern = "0.6"
chrono = "0.4"
