[package]
name = "mp3rename"
version = "0.1.0"
edition = "2021"
publish = false

[dependencies]
audiotags = "*"
clap = "2"
regex = "1"
walkdir = "2"
