[package]
name = "gen_redirects"
version = "0.1.0"
edition = "2021"
publish = false

[dependencies]
clap = "=4.6.7"
curl = "=0.4.50"
html5ever = "=0.27.0"
markup5ever_rcdom = "=0.3.0"
