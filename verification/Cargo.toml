[package]
name = "boggle"
version = "0.1.0"
edition = "2021"

[dependencies]
trie-rs = "0.1"
rand = "0.8"
colored = "2"
text_io = "0.1"
