[package]
name = "fries_corpus_script"
version = "0.1.0"
edition = "2021"
publish = false

[dependencies]
structopt = "0.3"
cargo_toml = "*"
crates_io_api = "*"
run_shell = "*"
log = "0.4"
