[package]
name = "anagram_cracker"
version = "0.1.0"
edition = "2021"
publish = false

[dependencies]
md5 = "*"
itertools = "*"
log = "*"
env_logger = "*"
