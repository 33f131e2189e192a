[package]
name = "file_duplicate_finder"
version = "0.1.0"
edition = "2021"
publish = false

[dependencies]
md5 = "0.7"
druid = "0.8"
rfd = "*"
open = "*"
