[package]
name = "wikidumpgrep"
version = "0.1.0"
edition = "2021"
publish = false

[dependencies]
memchr = "*"
regex = "*"
quick-xml = "*"
rayon = "*"
num_cpus = "*"
atty = "*"
clap = "*"
simdutf8 = "*"

[dev-dependencies]
bzip2 = "*"
