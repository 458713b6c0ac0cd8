[package]
name = "movie_search"
version = "0.1.0"
edition = "2021"
publish = false

[dependencies]
byteorder = "=1.5.0"
fst = "=0.3.5"
fst-levenshtein = "=0.3.0"
itertools = "=0.15.0"
clap = "=2.34.0"
walkdir = "=2.5.0"
flate2 = "=1.1.10"
rayon = "=1.12.0"
lmdb-rs = "=0.7.6"
minidom = "=0.19.0"
xml-rs = "=1.0.0"
option-filter = "=1.0.2"
