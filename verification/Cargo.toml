[package]
name = "valkey_timeseries"
version = "0.1.0"
edition = "2021"
publish = false

[dependencies]
ahash = "0.8"
blart = "*"
croaring = "2"
get-size2 = "*"
hashify = "*"
itertools = "0.14"
min-max-heap = "1"
orx-parallel = "*"
papaya = "*"
rand = "0.10"
range-set-blaze = "*"
regex = "1"
smallvec = "1"
topo_sort = "*"
valkey-module = "*"
valkey-module-macros = "*"
