[package]
name = "helix_ext"
version = "0.1.0"
edition = "2021"
publish = false

[dependencies]
aho-corasick = "=1.1.5"
arc-swap = "=1.9.3"
bstr = "=1.13.1"
crc32fast = "=1.5.4"
crossbeam-deque = "=0.8.8"
encoding_rs = "=0.8.44"
faster-hex = "=1.0.0"
filetime = "=0.2.29"
itoa = "=1.0.18"
libc = "=0.2.191"
log = "=0.4.35"
memchr = "=2.8.3"
memmap2 = "=0.9.12"
parking_lot = "=0.12.5"
regex-automata = "=0.4.18"
regex-syntax = "=0.8.11"
same-file = "=1.0.6"
sha1-checked = "=0.10.0"
smallvec = "=1.16.4"
uluru = "=3.1.0"
unicode-bom = "=2.0.3"
unicode-normalization = "=0.1.26"
zlib-rs = "=0.6.8"
