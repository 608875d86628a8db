[package]
name = "euler"
version = "0.1.0"
edition = "2021"
publish = false

[dependencies]
fixedbitset = "=0.5.7"
gcd = "=2.3.0"
integer-sqrt = "=0.1.5"
itertools = "=0.15.0"
num-bigint = "=0.5.1"
owo-colors = "=4.4.0"
partitions = "*"
primal = "=0.3.3"
priority-queue = "=2.7.0"
rayon = "=1.12.0"
tempfile = "=3.27.0"
