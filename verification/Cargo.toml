[package]
name = "lattirust"
version = "0.1.0"
edition = "2021"
publish = false

[dependencies]
const-primes = "=0.8.7"
num-bigint = "=0.4.8"
num-traits = "=0.2.19"
rand = "=0.8.8"
