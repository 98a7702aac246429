[package]
name = "modem-core"
version = "0.1.0"
edition = "2021"
publish = false

[dependencies]
raptorq = "2.0.1"
reed-solomon-erasure = "6"
num-complex = "0.4"
rustfft = "6"
realfft = "3"
pulp = "0.21"
thiserror = "1"
