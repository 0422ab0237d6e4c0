[package]
name = "rip_shuffle"
version = "0.1.0"
edition = "2021"
publish = false

[dependencies]
arrayvec = "0.7"
rand = "0.8"
rand_distr = "0.4"
rand_pcg = "0.3"
rayon = "1"
