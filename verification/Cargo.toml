[package]
name = "dca_sim"
version = "0.1.0"
edition = "2021"
publish = false

[dependencies]
rand = "*"
rand_distr = "*"
ndarray = "*"
chrono = "*"
ctrlc = "*"
log = "*"
simplelog = "*"
structopt = "*"
