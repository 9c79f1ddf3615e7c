[package]
name = "timeplot"
version = "0.1.0"
edition = "2021"
publish = false

[dependencies]
chrono = "*"
config = "*"
directories = "*"
env_logger = "*"
fs2 = "*"
gnuplot = "*"
lazy_static = "*"
log = "*"
open = "*"
structopt = "*"
