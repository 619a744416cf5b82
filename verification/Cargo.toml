[package]
name = "forkjoin_tasks"
version = "0.1.0"
edition = "2021"
publish = false

[dependencies]
argparse = "=0.2.2"
time = "=0.1.45"
criterion = "=0.8.2"
