[package]
name = "pi_world"
version = "0.1.0"
edition = "2021"
publish = false

[dependencies]
pi_buckets = "*"
pi_null = "*"
pi_vec_remain = "*"
pi_append_vec = "*"
pi_arr = "*"
