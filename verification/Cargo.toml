[package]
name = "eqsat"
version = "0.1.0"
edition = "2021"
publish = false

[dependencies]
hashbrown = { version = "0.12", default-features = false }
num-rational = "0.4"
num-bigint = "0.4"
num-traits = "0.2"
lalrpop-util = { version = "*", default-features = false }
sexp = "*"
thiserror = "1"
log = "0.4"
