[package]
name = "flat_record"
version = "0.1.0"
edition = "2021"
publish = false

[dependencies]
pgx = "0.1.25"
