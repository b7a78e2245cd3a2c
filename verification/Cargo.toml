[package]
name = "prereq_scheduler"
version = "0.1.0"
edition = "2021"

[dependencies]
soundex = "*"
