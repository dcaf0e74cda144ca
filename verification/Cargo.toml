[package]
name = "moss_hecs_hierarchy"
version = "0.1.0"
edition = "2021"
publish = false

[dependencies]
hecs = "=0.10.5"
hecs-schedule = "=0.7.0"
once_cell = "=1.21.4"
