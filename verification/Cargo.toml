[package]
name = "dinotree_alg"
version = "0.1.0"
edition = "2021"
publish = false

[dependencies]
compt = "*"
pdqselect = "*"
axgeom = "*"
rayon = "*"
