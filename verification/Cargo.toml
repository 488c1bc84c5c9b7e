[package]
name = "scry_backend"
version = "0.1.0"
edition = "2021"
publish = false

[dependencies]
byteorder = "*"
graphene = "*"
hashbrown = "*"
regalloc2 = "*"
scry_isa = "*"
smallvec = "*"
target-lexicon = "*"
