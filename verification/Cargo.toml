[package]
name = "ev_slotmap"
version = "0.1.0"
edition = "2021"
publish = false

[dependencies]
one_way_slot_map = "0.2.0"
evmap = "10.0.2"
slab = "0.4"
parking_lot = "*"
serde = { version = "1", features = ["derive"] }
