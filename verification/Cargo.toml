[package]
name = "chunked_table"
version = "0.1.0"
edition = "2021"
publish = false

[dependencies]
arrow2 = { version = "0.16", default-features = false, features = ["compute_take", "compute_concatenate", "compute_aggregate", "compute_arithmetics", "compute_cast", "compute_comparison", "io_parquet"] }
rayon = "1"
serde = { version = "1", features = ["derive"] }
serde_json = "1"
