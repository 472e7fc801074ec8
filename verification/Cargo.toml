[package]
name = "geo_tiler"
version = "0.1.0"
edition = "2021"
publish = false

[dependencies]
geo = "*"
geojson = "*"
serde_json = "*"
d3_geo_rs = "*"
ghx_constrained_delaunay = "*"
