[package]
name = "ranim"
version = "0.1.0"
edition = "2021"
publish = false

[dependencies]
arrayvec = "0.7"
pdqselect = "0.1"
rand = "0.7"
piston = "*"
piston2d-graphics = "*"
piston2d-opengl_graphics = "*"
pistoncore-glutin_window = "*"
pistoncore-sdl2_window = "*"
