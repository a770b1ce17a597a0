[package]
name = "aether"
version = "0.1.0"
edition = "2021"
publish = false

[dependencies]
windows = { version = "0.58", default-features = false, features = ["Foundation_Numerics", "Win32_Foundation", "Win32_Graphics_Direct2D", "Win32_Graphics_Direct2D_Common", "Win32_Graphics_DirectWrite", "Win32_Graphics_Dxgi_Common", "Win32_Graphics_Gdi"] }
