[package]
name = "gpu_observer"
version = "0.1.0"
edition = "2021"
publish = false

[dependencies]
serde = { version = "1", features = ["derive"] }
serde_json = "1"
libc = "0.2"
tungstenite = "=0.30.0"
aya = "=0.14.0"
aya-ebpf = "=0.1.1"
wasm-bindgen = "0.2"
wasm-bindgen-futures = "0.4"
js-sys = "0.3"
console_error_panic_hook = "0.1"
web-sys = { version = "0.3", features = ["AbortController", "AbortSignal", "Document", "DomTokenList", "Element", "Event", "EventTarget", "Headers", "HtmlInputElement", "KeyboardEvent", "Location", "MessageEvent", "Node", "ReadableStream", "ReadableStreamDefaultReader", "Request", "RequestInit", "RequestMode", "Response", "TextDecoder", "WebSocket", "Window"] }
