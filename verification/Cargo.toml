[package]
name = "stage0"
version = "0.1.0"
edition = "2021"
publish = false

[dependencies]
js-sys = "0.3"
lazy_static = "1"
wasm-bindgen = "0.2"
web-sys = { version = "0.3", features = ["Attr", "Document", "DocumentFragment", "Element", "Event", "EventTarget", "HtmlElement", "HtmlTemplateElement", "NamedNodeMap", "Node", "TreeWalker", "Window"] }
