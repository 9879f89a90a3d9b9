[package]
name = "euca"
version = "0.1.0"
edition = "2021"
publish = false

[dependencies]
log = "0.4"
wasm-bindgen = "0.2"
web-sys = { version = "0.3", features = ["Document", "Element", "Event", "EventTarget", "HtmlButtonElement", "HtmlCollection", "HtmlElement", "HtmlFieldSetElement", "HtmlInputElement", "HtmlLinkElement", "HtmlMenuItemElement", "HtmlOptGroupElement", "HtmlOptionElement", "HtmlSelectElement", "HtmlStyleElement", "HtmlTextAreaElement", "InputEvent", "Node", "Text", "Window"] }
