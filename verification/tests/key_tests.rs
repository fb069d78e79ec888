use cozoscript::mode::def::NonemptyKeys;
use cozoscript::mode::key::{key_to_string, ArrowKey, Key, ModifierKey};

#[test]
fn key_names() {
    assert_eq!(key_to_string(Key::Alt('x')), "alt+x");
    assert_eq!(key_to_string(Key::Ctrl('c')), "ctrl+c");
    assert_eq!(key_to_string(Key::F(12)), "f12");
    assert_eq!(key_to_string(Key::F(0)), "f0");
    assert_eq!(key_to_string(Key::F(255)), "f255");
    assert_eq!(key_to_string(Key::Char('語')), "語");
    assert_eq!(key_to_string(Key::PageDown), "pagedown");
    assert_eq!(key_to_string(Key::__IsNotComplete), "__IsNotComplete");
}

#[test]
fn modifier_key_names() {
    assert_eq!(ModifierKey::Ctrl('a').to_string(), "ctrl+a");
    assert_eq!(ModifierKey::Alt('b').to_string(), "alt+b");
    assert_eq!(ModifierKey::Arrow(ArrowKey::Left).to_string(), "left");
    assert_eq!(ModifierKey::Tab.to_string(), "tab");
    assert_eq!(ArrowKey::Up.to_string(), "up");
    assert_eq!(ArrowKey::Down.to_string(), "down");
}

#[test]
fn nonempty_keys_text() {
    let k = NonemptyKeys { head: Key::Ctrl('a'), keys: vec![Key::Char('b'), Key::Esc] };
    assert_eq!(k.to_string(), "ctrl+ab esc");
    let k = NonemptyKeys { head: Key::Char('g'), keys: vec![] };
    assert_eq!(k.to_string(), "");
}
