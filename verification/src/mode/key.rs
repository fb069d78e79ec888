use vstd::prelude::*;

use crate::text::{chars_of, push_all, string_of};

verus! {

/// A key press, as a terminal reports it.
#[derive(Debug, Clone, Copy, PartialEq, Eq, Hash)]
pub enum Key {
    Backspace,
    Left,
    Right,
    Up,
    Down,
    Home,
    End,
    PageUp,
    PageDown,
    BackTab,
    Delete,
    Insert,
    F(u8),
    Char(char),
    Alt(char),
    Ctrl(char),
    Null,
    Esc,
    #[allow(non_camel_case_types)]
    __IsNotComplete,
}

/// A key that may start a command in insert mode.
#[derive(Debug, Clone, Copy, Hash)]
pub enum ModifierKey {
    Ctrl(char),
    Alt(char),
    Arrow(ArrowKey),
    PageUp,
    PageDown,
    Insert,
    Home,
    Delete,
    Backspace,
    Tab,
}

/// An arrow key.
#[derive(Debug, Clone, Copy, Hash)]
pub enum ArrowKey {
    Up,
    Down,
    Left,
    Right,
}

/// The decimal digit of `d`, for `d` below ten.
pub open spec fn digit_char(d: nat) -> char {
    if d == 0 {
        '0'
    } else if d == 1 {
        '1'
    } else if d == 2 {
        '2'
    } else if d == 3 {
        '3'
    } else if d == 4 {
        '4'
    } else if d == 5 {
        '5'
    } else if d == 6 {
        '6'
    } else if d == 7 {
        '7'
    } else if d == 8 {
        '8'
    } else {
        '9'
    }
}

/// The decimal digits of `n`, without leading zeros.
pub open spec fn decimal(n: nat) -> Seq<char>
    decreases n,
{
    if n < 10 {
        seq![digit_char(n)]
    } else {
        decimal(n / 10) + seq![digit_char(n % 10)]
    }
}

fn digit(d: u64) -> (c: char)
    requires
        d < 10,
    ensures
        c == digit_char(d as nat),
{
    match d {
        0 => '0',
        1 => '1',
        2 => '2',
        3 => '3',
        4 => '4',
        5 => '5',
        6 => '6',
        7 => '7',
        8 => '8',
        _ => '9',
    }
}

/// Appends the decimal digits of `n`.
pub(crate) fn push_decimal(out: &mut Vec<char>, n: u64)
    ensures
        final(out)@ == old(out)@ + decimal(n as nat),
    decreases n,
{
    if n < 10 {
        out.push(digit(n));
        assert(final(out)@ =~= old(out)@ + decimal(n as nat));
    } else {
        push_decimal(out, n / 10);
        out.push(digit(n % 10));
        assert(final(out)@ =~= old(out)@ + decimal(n as nat));
    }
}

/// The name of a key: `alt+` or `ctrl+` and the character for modified
/// characters, `f` and the number for function keys, the character itself,
/// or the key's name in lower case.
pub open spec fn key_text(key: Key) -> Seq<char> {
    match key {
        Key::Alt(c) => "alt+"@ + seq![c],
        Key::Ctrl(c) => "ctrl+"@ + seq![c],
        Key::F(u) => "f"@ + decimal(u as nat),
        Key::Char(c) => seq![c],
        Key::BackTab => "backtab"@,
        Key::Backspace => "backspace"@,
        Key::Delete => "delete"@,
        Key::Down => "down"@,
        Key::End => "end"@,
        Key::Esc => "esc"@,
        Key::Home => "home"@,
        Key::Insert => "insert"@,
        Key::Left => "left"@,
        Key::Null => "null"@,
        Key::PageDown => "pagedown"@,
        Key::PageUp => "pageup"@,
        Key::Right => "right"@,
        Key::Up => "up"@,
        Key::__IsNotComplete => "__IsNotComplete"@,
    }
}

fn text_then(prefix: &str, c: char) -> (r: String)
    ensures
        r@ == prefix@ + seq![c],
{
    let mut v = chars_of(prefix);
    v.push(c);
    string_of(&v)
}

/// The name of a key (see `key_text`).
pub fn key_to_string(key: Key) -> (r: String)
    ensures
        r@ == key_text(key),
{
    match key {
        Key::Alt(c) => text_then("alt+", c),
        Key::Ctrl(c) => text_then("ctrl+", c),
        Key::F(u) => {
            let mut v = chars_of("f");
            push_decimal(&mut v, u as u64);
            string_of(&v)
        },
        Key::Char(c) => {
            let mut v: Vec<char> = Vec::new();
            v.push(c);
            assert(v@ =~= seq![c]);
            string_of(&v)
        },
        Key::BackTab => "backtab".to_owned(),
        Key::Backspace => "backspace".to_owned(),
        Key::Delete => "delete".to_owned(),
        Key::Down => "down".to_owned(),
        Key::End => "end".to_owned(),
        Key::Esc => "esc".to_owned(),
        Key::Home => "home".to_owned(),
        Key::Insert => "insert".to_owned(),
        Key::Left => "left".to_owned(),
        Key::Null => "null".to_owned(),
        Key::PageDown => "pagedown".to_owned(),
        Key::PageUp => "pageup".to_owned(),
        Key::Right => "right".to_owned(),
        Key::Up => "up".to_owned(),
        Key::__IsNotComplete => "__IsNotComplete".to_owned(),
    }
}

/// The name of an arrow key.
pub open spec fn arrow_text(a: ArrowKey) -> Seq<char> {
    match a {
        ArrowKey::Down => "down"@,
        ArrowKey::Left => "left"@,
        ArrowKey::Right => "right"@,
        ArrowKey::Up => "up"@,
    }
}

impl ArrowKey {
    /// The name of the arrow key.
    pub fn to_string(&self) -> (r: String)
        ensures
            r@ == arrow_text(*self),
    {
        match self {
            ArrowKey::Down => "down",
            ArrowKey::Left => "left",
            ArrowKey::Right => "right",
            ArrowKey::Up => "up",
        }.to_owned()
    }
}

/// The name of a modifier key: as the key it stands for, or its own name.
pub open spec fn modifier_text(m: ModifierKey) -> Seq<char> {
    match m {
        ModifierKey::Alt(c) => key_text(Key::Alt(c)),
        ModifierKey::Ctrl(c) => key_text(Key::Ctrl(c)),
        ModifierKey::Arrow(a) => arrow_text(a),
        ModifierKey::Backspace => "backspace"@,
        ModifierKey::Delete => "delete"@,
        ModifierKey::Insert => "insert"@,
        ModifierKey::Home => "home"@,
        ModifierKey::Tab => "tab"@,
        ModifierKey::PageDown => "pagedown"@,
        ModifierKey::PageUp => "pageup"@,
    }
}

impl ModifierKey {
    /// The name of the modifier key.
    pub fn to_string(&self) -> (r: String)
        ensures
            r@ == modifier_text(*self),
    {
        match self {
            ModifierKey::Alt(c) => key_to_string(Key::Alt(*c)),
            ModifierKey::Ctrl(c) => key_to_string(Key::Ctrl(*c)),
            ModifierKey::Arrow(a) => a.to_string(),
            ModifierKey::Backspace => "backspace".to_owned(),
            ModifierKey::Delete => "delete".to_owned(),
            ModifierKey::Insert => "insert".to_owned(),
            ModifierKey::Home => "home".to_owned(),
            ModifierKey::Tab => "tab".to_owned(),
            ModifierKey::PageDown => "pagedown".to_owned(),
            ModifierKey::PageUp => "pageup".to_owned(),
        }
    }
}

/// The names of `keys`, each followed by a space.
pub open spec fn spaced_keys(keys: Seq<Key>) -> Seq<char>
    decreases keys.len(),
{
    if keys.len() == 0 {
        seq![]
    } else {
        key_text(keys[0]) + seq![' '] + spaced_keys(keys.drop_first())
    }
}

/// `s` without its last character, if it has one.
pub open spec fn without_last(s: Seq<char>) -> Seq<char> {
    if s.len() > 0 {
        s.drop_last()
    } else {
        s
    }
}

/// The names of the keys `head`, then `keys` each followed by a space, with
/// the last character taken off.
pub open spec fn keys_text(head: Key, keys: Seq<Key>) -> Seq<char> {
    without_last(key_text(head) + spaced_keys(keys))
}

/// Appends the names of `keys`, each followed by a space.
pub(crate) fn push_spaced_keys(out: &mut Vec<char>, keys: &Vec<Key>)
    ensures
        final(out)@ == old(out)@ + spaced_keys(keys@),
{
    let ghost start = old(out)@;
    let mut i: usize = 0;
    assert(keys@.skip(0) =~= keys@);
    assert(start + spaced_keys(keys@) =~= out@ + spaced_keys(keys@.skip(0)));
    while i < keys.len()
        invariant
            i <= keys.len(),
            start + spaced_keys(keys@) == out@ + spaced_keys(keys@.skip(i as int)),
        decreases keys.len() - i,
    {
        let name = chars_of(key_to_string(keys[i]).as_str());
        let ghost before = out@;
        push_all(out, &name);
        out.push(' ');
        proof {
            let t = keys@.skip(i as int);
            assert(t[0] == keys@[i as int]);
            assert(t.drop_first() =~= keys@.skip(i + 1));
            assert(before + (key_text(keys@[i as int]) + seq![' '] + spaced_keys(keys@.skip(i + 1)))
                =~= out@ + spaced_keys(keys@.skip(i + 1)));
        }
        i = i + 1;
    }
    assert(keys@.skip(i as int) =~= Seq::<Key>::empty());
    assert(out@ + Seq::<char>::empty() =~= out@);
}

} // verus!
