use vstd::prelude::*;

use std::collections::HashMap;

use crate::mode::key::{key_to_string, keys_text, Key, ModifierKey};
use crate::text::{chars_of, string_of};

verus! {

/// The operations bound to key sequences, in insert mode and in the other modes.
pub struct Modef<T> {
    pub insert: HashMap<String, Opes<T>>,
    pub other: HashMap<String, HashMap<String, Opes<T>>>,
}

/// A key sequence for insert mode: a modifier key, then more keys.
pub struct KeysForInsertMode {
    pub head: ModifierKey,
    pub keys: Vec<Key>,
}

/// A key sequence of at least one key.
pub struct NonemptyKeys {
    pub head: Key,
    pub keys: Vec<Key>,
}

/// Operations bound in insert mode: a chain, then the committing operation.
pub struct InsertOpes<T> {
    pub chain: Vec<Ope<T>>,
    pub commit: CommitOpe<T>,
}

/// Operations bound to a key sequence: a chain, then the committing operation.
pub struct Opes<T> {
    pub chain: Vec<Ope<T>>,
    pub commit: CommitOpe<T>,
}

/// An editing operation.
pub enum Ope<T> {
    NotInsertMode(String),
    Cursor(usize),
    Scroll(LineCount),
    Mut(Mutation<T>),
}

/// The operation that ends a chain.
pub enum CommitOpe<T> {
    ToggleInsertMode,
    Ope(Ope<T>),
}

/// A number of lines, relative to the current one or from the top.
#[derive(Debug, Clone, Copy)]
pub enum LineCount {
    Relative(i32),
    Absolute(u32),
}

/// A change to a text.
pub enum Mutation<T> {
    Del(usize, usize),
    Insert(usize, T),
    Complex(Vec<Mutation<T>>),
}

impl NonemptyKeys {
    /// The names of the keys: the first key's name, then each following
    /// key's name and a space, with the last character taken off.
    pub fn to_string(&self) -> (r: String)
        ensures
            r@ == keys_text(self.head, self.keys@),
    {
        let mut out = chars_of(key_to_string(self.head).as_str());
        crate::mode::key::push_spaced_keys(&mut out, &self.keys);
        if out.len() > 0 {
            out.pop();
        }
        string_of(&out)
    }
}

} // verus!
