//! Input keys and their three-part display rendering.

use vstd::prelude::*;
use crate::text::chars_to_string;

verus! {

/// An input key: a plain character, a character with a Ctrl or Alt
/// modifier, or a named key (arrows, function keys and the like) carried
/// by its canonical name.
#[derive(Debug)]
pub enum Key {
    Ctrl(char),
    Alt(char),
    Char(char),
    Named(String),
}

/// Structural equality of keys, by modifier and rendered character data.
pub open spec fn key_eq(a: Key, b: Key) -> bool {
    match (a, b) {
        (Key::Ctrl(c1), Key::Ctrl(c2)) => c1 == c2,
        (Key::Alt(c1), Key::Alt(c2)) => c1 == c2,
        (Key::Char(c1), Key::Char(c2)) => c1 == c2,
        (Key::Named(n1), Key::Named(n2)) => n1@ == n2@,
        _ => false,
    }
}

/// Decides `key_eq`.
pub fn key_matches(a: &Key, b: &Key) -> (r: bool)
    ensures
        r == key_eq(*a, *b),
{
    match (a, b) {
        (Key::Ctrl(c1), Key::Ctrl(c2)) => *c1 == *c2,
        (Key::Alt(c1), Key::Alt(c2)) => *c1 == *c2,
        (Key::Char(c1), Key::Char(c2)) => *c1 == *c2,
        (Key::Named(n1), Key::Named(n2)) => *n1 == *n2,
        _ => false,
    }
}

/// The texts of the three display parts of a key: modifier, separator and
/// base. `Ctrl(c)` renders as `Ctrl`, `+`, `c` and `Alt(c)` as `Alt`, `+`,
/// `c`; a plain newline renders as `Enter`, a plain space as `Space`, any
/// other plain character as itself; a named key renders as its name. The
/// modifier and separator of unmodified keys are empty.
pub open spec fn key_part_texts(k: Key) -> (Seq<char>, Seq<char>, Seq<char>) {
    match k {
        Key::Ctrl(c) => ("Ctrl"@, "+"@, seq![c]),
        Key::Alt(c) => ("Alt"@, "+"@, seq![c]),
        Key::Char(c) => (
            Seq::<char>::empty(),
            Seq::<char>::empty(),
            if c == '\n' {
                "Enter"@
            } else if c == ' ' {
                "Space"@
            } else {
                seq![c]
            },
        ),
        Key::Named(n) => (Seq::<char>::empty(), Seq::<char>::empty(), n@),
    }
}

/// The canonical textual form of a key: its three display parts joined,
/// e.g. `Ctrl+g` or `Enter`. Rows are ordered by this text.
pub open spec fn key_text(k: Key) -> Seq<char> {
    key_part_texts(k).0 + key_part_texts(k).1 + key_part_texts(k).2
}

/// The three display parts of a key as owned strings.
pub struct KeyParts {
    pub modifier: String,
    pub separator: String,
    pub base: String,
}

/// Renders a key as its three display parts.
pub fn key_to_parts(k: &Key) -> (r: KeyParts)
    ensures
        r.modifier@ == key_part_texts(*k).0,
        r.separator@ == key_part_texts(*k).1,
        r.base@ == key_part_texts(*k).2,
{
    match k {
        Key::Ctrl(c) => KeyParts {
            modifier: String::from_str("Ctrl"),
            separator: String::from_str("+"),
            base: char_string(*c),
        },
        Key::Alt(c) => KeyParts {
            modifier: String::from_str("Alt"),
            separator: String::from_str("+"),
            base: char_string(*c),
        },
        Key::Char(c) => {
            let base = if *c == '\n' {
                String::from_str("Enter")
            } else if *c == ' ' {
                String::from_str("Space")
            } else {
                char_string(*c)
            };
            KeyParts { modifier: String::new(), separator: String::new(), base }
        },
        Key::Named(n) => KeyParts {
            modifier: String::new(),
            separator: String::new(),
            base: n.clone(),
        },
    }
}

/// The canonical textual form of a key, as `key_text` gives it.
pub fn key_canonical_text(k: &Key) -> (r: String)
    ensures
        r@ == key_text(*k),
{
    let parts = key_to_parts(k);
    let mut out = parts.modifier;
    out.append(parts.separator.as_str());
    out.append(parts.base.as_str());
    out
}

/// A one-character string.
fn char_string(c: char) -> (r: String)
    ensures
        r@ == seq![c],
{
    let v: Vec<char> = vec![c];
    chars_to_string(&v)
}

} // verus!
