//! Keys of the keyboard, as the pager tells them apart.

use vstd::prelude::*;

use crate::text::same_text;
use vstd::string::*;

verus! {

/// A key that was pressed. All keys that mean nothing to the pager are `Other`.
#[derive(Clone, Copy, Debug, PartialEq, Eq, Structural)]
pub enum Key {
    Char(char),
    Enter,
    Tab,
    Esc,
    Backspace,
    F(u8),
    Up,
    Down,
    Left,
    Right,
    PageUp,
    PageDown,
    Home,
    End,
    Other,
}

/// The key that a bind's key name stands for: a single character, or one of
/// `enter`, `tab`, `esc`, `space`, `backspace` and `f1` to `f12`.
pub open spec fn key_named(name: Seq<char>) -> Option<Key> {
    if name.len() == 1 {
        Some(Key::Char(name[0]))
    } else if name == "enter"@ {
        Some(Key::Enter)
    } else if name == "tab"@ {
        Some(Key::Tab)
    } else if name == "esc"@ {
        Some(Key::Esc)
    } else if name == "space"@ {
        Some(Key::Char(' '))
    } else if name == "backspace"@ {
        Some(Key::Backspace)
    } else if name == "f1"@ {
        Some(Key::F(1))
    } else if name == "f2"@ {
        Some(Key::F(2))
    } else if name == "f3"@ {
        Some(Key::F(3))
    } else if name == "f4"@ {
        Some(Key::F(4))
    } else if name == "f5"@ {
        Some(Key::F(5))
    } else if name == "f6"@ {
        Some(Key::F(6))
    } else if name == "f7"@ {
        Some(Key::F(7))
    } else if name == "f8"@ {
        Some(Key::F(8))
    } else if name == "f9"@ {
        Some(Key::F(9))
    } else if name == "f10"@ {
        Some(Key::F(10))
    } else if name == "f11"@ {
        Some(Key::F(11))
    } else if name == "f12"@ {
        Some(Key::F(12))
    } else {
        None
    }
}

/// The key that `name` stands for.
pub fn parse_key(name: &str) -> (key: Option<Key>)
    ensures
        key == key_named(name@),
{
    if name.unicode_len() == 1 {
        Some(Key::Char(name.get_char(0)))
    } else if same_text(name, "enter") {
        Some(Key::Enter)
    } else if same_text(name, "tab") {
        Some(Key::Tab)
    } else if same_text(name, "esc") {
        Some(Key::Esc)
    } else if same_text(name, "space") {
        Some(Key::Char(' '))
    } else if same_text(name, "backspace") {
        Some(Key::Backspace)
    } else if same_text(name, "f1") {
        Some(Key::F(1))
    } else if same_text(name, "f2") {
        Some(Key::F(2))
    } else if same_text(name, "f3") {
        Some(Key::F(3))
    } else if same_text(name, "f4") {
        Some(Key::F(4))
    } else if same_text(name, "f5") {
        Some(Key::F(5))
    } else if same_text(name, "f6") {
        Some(Key::F(6))
    } else if same_text(name, "f7") {
        Some(Key::F(7))
    } else if same_text(name, "f8") {
        Some(Key::F(8))
    } else if same_text(name, "f9") {
        Some(Key::F(9))
    } else if same_text(name, "f10") {
        Some(Key::F(10))
    } else if same_text(name, "f11") {
        Some(Key::F(11))
    } else if same_text(name, "f12") {
        Some(Key::F(12))
    } else {
        None
    }
}

/// The name of a function key: `f` and its number.
pub open spec fn function_name(n: u8) -> Seq<char> {
    if n < 10 {
        seq!['f', (48 + n) as char]
    } else {
        seq!['f', '1', (38 + n) as char]
    }
}

proof fn lemma_key_names()
    ensures
        "enter"@ == seq!['e', 'n', 't', 'e', 'r'],
        "tab"@ == seq!['t', 'a', 'b'],
        "esc"@ == seq!['e', 's', 'c'],
        "space"@ == seq!['s', 'p', 'a', 'c', 'e'],
        "backspace"@ == seq!['b', 'a', 'c', 'k', 's', 'p', 'a', 'c', 'e'],
        "f1"@ == seq!['f', '1'],
        "f2"@ == seq!['f', '2'],
        "f3"@ == seq!['f', '3'],
        "f4"@ == seq!['f', '4'],
        "f5"@ == seq!['f', '5'],
        "f6"@ == seq!['f', '6'],
        "f7"@ == seq!['f', '7'],
        "f8"@ == seq!['f', '8'],
        "f9"@ == seq!['f', '9'],
        "f10"@ == seq!['f', '1', '0'],
        "f11"@ == seq!['f', '1', '1'],
        "f12"@ == seq!['f', '1', '2'],
{
    reveal_strlit("enter");
    reveal_strlit("tab");
    reveal_strlit("esc");
    reveal_strlit("space");
    reveal_strlit("backspace");
    reveal_strlit("f1");
    reveal_strlit("f2");
    reveal_strlit("f3");
    reveal_strlit("f4");
    reveal_strlit("f5");
    reveal_strlit("f6");
    reveal_strlit("f7");
    reveal_strlit("f8");
    reveal_strlit("f9");
    reveal_strlit("f10");
    reveal_strlit("f11");
    reveal_strlit("f12");
    assert("enter"@ =~= seq!['e', 'n', 't', 'e', 'r']);
    assert("tab"@ =~= seq!['t', 'a', 'b']);
    assert("esc"@ =~= seq!['e', 's', 'c']);
    assert("space"@ =~= seq!['s', 'p', 'a', 'c', 'e']);
    assert("backspace"@ =~= seq!['b', 'a', 'c', 'k', 's', 'p', 'a', 'c', 'e']);
    assert("f1"@ =~= seq!['f', '1']);
    assert("f2"@ =~= seq!['f', '2']);
    assert("f3"@ =~= seq!['f', '3']);
    assert("f4"@ =~= seq!['f', '4']);
    assert("f5"@ =~= seq!['f', '5']);
    assert("f6"@ =~= seq!['f', '6']);
    assert("f7"@ =~= seq!['f', '7']);
    assert("f8"@ =~= seq!['f', '8']);
    assert("f9"@ =~= seq!['f', '9']);
    assert("f10"@ =~= seq!['f', '1', '0']);
    assert("f11"@ =~= seq!['f', '1', '1']);
    assert("f12"@ =~= seq!['f', '1', '2']);
}

/// A single character is the name of its key, whatever the character.
pub proof fn law_a_character_names_its_key(c: char)
    ensures
        key_named(seq![c]) == Some(Key::Char(c)),
{
}

/// A longer name stands for a key exactly where it is one of those listed, and
/// then for that key: names of different keys are different.
pub proof fn law_key_names(name: Seq<char>)
    requires
        name.len() != 1,
    ensures
        key_named(name) == Some(Key::Enter) <==> name == seq!['e', 'n', 't', 'e', 'r'],
        key_named(name) == Some(Key::Tab) <==> name == seq!['t', 'a', 'b'],
        key_named(name) == Some(Key::Esc) <==> name == seq!['e', 's', 'c'],
        key_named(name) == Some(Key::Char(' ')) <==> name == seq!['s', 'p', 'a', 'c', 'e'],
        key_named(name) == Some(Key::Backspace) <==> name == seq![
            'b',
            'a',
            'c',
            'k',
            's',
            'p',
            'a',
            'c',
            'e',
        ],
        match key_named(name) {
            Some(Key::Enter) | Some(Key::Tab) | Some(Key::Esc) | Some(Key::Backspace) => true,
            Some(Key::Char(c)) => c == ' ',
            Some(Key::F(n)) => 1 <= n <= 12 && name == function_name(n),
            Some(_) => false,
            None => true,
        },
{
    lemma_key_names();
    lemma_first_letters(name);
    if let Some(Key::F(n)) = key_named(name) {
        assert(name =~= function_name(n));
    }
}

proof fn lemma_first_letters(name: Seq<char>)
    ensures
        name == "enter"@ ==> name[0] == 'e' && name.len() == 5,
        name == "tab"@ ==> name[0] == 't' && name.len() == 3,
        name == "esc"@ ==> name[0] == 'e' && name.len() == 3,
        name == "space"@ ==> name[0] == 's' && name.len() == 5,
        name == "backspace"@ ==> name[0] == 'b' && name.len() == 9,
{
    lemma_key_names();
}

/// `f` and a number from 1 to 12 name that function key.
pub proof fn law_function_keys(n: u8)
    requires
        1 <= n <= 12,
    ensures
        key_named(function_name(n)) == Some(Key::F(n)),
{
    lemma_key_names();
    let name = function_name(n);
    assert(name[0] == 'f');
    lemma_first_letters(name);
    assert(name[1] == if n < 10 {
        (48 + n) as char
    } else {
        '1'
    });
    if n == 10 {
        assert(name =~= "f10"@);
    } else if n == 11 {
        assert(name =~= "f11"@);
    } else if n == 12 {
        assert(name =~= "f12"@);
    } else {
        assert(name.len() == 2);
        assert("f1"@[1] == '1' && "f2"@[1] == '2' && "f3"@[1] == '3' && "f4"@[1] == '4' && "f5"@[1]
            == '5' && "f6"@[1] == '6' && "f7"@[1] == '7' && "f8"@[1] == '8' && "f9"@[1] == '9');
        if n == 1 {
            assert(name =~= "f1"@);
        } else if n == 2 {
            assert(name =~= "f2"@);
        } else if n == 3 {
            assert(name =~= "f3"@);
        } else if n == 4 {
            assert(name =~= "f4"@);
        } else if n == 5 {
            assert(name =~= "f5"@);
        } else if n == 6 {
            assert(name =~= "f6"@);
        } else if n == 7 {
            assert(name =~= "f7"@);
        } else if n == 8 {
            assert(name =~= "f8"@);
        } else {
            assert(name =~= "f9"@);
        }
    }
}

} // verus!
