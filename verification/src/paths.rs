//! File names and the extensions read off them.

use vstd::prelude::*;

verus! {

/// `String::push` appends one character to the end of the string.
pub assume_specification[ String::push ](s: &mut String, ch: char)
    ensures
        final(s)@ == old(s)@.push(ch),
;

/// `==` between two string slices holds exactly when they hold the same
/// characters.
pub assume_specification[ <str as PartialEq>::eq ](a: &str, b: &str) -> (r: bool)
    ensures
        r == (a@ == b@),
;

/// The values of a sequence of texts, in the same order.
pub open spec fn texts(list: Seq<String>) -> Seq<Seq<char>> {
    Seq::new(list.len(), |i: int| list[i]@)
}

/// The lower-case form of an ASCII capital letter; any other character is
/// left as it is.
pub open spec fn ascii_lower(c: char) -> char {
    if 'A' <= c && c <= 'Z' {
        ((c as u8) + 32) as char
    } else {
        c
    }
}

/// A text with each ASCII capital letter replaced by its lower-case form.
pub open spec fn lowercase(s: Seq<char>) -> Seq<char> {
    Seq::new(s.len(), |i: int| ascii_lower(s[i]))
}

/// What follows the last dot of the last component of a path, where the
/// components are separated by `/`: `None` when that component has no dot.
pub open spec fn suffix_of(path: Seq<char>) -> Option<Seq<char>>
    decreases path.len(),
{
    if path.len() == 0 {
        None
    } else if path.last() == '/' {
        None
    } else if path.last() == '.' {
        Some(Seq::empty())
    } else {
        match suffix_of(path.drop_last()) {
            Some(tail) => Some(tail.push(path.last())),
            None => None,
        }
    }
}

/// The extension of a path: the lower-cased text after the last dot of its
/// last component, and the empty text when that component has no dot.
pub open spec fn extension_of(path: Seq<char>) -> Seq<char> {
    match suffix_of(path) {
        Some(tail) => lowercase(tail),
        None => Seq::empty(),
    }
}

/// The path without its last dot and what follows it: where the cache keeps
/// the decompressed form of a compressed file. `None` when the last
/// component has no dot, or none but its first character.
pub open spec fn stem_of(path: Seq<char>) -> Option<Seq<char>> {
    match suffix_of(path) {
        Some(tail) => {
            let cut = path.len() - tail.len() - 1;
            if cut > 0 && path[cut - 1] != '/' {
                Some(path.take(cut))
            } else {
                None
            }
        },
        None => None,
    }
}

/// The last component of a path: what follows its last `/`, and the whole
/// path where it has none.
pub open spec fn base_name_of(path: Seq<char>) -> Seq<char>
    decreases path.len(),
{
    if path.len() == 0 {
        Seq::empty()
    } else if path.last() == '/' {
        Seq::empty()
    } else {
        base_name_of(path.drop_last()).push(path.last())
    }
}

/// Whether a `/` stands somewhere behind position `at` of the path.
pub open spec fn slash_behind(path: Seq<char>, at: int) -> bool {
    exists|j: int| at < j < path.len() && path[j] == '/'
}

/// A suffix is the end of its path, and a dot stands before it; where there
/// is no suffix, every dot of the path is followed by a `/`.
pub proof fn lemma_suffix_position(path: Seq<char>)
    ensures
        match suffix_of(path) {
            Some(tail) => {
                &&& tail.len() < path.len()
                &&& path[path.len() - tail.len() - 1] == '.'
                &&& path.skip(path.len() - tail.len()) == tail
                &&& forall|i: int| 0 <= i < tail.len() ==> tail[i] != '.' && tail[i] != '/'
            },
            None => forall|i: int|
                0 <= i < path.len() && #[trigger] path[i] == '.' ==> slash_behind(path, i),
        },
    decreases path.len(),
{
    if path.len() > 0 && path.last() != '/' && path.last() != '.' {
        let rest = path.drop_last();
        lemma_suffix_position(rest);
        match suffix_of(rest) {
            Some(tail) => {
                assert(path.skip(path.len() - tail.len() - 1) == rest.skip(
                    rest.len() - tail.len(),
                ).push(path.last()));
            },
            None => {
                assert forall|i: int|
                    0 <= i < path.len() && #[trigger] path[i] == '.' implies slash_behind(
                    path,
                    i,
                ) by {
                    assert(rest[i] == '.');
                    assert(slash_behind(rest, i));
                    let j = choose|j: int| i < j < rest.len() && rest[j] == '/';
                    assert(path[j] == '/');
                }
            },
        }
    } else if path.len() > 0 && path.last() == '/' {
        assert forall|i: int|
            0 <= i < path.len() && #[trigger] path[i] == '.' implies slash_behind(path, i) by {
            assert(path[path.len() - 1] == '/');
        }
    } else if path.len() > 0 {
        assert(path.skip(path.len() as int) == Seq::<char>::empty());
    }
}

/// Whether two texts are the same.
pub fn same_text(a: &str, b: &str) -> (r: bool)
    ensures
        r == (a@ == b@),
{
    a.eq(b)
}

/// Lower-cases one character.
pub fn to_ascii_lower(c: char) -> (r: char)
    ensures
        r == ascii_lower(c),
{
    if 'A' <= c && c <= 'Z' {
        ((c as u8) + 32) as char
    } else {
        c
    }
}

/// Lower-cases a text.
pub fn to_lowercase(text: &str) -> (r: String)
    ensures
        r@ == lowercase(text@),
{
    let mut lower = String::new();
    proof {
        vstd::string::axiom_spec_iter(text);
    }
    for c in it: text.chars()
        invariant
            it.seq() == text@,
            lower@ == lowercase(text@.take(it.index())),
    {
        lower.push(to_ascii_lower(c));
        assert(lower@ == lowercase(text@.take(it.index() + 1)));
    }
    assert(text@.take(text@.len() as int) == text@);
    lower
}

/// Finds what follows the last dot of the last component of a path.
pub fn suffix(path: &str) -> (r: Option<String>)
    ensures
        match r {
            Some(tail) => suffix_of(path@) == Some(tail@),
            None => suffix_of(path@) is None,
        },
{
    let mut tail = String::new();
    let mut found = false;
    let ghost mut seen: Seq<char> = Seq::empty();
    proof {
        vstd::string::axiom_spec_iter(path);
    }
    for c in it: path.chars()
        invariant
            it.seq() == path@,
            seen == path@.take(it.index()),
            found == suffix_of(seen).is_some(),
            found ==> tail@ == suffix_of(seen).unwrap(),
    {
        proof {
            let next = path@.take(it.index() + 1);
            assert(next.drop_last() == seen);
            assert(next.last() == c);
            seen = next;
        }
        if c == '/' {
            found = false;
        } else if c == '.' {
            found = true;
            tail = String::new();
        } else if found {
            tail.push(c);
        }
    }
    assert(seen == path@);
    if found {
        Some(tail)
    } else {
        None
    }
}

/// Derives the extension of a path.
pub fn extension(path: &str) -> (r: String)
    ensures
        r@ == extension_of(path@),
{
    match suffix(path) {
        Some(tail) => to_lowercase(tail.as_str()),
        None => String::new(),
    }
}

/// Finds the last component of a path.
pub fn base_name(path: &str) -> (r: String)
    ensures
        r@ == base_name_of(path@),
{
    let mut name = String::new();
    let ghost mut seen: Seq<char> = Seq::empty();
    proof {
        vstd::string::axiom_spec_iter(path);
    }
    for c in it: path.chars()
        invariant
            it.seq() == path@,
            seen == path@.take(it.index()),
            name@ == base_name_of(seen),
    {
        proof {
            let next = path@.take(it.index() + 1);
            assert(next.drop_last() == seen);
            assert(next.last() == c);
            seen = next;
        }
        if c == '/' {
            name = String::new();
        } else {
            name.push(c);
        }
    }
    assert(seen == path@);
    name
}

/// Strips the last dot of a path and what follows it.
pub fn stem(path: &str) -> (r: Option<String>)
    ensures
        match r {
            Some(head) => stem_of(path@) == Some(head@),
            None => stem_of(path@) is None,
        },
{
    match suffix(path) {
        Some(tail) => {
            proof {
                lemma_suffix_position(path@);
            }
            let cut = path.unicode_len() - tail.as_str().unicode_len() - 1;
            if cut > 0 && path.get_char(cut - 1) != '/' {
                Some(path.substring_char(0, cut).to_owned())
            } else {
                None
            }
        },
        None => None,
    }
}

} // verus!
