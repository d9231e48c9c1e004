//! Filenames, extensions and group keys.
//!
//! A file's group key is its extension — the part after the last `.` in the
//! name — lowercased. A name with no `.`, or none but a leading one, has no
//! extension and falls under the placeholder key, the empty string, which
//! sorts before every other key and renders as a bare `:` header. Hidden
//! files are those whose name starts with `.`.

use vstd::prelude::*;

verus! {

/// A hidden file: its name starts with `.`.
pub open spec fn is_hidden(name: Seq<char>) -> bool {
    name.len() > 0 && name[0] == '.'
}

/// There is a `.` at position `i` of `name`.
pub open spec fn is_dot_at(name: Seq<char>, i: int) -> bool {
    0 <= i < name.len() && name[i] == '.'
}

/// The `.` at position `i` is the last one in `name`.
pub open spec fn is_last_dot(name: Seq<char>, i: int) -> bool {
    is_dot_at(name, i) && forall|k: int| i < k < name.len() ==> name[k] != '.'
}

/// `name` has an extension: some `.` stands after the first position.
/// A name without any `.`, or whose only `.` leads it, has none.
pub open spec fn has_extension(name: Seq<char>) -> bool {
    exists|i: int| i >= 1 && is_dot_at(name, i)
}

/// The position of the last `.` of `name`.
pub open spec fn last_dot(name: Seq<char>) -> int {
    choose|i: int| is_last_dot(name, i)
}

/// The extension of `name`: everything after its last `.`.
pub open spec fn ext_of(name: Seq<char>) -> Seq<char> {
    name.subrange(last_dot(name) + 1, name.len() as int)
}

/// What `str::to_lowercase` returns for a given character sequence.
pub uninterp spec fn lower_of(s: Seq<char>) -> Seq<char>;

/// The group key of a filename: the lowercased extension, or the empty
/// placeholder key for a name without one.
pub open spec fn key_of(name: Seq<char>) -> Seq<char> {
    if has_extension(name) {
        lower_of(ext_of(name))
    } else {
        Seq::empty()
    }
}

/// A name has at most one last dot.
pub proof fn lemma_last_dot_unique(name: Seq<char>, i: int, j: int)
    requires
        is_last_dot(name, i),
        is_last_dot(name, j),
    ensures
        i == j,
{
}

/// Relies on `str::to_lowercase`: the result depends on the input characters
/// alone.
#[verifier::external_body]
fn lowercase(s: &str) -> (r: String)
    ensures
        r@ == lower_of(s@),
{
    s.to_lowercase()
}

/// Computes the group key of a filename.
pub fn extension_key(name: &String) -> (r: String)
    ensures
        r@ == key_of(name@),
{
    let s = name.as_str();
    let len = s.unicode_len();
    let mut found: bool = false;
    let mut dot: usize = 0;
    let mut i: usize = 0;
    while i < len
        invariant
            i <= len,
            len == s@.len(),
            found ==> dot < i && s@[dot as int] == '.',
            found ==> forall|k: int| dot < k < i ==> s@[k] != '.',
            !found ==> forall|k: int| 0 <= k < i ==> s@[k] != '.',
        decreases len - i,
    {
        if s.get_char(i) == '.' {
            dot = i;
            found = true;
        }
        i = i + 1;
    }
    if found && dot > 0 {
        proof {
            assert(is_last_dot(s@, dot as int));
            lemma_last_dot_unique(s@, last_dot(s@), dot as int);
            assert(has_extension(s@)) by {
                assert(is_dot_at(s@, dot as int));
            }
        }
        let ext = s.substring_char(dot + 1, len);
        lowercase(ext)
    } else {
        proof {
            assert(!has_extension(s@)) by {
                if found {
                    assert(forall|k: int| 0 < k < s@.len() ==> s@[k] != '.');
                }
            }
        }
        String::new()
    }
}

} // verus!
