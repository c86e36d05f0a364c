//! Resolution of user-typed citation style names.
//!
//! The remote citation service tags every citation with a canonical style
//! identifier.  Users type a friendly alias instead ("apa", "harvard", ...);
//! a fixed table maps each alias, compared case-insensitively, to the
//! canonical identifier the service expects.

use vstd::prelude::*;
use vstd::string::*;
use vstd::utf8::is_ascii_chars;

verus! {

/// The fixed alias table: the canonical style identifier for a lowercased
/// alias, or `None` when the name is not a known alias.
pub open spec fn spec_canonical_of(alias: Seq<char>) -> Option<Seq<char>> {
    if alias == "apa"@ {
        Some("apa"@)
    } else if alias == "harvard"@ {
        Some("harvard1"@)
    } else if alias == "mla"@ {
        Some("modern-language-association-with-url"@)
    } else if alias == "chicago"@ {
        Some("chicago-author-date"@)
    } else if alias == "vancouver"@ {
        Some("vancouver"@)
    } else if alias == "nature"@ {
        Some("nature"@)
    } else {
        None
    }
}

/// The ASCII lowercase mapping on a single character: uppercase ASCII
/// letters move to their lowercase form, every other character is unchanged.
pub open spec fn ascii_lower_char(c: char) -> char {
    if 'A' <= c && c <= 'Z' {
        ((c as u32) + 32) as char
    } else {
        c
    }
}

/// The ASCII lowercase mapping applied to every character of a sequence.
pub open spec fn ascii_lower_seq(s: Seq<char>) -> Seq<char> {
    s.map_values(|c: char| ascii_lower_char(c))
}

/// What `str::to_lowercase` returns for a given character sequence.
pub uninterp spec fn lower_of(s: Seq<char>) -> Seq<char>;

/// Relies on `str::to_lowercase`: the result is a function of the input
/// characters alone, and on an all-ASCII string it is exactly the
/// per-character ASCII lowercase mapping.
#[verifier::external_body]
fn lowercase(s: &str) -> (r: String)
    ensures
        r@ == lower_of(s@),
        is_ascii_chars(s@) ==> r@ == ascii_lower_seq(s@),
{
    s.to_lowercase()
}

/// The view of an optional owned string, for stating contracts.
pub open spec fn canonical_view(r: Option<String>) -> Option<Seq<char>> {
    match r {
        Some(s) => Some(s@),
        None => None,
    }
}

/// Character-by-character string equality.
pub fn str_eq(a: &str, b: &str) -> (r: bool)
    ensures
        r == (a@ == b@),
{
    let a_len = a.unicode_len();
    let b_len = b.unicode_len();
    if a_len != b_len {
        return false;
    }
    let mut i: usize = 0;
    while i < a_len
        invariant
            a_len == a@.len(),
            b_len == b@.len(),
            a_len == b_len,
            0 <= i <= a_len,
            forall|j: int| 0 <= j < i ==> a@[j] == b@[j],
        decreases a_len - i,
    {
        let ca = a.get_char(i);
        let cb = b.get_char(i);
        if ca != cb {
            return false;
        }
        i = i + 1;
    }
    proof {
        assert(a@ =~= b@);
    }
    true
}

/// Resolve a user-typed style name: lowercase it, then look it up in the
/// fixed alias table.  Returns the canonical style identifier, or `None`
/// when the lowered name matches no alias.
pub fn resolve_format(input: &str) -> (r: Option<String>)
    ensures
        canonical_view(r) == spec_canonical_of(lower_of(input@)),
        is_ascii_chars(input@) ==> canonical_view(r) == spec_canonical_of(ascii_lower_seq(input@)),
{
    proof {
        reveal_strlit("apa");
        reveal_strlit("harvard");
        reveal_strlit("mla");
        reveal_strlit("chicago");
        reveal_strlit("vancouver");
        reveal_strlit("nature");
    }
    let lowered = lowercase(input);
    let name = lowered.as_str();
    if str_eq(name, "apa") {
        Some(String::from_str("apa"))
    } else if str_eq(name, "harvard") {
        Some(String::from_str("harvard1"))
    } else if str_eq(name, "mla") {
        Some(String::from_str("modern-language-association-with-url"))
    } else if str_eq(name, "chicago") {
        Some(String::from_str("chicago-author-date"))
    } else if str_eq(name, "vancouver") {
        Some(String::from_str("vancouver"))
    } else if str_eq(name, "nature") {
        Some(String::from_str("nature"))
    } else {
        None
    }
}

/// Law: each alias of the table resolves to exactly its listed canonical
/// identifier, and a lowered name outside the table resolves to none.
pub proof fn lemma_alias_table()
    ensures
        spec_canonical_of("apa"@) == Some("apa"@),
        spec_canonical_of("harvard"@) == Some("harvard1"@),
        spec_canonical_of("mla"@) == Some("modern-language-association-with-url"@),
        spec_canonical_of("chicago"@) == Some("chicago-author-date"@),
        spec_canonical_of("vancouver"@) == Some("vancouver"@),
        spec_canonical_of("nature"@) == Some("nature"@),
        forall|s: Seq<char>|
            !(s == "apa"@ || s == "harvard"@ || s == "mla"@ || s == "chicago"@
                || s == "vancouver"@ || s == "nature"@) ==> spec_canonical_of(s) is None,
{
    reveal_strlit("apa");
    reveal_strlit("harvard");
    reveal_strlit("mla");
    reveal_strlit("chicago");
    reveal_strlit("vancouver");
    reveal_strlit("nature");
    assert("mla"@[0] != "apa"@[0]);
    assert("chicago"@[0] != "harvard"@[0]);
}

} // verus!
