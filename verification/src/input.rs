//! Parsing of the comma-separated link list the user types.
//!
//! The whole line is trimmed first; an empty or white-space-only line yields
//! an empty link list, so no request is ever issued for it.  Otherwise the
//! line is split at every comma and each piece is trimmed of surrounding
//! white space.  Duplicate and empty pieces are kept: every piece stands for
//! one request.

use vstd::prelude::*;
use vstd::string::*;

verus! {

/// Whether a character has the Unicode `White_Space` property, as
/// `char::is_whitespace` decides it.
pub uninterp spec fn spec_is_whitespace(c: char) -> bool;

/// Relies on `char::is_whitespace`: the result depends on the character
/// alone; space, tab, line feed and carriage return are white space, and no
/// other printable ASCII character is.
#[verifier::external_body]
fn is_whitespace_char(c: char) -> (r: bool)
    ensures
        r == spec_is_whitespace(c),
        (c == ' ' || c == '\t' || c == '\n' || c == '\r') ==> r,
        ('!' <= c && c <= '~') ==> !r,
{
    c.is_whitespace()
}

/// The sequence with leading white space removed.
pub open spec fn spec_trim_front(s: Seq<char>) -> Seq<char>
    decreases s.len(),
{
    if s.len() == 0 {
        s
    } else if spec_is_whitespace(s[0]) {
        spec_trim_front(s.drop_first())
    } else {
        s
    }
}

/// The sequence with trailing white space removed.
pub open spec fn spec_trim_back(s: Seq<char>) -> Seq<char>
    decreases s.len(),
{
    if s.len() == 0 {
        s
    } else if spec_is_whitespace(s.last()) {
        spec_trim_back(s.drop_last())
    } else {
        s
    }
}

/// The sequence with surrounding white space removed, as `str::trim` gives
/// it.
pub open spec fn spec_trim(s: Seq<char>) -> Seq<char> {
    spec_trim_back(spec_trim_front(s))
}

/// When the first `k` characters are white space and the next one (if any)
/// is not, trimming the front keeps exactly the suffix from `k`.
proof fn lemma_trim_front_at(s: Seq<char>, k: int)
    requires
        0 <= k <= s.len(),
        forall|j: int| 0 <= j < k ==> spec_is_whitespace(s[j]),
        k < s.len() ==> !spec_is_whitespace(s[k]),
    ensures
        spec_trim_front(s) == s.subrange(k, s.len() as int),
    decreases s.len(),
{
    if k == 0 {
        assert(s.subrange(0, s.len() as int) =~= s);
    } else {
        lemma_trim_front_at(s.drop_first(), k - 1);
        assert(s.drop_first().subrange(k - 1, s.len() - 1) =~= s.subrange(k, s.len() as int));
    }
}

/// When the characters from `e` on are white space and the one before `e`
/// (if any) is not, trimming the back keeps exactly the prefix up to `e`.
proof fn lemma_trim_back_at(s: Seq<char>, e: int)
    requires
        0 <= e <= s.len(),
        forall|j: int| e <= j < s.len() ==> spec_is_whitespace(s[j]),
        e > 0 ==> !spec_is_whitespace(s[e - 1]),
    ensures
        spec_trim_back(s) == s.subrange(0, e),
    decreases s.len(),
{
    if e == s.len() {
        assert(s.subrange(0, e) =~= s);
    } else {
        lemma_trim_back_at(s.drop_last(), e);
        assert(s.drop_last().subrange(0, e) =~= s.subrange(0, e));
    }
}

/// Remove surrounding white space, as `str::trim` does.
pub fn trim_str(s: &str) -> (t: String)
    ensures
        t@ == spec_trim(s@),
{
    let n = s.unicode_len();
    let mut start: usize = 0;
    while start < n && is_whitespace_char(s.get_char(start))
        invariant
            n == s@.len(),
            0 <= start <= n,
            forall|j: int| 0 <= j < start ==> spec_is_whitespace(s@[j]),
        decreases n - start,
    {
        start = start + 1;
    }
    let mut end: usize = n;
    while end > start && is_whitespace_char(s.get_char(end - 1))
        invariant
            n == s@.len(),
            start <= end <= n,
            forall|j: int| end <= j < n ==> spec_is_whitespace(s@[j]),
        decreases end,
    {
        end = end - 1;
    }
    proof {
        lemma_trim_front_at(s@, start as int);
        let mid = s@.subrange(start as int, n as int);
        lemma_trim_back_at(mid, end - start);
        assert(mid.subrange(0, end - start) =~= s@.subrange(start as int, end as int));
    }
    let piece = s.substring_char(start, end);
    String::from_str(piece)
}

/// The index of the first comma, or the length when there is none.
pub open spec fn first_comma(s: Seq<char>) -> int
    decreases s.len(),
{
    if s.len() == 0 {
        0
    } else if s[0] == ',' {
        0
    } else {
        1 + first_comma(s.drop_first())
    }
}

/// `first_comma` finds exactly the position before which no comma stands.
proof fn lemma_first_comma_at(s: Seq<char>, i: int)
    requires
        0 <= i <= s.len(),
        forall|j: int| 0 <= j < i ==> s[j] != ',',
        i < s.len() ==> s[i] == ',',
    ensures
        first_comma(s) == i,
    decreases s.len(),
{
    if s.len() == 0 {
    } else if i == 0 {
    } else {
        lemma_first_comma_at(s.drop_first(), i - 1);
    }
}

/// The pieces of a sequence split at every comma, each trimmed of
/// surrounding white space, in order.
pub open spec fn spec_split_trimmed(s: Seq<char>) -> Seq<Seq<char>>
    decreases s.len(),
{
    let i = first_comma(s);
    if 0 <= i < s.len() {
        seq![spec_trim(s.subrange(0, i))] + spec_split_trimmed(s.subrange(i + 1, s.len() as int))
    } else {
        seq![spec_trim(s)]
    }
}

/// The link list parsed from one input line: nothing when the line is empty
/// or white space only, else the trimmed pieces between commas, in order.
pub open spec fn spec_parse_links(s: Seq<char>) -> Seq<Seq<char>> {
    if spec_trim(s).len() == 0 {
        Seq::empty()
    } else {
        spec_split_trimmed(spec_trim(s))
    }
}

/// Parse the comma-separated link list from one input line.
pub fn parse_links(input: &str) -> (links: Vec<String>)
    ensures
        links.deep_view() == spec_parse_links(input@),
{
    let trimmed = trim_str(input);
    let t = trimmed.as_str();
    let n = t.unicode_len();
    let mut links: Vec<String> = Vec::new();
    if n == 0 {
        proof {
            assert(links.deep_view() =~= Seq::<Seq<char>>::empty());
        }
        return links;
    }
    let mut start: usize = 0;
    proof {
        assert(links.deep_view() =~= Seq::<Seq<char>>::empty());
        assert(t@.subrange(0, n as int) =~= t@);
        assert(links.deep_view() + spec_split_trimmed(t@) =~= spec_split_trimmed(t@));
    }
    loop
        invariant_except_break
            t@ == spec_trim(input@),
            n == t@.len(),
            0 <= start <= n,
            spec_split_trimmed(t@) == links.deep_view() + spec_split_trimmed(
                t@.subrange(start as int, n as int),
            ),
        ensures
            links.deep_view() == spec_split_trimmed(t@),
        decreases n - start,
    {
        let mut j: usize = start;
        while j < n && !(t.get_char(j) == ',')
            invariant
                n == t@.len(),
                start <= j <= n,
                forall|k: int| start <= k < j ==> t@[k] != ',',
            decreases n - j,
        {
            j = j + 1;
        }
        let piece = t.substring_char(start, j);
        let piece_trimmed = trim_str(piece);
        let ghost pre = links.deep_view();
        links.push(piece_trimmed);
        proof {
            let rem = t@.subrange(start as int, n as int);
            lemma_first_comma_at(rem, j - start);
            assert(links.deep_view() =~= pre.push(spec_trim(piece@)));
            if j < n {
                assert(rem.subrange(0, j - start) =~= t@.subrange(start as int, j as int));
                assert(rem.subrange(j - start + 1, rem.len() as int) =~= t@.subrange(
                    j + 1,
                    n as int,
                ));
                assert(spec_split_trimmed(rem) == seq![spec_trim(piece@)] + spec_split_trimmed(
                    t@.subrange(j + 1, n as int),
                ));
                assert(spec_split_trimmed(t@) =~= links.deep_view() + spec_split_trimmed(
                    t@.subrange(j + 1, n as int),
                ));
            } else {
                assert(piece@ =~= rem);
                assert(spec_split_trimmed(rem) == seq![spec_trim(rem)]);
                assert(spec_split_trimmed(t@) =~= links.deep_view());
            }
        }
        if j == n {
            break ;
        }
        start = j + 1;
    }
    links
}

} // verus!
