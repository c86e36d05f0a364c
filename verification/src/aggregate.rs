//! Grouping of citation records by canonical style identifier.
//!
//! Every link the user supplies yields one decoded response, an ordered list
//! of citation records.  The records of all responses are folded, in order,
//! into a grouped map from style identifier to the citation texts seen under
//! that identifier, preserving encounter order.  A response that failed to
//! decode aborts the whole run: no partial results are kept.

use vstd::prelude::*;
use vstd::string::*;
use crate::resolver::str_eq;

verus! {

/// One citation record as returned by the remote service.
#[derive(Debug, Clone)]
pub struct Citation {
    /// The formatted citation text (opaque to this library).
    pub citation: String,
    /// The human-readable style name (unused by the grouping logic).
    pub style_fullname: String,
    /// The canonical style identifier; the grouping key.
    pub style_shortname: String,
}

impl Citation {
    /// The grouping key of the record.
    pub open spec fn key(self) -> Seq<char> {
        self.style_shortname@
    }

    /// The citation text of the record.
    pub open spec fn text(self) -> Seq<char> {
        self.citation@
    }
}

/// The citation texts among `records` carrying style `style`, in the order
/// the records appear.
pub open spec fn spec_citations_for(records: Seq<Citation>, style: Seq<char>) -> Seq<Seq<char>>
    decreases records.len(),
{
    if records.len() == 0 {
        Seq::empty()
    } else {
        let rest = spec_citations_for(records.drop_last(), style);
        if records.last().key() == style {
            rest.push(records.last().text())
        } else {
            rest
        }
    }
}

/// `spec_citations_for` as an optional outcome: `None` when no record
/// carries the style.
pub open spec fn opt_citations_for(records: Seq<Citation>, style: Seq<char>) -> Option<
    Seq<Seq<char>>,
> {
    if spec_citations_for(records, style).len() == 0 {
        None
    } else {
        Some(spec_citations_for(records, style))
    }
}

/// First-match lookup in a sequence of key/list entries.
pub open spec fn spec_lookup(m: Seq<(Seq<char>, Seq<Seq<char>>)>, k: Seq<char>) -> Option<
    Seq<Seq<char>>,
>
    decreases m.len(),
{
    if m.len() == 0 {
        None
    } else if m[0].0 == k {
        Some(m[0].1)
    } else {
        spec_lookup(m.drop_first(), k)
    }
}

/// Append `c` under key `k`: extend the entry already holding `k`, or add a
/// new entry at the end when `k` is absent.
pub open spec fn spec_insert(
    m: Seq<(Seq<char>, Seq<Seq<char>>)>,
    k: Seq<char>,
    c: Seq<char>,
) -> Seq<(Seq<char>, Seq<Seq<char>>)>
    decreases m.len(),
{
    if m.len() == 0 {
        seq![(k, seq![c])]
    } else if m[0].0 == k {
        seq![(m[0].0, m[0].1.push(c))] + m.drop_first()
    } else {
        seq![m[0]] + spec_insert(m.drop_first(), k, c)
    }
}

/// The list an entry holds after one more citation lands under its key.
pub open spec fn spec_append_entry(cur: Option<Seq<Seq<char>>>, c: Seq<char>) -> Seq<Seq<char>> {
    match cur {
        Some(v) => v.push(c),
        None => seq![c],
    }
}

/// The grouped map that a record sequence folds to, record by record.
pub open spec fn spec_group(records: Seq<Citation>) -> Seq<(Seq<char>, Seq<Seq<char>>)>
    decreases records.len(),
{
    if records.len() == 0 {
        Seq::empty()
    } else {
        spec_insert(spec_group(records.drop_last()), records.last().key(), records.last().text())
    }
}

/// Inserting under `k` changes the lookup of `k` exactly by appending, and
/// the lookup of every other key not at all.
pub proof fn lemma_insert_lookup(
    m: Seq<(Seq<char>, Seq<Seq<char>>)>,
    k: Seq<char>,
    c: Seq<char>,
    q: Seq<char>,
)
    ensures
        spec_lookup(spec_insert(m, k, c), q) == (if q == k {
            Some(spec_append_entry(spec_lookup(m, q), c))
        } else {
            spec_lookup(m, q)
        }),
    decreases m.len(),
{
    let mi = spec_insert(m, k, c);
    if m.len() == 0 {
        assert(mi.drop_first() =~= Seq::<(Seq<char>, Seq<Seq<char>>)>::empty());
    } else if m[0].0 == k {
        assert(mi[0] == (m[0].0, m[0].1.push(c)));
        assert(mi.drop_first() =~= m.drop_first());
    } else {
        assert(mi[0] == m[0]);
        assert(mi.drop_first() =~= spec_insert(m.drop_first(), k, c));
        lemma_insert_lookup(m.drop_first(), k, c, q);
    }
}

/// When the first entry holding `k` stands at index `i`, inserting under `k`
/// is exactly an update of that entry.
proof fn lemma_insert_at(m: Seq<(Seq<char>, Seq<Seq<char>>)>, k: Seq<char>, c: Seq<char>, i: int)
    requires
        0 <= i < m.len(),
        m[i].0 == k,
        forall|j: int| 0 <= j < i ==> m[j].0 != k,
    ensures
        spec_insert(m, k, c) =~= m.update(i, (m[i].0, m[i].1.push(c))),
    decreases m.len(),
{
    if i == 0 {
    } else {
        lemma_insert_at(m.drop_first(), k, c, i - 1);
        assert(spec_insert(m, k, c) =~= seq![m[0]] + spec_insert(m.drop_first(), k, c));
    }
}

/// When no entry holds `k`, inserting under `k` appends a fresh entry.
proof fn lemma_insert_absent(m: Seq<(Seq<char>, Seq<Seq<char>>)>, k: Seq<char>, c: Seq<char>)
    requires
        forall|j: int| 0 <= j < m.len() ==> m[j].0 != k,
    ensures
        spec_insert(m, k, c) =~= m.push((k, seq![c])),
    decreases m.len(),
{
    if m.len() == 0 {
    } else {
        lemma_insert_absent(m.drop_first(), k, c);
    }
}

/// The lookup of `q` returns the list of the first entry holding `q`.
proof fn lemma_lookup_at(m: Seq<(Seq<char>, Seq<Seq<char>>)>, q: Seq<char>, i: int)
    requires
        0 <= i < m.len(),
        m[i].0 == q,
        forall|j: int| 0 <= j < i ==> m[j].0 != q,
    ensures
        spec_lookup(m, q) == Some(m[i].1),
    decreases m.len(),
{
    if i == 0 {
    } else {
        lemma_lookup_at(m.drop_first(), q, i - 1);
    }
}

/// The lookup of a key no entry holds returns nothing.
proof fn lemma_lookup_absent(m: Seq<(Seq<char>, Seq<Seq<char>>)>, q: Seq<char>)
    requires
        forall|j: int| 0 <= j < m.len() ==> m[j].0 != q,
    ensures
        spec_lookup(m, q) is None,
    decreases m.len(),
{
    if m.len() == 0 {
    } else {
        lemma_lookup_absent(m.drop_first(), q);
    }
}

/// Law: the grouped map built from a record sequence answers every style
/// lookup with exactly the citation texts carrying that style, in encounter
/// order, and with nothing when no record carries it.
pub proof fn lemma_group_lookup(records: Seq<Citation>, q: Seq<char>)
    ensures
        spec_lookup(spec_group(records), q) == opt_citations_for(records, q),
    decreases records.len(),
{
    if records.len() == 0 {
    } else {
        lemma_group_lookup(records.drop_last(), q);
        lemma_insert_lookup(
            spec_group(records.drop_last()),
            records.last().key(),
            records.last().text(),
            q,
        );
    }
}

/// Whether some entry of `m` holds key `q`.
pub open spec fn spec_has_key(m: Seq<(Seq<char>, Seq<Seq<char>>)>, q: Seq<char>) -> bool {
    exists|i: int| 0 <= i < m.len() && (#[trigger] m[i]).0 == q
}

/// Whether no two entries of `m` hold the same key.
pub open spec fn spec_distinct_keys(m: Seq<(Seq<char>, Seq<Seq<char>>)>) -> bool {
    forall|i: int, j: int| 0 <= i < j < m.len() ==> (#[trigger] m[i]).0 != (#[trigger] m[j]).0
}

/// Every key of an inserted map is the inserted key or one of the old keys.
proof fn lemma_insert_key_membership(
    m: Seq<(Seq<char>, Seq<Seq<char>>)>,
    k: Seq<char>,
    c: Seq<char>,
)
    ensures
        forall|i: int|
            0 <= i < spec_insert(m, k, c).len() ==> (#[trigger] spec_insert(m, k, c)[i]).0 == k
                || spec_has_key(m, spec_insert(m, k, c)[i].0),
    decreases m.len(),
{
    let mi = spec_insert(m, k, c);
    if m.len() == 0 {
    } else if m[0].0 == k {
        assert forall|i: int| 0 <= i < mi.len() implies (#[trigger] mi[i]).0 == k || spec_has_key(
            m,
            mi[i].0,
        ) by {
            if i > 0 {
                assert(mi[i] == m[i]);
            }
        }
    } else {
        lemma_insert_key_membership(m.drop_first(), k, c);
        assert forall|i: int| 0 <= i < mi.len() implies (#[trigger] mi[i]).0 == k || spec_has_key(
            m,
            mi[i].0,
        ) by {
            if i == 0 {
                assert(mi[0] == m[0]);
            } else {
                assert(mi[i] == spec_insert(m.drop_first(), k, c)[i - 1]);
                if mi[i].0 != k {
                    let w = choose|j: int|
                        0 <= j < m.drop_first().len() && (#[trigger] m.drop_first()[j]).0
                            == mi[i].0;
                    assert(m[w + 1].0 == mi[i].0);
                }
            }
        }
    }
}

/// Inserting preserves the distinctness of the keys.
proof fn lemma_insert_distinct(m: Seq<(Seq<char>, Seq<Seq<char>>)>, k: Seq<char>, c: Seq<char>)
    requires
        spec_distinct_keys(m),
    ensures
        spec_distinct_keys(spec_insert(m, k, c)),
    decreases m.len(),
{
    let mi = spec_insert(m, k, c);
    if m.len() == 0 {
    } else if m[0].0 == k {
        assert forall|i: int, j: int| 0 <= i < j < mi.len() implies (#[trigger] mi[i]).0 != (
        #[trigger] mi[j]).0 by {
            if i > 0 {
                assert(mi[i] == m[i]);
            }
            assert(mi[j] == m[j]);
            assert(mi[i].0 == m[i].0);
        }
    } else {
        assert(spec_distinct_keys(m.drop_first()));
        lemma_insert_distinct(m.drop_first(), k, c);
        lemma_insert_key_membership(m.drop_first(), k, c);
        let tail = spec_insert(m.drop_first(), k, c);
        assert forall|i: int, j: int| 0 <= i < j < mi.len() implies (#[trigger] mi[i]).0 != (
        #[trigger] mi[j]).0 by {
            if i == 0 {
                assert(mi[0] == m[0]);
                assert(mi[j] == tail[j - 1]);
                if tail[j - 1].0 == k {
                } else {
                    let w = choose|x: int|
                        0 <= x < m.drop_first().len() && (#[trigger] m.drop_first()[x]).0
                            == tail[j - 1].0;
                    assert(m[w + 1].0 == tail[j - 1].0);
                }
            } else {
                assert(mi[i] == tail[i - 1]);
                assert(mi[j] == tail[j - 1]);
            }
        }
    }
}

/// Law: the grouped map never holds two entries with the same style
/// identifier: the keys are distinct.
pub proof fn lemma_group_keys_distinct(records: Seq<Citation>)
    ensures
        spec_distinct_keys(spec_group(records)),
    decreases records.len(),
{
    if records.len() == 0 {
    } else {
        lemma_group_keys_distinct(records.drop_last());
        lemma_insert_distinct(
            spec_group(records.drop_last()),
            records.last().key(),
            records.last().text(),
        );
    }
}

/// Law: grouping preserves order.  The list kept for a style is exactly the
/// subsequence of records carrying that style, in the order the records were
/// encountered, each mapped to its citation text.
pub proof fn lemma_grouping_order_preserving(records: Seq<Citation>, style: Seq<char>)
    ensures
        spec_citations_for(records, style) == records.filter(|c: Citation| c.key() == style)
            .map_values(|c: Citation| c.text()),
    decreases records.len(),
{
    reveal(Seq::filter);
    let pred = |c: Citation| c.key() == style;
    let txt = |c: Citation| c.text();
    if records.len() == 0 {
        assert(records.filter(pred).map_values(txt) =~= Seq::<Seq<char>>::empty());
    } else {
        let front = records.drop_last();
        lemma_grouping_order_preserving(front, style);
        if pred(records.last()) {
            assert(front.filter(pred).push(records.last()).map_values(txt) =~= front.filter(
                pred,
            ).map_values(txt).push(records.last().text()));
        }
    }
}

/// Law: aggregation is idempotent.  The grouped map is a function of the
/// record sequence alone, so two runs over the same decoded responses yield
/// identical grouped output, and answer every style lookup alike.
pub proof fn lemma_aggregation_idempotent(
    g1: GroupedCitations,
    g2: GroupedCitations,
    records: Seq<Citation>,
)
    requires
        g1@ == spec_group(records),
        g2@ == spec_group(records),
    ensures
        g1@ == g2@,
        forall|q: Seq<char>| spec_lookup(g1@, q) == spec_lookup(g2@, q),
{
}

/// Citations grouped by canonical style identifier, in first-appearance
/// order of the keys; the list under each key keeps encounter order.
pub struct GroupedCitations {
    entries: Vec<(String, Vec<String>)>,
}

impl View for GroupedCitations {
    type V = Seq<(Seq<char>, Seq<Seq<char>>)>;

    closed spec fn view(&self) -> Seq<(Seq<char>, Seq<Seq<char>>)> {
        self.entries.deep_view()
    }
}

impl GroupedCitations {
    /// An empty grouped map.
    pub fn new() -> (g: GroupedCitations)
        ensures
            g@ == Seq::<(Seq<char>, Seq<Seq<char>>)>::empty(),
    {
        let g = GroupedCitations { entries: Vec::new() };
        proof {
            assert(g@ =~= Seq::<(Seq<char>, Seq<Seq<char>>)>::empty());
        }
        g
    }

    /// Append one citation text under a style identifier, creating the
    /// entry when the identifier is new.
    pub fn add(&mut self, style: String, citation: String)
        ensures
            final(self)@ == spec_insert(old(self)@, style@, citation@),
            forall|q: Seq<char>|
                spec_lookup(final(self)@, q) == (if q == style@ {
                    Some(spec_append_entry(spec_lookup(old(self)@, q), citation@))
                } else {
                    spec_lookup(old(self)@, q)
                }),
    {
        let ghost m0 = self@;
        let n = self.entries.len();
        let mut i: usize = 0;
        while i < n
            invariant
                *self == *old(self),
                m0 == self@,
                n == self.entries@.len(),
                0 <= i <= n,
                forall|j: int| 0 <= j < i ==> self@[j].0 != style@,
            decreases n - i,
        {
            if str_eq(self.entries[i].0.as_str(), style.as_str()) {
                proof {
                    assert(m0[i as int].0 == style@);
                }
                self.entries[i].1.push(citation);
                proof {
                    assert(self@ =~~= m0.update(
                        i as int,
                        (m0[i as int].0, m0[i as int].1.push(citation@)),
                    ));
                    lemma_insert_at(m0, style@, citation@, i as int);
                    assert forall|q: Seq<char>|
                        spec_lookup(self@, q) == (if q == style@ {
                            Some(spec_append_entry(spec_lookup(m0, q), citation@))
                        } else {
                            spec_lookup(m0, q)
                        }) by {
                        lemma_insert_lookup(m0, style@, citation@, q);
                    }
                }
                return ;
            }
            i = i + 1;
        }
        self.entries.push((style, citation_singleton(citation)));
        proof {
            assert(self@ =~~= m0.push((style@, seq![citation@])));
            lemma_insert_absent(m0, style@, citation@);
            assert forall|q: Seq<char>|
                spec_lookup(self@, q) == (if q == style@ {
                    Some(spec_append_entry(spec_lookup(m0, q), citation@))
                } else {
                    spec_lookup(m0, q)
                }) by {
                lemma_insert_lookup(m0, style@, citation@, q);
            }
        }
    }

    /// The citation texts recorded under a style identifier, or `None`
    /// when the identifier never appeared.
    pub fn get(&self, style: &str) -> (r: Option<&Vec<String>>)
        ensures
            match r {
                Some(v) => spec_lookup(self@, style@) == Some(v.deep_view()),
                None => spec_lookup(self@, style@) is None,
            },
    {
        let n = self.entries.len();
        let mut i: usize = 0;
        while i < n
            invariant
                n == self.entries@.len(),
                0 <= i <= n,
                forall|j: int| 0 <= j < i ==> self@[j].0 != style@,
            decreases n - i,
        {
            if str_eq(self.entries[i].0.as_str(), style) {
                proof {
                    lemma_lookup_at(self@, style@, i as int);
                }
                return Some(&self.entries[i].1);
            }
            i = i + 1;
        }
        proof {
            lemma_lookup_absent(self@, style@);
        }
        None
    }
}

/// A one-element citation list.
fn citation_singleton(citation: String) -> (v: Vec<String>)
    ensures
        v.deep_view() =~= seq![citation@],
{
    let mut v: Vec<String> = Vec::new();
    v.push(citation);
    v
}

/// An owned copy of a citation list.
fn clone_strings(v: &Vec<String>) -> (r: Vec<String>)
    ensures
        r.deep_view() == v.deep_view(),
{
    let mut r: Vec<String> = Vec::new();
    let n = v.len();
    let mut i: usize = 0;
    while i < n
        invariant
            n == v@.len(),
            0 <= i <= n,
            r@.len() == i,
            forall|j: int| 0 <= j < i ==> r@[j]@ == v@[j]@,
        decreases n - i,
    {
        r.push(v[i].clone());
        i = i + 1;
    }
    proof {
        assert(r.deep_view() =~= v.deep_view());
    }
    r
}

/// Group a record sequence, in order, into one map.
pub fn group_citations(records: &Vec<Citation>) -> (g: GroupedCitations)
    ensures
        g@ == spec_group(records@),
        forall|q: Seq<char>| spec_lookup(g@, q) == opt_citations_for(records@, q),
{
    let mut g = GroupedCitations::new();
    let n = records.len();
    let mut i: usize = 0;
    while i < n
        invariant
            n == records@.len(),
            0 <= i <= n,
            g@ == spec_group(records@.take(i as int)),
        decreases n - i,
    {
        g.add(records[i].style_shortname.clone(), records[i].citation.clone());
        proof {
            assert(records@.take(i + 1).drop_last() =~= records@.take(i as int));
            assert(records@.take(i + 1).last() == records@[i as int]);
        }
        i = i + 1;
    }
    proof {
        assert(records@.take(n as int) =~= records@);
        assert forall|q: Seq<char>| spec_lookup(g@, q) == opt_citations_for(records@, q) by {
            lemma_group_lookup(records@, q);
        }
    }
    g
}

/// A response body that did not decode to a citation record list; `link` is
/// the position of the offending link in the input order.
#[derive(Debug, PartialEq, Eq, Structural)]
pub struct DecodeFailure {
    pub link: usize,
}

/// The records of a sequence of decoded responses, flattened in response
/// order; a response that failed to decode contributes nothing.
pub open spec fn spec_all_records(responses: Seq<Option<Vec<Citation>>>) -> Seq<Citation>
    decreases responses.len(),
{
    if responses.len() == 0 {
        Seq::empty()
    } else {
        spec_all_records(responses.drop_last()) + (match responses.last() {
            Some(v) => v@,
            None => Seq::empty(),
        })
    }
}

/// The view of the final outcome: the citation texts shown for the chosen
/// style, or nothing.
pub open spec fn found_view(found: Option<Vec<String>>) -> Option<Seq<Seq<char>>> {
    match found {
        Some(v) => Some(v.deep_view()),
        None => None,
    }
}

/// Aggregate the decoded responses, one per link in link order, and look up
/// the requested canonical style identifier.
///
/// A response that failed to decode (`None`) is fatal: the run aborts at the
/// first such response and no citations are reported, even for links that
/// decoded earlier.  Otherwise the outcome is exactly the citation texts
/// recorded under `style`, in encounter order, or `Ok(None)` when no record
/// carries that style.
pub fn collate_citations(responses: &Vec<Option<Vec<Citation>>>, style: &str) -> (r: Result<
    Option<Vec<String>>,
    DecodeFailure,
>)
    ensures
        match r {
            Ok(found) => (forall|i: int| 0 <= i < responses@.len() ==> responses@[i] is Some)
                && found_view(found) == opt_citations_for(spec_all_records(responses@), style@),
            Err(e) => e.link < responses@.len() && responses@[e.link as int] is None && (forall|
                j: int,
            | 0 <= j < e.link ==> responses@[j] is Some),
        },
{
    let mut g = GroupedCitations::new();
    let n = responses.len();
    let mut li: usize = 0;
    while li < n
        invariant
            n == responses@.len(),
            0 <= li <= n,
            forall|j: int| 0 <= j < li ==> responses@[j] is Some,
            g@ == spec_group(spec_all_records(responses@.take(li as int))),
        decreases n - li,
    {
        match &responses[li] {
            None => {
                return Err(DecodeFailure { link: li });
            },
            Some(recs) => {
                let m = recs.len();
                let mut ri: usize = 0;
                while ri < m
                    invariant
                        n == responses@.len(),
                        0 <= li < n,
                        responses@[li as int] == Some(*recs),
                        m == recs@.len(),
                        0 <= ri <= m,
                        g@ == spec_group(
                            spec_all_records(responses@.take(li as int)) + recs@.take(ri as int),
                        ),
                    decreases m - ri,
                {
                    let ghost prefix = spec_all_records(responses@.take(li as int)) + recs@.take(
                        ri as int,
                    );
                    g.add(recs[ri].style_shortname.clone(), recs[ri].citation.clone());
                    proof {
                        let next = spec_all_records(responses@.take(li as int)) + recs@.take(
                            ri + 1,
                        );
                        assert(next =~= prefix.push(recs@[ri as int]));
                        assert(next.drop_last() =~= prefix);
                    }
                    ri = ri + 1;
                }
                proof {
                    assert(responses@.take(li + 1).drop_last() =~= responses@.take(li as int));
                    assert(responses@.take(li + 1).last() == responses@[li as int]);
                    assert(spec_all_records(responses@.take(li + 1)) =~= spec_all_records(
                        responses@.take(li as int),
                    ) + recs@.take(m as int));
                }
            },
        }
        li = li + 1;
    }
    proof {
        assert(responses@.take(n as int) =~= responses@);
        assert forall|q: Seq<char>|
            spec_lookup(g@, q) == opt_citations_for(spec_all_records(responses@), q) by {
            lemma_group_lookup(spec_all_records(responses@), q);
        }
    }
    match g.get(style) {
        Some(v) => Ok(Some(clone_strings(v))),
        None => Ok(None),
    }
}

} // verus!
