//! Keyword index construction and text classification.
//!
//! A keyword index is a list of `(keyword, label)` entries built from a
//! label mapping. Keywords are lower-cased phrases. The list is strictly
//! ordered: longer keywords first, keywords of equal length in lexicographic
//! order, so a scan from the front tests more specific phrases first. When
//! several labels list the same keyword, the lexicographically greatest
//! label wins. The index therefore depends on the mapping's contents alone,
//! not on the order in which its labels are given.

use vstd::prelude::*;
use crate::text::{lower_of, contains_seq, to_lower, contains};
use crate::amount::Decimal;

verus! {

pub open spec fn phrases_view(v: Seq<String>) -> Seq<Seq<char>> {
    v.map_values(|p: String| p@)
}

/// A label mapping as a sequence of labels with their phrases.
pub open spec fn mapping_view(m: Seq<(String, Vec<String>)>) -> Seq<(Seq<char>, Seq<Seq<char>>)> {
    m.map_values(|e: (String, Vec<String>)| (e.0@, phrases_view(e.1@)))
}

/// The keyword/label pairs that one label's phrases contribute, in order.
pub open spec fn phrase_pairs(label: Seq<char>, phrases: Seq<Seq<char>>) -> Seq<(Seq<char>, Seq<char>)> {
    phrases.map_values(|p: Seq<char>| (lower_of(p), label))
}

/// All keyword/label pairs of a label mapping, label by label.
pub open spec fn mapping_pairs(m: Seq<(Seq<char>, Seq<Seq<char>>)>) -> Seq<(Seq<char>, Seq<char>)>
    decreases m.len(),
{
    if m.len() == 0 {
        seq![]
    } else {
        mapping_pairs(m.drop_last()) + phrase_pairs(m.last().0, m.last().1)
    }
}

/// Lexicographic order on character sequences (a proper prefix comes first).
pub open spec fn seq_lt(a: Seq<char>, b: Seq<char>) -> bool
    decreases a.len(),
{
    if a.len() == 0 {
        b.len() > 0
    } else if b.len() == 0 {
        false
    } else if a[0] != b[0] {
        a[0] < b[0]
    } else {
        seq_lt(a.drop_first(), b.drop_first())
    }
}

pub proof fn lemma_seq_lt_asym(a: Seq<char>, b: Seq<char>)
    ensures
        !(seq_lt(a, b) && seq_lt(b, a)),
    decreases a.len(),
{
    if a.len() > 0 && b.len() > 0 && a[0] == b[0] {
        lemma_seq_lt_asym(a.drop_first(), b.drop_first());
    }
}

pub proof fn lemma_seq_lt_total(a: Seq<char>, b: Seq<char>)
    ensures
        a == b || seq_lt(a, b) || seq_lt(b, a),
    decreases a.len(),
{
    if a.len() == 0 && b.len() == 0 {
        assert(a =~= b);
    } else if a.len() > 0 && b.len() > 0 && a[0] == b[0] {
        lemma_seq_lt_total(a.drop_first(), b.drop_first());
        if a.drop_first() == b.drop_first() {
            assert forall|i: int| 0 <= i < a.len() implies a[i] == b[i] by {
                if i > 0 {
                    assert(a[i] == a.drop_first()[i - 1]);
                    assert(b[i] == b.drop_first()[i - 1]);
                }
            }
            assert(a =~= b);
        }
    }
}

pub proof fn lemma_seq_lt_trans(a: Seq<char>, b: Seq<char>, c: Seq<char>)
    requires
        seq_lt(a, b),
        seq_lt(b, c),
    ensures
        seq_lt(a, c),
    decreases a.len(),
{
    if a.len() > 0 && b.len() > 0 && c.len() > 0 && a[0] == b[0] && b[0] == c[0] {
        lemma_seq_lt_trans(a.drop_first(), b.drop_first(), c.drop_first());
    }
}

/// The order of keywords in an index: longer first, then lexicographic.
pub open spec fn key_before(a: Seq<char>, b: Seq<char>) -> bool {
    a.len() > b.len() || (a.len() == b.len() && seq_lt(a, b))
}

pub proof fn lemma_key_before_order()
    ensures
        forall|a: Seq<char>, b: Seq<char>| !(#[trigger] key_before(a, b) && #[trigger] key_before(b, a)),
        forall|a: Seq<char>, b: Seq<char>| a != b ==> #[trigger] key_before(a, b) || #[trigger] key_before(b, a),
        forall|a: Seq<char>, b: Seq<char>, c: Seq<char>|
            #[trigger] key_before(a, b) && #[trigger] key_before(b, c) ==> key_before(a, c),
{
    assert forall|a: Seq<char>, b: Seq<char>| !(#[trigger] key_before(a, b) && #[trigger] key_before(b, a)) by {
        lemma_seq_lt_asym(a, b);
    }
    assert forall|a: Seq<char>, b: Seq<char>| a != b implies #[trigger] key_before(a, b) || #[trigger] key_before(b, a) by {
        lemma_seq_lt_total(a, b);
    }
    assert forall|a: Seq<char>, b: Seq<char>, c: Seq<char>|
        #[trigger] key_before(a, b) && #[trigger] key_before(b, c) implies key_before(a, c) by {
        if a.len() == b.len() && b.len() == c.len() {
            lemma_seq_lt_trans(a, b, c);
        }
    }
}

/// Compares two strings lexicographically by character.
pub fn str_less(a: &str, b: &str) -> (r: bool)
    ensures
        r == seq_lt(a@, b@),
{
    let n = a.unicode_len();
    let m = b.unicode_len();
    let mut i: usize = 0;
    assert(a@.skip(0) =~= a@);
    assert(b@.skip(0) =~= b@);
    while i < n && i < m
        invariant
            i <= n == a@.len(),
            i <= m == b@.len(),
            seq_lt(a@, b@) == seq_lt(a@.skip(i as int), b@.skip(i as int)),
        decreases n - i,
    {
        let ca = a.get_char(i);
        let cb = b.get_char(i);
        if ca != cb {
            assert(a@.skip(i as int)[0] == ca);
            assert(b@.skip(i as int)[0] == cb);
            return ca < cb;
        }
        assert(a@.skip(i as int).drop_first() =~= a@.skip(i as int + 1));
        assert(b@.skip(i as int).drop_first() =~= b@.skip(i as int + 1));
        i += 1;
    }
    i < m
}

/// Compares two keywords in index order.
pub fn keyword_before(a: &str, b: &str) -> (r: bool)
    ensures
        r == key_before(a@, b@),
{
    let la = a.unicode_len();
    let lb = b.unicode_len();
    la > lb || (la == lb && str_less(a, b))
}

pub open spec fn has_pair(ps: Seq<(Seq<char>, Seq<char>)>, k: Seq<char>, l: Seq<char>) -> bool {
    exists|n: int| 0 <= n < ps.len() && #[trigger] ps[n] == (k, l)
}

/// `l` is the label that keyword `k` gets from the pairs `ps`: the
/// lexicographically greatest label paired with `k`.
pub open spec fn keyword_label(ps: Seq<(Seq<char>, Seq<char>)>, k: Seq<char>, l: Seq<char>) -> bool {
    &&& has_pair(ps, k, l)
    &&& forall|l2: Seq<char>| #[trigger] has_pair(ps, k, l2) ==> l2 == l || seq_lt(l2, l)
}

pub open spec fn entries_view(e: Seq<(String, String)>) -> Seq<(Seq<char>, Seq<char>)> {
    e.map_values(|p: (String, String)| (p.0@, p.1@))
}

/// Keywords are strictly ordered by `key_before`, so each occurs once.
pub open spec fn index_wf(e: Seq<(Seq<char>, Seq<char>)>) -> bool {
    forall|i: int, j: int| 0 <= i < j < e.len() ==> key_before(#[trigger] e[i].0, #[trigger] e[j].0)
}

/// The entries are exactly the keywords of `ps`, each with its label.
pub open spec fn index_of(e: Seq<(Seq<char>, Seq<char>)>, ps: Seq<(Seq<char>, Seq<char>)>) -> bool {
    &&& forall|i: int| 0 <= i < e.len() ==> keyword_label(ps, #[trigger] e[i].0, e[i].1)
    &&& forall|k: Seq<char>, l: Seq<char>| #[trigger] has_pair(ps, k, l) ==> exists|i: int| 0 <= i < e.len() && e[i].0 == k
}

/// A keyword matches when its lower-cased form occurs in the lower-cased
/// form of one of the texts.
pub open spec fn matches_any(key: Seq<char>, texts: Seq<String>) -> bool {
    exists|t: int| 0 <= t < texts.len() && contains_seq(lower_of(#[trigger] texts[t]@), lower_of(key))
}

/// Position of the first entry at or after `i` whose keyword matches, or
/// the length of `e` when none does.
pub open spec fn first_match_from(e: Seq<(Seq<char>, Seq<char>)>, texts: Seq<String>, i: int) -> int
    decreases e.len() - i,
{
    if i >= e.len() {
        e.len() as int
    } else if matches_any(e[i].0, texts) {
        i
    } else {
        first_match_from(e, texts, i + 1)
    }
}

/// The label of the first entry whose keyword matches one of the texts.
pub open spec fn first_match(e: Seq<(Seq<char>, Seq<char>)>, texts: Seq<String>) -> Option<Seq<char>> {
    let i = first_match_from(e, texts, 0);
    if 0 <= i < e.len() {
        Some(e[i].1)
    } else {
        None
    }
}

pub open spec fn opt_view(o: Option<String>) -> Option<Seq<char>> {
    match o {
        Some(s) => Some(s@),
        None => None,
    }
}

/// The first match from `i` is the earliest matching position at or after `i`.
pub proof fn lemma_first_match_from(e: Seq<(Seq<char>, Seq<char>)>, texts: Seq<String>, i: int)
    requires
        0 <= i <= e.len(),
    ensures
        i <= first_match_from(e, texts, i) <= e.len(),
        forall|j: int| i <= j < first_match_from(e, texts, i) ==> !matches_any(#[trigger] e[j].0, texts),
        first_match_from(e, texts, i) < e.len() ==> matches_any(e[first_match_from(e, texts, i)].0, texts),
    decreases e.len() - i,
{
    if i < e.len() && !matches_any(e[i].0, texts) {
        lemma_first_match_from(e, texts, i + 1);
    }
}

/// `label` is what classifying `texts` against the pairs `ps` gives: the
/// label of the first matching keyword in index order (so a longest one),
/// or `fallback` when no keyword matches.
pub open spec fn picked(ps: Seq<(Seq<char>, Seq<char>)>, texts: Seq<String>, label: Seq<char>, fallback: Seq<char>) -> bool {
    if exists|k: Seq<char>, l: Seq<char>| #[trigger] has_pair(ps, k, l) && matches_any(k, texts) {
        exists|k: Seq<char>|
            #[trigger] keyword_label(ps, k, label) && matches_any(k, texts) && (forall|k2: Seq<char>, l2: Seq<char>|
                #[trigger] has_pair(ps, k2, l2) && matches_any(k2, texts) ==> k2 == k || key_before(k, k2))
    } else {
        label == fallback
    }
}

pub open spec fn label_or(o: Option<Seq<char>>, fallback: Seq<char>) -> Seq<char> {
    match o {
        Some(l) => l,
        None => fallback,
    }
}

/// Classification is a function of its inputs: at most one label is picked.
pub proof fn lemma_picked_unique(ps: Seq<(Seq<char>, Seq<char>)>, texts: Seq<String>, a: Seq<char>, b: Seq<char>, fallback: Seq<char>)
    requires
        picked(ps, texts, a, fallback),
        picked(ps, texts, b, fallback),
    ensures
        a == b,
{
    if exists|k: Seq<char>, l: Seq<char>| #[trigger] has_pair(ps, k, l) && matches_any(k, texts) {
        let ka = choose|k: Seq<char>|
            #[trigger] keyword_label(ps, k, a) && matches_any(k, texts) && (forall|k2: Seq<char>, l2: Seq<char>|
                #[trigger] has_pair(ps, k2, l2) && matches_any(k2, texts) ==> k2 == k || key_before(k, k2));
        let kb = choose|k: Seq<char>|
            #[trigger] keyword_label(ps, k, b) && matches_any(k, texts) && (forall|k2: Seq<char>, l2: Seq<char>|
                #[trigger] has_pair(ps, k2, l2) && matches_any(k2, texts) ==> k2 == k || key_before(k, k2));
        assert(has_pair(ps, kb, b));
        assert(has_pair(ps, ka, a));
        lemma_key_before_order();
        assert(ka == kb);
        assert(has_pair(ps, ka, b));
        lemma_seq_lt_asym(a, b);
    }
}

/// Longest phrase first: scanning a well-formed index of the pairs `ps`
/// picks the first matching keyword in index order. Its label is the
/// keyword's label, the keyword is at least as long as every other matching
/// keyword, and nothing is found only when no keyword matches. So when both
/// `gmbh` and `abc gmbh` match, `gmbh` never decides.
pub proof fn lemma_longest_phrase_first(
    e: Seq<(Seq<char>, Seq<char>)>,
    ps: Seq<(Seq<char>, Seq<char>)>,
    texts: Seq<String>,
    fallback: Seq<char>,
)
    requires
        index_wf(e),
        index_of(e, ps),
    ensures
        picked(ps, texts, label_or(first_match(e, texts), fallback), fallback),
        first_match(e, texts) is None <==> forall|k: Seq<char>, l: Seq<char>|
            #[trigger] has_pair(ps, k, l) ==> !matches_any(k, texts),
        first_match(e, texts) matches Some(l) ==> exists|k: Seq<char>|
            #[trigger] keyword_label(ps, k, l) && matches_any(k, texts) && (forall|k2: Seq<char>, l2: Seq<char>|
                #[trigger] has_pair(ps, k2, l2) && matches_any(k2, texts) ==> k2.len() <= k.len()),
{
    lemma_first_match_from(e, texts, 0);
    let i = first_match_from(e, texts, 0);
    if i < e.len() {
        let k = e[i].0;
        assert(keyword_label(ps, k, e[i].1));
        assert(has_pair(ps, k, e[i].1) && matches_any(k, texts));
        assert forall|k2: Seq<char>, l2: Seq<char>| #[trigger] has_pair(ps, k2, l2) && matches_any(k2, texts) implies k2 == k
            || key_before(k, k2) by {
            let j = choose|j: int| 0 <= j < e.len() && e[j].0 == k2;
            if j < i {
                assert(!matches_any(e[j].0, texts));
            } else if j > i {
                assert(key_before(e[i].0, e[j].0));
            }
        }
        assert forall|k2: Seq<char>, l2: Seq<char>| #[trigger] has_pair(ps, k2, l2) && matches_any(k2, texts) implies k2.len()
            <= k.len() by {
            assert(k2 == k || key_before(k, k2));
        }
    } else {
        assert forall|k: Seq<char>, l: Seq<char>| #[trigger] has_pair(ps, k, l) implies !matches_any(k, texts) by {
            let j = choose|j: int| 0 <= j < e.len() && e[j].0 == k;
            assert(!matches_any(e[j].0, texts));
        }
    }
}

/// Returns the label of the first entry whose keyword, lower-cased, occurs
/// in the lower-cased form of one of the texts, scanning entries in order
/// and, for each entry, the texts in order.
pub fn look_for_mapping_in_text(mappings: &Vec<(String, String)>, text_to_search: &Vec<String>) -> (r: Option<String>)
    ensures
        opt_view(r) == first_match(entries_view(mappings@), text_to_search@),
{
    let ghost e = entries_view(mappings@);
    let mut i: usize = 0;
    while i < mappings.len()
        invariant
            0 <= i <= mappings.len(),
            e == entries_view(mappings@),
            e.len() == mappings.len(),
            first_match_from(e, text_to_search@, 0) == first_match_from(e, text_to_search@, i as int),
        decreases mappings.len() - i,
    {
        let key = to_lower(mappings[i].0.as_str());
        let mut t: usize = 0;
        while t < text_to_search.len()
            invariant
                0 <= i < mappings.len(),
                0 <= t <= text_to_search.len(),
                e == entries_view(mappings@),
                e.len() == mappings.len(),
                lower_of(e[i as int].0) == key@,
                first_match_from(e, text_to_search@, 0) == first_match_from(e, text_to_search@, i as int),
                forall|u: int| 0 <= u < t ==> !contains_seq(lower_of(#[trigger] text_to_search@[u]@), key@),
            decreases text_to_search.len() - t,
        {
            let lowered = to_lower(text_to_search[t].as_str());
            if contains(lowered.as_str(), key.as_str()) {
                assert(matches_any(e[i as int].0, text_to_search@));
                assert(first_match_from(e, text_to_search@, i as int) == i);
                let label = mappings[i].1.clone();
                assert(e[i as int].1 == label@);
                return Some(label);
            }
            t += 1;
        }
        assert(!matches_any(e[i as int].0, text_to_search@));
        i += 1;
    }
    None
}

proof fn lemma_has_pair_push(ps: Seq<(Seq<char>, Seq<char>)>, x: (Seq<char>, Seq<char>))
    ensures
        forall|k: Seq<char>, l: Seq<char>|
            #[trigger] has_pair(ps.push(x), k, l) == (has_pair(ps, k, l) || x == (k, l)),
{
    let ps2 = ps.push(x);
    assert forall|k: Seq<char>, l: Seq<char>| #[trigger] has_pair(ps2, k, l) == (has_pair(ps, k, l) || x == (k, l)) by {
        if has_pair(ps, k, l) {
            let n = choose|n: int| 0 <= n < ps.len() && #[trigger] ps[n] == (k, l);
            assert(ps2[n] == (k, l));
        }
        if x == (k, l) {
            assert(ps2[ps.len() as int] == (k, l));
        }
        if has_pair(ps2, k, l) {
            let n = choose|n: int| 0 <= n < ps2.len() && #[trigger] ps2[n] == (k, l);
            if n < ps.len() {
                assert(ps[n] == (k, l));
            }
        }
    }
}

/// Adds the pair `key -> label` to a well-formed index. When the keyword is
/// already present, the lexicographically greater label stays; otherwise
/// the entry goes to its place in index order.
fn insert_keyword(entries: &mut Vec<(String, String)>, key: String, label: String)
    requires
        index_wf(entries_view(old(entries)@)),
    ensures
        index_wf(entries_view(final(entries)@)),
        forall|ps: Seq<(Seq<char>, Seq<char>)>|
            index_of(entries_view(old(entries)@), ps) ==> #[trigger] index_of(
                entries_view(final(entries)@),
                ps.push((key@, label@)),
            ),
{
    let ghost e = entries_view(entries@);
    let ghost k = key@;
    let ghost l = label@;
    proof {
        lemma_key_before_order();
    }
    let mut i: usize = 0;
    while i < entries.len()
        invariant
            0 <= i <= entries.len(),
            e == entries_view(entries@),
            e.len() == entries.len(),
            entries@ == old(entries)@,
            index_wf(e),
            k == key@,
            l == label@,
            forall|j: int| 0 <= j < i ==> #[trigger] e[j].0 != k,
        decreases entries.len() - i,
    {
        if entries[i].0 == key {
            let ghost l0 = e[i as int].1;
            proof {
                lemma_key_before_order();
            }
            assert(e[i as int].0 == k);
            let replace = str_less(entries[i].1.as_str(), label.as_str());
            let ghost w = if replace { l } else { l0 };
            if replace {
                entries.set(i, (key, label));
            }
            let ghost e2 = entries_view(entries@);
            assert(e2 =~= e.update(i as int, (k, w)));
            assert forall|a: int, b: int| 0 <= a < b < e2.len() implies key_before(#[trigger] e2[a].0, #[trigger] e2[b].0) by {
                assert(key_before(e[a].0, e[b].0));
            }
            assert forall|ps: Seq<(Seq<char>, Seq<char>)>|
                index_of(e, ps) implies #[trigger] index_of(e2, ps.push((k, l))) by {
                let ps2 = ps.push((k, l));
                lemma_has_pair_push(ps, (k, l));
                assert forall|j: int| 0 <= j < e2.len() implies keyword_label(ps2, #[trigger] e2[j].0, e2[j].1) by {
                    if j != i {
                        if j < i {
                            assert(key_before(e[j].0, e[i as int].0));
                        } else {
                            assert(key_before(e[i as int].0, e[j].0));
                        }
                        assert(e[j].0 != e[i as int].0);
                        assert(keyword_label(ps, e[j].0, e[j].1));
                        assert forall|l2: Seq<char>| #[trigger] has_pair(ps2, e2[j].0, l2) implies l2 == e2[j].1
                            || seq_lt(l2, e2[j].1) by {
                            assert(has_pair(ps, e[j].0, l2));
                        }
                    } else {
                        assert(keyword_label(ps, e[i as int].0, e[i as int].1));
                        assert(keyword_label(ps, k, l0));
                        lemma_seq_lt_total(l0, l);
                        assert forall|l2: Seq<char>| #[trigger] has_pair(ps2, k, l2) implies l2 == w || seq_lt(l2, w) by {
                            if l2 != l {
                                assert(has_pair(ps, k, l2));
                                if replace && l2 != l0 {
                                    lemma_seq_lt_trans(l2, l0, l);
                                }
                            }
                        }
                    }
                }
                assert forall|k2: Seq<char>, l2: Seq<char>| #[trigger] has_pair(ps2, k2, l2) implies exists|j: int|
                    0 <= j < e2.len() && e2[j].0 == k2 by {
                    if k2 != k {
                        assert(has_pair(ps, k2, l2));
                        let j = choose|j: int| 0 <= j < e.len() && e[j].0 == k2;
                        assert(e2[j].0 == k2);
                    } else {
                        assert(e2[i as int].0 == k2);
                    }
                }
            }
            return;
        }
        i += 1;
    }
    let mut q: usize = 0;
    while q < entries.len() && keyword_before(entries[q].0.as_str(), key.as_str())
        invariant
            0 <= q <= entries.len(),
            e == entries_view(entries@),
            e.len() == entries.len(),
            k == key@,
            l == label@,
            index_wf(e),
            forall|j: int| 0 <= j < e.len() ==> #[trigger] e[j].0 != k,
            forall|j: int| 0 <= j < q ==> key_before(#[trigger] e[j].0, k),
        decreases entries.len() - q,
    {
        q += 1;
    }
    proof {
        lemma_key_before_order();
    }
    entries.insert(q, (key, label));
    let ghost e2 = entries_view(entries@);
    assert(e2 =~= e.insert(q as int, (k, l)));
    assert forall|j: int| q <= j < e.len() implies key_before(k, #[trigger] e[j].0) by {
        assert(e[q as int].0 != k);
        assert(!key_before(e[q as int].0, k));
        assert(key_before(k, e[q as int].0) || key_before(e[q as int].0, k));
        assert(key_before(k, e[q as int].0));
        if j > q {
            assert(key_before(e[q as int].0, e[j].0));
            assert(key_before(k, e[j].0));
        }
    }
    assert forall|a: int, b: int| 0 <= a < b < e2.len() implies key_before(#[trigger] e2[a].0, #[trigger] e2[b].0) by {
        if a < q && b < q {
        } else if a < q && b == q {
        } else if a < q {
            assert(e2[b] == e[b - 1]);
            assert(key_before(e[a].0, e[b - 1].0));
        } else if a == q {
            assert(e2[b] == e[b - 1]);
        } else {
            assert(e2[a] == e[a - 1]);
            assert(e2[b] == e[b - 1]);
            assert(key_before(e[a - 1].0, e[b - 1].0));
        }
    }
    assert forall|ps: Seq<(Seq<char>, Seq<char>)>|
        index_of(e, ps) implies #[trigger] index_of(e2, ps.push((k, l))) by {
        let ps2 = ps.push((k, l));
        lemma_has_pair_push(ps, (k, l));
        assert forall|j: int| 0 <= j < e2.len() implies keyword_label(ps2, #[trigger] e2[j].0, e2[j].1) by {
            if j == q {
                assert forall|l2: Seq<char>| #[trigger] has_pair(ps2, k, l2) implies l2 == l || seq_lt(l2, l) by {
                    if l2 != l {
                        assert(has_pair(ps, k, l2));
                        let m = choose|m: int| 0 <= m < e.len() && e[m].0 == k;
                        assert(e[m].0 != k);
                    }
                }
            } else {
                let jj = if j < q { j } else { j - 1 };
                assert(e2[j] == e[jj]);
                assert(e[jj].0 != k);
                assert(keyword_label(ps, e[jj].0, e[jj].1));
                assert forall|l2: Seq<char>| #[trigger] has_pair(ps2, e[jj].0, l2) implies l2 == e[jj].1
                    || seq_lt(l2, e[jj].1) by {
                    assert(has_pair(ps, e[jj].0, l2));
                }
            }
        }
        assert forall|k2: Seq<char>, l2: Seq<char>| #[trigger] has_pair(ps2, k2, l2) implies exists|j: int|
            0 <= j < e2.len() && e2[j].0 == k2 by {
            if k2 != k {
                assert(has_pair(ps, k2, l2));
                let j = choose|j: int| 0 <= j < e.len() && e[j].0 == k2;
                if j < q {
                    assert(e2[j].0 == k2);
                } else {
                    assert(e2[j + 1].0 == k2);
                }
            } else {
                assert(e2[q as int].0 == k2);
            }
        }
    }
}

/// Inverts a label mapping into a keyword index: every phrase, lower-cased,
/// becomes a keyword whose label is the greatest label listing it. Entries
/// are strictly ordered by `key_before`.
pub fn switch_key_with_values_of_map(input: &Vec<(String, Vec<String>)>) -> (res: Vec<(String, String)>)
    ensures
        index_wf(entries_view(res@)),
        index_of(entries_view(res@), mapping_pairs(mapping_view(input@))),
{
    let ghost mv = mapping_view(input@);
    let mut res: Vec<(String, String)> = Vec::new();
    assert(entries_view(res@) =~= seq![]);
    assert(mv.take(0) =~= seq![]);
    assert(mapping_pairs(mv.take(0)) =~= seq![]);
    let mut i: usize = 0;
    while i < input.len()
        invariant
            0 <= i <= input.len(),
            index_wf(entries_view(res@)),
            mv == mapping_view(input@),
            index_of(entries_view(res@), mapping_pairs(mv.take(i as int))),
        decreases input.len() - i,
    {
        let label = &input[i].0;
        let list = &input[i].1;
        let ghost done = mapping_pairs(mv.take(i as int));
        let ghost lv = phrases_view(list@);
        assert(lv.take(0) =~= seq![]);
        assert(done + phrase_pairs(label@, lv.take(0)) =~= done);
        let mut j: usize = 0;
        while j < list.len()
            invariant
                0 <= i < input.len(),
                0 <= j <= list.len(),
                label == &input@[i as int].0,
                list == &input@[i as int].1,
                mv == mapping_view(input@),
                done == mapping_pairs(mv.take(i as int)),
                lv == phrases_view(list@),
                index_wf(entries_view(res@)),
                index_of(entries_view(res@), done + phrase_pairs(label@, lv.take(j as int))),
            decreases list.len() - j,
        {
            let key = to_lower(list[j].as_str());
            let ghost before = done + phrase_pairs(label@, lv.take(j as int));
            let ghost after = done + phrase_pairs(label@, lv.take(j as int + 1));
            assert(after =~= before.push((key@, label@)));
            insert_keyword(&mut res, key, label.clone());
            j += 1;
        }
        assert(lv.take(list.len() as int) =~= lv);
        assert(mv.take(i as int + 1).drop_last() =~= mv.take(i as int));
        i += 1;
    }
    assert(mv.take(input.len() as int) =~= mv);
    res
}

/// Label `l` lists a phrase whose lower-cased form is `k`.
pub open spec fn lists_phrase(mv: Seq<(Seq<char>, Seq<Seq<char>>)>, k: Seq<char>, l: Seq<char>) -> bool {
    exists|i: int, j: int|
        0 <= i < mv.len() && 0 <= j < mv[i].1.len() && mv[i].0 == l && lower_of(#[trigger] mv[i].1[j]) == k
}

pub proof fn lemma_mapping_pairs_lists(mv: Seq<(Seq<char>, Seq<Seq<char>>)>)
    ensures
        forall|k: Seq<char>, l: Seq<char>| #[trigger] has_pair(mapping_pairs(mv), k, l) == lists_phrase(mv, k, l),
    decreases mv.len(),
{
    if mv.len() > 0 {
        let p = mv.drop_last();
        let n = mv.len() - 1;
        lemma_mapping_pairs_lists(p);
        let a = mapping_pairs(p);
        let b = phrase_pairs(mv[n].0, mv[n].1);
        assert(mapping_pairs(mv) == a + b);
        assert forall|k: Seq<char>, l: Seq<char>| #[trigger] has_pair(mapping_pairs(mv), k, l) == lists_phrase(mv, k, l) by {
            let ab = a + b;
            if has_pair(ab, k, l) {
                let x = choose|x: int| 0 <= x < ab.len() && #[trigger] ab[x] == (k, l);
                if x < a.len() {
                    assert(a[x] == (k, l));
                    assert(has_pair(a, k, l));
                    let (i, j) = choose|i: int, j: int|
                        0 <= i < p.len() && 0 <= j < p[i].1.len() && p[i].0 == l && lower_of(#[trigger] p[i].1[j]) == k;
                    assert(mv[i] == p[i]);
                    assert(lower_of(mv[i].1[j]) == k);
                } else {
                    let j = x - a.len();
                    assert(b[j] == (k, l));
                    assert(lower_of(mv[n].1[j]) == k);
                }
            }
            if lists_phrase(mv, k, l) {
                let (i, j) = choose|i: int, j: int|
                    0 <= i < mv.len() && 0 <= j < mv[i].1.len() && mv[i].0 == l && lower_of(#[trigger] mv[i].1[j]) == k;
                if i < n {
                    assert(p[i] == mv[i]);
                    assert(lower_of(p[i].1[j]) == k);
                    assert(has_pair(a, k, l));
                    let x = choose|x: int| 0 <= x < a.len() && #[trigger] a[x] == (k, l);
                    assert(ab[x] == (k, l));
                } else {
                    assert(b[j] == (k, l));
                    assert(ab[a.len() + j] == (k, l));
                }
            }
        }
    } else {
        assert forall|k: Seq<char>, l: Seq<char>| #[trigger] has_pair(mapping_pairs(mv), k, l) == lists_phrase(mv, k, l) by {
        }
    }
}

pub open spec fn has_key(e: Seq<(Seq<char>, Seq<char>)>, k: Seq<char>) -> bool {
    exists|i: int| 0 <= i < e.len() && #[trigger] e[i].0 == k
}

proof fn lemma_sorted_same(e1: Seq<(Seq<char>, Seq<char>)>, e2: Seq<(Seq<char>, Seq<char>)>)
    requires
        index_wf(e1),
        index_wf(e2),
        forall|k: Seq<char>| #[trigger] has_key(e1, k) == has_key(e2, k),
        forall|i: int, j: int|
            0 <= i < e1.len() && 0 <= j < e2.len() && #[trigger] e1[i].0 == #[trigger] e2[j].0 ==> e1[i].1 == e2[j].1,
    ensures
        e1 == e2,
    decreases e1.len() + e2.len(),
{
    lemma_key_before_order();
    if e1.len() == 0 || e2.len() == 0 {
        if e1.len() > 0 {
            assert(has_key(e1, e1[0].0));
            assert(has_key(e2, e1[0].0));
        }
        if e2.len() > 0 {
            assert(has_key(e2, e2[0].0));
            assert(has_key(e1, e2[0].0));
        }
        assert(e1 =~= e2);
    } else {
        let a = e1[0].0;
        let b = e2[0].0;
        assert(has_key(e1, a));
        assert(has_key(e2, a));
        assert(has_key(e2, b));
        assert(has_key(e1, b));
        let j = choose|j: int| 0 <= j < e2.len() && #[trigger] e2[j].0 == a;
        let i = choose|i: int| 0 <= i < e1.len() && #[trigger] e1[i].0 == b;
        if a != b {
            assert(j > 0 && i > 0);
            assert(key_before(e2[0].0, e2[j].0));
            assert(key_before(e1[0].0, e1[i].0));
        }
        assert(e1[0] == e2[0]);
        let t1 = e1.drop_first();
        let t2 = e2.drop_first();
        assert forall|k: Seq<char>| #[trigger] has_key(t1, k) == has_key(t2, k) by {
            if has_key(t1, k) {
                let x = choose|x: int| 0 <= x < t1.len() && #[trigger] t1[x].0 == k;
                assert(e1[x + 1].0 == k);
                assert(key_before(e1[0].0, e1[x + 1].0));
                assert(has_key(e1, k));
                assert(has_key(e2, k));
                let y = choose|y: int| 0 <= y < e2.len() && #[trigger] e2[y].0 == k;
                assert(y != 0);
                assert(t2[y - 1].0 == k);
            }
            if has_key(t2, k) {
                let y = choose|y: int| 0 <= y < t2.len() && #[trigger] t2[y].0 == k;
                assert(e2[y + 1].0 == k);
                assert(key_before(e2[0].0, e2[y + 1].0));
                assert(has_key(e2, k));
                assert(has_key(e1, k));
                let x = choose|x: int| 0 <= x < e1.len() && #[trigger] e1[x].0 == k;
                assert(x != 0);
                assert(t1[x - 1].0 == k);
            }
        }
        assert forall|x: int, y: int|
            0 <= x < t1.len() && 0 <= y < t2.len() && #[trigger] t1[x].0 == #[trigger] t2[y].0 implies t1[x].1 == t2[y].1 by {
            assert(e1[x + 1].0 == e2[y + 1].0);
        }
        assert forall|x: int, y: int| 0 <= x < y < t1.len() implies key_before(#[trigger] t1[x].0, #[trigger] t1[y].0) by {
            assert(key_before(e1[x + 1].0, e1[y + 1].0));
        }
        assert forall|x: int, y: int| 0 <= x < y < t2.len() implies key_before(#[trigger] t2[x].0, #[trigger] t2[y].0) by {
            assert(key_before(e2[x + 1].0, e2[y + 1].0));
        }
        lemma_sorted_same(t1, t2);
        assert(e1 =~= e2) by {
            assert forall|x: int| 0 <= x < e1.len() implies e1[x] == e2[x] by {
                if x > 0 {
                    assert(e1[x] == t1[x - 1]);
                    assert(e2[x] == t2[x - 1]);
                }
            }
        }
    }
}

/// A well-formed index is determined by the keyword/label pairs alone: two
/// indexes of pair lists that hold the same pairs are equal.
pub proof fn lemma_index_unique(
    e1: Seq<(Seq<char>, Seq<char>)>,
    e2: Seq<(Seq<char>, Seq<char>)>,
    ps1: Seq<(Seq<char>, Seq<char>)>,
    ps2: Seq<(Seq<char>, Seq<char>)>,
)
    requires
        index_wf(e1),
        index_wf(e2),
        index_of(e1, ps1),
        index_of(e2, ps2),
        forall|k: Seq<char>, l: Seq<char>| #[trigger] has_pair(ps1, k, l) == #[trigger] has_pair(ps2, k, l),
    ensures
        e1 == e2,
{
    assert forall|k: Seq<char>| #[trigger] has_key(e1, k) == has_key(e2, k) by {
        if has_key(e1, k) {
            let i = choose|i: int| 0 <= i < e1.len() && #[trigger] e1[i].0 == k;
            assert(keyword_label(ps1, e1[i].0, e1[i].1));
            assert(has_pair(ps1, k, e1[i].1));
            assert(has_pair(ps2, k, e1[i].1));
        }
        if has_key(e2, k) {
            let j = choose|j: int| 0 <= j < e2.len() && #[trigger] e2[j].0 == k;
            assert(keyword_label(ps2, e2[j].0, e2[j].1));
            assert(has_pair(ps2, k, e2[j].1));
            assert(has_pair(ps1, k, e2[j].1));
        }
    }
    assert forall|i: int, j: int|
        0 <= i < e1.len() && 0 <= j < e2.len() && #[trigger] e1[i].0 == #[trigger] e2[j].0 implies e1[i].1 == e2[j].1 by {
        let k = e1[i].0;
        assert(keyword_label(ps1, k, e1[i].1));
        assert(keyword_label(ps2, k, e2[j].1));
        assert(has_pair(ps1, k, e2[j].1));
        assert(has_pair(ps2, k, e1[i].1));
        lemma_seq_lt_asym(e1[i].1, e2[j].1);
    }
    lemma_sorted_same(e1, e2);
}

/// Resolves the payee of a transaction: a strictly positive amount is
/// income and yields `income_payee` without consulting the keywords;
/// otherwise the keyword scan decides. An amount of zero is not income.
pub fn find_payee(
    mappings: &Vec<(String, String)>,
    text_to_search: &Vec<String>,
    amount: Decimal,
    income_payee: String,
) -> (r: Option<String>)
    ensures
        amount.mantissa > 0 ==> r == Some(income_payee),
        amount.mantissa <= 0 ==> opt_view(r) == first_match(entries_view(mappings@), text_to_search@),
        amount.mantissa <= 0 && r is Some ==> exists|i: int|
            0 <= i < mappings.len() && matches_any(mappings@[i].0@, text_to_search@)
                && #[trigger] mappings@[i].1@ == r->Some_0@,
{
    if amount.is_positive() {
        Some(income_payee)
    } else {
        let r = look_for_mapping_in_text(mappings, text_to_search);
        proof {
            let e = entries_view(mappings@);
            lemma_first_match_from(e, text_to_search@, 0);
            if r is Some {
                let i = first_match_from(e, text_to_search@, 0);
                assert(mappings@[i].1@ == e[i].1);
            }
        }
        r
    }
}

} // verus!
