//! The position index: each key with the span of its line in the buffer.

use vstd::prelude::*;
use crate::line::{declaration, line_end, read_line, Line, Span, EQUALS};

verus! {

/// One indexed key.
#[derive(Debug)]
pub struct Entry {
    /// The key's bytes, without the leading `#` and white space of its line.
    pub key: Vec<u8>,
    pub span: Span,
}

/// Some entry of `s` holds the key `k`.
pub open spec fn has_key(s: Seq<Entry>, k: Seq<u8>) -> bool {
    exists|i: int| 0 <= i < s.len() && #[trigger] s[i].key@ == k
}

/// The index as a map from key to span.
pub open spec fn index_of(s: Seq<Entry>) -> Map<Seq<u8>, Span> {
    Map::new(
        |k: Seq<u8>| has_key(s, k),
        |k: Seq<u8>| s[choose|i: int| 0 <= i < s.len() && #[trigger] s[i].key@ == k].span,
    )
}

/// No key is held twice.
pub open spec fn unique_keys(s: Seq<Entry>) -> bool {
    forall|i: int, j: int| 0 <= i < j < s.len() ==> s[i].key@ != s[j].key@
}

/// A span lies inside `b`, starts before its value, and its value follows an `=`.
pub open spec fn span_wf(sp: Span, b: Seq<u8>) -> bool {
    &&& sp.line_start < sp.value_start <= sp.value_end <= b.len()
    &&& b[sp.value_start - 1] == EQUALS
}

/// Two spans do not overlap, and at least one byte (the newline that ends
/// the earlier line) lies between them.
pub open spec fn disjoint(a: Span, c: Span) -> bool {
    a.value_end < c.line_start || c.value_end < a.line_start
}

/// Every entry is well formed over `b`, and no two overlap.
pub open spec fn entries_wf(s: Seq<Entry>, b: Seq<u8>) -> bool {
    &&& unique_keys(s)
    &&& forall|i: int| 0 <= i < s.len() ==> span_wf(#[trigger] s[i].span, b)
    &&& forall|i: int, j: int|
        0 <= i < s.len() && 0 <= j < s.len() && i != j ==> disjoint(
            #[trigger] s[i].span,
            #[trigger] s[j].span,
        )
}

/// The index that loading builds: the lines from `pos` on, scanned in order,
/// each declaration added to `acc`, a later line replacing an earlier one of
/// the same key.
pub open spec fn scan(b: Seq<u8>, pos: int, acc: Map<Seq<u8>, Span>) -> Map<Seq<u8>, Span>
    decreases b.len() - pos,
{
    if pos < 0 || pos >= b.len() || line_end(b, pos) <= pos || line_end(b, pos) > b.len() {
        acc
    } else {
        let next = match declaration(b, pos) {
            Some((k, sp)) => acc.insert(k, sp),
            None => acc,
        };
        scan(b, line_end(b, pos), next)
    }
}

/// The index of a whole buffer.
pub open spec fn parse(b: Seq<u8>) -> Map<Seq<u8>, Span> {
    scan(b, 0, Map::empty())
}

/// With unique keys, the map holds each entry's span under its key.
pub proof fn lemma_index_at(s: Seq<Entry>, i: int)
    requires
        unique_keys(s),
        0 <= i < s.len(),
    ensures
        index_of(s).contains_key(s[i].key@),
        index_of(s)[s[i].key@] == s[i].span,
{
    let k = s[i].key@;
    assert(has_key(s, k));
    let j = choose|j: int| 0 <= j < s.len() && #[trigger] s[j].key@ == k;
    assert(j == i) by {
        if j < i {
            assert(s[j].key@ != s[i].key@);
        } else if i < j {
            assert(s[i].key@ != s[j].key@);
        }
    }
}

/// Replacing one entry by another with the same key replaces its span in the map.
pub proof fn lemma_index_update(s: Seq<Entry>, i: int, e: Entry)
    requires
        unique_keys(s),
        0 <= i < s.len(),
        e.key@ == s[i].key@,
    ensures
        unique_keys(s.update(i, e)),
        index_of(s.update(i, e)) == index_of(s).insert(e.key@, e.span),
{
    let t = s.update(i, e);
    assert(unique_keys(t)) by {
        assert forall|a: int, c: int| 0 <= a < c < t.len() implies t[a].key@ != t[c].key@ by {
            assert(s[a].key@ != s[c].key@);
        }
    }
    assert forall|k: Seq<u8>| has_key(t, k) == has_key(s, k) by {
        if has_key(t, k) {
            let j = choose|j: int| 0 <= j < t.len() && #[trigger] t[j].key@ == k;
            assert(s[j].key@ == k);
        }
        if has_key(s, k) {
            let j = choose|j: int| 0 <= j < s.len() && #[trigger] s[j].key@ == k;
            assert(t[j].key@ == k);
        }
    }
    assert forall|k: Seq<u8>| #[trigger] index_of(t).contains_key(k) implies index_of(t)[k] == index_of(s).insert(e.key@, e.span)[k] by {
        let j = choose|j: int| 0 <= j < t.len() && #[trigger] t[j].key@ == k;
        lemma_index_at(t, j);
        if j != i {
            lemma_index_at(s, j);
        }
    }
    assert(index_of(t) =~= index_of(s).insert(e.key@, e.span));
}

/// Appending an entry with a new key adds its span to the map.
pub proof fn lemma_index_push(s: Seq<Entry>, e: Entry)
    requires
        unique_keys(s),
        !has_key(s, e.key@),
    ensures
        unique_keys(s.push(e)),
        index_of(s.push(e)) == index_of(s).insert(e.key@, e.span),
{
    let t = s.push(e);
    assert(unique_keys(t)) by {
        assert forall|a: int, c: int| 0 <= a < c < t.len() implies t[a].key@ != t[c].key@ by {
            if c < s.len() {
                assert(s[a].key@ != s[c].key@);
            } else {
                assert(s[a].key@ == t[a].key@);
            }
        }
    }
    assert forall|k: Seq<u8>| has_key(t, k) == (has_key(s, k) || k == e.key@) by {
        if has_key(t, k) {
            let j = choose|j: int| 0 <= j < t.len() && #[trigger] t[j].key@ == k;
            if j < s.len() {
                assert(s[j].key@ == k);
            }
        }
        if has_key(s, k) {
            let j = choose|j: int| 0 <= j < s.len() && #[trigger] s[j].key@ == k;
            assert(t[j].key@ == k);
        }
        if k == e.key@ {
            assert(t[s.len() as int].key@ == k);
        }
    }
    assert forall|k: Seq<u8>| #[trigger] index_of(t).contains_key(k) implies index_of(t)[k] == index_of(s).insert(e.key@, e.span)[k] by {
        let j = choose|j: int| 0 <= j < t.len() && #[trigger] t[j].key@ == k;
        lemma_index_at(t, j);
        if j < s.len() {
            lemma_index_at(s, j);
        }
    }
    assert(index_of(t) =~= index_of(s).insert(e.key@, e.span));
}

/// Whether two byte sequences are equal.
pub fn bytes_eq(a: &[u8], c: &[u8]) -> (r: bool)
    ensures
        r == (a@ == c@),
{
    if a.len() != c.len() {
        return false;
    }
    let mut i: usize = 0;
    while i < a.len()
        invariant
            a.len() == c.len(),
            i <= a.len(),
            a@.subrange(0, i as int) == c@.subrange(0, i as int),
        decreases a.len() - i,
    {
        if a[i] != c[i] {
            assert(a@[i as int] != c@[i as int]);
            return false;
        }
        assert(a@.subrange(0, i + 1) =~= a@.subrange(0, i as int).push(a@[i as int]));
        assert(c@.subrange(0, i + 1) =~= c@.subrange(0, i as int).push(c@[i as int]));
        i = i + 1;
    }
    assert(a@ =~= a@.subrange(0, i as int));
    assert(c@ =~= c@.subrange(0, i as int));
    true
}

/// Position of the entry holding `key`, if any.
pub fn find(s: &Vec<Entry>, key: &[u8]) -> (r: Option<usize>)
    ensures
        match r {
            Some(i) => i < s.len() && s@[i as int].key@ == key@,
            None => !has_key(s@, key@),
        },
{
    let mut i: usize = 0;
    while i < s.len()
        invariant
            i <= s.len(),
            forall|j: int| 0 <= j < i ==> s@[j].key@ != key@,
        decreases s.len() - i,
    {
        if bytes_eq(s[i].key.as_slice(), key) {
            return Some(i);
        }
        i = i + 1;
    }
    None
}

/// Builds the index of a whole buffer.
pub fn parse_index(b: &Vec<u8>) -> (r: Vec<Entry>)
    ensures
        index_of(r@) == parse(b@),
        entries_wf(r@, b@),
{
    let mut s: Vec<Entry> = Vec::new();
    let mut pos: usize = 0;
    assert(index_of(s@) =~= Map::<Seq<u8>, Span>::empty());
    while pos < b.len()
        invariant
            pos <= b.len(),
            parse(b@) == scan(b@, pos as int, index_of(s@)),
            entries_wf(s@, b@),
            forall|i: int|
                0 <= i < s.len() ==> (#[trigger] s@[i]).span.value_end < pos || (s@[i].span.value_end
                    == pos && pos == b.len()),
        decreases b.len() - pos,
    {
        let (line, next) = read_line(b, pos);
        match line {
            Line::Declaration { key, span } => {
                let e = Entry { key, span };
                match find(&s, e.key.as_slice()) {
                    Some(i) => {
                        proof {
                            lemma_index_update(s@, i as int, e);
                        }
                        let ghost old_s = s@;
                        s.set(i, e);
                        proof {
                            assert forall|a: int, c: int|
                                0 <= a < s.len() && 0 <= c < s.len() && a != c implies disjoint(
                                #[trigger] s@[a].span,
                                #[trigger] s@[c].span,
                            ) by {
                                if a != i && c != i {
                                    assert(disjoint(old_s[a].span, old_s[c].span));
                                }
                            }
                            assert forall|a: int| 0 <= a < s.len() implies span_wf(
                                #[trigger] s@[a].span,
                                b@,
                            ) by {
                                if a != i {
                                    assert(span_wf(old_s[a].span, b@));
                                }
                            }
                        }
                    },
                    None => {
                        proof {
                            lemma_index_push(s@, e);
                        }
                        let ghost old_s = s@;
                        s.push(e);
                        proof {
                            assert forall|a: int, c: int|
                                0 <= a < s.len() && 0 <= c < s.len() && a != c implies disjoint(
                                #[trigger] s@[a].span,
                                #[trigger] s@[c].span,
                            ) by {
                                if a < old_s.len() && c < old_s.len() {
                                    assert(disjoint(old_s[a].span, old_s[c].span));
                                }
                            }
                            assert forall|a: int| 0 <= a < s.len() implies span_wf(
                                #[trigger] s@[a].span,
                                b@,
                            ) by {
                                if a < old_s.len() {
                                    assert(span_wf(old_s[a].span, b@));
                                }
                            }
                        }
                    },
                }
            },
            Line::Inert => {},
        }
        pos = next;
    }
    s
}

} // verus!
