//! The store: a file's bytes and the index over them, with the operations
//! that read and edit them.
//!
//! Every edit corrects the offsets of all entries: the edited one gets its
//! new span, and each entry after the edited region moves by the change in
//! length. The index therefore stays exact across any number of edits.

use vstd::prelude::*;
use vstd::utf8::{decode_utf8, encode_utf8, valid_utf8};
use crate::index::{
    disjoint, entries_wf, find, has_key, index_of, lemma_index_at, parse, parse_index,
    span_wf, unique_keys, Entry,
};
use crate::line::{copy_range, utf8_string, Span, CR, EQUALS, HASH, LF};

verus! {

/// ` `
pub const SPACE: u8 = 0x20;

/// Which way to toggle a key.
#[derive(Debug, Clone, Copy, PartialEq, Eq, Structural)]
pub enum KeyStatus {
    /// Remove the line's leading `#`.
    Enable,
    /// Put a `#` in front of the line.
    Disable,
}

/// Why an operation on the store failed.
#[derive(Debug, Clone, Copy, PartialEq, Eq, Structural)]
pub enum EnvError {
    /// The key is not indexed.
    NotFound,
    /// The value's bytes are not valid UTF-8.
    InvalidEncoding,
    /// Enabling a line that does not start with `#`.
    AlreadyEnabled,
}

/// The bytes of a key.
pub open spec fn key_bytes(key: Seq<char>) -> Seq<u8> {
    encode_utf8(key)
}

/// One `# <text>` line per description, in order.
pub open spec fn comment_lines(ds: Seq<String>) -> Seq<u8>
    decreases ds.len(),
{
    if ds.len() == 0 {
        Seq::empty()
    } else {
        comment_lines(ds.drop_last()) + seq![HASH, SPACE] + encode_utf8(ds.last()@) + seq![LF]
    }
}

/// The value bytes that a span brackets.
pub open spec fn value_of(b: Seq<u8>, sp: Span) -> Seq<u8> {
    b.subrange(sp.value_start as int, sp.value_end as int)
}

/// A span of offsets relative to `a`, made absolute.
pub open spec fn placed(rel: Span, a: int) -> Span {
    Span {
        line_start: (a + rel.line_start) as usize,
        value_start: (a + rel.value_start) as usize,
        value_end: (a + rel.value_end) as usize,
    }
}

/// A span moved by `d` bytes when its line starts after `p`.
pub open spec fn shift(sp: Span, p: int, d: int) -> Span {
    if sp.line_start > p {
        Span {
            line_start: (sp.line_start + d) as usize,
            value_start: (sp.value_start + d) as usize,
            value_end: (sp.value_end + d) as usize,
        }
    } else {
        sp
    }
}

/// Every span of `m` moved as `shift` says.
pub open spec fn shift_index(m: Map<Seq<u8>, Span>, p: int, d: int) -> Map<Seq<u8>, Span> {
    m.map_values(|sp: Span| shift(sp, p, d))
}

/// The buffer after appending a new declaration with its comment lines.
pub open spec fn created(b: Seq<u8>, k: Seq<u8>, v: Seq<u8>, c: Seq<u8>) -> Seq<u8> {
    b + seq![LF] + c + k + seq![EQUALS] + v
}

/// The buffer after the bytes from `rs` to the end of the value of `sp` are
/// replaced by the comment lines `c`, the line's own text up to its value,
/// and the value `v`.
pub open spec fn rewritten(b: Seq<u8>, sp: Span, rs: int, v: Seq<u8>, c: Seq<u8>) -> Seq<u8> {
    b.subrange(0, rs) + c + b.subrange(sp.line_start as int, sp.value_start as int) + v
        + b.subrange(sp.value_end as int, b.len() as int)
}

/// The span of a rewritten declaration.
pub open spec fn rewritten_span(sp: Span, rs: int, v: Seq<u8>, c: Seq<u8>) -> Span {
    let ls = rs + c.len();
    let vs = ls + (sp.value_start - sp.line_start);
    Span { line_start: ls as usize, value_start: vs as usize, value_end: (vs + v.len()) as usize }
}

/// Where the comment block above the line at `ls` starts: one byte past the
/// value end of the closest entry before it (the newline that ends that
/// entry's line), or 0 when none is before it.
pub open spec fn block_bound(sp: Span, ls: int) -> int {
    if sp.value_end < ls {
        sp.value_end + 1
    } else if sp.value_end == ls {
        ls
    } else {
        0
    }
}

/// The largest bound that any entry of `s` sets for the line at `ls`.
pub open spec fn block_start(s: Seq<Entry>, ls: int) -> int
    decreases s.len(),
{
    if s.len() == 0 {
        0
    } else {
        let a = block_start(s.drop_last(), ls);
        let c = block_bound(s.last().span, ls);
        if a >= c {
            a
        } else {
            c
        }
    }
}

/// The block starts within the buffer's prefix before `ls`, after every
/// entry that ends before `ls`.
pub proof fn lemma_block_start(s: Seq<Entry>, ls: int)
    requires
        ls >= 0,
    ensures
        0 <= block_start(s, ls) <= ls,
        forall|j: int|
            0 <= j < s.len() && (#[trigger] s[j]).span.value_end <= ls ==> s[j].span.value_end
                <= block_start(s, ls),
    decreases s.len(),
{
    if s.len() > 0 {
        lemma_block_start(s.drop_last(), ls);
        assert forall|j: int|
            0 <= j < s.len() && (#[trigger] s[j]).span.value_end <= ls implies s[j].span.value_end
                <= block_start(s, ls) by {
            if j < s.len() - 1 {
                assert(s.drop_last()[j] == s[j]);
            }
        }
    }
}

/// Comment blocks start at the same place when each entry bounds them alike.
pub proof fn lemma_block_start_same(s: Seq<Entry>, t: Seq<Entry>, l0: int, l1: int)
    requires
        s.len() == t.len(),
        forall|j: int|
            0 <= j < s.len() ==> block_bound((#[trigger] s[j]).span, l0) == block_bound(
                t[j].span,
                l1,
            ),
    ensures
        block_start(s, l0) == block_start(t, l1),
    decreases s.len(),
{
    if s.len() > 0 {
        let s1 = s.drop_last();
        let t1 = t.drop_last();
        assert forall|j: int| 0 <= j < s1.len() implies block_bound((#[trigger] s1[j]).span, l0)
            == block_bound(t1[j].span, l1) by {
            assert(s1[j] == s[j]);
            assert(t1[j] == t[j]);
        }
        lemma_block_start_same(s1, t1, l0, l1);
        assert(block_bound(s[s.len() - 1].span, l0) == block_bound(t[t.len() - 1].span, l1));
    }
}

/// Entries `t` hold the keys of `s`, in the same places.
pub proof fn lemma_index_respan(s: Seq<Entry>, t: Seq<Entry>)
    requires
        unique_keys(s),
        t.len() == s.len(),
        forall|j: int| 0 <= j < s.len() ==> (#[trigger] t[j]).key@ == s[j].key@,
    ensures
        unique_keys(t),
        forall|k: Seq<u8>| has_key(t, k) == has_key(s, k),
        forall|j: int|
            0 <= j < s.len() ==> #[trigger] index_of(t)[s[j].key@] == t[j].span
                && index_of(t).contains_key(s[j].key@),
{
    assert forall|a: int, c: int| 0 <= a < c < t.len() implies t[a].key@ != t[c].key@ by {
        assert(s[a].key@ != s[c].key@);
    }
    assert forall|k: Seq<u8>| has_key(t, k) == has_key(s, k) by {
        if has_key(t, k) {
            let j = choose|j: int| 0 <= j < t.len() && #[trigger] t[j].key@ == k;
            assert(s[j].key@ == k);
        }
        if has_key(s, k) {
            let j = choose|j: int| 0 <= j < s.len() && #[trigger] s[j].key@ == k;
            assert(t[j].key@ == k);
        }
    }
    assert forall|j: int| 0 <= j < s.len() implies #[trigger] index_of(t)[s[j].key@] == t[j].span
        && index_of(t).contains_key(s[j].key@) by {
        lemma_index_at(t, j);
    }
}

/// Appends `src` to `dst`.
fn append_bytes(dst: &mut Vec<u8>, src: &[u8])
    ensures
        final(dst)@ == old(dst)@ + src@,
{
    let mut i: usize = 0;
    let ghost start = dst@;
    while i < src.len()
        invariant
            i <= src.len(),
            dst@ == start + src@.subrange(0, i as int),
        decreases src.len() - i,
    {
        dst.push(src[i]);
        assert(src@.subrange(0, i + 1) =~= src@.subrange(0, i as int).push(src@[i as int]));
        i = i + 1;
    }
    assert(src@.subrange(0, i as int) =~= src@);
}

/// Appends `src[a..z]` to `dst`.
fn append_range(dst: &mut Vec<u8>, src: &Vec<u8>, a: usize, z: usize)
    requires
        a <= z <= src.len(),
    ensures
        final(dst)@ == old(dst)@ + src@.subrange(a as int, z as int),
{
    let mut i: usize = a;
    let ghost start = dst@;
    while i < z
        invariant
            a <= i <= z <= src.len(),
            dst@ == start + src@.subrange(a as int, i as int),
        decreases z - i,
    {
        dst.push(src[i]);
        assert(src@.subrange(a as int, i + 1) =~= src@.subrange(a as int, i as int).push(
            src@[i as int],
        ));
        i = i + 1;
    }
}

/// The comment lines for `descriptions`.
fn comment_block(descriptions: &Vec<String>) -> (r: Vec<u8>)
    ensures
        r@ == comment_lines(descriptions@),
{
    let mut r: Vec<u8> = Vec::new();
    let mut i: usize = 0;
    assert(descriptions@.subrange(0, 0) =~= Seq::<String>::empty());
    while i < descriptions.len()
        invariant
            i <= descriptions.len(),
            r@ == comment_lines(descriptions@.subrange(0, i as int)),
        decreases descriptions.len() - i,
    {
        let d = descriptions[i].as_str();
        r.push(HASH);
        r.push(SPACE);
        append_bytes(&mut r, d.as_bytes());
        r.push(LF);
        let ghost next = descriptions@.subrange(0, i + 1);
        assert(next.drop_last() =~= descriptions@.subrange(0, i as int));
        assert(r@ =~= comment_lines(next));
        i = i + 1;
    }
    assert(descriptions@.subrange(0, i as int) =~= descriptions@);
    r
}

/// What `set` leaves behind: `after` is `before` with `key` set to `v`
/// under the comment lines of `ds`.
pub open spec fn set_done(
    before: Environment,
    after: Environment,
    key: Seq<char>,
    v: Seq<u8>,
    ds: Seq<String>,
) -> bool {
    let k = key_bytes(key);
    let b = before.buffer();
    let c = comment_lines(ds);
    &&& after.wf()
    &&& after.path_view() == before.path_view()
    &&& if !before.index().contains_key(k) {
        let ls = b.len() + 1 + c.len();
        &&& after.buffer() == created(b, k, v, c)
        &&& after.index() == before.index().insert(
            k,
            Span {
                line_start: ls as usize,
                value_start: (ls + k.len() + 1) as usize,
                value_end: after.buffer().len() as usize,
            },
        )
        &&& after.comment_start(ls as int) == before.comment_start(b.len() + 1int)
    } else {
        let sp = before.index()[k];
        let rs = if ds.len() == 0 {
            sp.line_start as int
        } else {
            before.comment_start(sp.line_start as int)
        };
        let nsp = rewritten_span(sp, rs, v, c);
        &&& after.buffer() == rewritten(b, sp, rs, v, c)
        &&& after.index() == shift_index(
            before.index(),
            sp.value_end as int,
            after.buffer().len() - b.len(),
        ).insert(k, nsp)
        &&& ds.len() > 0 ==> after.comment_start(nsp.line_start as int) == rs
    }
}

/// What `toggle` leaves behind, with its result `r`.
pub open spec fn toggle_done(
    before: Environment,
    after: Environment,
    key: Seq<char>,
    status: KeyStatus,
    r: Result<(), EnvError>,
) -> bool {
    let k = key_bytes(key);
    let b = before.buffer();
    let m = before.index();
    &&& after.wf()
    &&& after.path_view() == before.path_view()
    &&& if !m.contains_key(k) {
        &&& r == Err::<(), EnvError>(EnvError::NotFound)
        &&& after.buffer() == b
        &&& after.index() == m
    } else {
        let sp = m[k];
        if status == KeyStatus::Disable {
            &&& r == Ok::<(), EnvError>(())
            &&& after.buffer() == b.insert(sp.line_start as int, HASH)
            &&& after.index() == shift_index(m, sp.value_end as int, 1).insert(
                k,
                Span {
                    line_start: sp.line_start,
                    value_start: (sp.value_start + 1) as usize,
                    value_end: (sp.value_end + 1) as usize,
                },
            )
        } else if b[sp.line_start as int] == HASH {
            &&& r == Ok::<(), EnvError>(())
            &&& after.buffer() == b.remove(sp.line_start as int)
            &&& after.index() == shift_index(m, sp.value_end as int, -1).insert(
                k,
                Span {
                    line_start: sp.line_start,
                    value_start: (sp.value_start - 1) as usize,
                    value_end: (sp.value_end - 1) as usize,
                },
            )
        } else {
            &&& r == Err::<(), EnvError>(EnvError::AlreadyEnabled)
            &&& after.buffer() == b
            &&& after.index() == m
        }
    }
}

/// The verbatim contents of a configuration file with the index over them.
///
/// Its fields are private: `new` and `read_buf` make a well-formed store and
/// every method keeps it so, which is what their `wf` preconditions ask.
pub struct Environment {
    entries: Vec<Entry>,
    buf: Vec<u8>,
    path: String,
}

impl Environment {
    /// The buffer's bytes.
    pub closed spec fn buffer(&self) -> Seq<u8> {
        self.buf@
    }

    /// Each indexed key with its span.
    pub closed spec fn index(&self) -> Map<Seq<u8>, Span> {
        index_of(self.entries@)
    }

    /// The path of the backing file.
    pub closed spec fn path_view(&self) -> Seq<char> {
        self.path@
    }

    /// Where the comment block above the line at `ls` starts.
    pub closed spec fn comment_start(&self, ls: int) -> int {
        block_start(self.entries@, ls)
    }

    /// Every span lies inside the buffer, follows an `=`, and overlaps no other.
    pub closed spec fn wf(&self) -> bool {
        &&& entries_wf(self.entries@, self.buf@)
        &&& self.buf@.len() <= usize::MAX
    }

    /// An empty store for the file at `path`.
    pub fn new(path: &String) -> (r: Self)
        ensures
            r.wf(),
            r.buffer() == Seq::<u8>::empty(),
            r.index() == Map::<Seq<u8>, Span>::empty(),
            r.path_view() == path@,
    {
        let r = Environment { entries: Vec::new(), buf: Vec::new(), path: path.clone() };
        assert(r.index() =~= Map::<Seq<u8>, Span>::empty());
        r
    }

    /// The path of the backing file.
    pub fn path(&self) -> (r: &String)
        ensures
            r@ == self.path_view(),
    {
        &self.path
    }

    /// The index's entries, in no particular order.
    pub fn entries(&self) -> (r: &Vec<Entry>)
        ensures
            index_of(r@) == self.index(),
    {
        &self.entries
    }

    /// The buffer, as it is to be written back.
    pub fn buf(&self) -> (r: &Vec<u8>)
        ensures
            r@ == self.buffer(),
    {
        &self.buf
    }

    /// Takes `contents` as the whole buffer, replacing what was there, and
    /// indexes it line by line.
    pub fn read_buf(&mut self, contents: Vec<u8>)
        ensures
            final(self).wf(),
            final(self).buffer() == contents@,
            final(self).index() == parse(contents@),
            final(self).path_view() == old(self).path_view(),
    {
        self.entries = parse_index(&contents);
        assert(contents@.len() == contents.len());
        self.buf = contents;
    }
}

impl Environment {
    /// Replaces `buf[a..z]` by `ins`, gives entry `i` the span `new_span`, and
    /// moves every entry after the edited bytes by the change in length.
    fn apply_edit(&mut self, i: usize, a: usize, z: usize, ins: &Vec<u8>, rel: Span)
        requires
            old(self).wf(),
            i < old(self).entries.len(),
            a <= z <= old(self).buf.len(),
            rel.line_start < rel.value_start <= rel.value_end <= ins.len(),
            ins@[rel.value_start - 1] == EQUALS,
            forall|j: int|
                0 <= j < old(self).entries.len() && j != i ==> ((#[trigger] old(
                    self,
                ).entries@[j]).span.value_end <= a && old(self).entries@[j].span.value_end
                    < a + rel.line_start) || old(self).entries@[j].span.line_start > z,
        ensures
            final(self).wf(),
            final(self).buf@ == old(self).buf@.subrange(0, a as int) + ins@ + old(
                self,
            ).buf@.subrange(z as int, old(self).buf.len() as int),
            final(self).index() == shift_index(
                old(self).index(),
                z as int,
                final(self).buf.len() - old(self).buf.len(),
            ).insert(old(self).entries@[i as int].key@, placed(rel, a as int)),
            final(self).path == old(self).path,
            final(self).entries.len() == old(self).entries.len(),
            final(self).entries@[i as int].span == placed(rel, a as int),
            forall|j: int|
                0 <= j < old(self).entries.len() && j != i
                    ==> (#[trigger] final(self).entries@[j]).span == shift(
                    old(self).entries@[j].span,
                    z as int,
                    final(self).buf.len() - old(self).buf.len(),
                ),
    {
        let ghost b0 = self.buf@;
        let ghost e0 = self.entries@;
        let old_len = self.buf.len();
        let mut nb: Vec<u8> = Vec::new();
        append_range(&mut nb, &self.buf, 0, a);
        append_bytes(&mut nb, ins.as_slice());
        append_range(&mut nb, &self.buf, z, old_len);
        let new_len = nb.len();
        self.buf = nb;
        let ghost d: int = new_len - old_len;
        let n = self.entries.len();
        let mut j: usize = 0;
        while j < n
            invariant
                n == self.entries.len() == e0.len(),
                i < n,
                j <= n,
                d == new_len - old_len,
                self.buf.len() == new_len,
                self.buf@ == b0.subrange(0, a as int) + ins@ + b0.subrange(z as int, old_len as int),
                self.path == old(self).path,
                old_len == b0.len(),
                new_len == old_len - (z - a) + ins.len(),
                a <= z <= old_len,
                entries_wf(e0, b0),
                forall|k: int| 0 <= k < n ==> (#[trigger] self.entries@[k]).key@ == e0[k].key@,
                forall|k: int|
                    0 <= k < j && k != i ==> (#[trigger] self.entries@[k]).span == shift(
                        e0[k].span,
                        z as int,
                        d,
                    ),
                forall|k: int| j <= k < n || k == i ==> (#[trigger] self.entries@[k]) == e0[k],
            decreases n - j,
        {
            if j != i && self.entries[j].span.line_start > z {
                let sp = self.entries[j].span;
                assert(span_wf(e0[j as int].span, b0));
                let moved = if new_len >= old_len {
                    let g = new_len - old_len;
                    Span {
                        line_start: sp.line_start + g,
                        value_start: sp.value_start + g,
                        value_end: sp.value_end + g,
                    }
                } else {
                    let g = old_len - new_len;
                    Span {
                        line_start: sp.line_start - g,
                        value_start: sp.value_start - g,
                        value_end: sp.value_end - g,
                    }
                };
                self.entries[j].span = moved;
            }
            j = j + 1;
        }
        let new_span = Span {
            line_start: a + rel.line_start,
            value_start: a + rel.value_start,
            value_end: a + rel.value_end,
        };
        self.entries[i].span = new_span;
        proof {
            let e1 = self.entries@;
            let b1 = self.buf@;
            lemma_index_respan(e0, e1);
            assert forall|k: int| 0 <= k < n implies span_wf(#[trigger] e1[k].span, b1) by {
                assert(span_wf(e0[k].span, b0));
                if k != i {
                    if e0[k].span.line_start > z {
                        let p = e0[k].span.value_start - 1;
                        assert(b1[p + d] == b0.subrange(z as int, old_len as int)[p - z]);
                    } else {
                        assert(disjoint(e0[k].span, e0[i as int].span));
                        assert(b1[e0[k].span.value_start - 1] == b0[e0[k].span.value_start - 1]);
                    }
                }
            }
            assert forall|k: int, m: int|
                0 <= k < n && 0 <= m < n && k != m implies disjoint(
                #[trigger] e1[k].span,
                #[trigger] e1[m].span,
            ) by {
                assert(disjoint(e0[k].span, e0[m].span));
                assert(span_wf(e0[k].span, b0));
                assert(span_wf(e0[m].span, b0));
            }
            let m1 = shift_index(index_of(e0), z as int, d).insert(e0[i as int].key@, new_span);
            assert forall|key: Seq<u8>| #[trigger] index_of(e1).contains_key(key) implies index_of(
                e1,
            )[key] == m1[key] by {
                let k = choose|k: int| 0 <= k < e1.len() && #[trigger] e1[k].key@ == key;
                lemma_index_at(e0, k);
            }
            assert forall|key: Seq<u8>| #[trigger] m1.contains_key(key) implies index_of(
                e1,
            ).contains_key(key) by {
                if key != e0[i as int].key@ {
                    let k = choose|k: int| 0 <= k < e0.len() && #[trigger] e0[k].key@ == key;
                }
            }
            assert(index_of(e1) =~= m1);
        }
    }
}

impl Environment {
    /// What well-formedness gives of an indexed key.
    pub proof fn lemma_indexed(&self, k: Seq<u8>)
        requires
            self.wf(),
            self.index().contains_key(k),
        ensures
            span_wf(self.index()[k], self.buffer()),
            self.buffer().len() <= usize::MAX,
            0 <= self.comment_start(self.index()[k].line_start as int)
                <= self.index()[k].line_start,
    {
        let i = choose|i: int| 0 <= i < self.entries.len() && #[trigger] self.entries@[i].key@ == k;
        lemma_index_at(self.entries@, i);
        lemma_block_start(self.entries@, self.index()[k].line_start as int);
    }

    /// The comment block above a line starts at or before that line.
    pub proof fn lemma_comment_start_bound(&self, ls: int)
        requires
            ls >= 0,
        ensures
            0 <= self.comment_start(ls) <= ls,
    {
        lemma_block_start(self.entries@, ls);
    }

    /// Where the comment block above the line at `ls` starts.
    fn comment_start_at(&self, ls: usize) -> (r: usize)
        ensures
            r == self.comment_start(ls as int),
    {
        let mut r: usize = 0;
        let mut j: usize = 0;
        assert(self.entries@.subrange(0, 0) =~= Seq::<Entry>::empty());
        while j < self.entries.len()
            invariant
                j <= self.entries.len(),
                r == block_start(self.entries@.subrange(0, j as int), ls as int),
                r <= ls,
            decreases self.entries.len() - j,
        {
            let sp = self.entries[j].span;
            let c: usize = if sp.value_end < ls {
                sp.value_end + 1
            } else if sp.value_end == ls {
                ls
            } else {
                0
            };
            let ghost next = self.entries@.subrange(0, j + 1);
            assert(next.drop_last() =~= self.entries@.subrange(0, j as int));
            if c > r {
                r = c;
            }
            j = j + 1;
        }
        assert(self.entries@.subrange(0, j as int) =~= self.entries@);
        r
    }

    /// The value of `key`, decoded as UTF-8.
    pub fn get_with_key(&self, key: &String) -> (r: Result<String, EnvError>)
        requires
            self.wf(),
        ensures
            !self.index().contains_key(key_bytes(key@)) ==> r == Err::<String, EnvError>(
                EnvError::NotFound,
            ),
            self.index().contains_key(key_bytes(key@)) ==> {
                let v = value_of(self.buffer(), self.index()[key_bytes(key@)]);
                &&& valid_utf8(v) ==> r is Ok && r->Ok_0@ == decode_utf8(v)
                &&& !valid_utf8(v) ==> r == Err::<String, EnvError>(EnvError::InvalidEncoding)
            },
    {
        let kb = key.as_str().as_bytes();
        match find(&self.entries, kb) {
            None => Err(EnvError::NotFound),
            Some(i) => {
                proof {
                    lemma_index_at(self.entries@, i as int);
                }
                let sp = self.entries[i].span;
                assert(span_wf(self.entries@[i as int].span, self.buf@));
                let v = copy_range(&self.buf, sp.value_start, sp.value_end);
                match utf8_string(v) {
                    Some(s) => Ok(s),
                    None => Err(EnvError::InvalidEncoding),
                }
            },
        }
    }

    /// Appends `key=value` under the given comment lines, after a newline.
    fn create_entry(&mut self, kb: &[u8], new_value: &Vec<u8>, comments: &Vec<u8>)
        requires
            old(self).wf(),
            !has_key(old(self).entries@, kb@),
        ensures
            final(self).wf(),
            final(self).path == old(self).path,
            ({
                let b = old(self).buf@;
                let ls = b.len() + 1 + comments@.len();
                &&& final(self).buffer() == created(b, kb@, new_value@, comments@)
                &&& final(self).index() == old(self).index().insert(
                    kb@,
                    Span {
                        line_start: ls as usize,
                        value_start: (ls + kb@.len() + 1) as usize,
                        value_end: final(self).buffer().len() as usize,
                    },
                )
                &&& final(self).comment_start(ls as int) == old(self).comment_start(b.len() + 1int)
            }),
    {
        let ghost b = self.buf@;
        self.buf.push(LF);
        append_bytes(&mut self.buf, comments.as_slice());
        let ls = self.buf.len();
        append_bytes(&mut self.buf, kb);
        self.buf.push(EQUALS);
        let vs = self.buf.len();
        append_bytes(&mut self.buf, new_value.as_slice());
        let ve = self.buf.len();
        let mut kv: Vec<u8> = Vec::new();
        append_bytes(&mut kv, kb);
        let e = Entry { key: kv, span: Span { line_start: ls, value_start: vs, value_end: ve } };
        proof {
            crate::index::lemma_index_push(self.entries@, e);
        }
        let ghost e0 = self.entries@;
        self.entries.push(e);
        proof {
            let e1 = self.entries@;
            assert(self.buf@ =~= created(b, kb@, new_value@, comments@));
            lemma_block_start(e0, ls as int);
            assert(e1.drop_last() =~= e0);
            assert forall|j: int| 0 <= j < e0.len() implies block_bound(
                (#[trigger] e0[j]).span,
                ls as int,
            ) == block_bound(e0[j].span, b.len() + 1int) by {
                assert(span_wf(e0[j].span, b));
            }
            lemma_block_start_same(e0, e0, ls as int, b.len() + 1int);
            assert forall|j: int| 0 <= j < e1.len() implies span_wf(#[trigger] e1[j].span, self.buf@) by {
                if j < e0.len() {
                    assert(span_wf(e0[j].span, b));
                    assert(self.buf@[e0[j].span.value_start - 1] == b[e0[j].span.value_start - 1]);
                }
            }
            assert forall|a: int, c: int|
                0 <= a < e1.len() && 0 <= c < e1.len() && a != c implies disjoint(
                #[trigger] e1[a].span,
                #[trigger] e1[c].span,
            ) by {
                if a < e0.len() && c < e0.len() {
                    assert(disjoint(e0[a].span, e0[c].span));
                }
                if a < e0.len() {
                    assert(span_wf(e0[a].span, b));
                }
                if c < e0.len() {
                    assert(span_wf(e0[c].span, b));
                }
            }
        }
    }

    /// Replaces the comment block above entry `i` (when `block`) by
    /// `comments`, and its value by `new_value`.
    fn rewrite_entry(&mut self, i: usize, new_value: &Vec<u8>, comments: &Vec<u8>, block: bool)
        requires
            old(self).wf(),
            i < old(self).entries.len(),
            !block ==> comments@.len() == 0,
            block ==> comments@.len() > 0,
        ensures
            final(self).wf(),
            final(self).path == old(self).path,
            ({
                let b = old(self).buf@;
                let sp = old(self).entries@[i as int].span;
                let rs = if !block {
                    sp.line_start as int
                } else {
                    old(self).comment_start(sp.line_start as int)
                };
                let nsp = rewritten_span(sp, rs, new_value@, comments@);
                &&& final(self).buffer() == rewritten(b, sp, rs, new_value@, comments@)
                &&& final(self).index() == shift_index(
                    old(self).index(),
                    sp.value_end as int,
                    final(self).buffer().len() - b.len(),
                ).insert(old(self).entries@[i as int].key@, nsp)
                &&& block ==> final(self).comment_start(nsp.line_start as int) == rs
            }),
    {
        let ghost b = self.buf@;
        let ghost e0 = self.entries@;
        proof {
            lemma_index_at(self.entries@, i as int);
        }
        let sp = self.entries[i].span;
        assert(span_wf(e0[i as int].span, b));
        let rs = if !block {
            sp.line_start
        } else {
            self.comment_start_at(sp.line_start)
        };
        proof {
            lemma_block_start(e0, sp.line_start as int);
        }
        let mut ins: Vec<u8> = Vec::new();
        append_bytes(&mut ins, comments.as_slice());
        append_range(&mut ins, &self.buf, sp.line_start, sp.value_start);
        append_bytes(&mut ins, new_value.as_slice());
        assert(ins@.len() == ins.len());
        let rvs = comments.len() + (sp.value_start - sp.line_start);
        let rel = Span {
            line_start: comments.len(),
            value_start: rvs,
            value_end: rvs + new_value.len(),
        };
        let ghost nls: int = rs + comments.len();
        proof {
            assert forall|j: int|
                0 <= j < e0.len() && j != i implies ((#[trigger] e0[j]).span.value_end
                    <= rs && e0[j].span.value_end < nls) || e0[j].span.line_start
                    > sp.value_end by {
                assert(disjoint(e0[j].span, e0[i as int].span));
            }
        }
        self.apply_edit(i, rs, sp.value_end, &ins, rel);
        proof {
            assert(self.buf@ =~= rewritten(b, sp, rs as int, new_value@, comments@));
            if block {
                let e1 = self.entries@;
                assert forall|j: int| 0 <= j < e0.len() implies block_bound(
                    (#[trigger] e0[j]).span,
                    sp.line_start as int,
                ) == block_bound(e1[j].span, nls) by {
                    assert(span_wf(e0[j].span, b));
                    if j != i {
                        assert(disjoint(e0[j].span, e0[i as int].span));
                    }
                }
                lemma_block_start_same(e0, e1, sp.line_start as int, nls);
            }
        }
    }

    /// Sets `key` to `new_value`, with one `# <text>` comment line per
    /// description right above it.
    ///
    /// A key not yet indexed is appended: a newline, the comment lines, then
    /// `key=value` with no newline after it. For an indexed key without
    /// descriptions only the value's bytes are replaced. With descriptions,
    /// the comment block above the key's line (from the byte after the
    /// previous entry's line, or from the start of the buffer) is replaced by
    /// the new comment lines, and the value too.
    pub fn set(&mut self, key: &String, new_value: Vec<u8>, descriptions: &Vec<String>)
        requires
            old(self).wf(),
        ensures
            set_done(*old(self), *final(self), key@, new_value@, descriptions@),
    {
        let kb = key.as_str().as_bytes();
        let comments = comment_block(descriptions);
        match find(&self.entries, kb) {
            None => self.create_entry(kb, &new_value, &comments),
            Some(i) => {
                proof {
                    lemma_index_at(self.entries@, i as int);
                    if descriptions@.len() > 0 {
                        assert(comment_lines(descriptions@).len() >= 2);
                    } else {
                        assert(comment_lines(descriptions@).len() == 0);
                    }
                }
                self.rewrite_entry(i, &new_value, &comments, descriptions.len() > 0);
            },
        }
    }
}

impl Environment {
    /// Disables a key by putting a `#` in front of its line (also when the
    /// line already starts with one), or enables it by removing the `#` its
    /// line starts with.
    pub fn toggle(&mut self, key: &String, status: KeyStatus) -> (r: Result<(), EnvError>)
        requires
            old(self).wf(),
        ensures
            toggle_done(*old(self), *final(self), key@, status, r),
    {
        let kb = key.as_str().as_bytes();
        let i = match find(&self.entries, kb) {
            None => {
                return Err(EnvError::NotFound);
            },
            Some(i) => i,
        };
        let ghost b = self.buf@;
        let ghost e0 = self.entries@;
        proof {
            lemma_index_at(self.entries@, i as int);
            assert forall|j: int|
                0 <= j < e0.len() && j != i implies ((#[trigger] e0[j]).span.value_end
                    <= e0[i as int].span.line_start && e0[j].span.value_end
                    < e0[i as int].span.line_start) || e0[j].span.line_start
                    > e0[i as int].span.value_end by {
                assert(disjoint(e0[j].span, e0[i as int].span));
            }
        }
        let sp = self.entries[i].span;
        assert(span_wf(e0[i as int].span, b));
        match status {
            KeyStatus::Disable => {
                let mut ins: Vec<u8> = Vec::new();
                ins.push(HASH);
                append_range(&mut ins, &self.buf, sp.line_start, sp.value_end);
                assert(ins@.len() == ins.len());
                let rel = Span {
                    line_start: 0,
                    value_start: sp.value_start - sp.line_start + 1,
                    value_end: sp.value_end - sp.line_start + 1,
                };
                self.apply_edit(i, sp.line_start, sp.value_end, &ins, rel);
                assert(self.buf@ =~= b.insert(sp.line_start as int, HASH));
                Ok(())
            },
            KeyStatus::Enable => {
                if self.buf[sp.line_start] == HASH {
                    let mut ins: Vec<u8> = Vec::new();
                    append_range(&mut ins, &self.buf, sp.line_start + 1, sp.value_end);
                    let rel = Span {
                        line_start: 0,
                        value_start: sp.value_start - sp.line_start - 1,
                        value_end: sp.value_end - sp.line_start - 1,
                    };
                    self.apply_edit(i, sp.line_start, sp.value_end, &ins, rel);
                    assert(self.buf@ =~= b.remove(sp.line_start as int));
                    Ok(())
                } else {
                    Err(EnvError::AlreadyEnabled)
                }
            },
        }
    }
}

/// Some key's value ends at `v`.
pub open spec fn is_value_end(m: Map<Seq<u8>, Span>, v: usize) -> bool {
    exists|k: Seq<u8>| #[trigger] m.contains_key(k) && m[k].value_end == v
}

/// Some entry among the first `j` has its value end at `v`.
pub open spec fn ends_before(s: Seq<Entry>, j: int, v: usize) -> bool {
    exists|m: int| 0 <= m < j && #[trigger] s[m].span.value_end == v
}

impl Environment {
    /// The value end offsets of all entries, in increasing order.
    pub fn sorted_end_value_offsets(&self) -> (r: Vec<usize>)
        requires
            self.wf(),
        ensures
            forall|a: int, c: int| 0 <= a < c < r.len() ==> r@[a] < r@[c],
            forall|k: Seq<u8>| #[trigger] self.index().contains_key(k) ==> r@.contains(
                self.index()[k].value_end,
            ),
            forall|a: int| 0 <= a < r.len() ==> is_value_end(self.index(), #[trigger] r@[a]),
    {
        let mut r: Vec<usize> = Vec::new();
        let n = self.entries.len();
        let mut j: usize = 0;
        while j < n
            invariant
                n == self.entries.len(),
                j <= n,
                entries_wf(self.entries@, self.buf@),
                forall|a: int, c: int| 0 <= a < c < r.len() ==> r@[a] < r@[c],
                forall|m: int| 0 <= m < j ==> r@.contains(#[trigger] self.entries@[m].span.value_end),
                forall|a: int| 0 <= a < r.len() ==> ends_before(self.entries@, j as int, #[trigger] r@[a]),
            decreases n - j,
        {
            let v = self.entries[j].span.value_end;
            let mut p: usize = 0;
            while p < r.len() && r[p] < v
                invariant
                    p <= r.len(),
                    forall|a: int| 0 <= a < p ==> r@[a] < v,
                decreases r.len() - p,
            {
                p = p + 1;
            }
            proof {
                assert forall|a: int| 0 <= a < r.len() implies r@[a] != v by {
                    assert(ends_before(self.entries@, j as int, r@[a]));
                    let m = choose|m: int|
                        0 <= m < j && #[trigger] self.entries@[m].span.value_end == r@[a];
                    assert(disjoint(self.entries@[m].span, self.entries@[j as int].span));
                    assert(span_wf(self.entries@[m].span, self.buf@));
                    assert(span_wf(self.entries@[j as int].span, self.buf@));
                }
                if p < r.len() {
                    assert(r@[p as int] > v);
                }
            }
            let ghost r0 = r@;
            r.insert(p, v);
            proof {
                assert forall|m: int| 0 <= m < j + 1 implies r@.contains(
                    #[trigger] self.entries@[m].span.value_end,
                ) by {
                    if m < j {
                        let a = choose|a: int|
                            0 <= a < r0.len() && r0[a] == self.entries@[m].span.value_end;
                        if a < p {
                            assert(r@[a] == r0[a]);
                        } else {
                            assert(r@[a + 1] == r0[a]);
                        }
                    } else {
                        assert(r@[p as int] == v);
                    }
                }
                assert forall|a: int| 0 <= a < r.len() implies ends_before(
                    self.entries@,
                    j + 1,
                    #[trigger] r@[a],
                ) by {
                    if a < p {
                        assert(r@[a] == r0[a]);
                        assert(ends_before(self.entries@, j as int, r0[a]));
                    } else if a == p {
                        assert(self.entries@[j as int].span.value_end == r@[a]);
                    } else {
                        assert(r@[a] == r0[a - 1]);
                        assert(ends_before(self.entries@, j as int, r0[a - 1]));
                    }
                }
            }
            j = j + 1;
        }
        proof {
            assert forall|k: Seq<u8>| #[trigger] self.index().contains_key(k) implies r@.contains(
                self.index()[k].value_end,
            ) by {
                let m = choose|m: int| 0 <= m < n && #[trigger] self.entries@[m].key@ == k;
                lemma_index_at(self.entries@, m);
            }
            assert forall|a: int| 0 <= a < r.len() implies is_value_end(
                self.index(),
                #[trigger] r@[a],
            ) by {
                assert(ends_before(self.entries@, j as int, r@[a]));
                let m = choose|m: int| 0 <= m < j && #[trigger] self.entries@[m].span.value_end == r@[a];
                lemma_index_at(self.entries@, m);
                let k = self.entries@[m].key@;
                assert(self.index().contains_key(k) && self.index()[k].value_end == r@[a]);
            }
        }
        r
    }
}

/// End of the line terminator (`\n` or `\r\n`) right at `ve`, or `ve`
/// itself when none is there.
pub open spec fn terminator_end(b: Seq<u8>, ve: int) -> int {
    if ve < b.len() && b[ve] == LF {
        ve + 1
    } else if ve + 1 < b.len() && b[ve] == CR && b[ve + 1] == LF {
        ve + 2
    } else {
        ve
    }
}

/// No line of `m` starts strictly between `lo` and `hi`.
pub open spec fn no_start_between(m: Map<Seq<u8>, Span>, lo: int, hi: int) -> bool {
    forall|k: Seq<u8>| #[trigger] m.contains_key(k) ==> !(lo < m[k].line_start < hi)
}

/// What `delete` leaves behind, with its result `r`: the key's line and its
/// terminator are gone, the terminator kept only when another line would
/// start inside it.
pub open spec fn delete_done(
    before: Environment,
    after: Environment,
    key: Seq<char>,
    r: Result<(), EnvError>,
) -> bool {
    let k = key_bytes(key);
    let b = before.buffer();
    let m = before.index();
    &&& after.wf()
    &&& after.path_view() == before.path_view()
    &&& if !m.contains_key(k) {
        &&& r == Err::<(), EnvError>(EnvError::NotFound)
        &&& after.buffer() == b
        &&& after.index() == m
    } else {
        let sp = m[k];
        let t = terminator_end(b, sp.value_end as int);
        let z = if no_start_between(m, sp.value_end as int, t) {
            t
        } else {
            sp.value_end as int
        };
        &&& r == Ok::<(), EnvError>(())
        &&& after.buffer() == b.subrange(0, sp.line_start as int) + b.subrange(z, b.len() as int)
        &&& after.index() == shift_index(m, sp.value_end as int, sp.line_start - z).remove(k)
    }
}

/// With unique keys, dropping an entry drops its key from the map.
pub proof fn lemma_index_remove(s: Seq<Entry>, i: int)
    requires
        unique_keys(s),
        0 <= i < s.len(),
    ensures
        unique_keys(s.remove(i)),
        index_of(s.remove(i)) == index_of(s).remove(s[i].key@),
{
    let t = s.remove(i);
    assert forall|a: int, c: int| 0 <= a < c < t.len() implies t[a].key@ != t[c].key@ by {
        let a0 = if a < i { a } else { a + 1 };
        let c0 = if c < i { c } else { c + 1 };
        assert(s[a0].key@ != s[c0].key@);
    }
    let m = index_of(s).remove(s[i].key@);
    assert forall|q: Seq<u8>| #[trigger] index_of(t).contains_key(q) implies m.contains_key(q)
        && index_of(t)[q] == m[q] by {
        let j = choose|j: int| 0 <= j < t.len() && #[trigger] t[j].key@ == q;
        let j0 = if j < i { j } else { j + 1 };
        assert(s[j0] == t[j]);
        lemma_index_at(s, j0);
        lemma_index_at(t, j);
        assert(s[j0].key@ != s[i].key@);
    }
    assert forall|q: Seq<u8>| #[trigger] m.contains_key(q) implies index_of(t).contains_key(q) by {
        let j0 = choose|j: int| 0 <= j < s.len() && #[trigger] s[j].key@ == q;
        let j = if j0 < i { j0 } else { j0 - 1 };
        assert(t[j] == s[j0]);
    }
    assert(index_of(t) =~= m);
}

impl Environment {
    /// Removes entry `i` with the bytes from its line start to `z`, and moves
    /// every entry after them back by their length.
    fn remove_edit(&mut self, i: usize, z: usize)
        requires
            old(self).wf(),
            i < old(self).entries.len(),
            old(self).entries@[i as int].span.value_end <= z <= old(self).buf.len(),
            forall|j: int|
                0 <= j < old(self).entries.len() && j != i ==> (#[trigger] old(
                    self,
                ).entries@[j]).span.value_end < old(self).entries@[i as int].span.line_start
                    || old(self).entries@[j].span.line_start >= z,
        ensures
            final(self).wf(),
            final(self).path == old(self).path,
            final(self).buf@ == old(self).buf@.subrange(
                0,
                old(self).entries@[i as int].span.line_start as int,
            ) + old(self).buf@.subrange(z as int, old(self).buf.len() as int),
            final(self).index() == shift_index(
                old(self).index(),
                old(self).entries@[i as int].span.value_end as int,
                old(self).entries@[i as int].span.line_start - z,
            ).remove(old(self).entries@[i as int].key@),
    {
        let ghost b0 = self.buf@;
        let ghost e0 = self.entries@;
        let sp = self.entries[i].span;
        let a = sp.line_start;
        let old_len = self.buf.len();
        let mut nb: Vec<u8> = Vec::new();
        append_range(&mut nb, &self.buf, 0, a);
        append_range(&mut nb, &self.buf, z, old_len);
        self.buf = nb;
        let g = z - a;
        let ghost d: int = a - z;
        let n = self.entries.len();
        let mut j: usize = 0;
        while j < n
            invariant
                n == self.entries.len() == e0.len(),
                i < n,
                j <= n,
                sp == e0[i as int].span,
                a == sp.line_start,
                g == z - a,
                d == a - z,
                self.buf@ == b0.subrange(0, a as int) + b0.subrange(z as int, old_len as int),
                old_len == b0.len(),
                sp.value_end <= z <= old_len,
                entries_wf(e0, b0),
                self.path == old(self).path,
                forall|k: int|
                    0 <= k < n && k != i ==> (#[trigger] e0[k]).span.value_end < a
                        || e0[k].span.line_start >= z,
                forall|k: int| 0 <= k < n ==> (#[trigger] self.entries@[k]).key@ == e0[k].key@,
                forall|k: int|
                    0 <= k < j && k != i ==> (#[trigger] self.entries@[k]).span == shift(
                        e0[k].span,
                        sp.value_end as int,
                        d,
                    ),
                forall|k: int| j <= k < n || k == i ==> (#[trigger] self.entries@[k]) == e0[k],
            decreases n - j,
        {
            if j != i && self.entries[j].span.line_start > sp.value_end {
                let s = self.entries[j].span;
                assert(span_wf(e0[j as int].span, b0));
                assert(disjoint(e0[j as int].span, e0[i as int].span));
                self.entries[j].span = Span {
                    line_start: s.line_start - g,
                    value_start: s.value_start - g,
                    value_end: s.value_end - g,
                };
            }
            j = j + 1;
        }
        let ghost em = self.entries@;
        self.entries.remove(i);
        proof {
            let e1 = self.entries@;
            let b1 = self.buf@;
            assert(span_wf(e0[i as int].span, b0));
            lemma_index_respan(e0, em);
            lemma_index_remove(em, i as int);
            assert forall|k: int| 0 <= k < e1.len() implies span_wf(#[trigger] e1[k].span, b1) by {
                let k0 = if k < i { k } else { k + 1 };
                assert(e1[k] == em[k0]);
                assert(span_wf(e0[k0].span, b0));
                assert(disjoint(e0[k0].span, e0[i as int].span));
                if e0[k0].span.line_start > sp.value_end {
                    let p = e0[k0].span.value_start - 1;
                    assert(b1[p + d] == b0.subrange(z as int, old_len as int)[p - z]);
                } else {
                    assert(b1[e0[k0].span.value_start - 1] == b0[e0[k0].span.value_start - 1]);
                }
            }
            assert forall|k: int, m: int|
                0 <= k < e1.len() && 0 <= m < e1.len() && k != m implies disjoint(
                #[trigger] e1[k].span,
                #[trigger] e1[m].span,
            ) by {
                let k0 = if k < i { k } else { k + 1 };
                let m0 = if m < i { m } else { m + 1 };
                assert(e1[k] == em[k0]);
                assert(e1[m] == em[m0]);
                assert(disjoint(e0[k0].span, e0[m0].span));
                assert(disjoint(e0[k0].span, e0[i as int].span));
                assert(disjoint(e0[m0].span, e0[i as int].span));
                assert(span_wf(e0[k0].span, b0));
                assert(span_wf(e0[m0].span, b0));
            }
            let target = shift_index(index_of(e0), sp.value_end as int, d).remove(
                e0[i as int].key@,
            );
            assert forall|q: Seq<u8>| #[trigger] index_of(e1).contains_key(q) implies target.contains_key(q)
                && index_of(e1)[q] == target[q] by {
                let k = choose|k: int| 0 <= k < em.len() && #[trigger] em[k].key@ == q;
                lemma_index_at(e0, k);
            }
            assert forall|q: Seq<u8>| #[trigger] target.contains_key(q) implies index_of(
                e1,
            ).contains_key(q) by {
                let k = choose|k: int| 0 <= k < e0.len() && #[trigger] e0[k].key@ == q;
                assert(em[k].key@ == q);
            }
            assert(index_of(e1) =~= target);
        }
    }

    /// Removes `key`'s line, with the newline (or `\r\n`) that ends it, from
    /// the buffer and the key from the index.
    pub fn delete(&mut self, key: &String) -> (r: Result<(), EnvError>)
        requires
            old(self).wf(),
        ensures
            delete_done(*old(self), *final(self), key@, r),
    {
        let kb = key.as_str().as_bytes();
        let i = match find(&self.entries, kb) {
            None => {
                return Err(EnvError::NotFound);
            },
            Some(i) => i,
        };
        proof {
            lemma_index_at(self.entries@, i as int);
        }
        let sp = self.entries[i].span;
        assert(span_wf(self.entries@[i as int].span, self.buf@));
        let ve = sp.value_end;
        let len = self.buf.len();
        let t = if ve < len && self.buf[ve] == LF {
            ve + 1
        } else if ve < len && len - ve > 1 && self.buf[ve] == CR && self.buf[ve + 1] == LF {
            ve + 2
        } else {
            ve
        };
        let mut clear = true;
        let mut j: usize = 0;
        while j < self.entries.len()
            invariant
                j <= self.entries.len(),
                clear == forall|m: int|
                    0 <= m < j ==> !(ve < (#[trigger] self.entries@[m]).span.line_start < t),
            decreases self.entries.len() - j,
        {
            let ls = self.entries[j].span.line_start;
            if ve < ls && ls < t {
                clear = false;
            }
            j = j + 1;
        }
        proof {
            let m = self.index();
            assert(clear == no_start_between(m, ve as int, t as int)) by {
                if clear {
                    assert forall|q: Seq<u8>| #[trigger] m.contains_key(q) implies !(ve
                        < m[q].line_start < t) by {
                        let k = choose|k: int|
                            0 <= k < self.entries.len() && #[trigger] self.entries@[k].key@ == q;
                        lemma_index_at(self.entries@, k);
                    }
                } else {
                    let k = choose|k: int|
                        0 <= k < self.entries.len() && ve < (
                        #[trigger] self.entries@[k]).span.line_start < t;
                    lemma_index_at(self.entries@, k);
                    assert(m.contains_key(self.entries@[k].key@));
                }
            }
        }
        let z = if clear {
            t
        } else {
            ve
        };
        proof {
            let e0 = self.entries@;
            assert forall|j: int|
                0 <= j < e0.len() && j != i implies (#[trigger] e0[j]).span.value_end
                    < sp.line_start || e0[j].span.line_start >= z by {
                assert(disjoint(e0[j].span, e0[i as int].span));
            }
        }
        self.remove_edit(i, z);
        Ok(())
    }
}

} // verus!
