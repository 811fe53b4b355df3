//! Laws that relate several operations on the store.

use vstd::prelude::*;
use crate::environment::{
    comment_lines, key_bytes, rewritten, set_done, shift_index, toggle_done, value_of,
    Environment, KeyStatus,
};
use crate::line::{EQUALS, HASH, LF};

verus! {

/// After `set(key, v, ds)`, the key is indexed and its value is `v`, whether
/// it was indexed before or not.
pub proof fn law_set_then_get(
    before: Environment,
    after: Environment,
    key: Seq<char>,
    v: Seq<u8>,
    ds: Seq<String>,
)
    requires
        before.wf(),
        set_done(before, after, key, v, ds),
    ensures
        after.index().contains_key(key_bytes(key)),
        value_of(after.buffer(), after.index()[key_bytes(key)]) == v,
{
    let k = key_bytes(key);
    let b = before.buffer();
    let c = comment_lines(ds);
    after.lemma_indexed(k);
    if !before.index().contains_key(k) {
        let vs = (b.len() + 1 + c.len() + k.len() + 1) as int;
        assert(after.buffer().subrange(vs, after.buffer().len() as int) =~= v);
    } else {
        before.lemma_indexed(k);
        let sp = before.index()[k];
        let rs = if ds.len() == 0 {
            sp.line_start as int
        } else {
            before.comment_start(sp.line_start as int)
        };
        let nvs = rs + c.len() + (sp.value_start - sp.line_start);
        assert(after.buffer().subrange(nvs, nvs + v.len()) =~= v);
    }
}

/// Setting a key to the same value twice in a row leaves the buffer and the
/// index as the first `set` left them.
pub proof fn law_set_twice(
    s0: Environment,
    s1: Environment,
    s2: Environment,
    key: Seq<char>,
    v: Seq<u8>,
)
    requires
        s0.wf(),
        set_done(s0, s1, key, v, Seq::empty()),
        set_done(s1, s2, key, v, Seq::empty()),
    ensures
        s2.buffer() == s1.buffer(),
        s2.index() == s1.index(),
{
    let k = key_bytes(key);
    law_set_then_get(s0, s1, key, v, Seq::empty());
    s1.lemma_indexed(k);
    let b1 = s1.buffer();
    let sp = s1.index()[k];
    assert(comment_lines(Seq::<String>::empty()) =~= Seq::<u8>::empty());
    assert(b1.subrange(sp.value_start as int, sp.value_end as int) == v);
    assert(s2.buffer() =~= b1);
    assert(shift_index(s1.index(), sp.value_end as int, 0) =~= s1.index());
    assert(s2.index() =~= s1.index());
}

/// Disabling a key and then enabling it restores the buffer and the index.
pub proof fn law_toggle_round_trip(
    s0: Environment,
    s1: Environment,
    s2: Environment,
    key: Seq<char>,
    r1: Result<(), crate::environment::EnvError>,
    r2: Result<(), crate::environment::EnvError>,
)
    requires
        s0.wf(),
        toggle_done(s0, s1, key, KeyStatus::Disable, r1),
        toggle_done(s1, s2, key, KeyStatus::Enable, r2),
    ensures
        s2.buffer() == s0.buffer(),
        s2.index() == s0.index(),
        s0.index().contains_key(key_bytes(key)) ==> r1 is Ok && r2 is Ok,
{
    let k = key_bytes(key);
    if s0.index().contains_key(k) {
        s0.lemma_indexed(k);
        s1.lemma_indexed(k);
        let sp = s0.index()[k];
        assert(s1.buffer()[sp.line_start as int] == HASH);
        assert(s2.buffer() =~= s0.buffer());
        let m0 = s0.index();
        let m1 = s1.index();
        assert forall|q: Seq<u8>| #[trigger] m0.contains_key(q) && q != k implies s2.index()[q]
            == m0[q] by {
            s0.lemma_indexed(q);
        }
        assert(s2.index() =~= m0);
    }
}

/// Disabling a key whose line already starts with `#` adds a second `#`.
pub proof fn law_disable_additive(
    s0: Environment,
    s1: Environment,
    key: Seq<char>,
    r: Result<(), crate::environment::EnvError>,
)
    requires
        s0.wf(),
        s0.index().contains_key(key_bytes(key)),
        s0.buffer()[s0.index()[key_bytes(key)].line_start as int] == HASH,
        toggle_done(s0, s1, key, KeyStatus::Disable, r),
    ensures
        r is Ok,
        s1.buffer() == s0.buffer().insert(s0.index()[key_bytes(key)].line_start as int, HASH),
        s1.buffer()[s0.index()[key_bytes(key)].line_start as int] == HASH,
        s1.buffer()[s0.index()[key_bytes(key)].line_start + 1] == HASH,
{
    s0.lemma_indexed(key_bytes(key));
}

/// Setting an indexed key twice with one description each leaves only the
/// second description above it: the buffer is what setting the second value
/// with the second description alone would have made.
pub proof fn law_description_replaced(
    s0: Environment,
    s1: Environment,
    s2: Environment,
    key: Seq<char>,
    v1: Seq<u8>,
    v2: Seq<u8>,
    d1: String,
    d2: String,
)
    requires
        s0.wf(),
        s0.index().contains_key(key_bytes(key)),
        set_done(s0, s1, key, v1, seq![d1]),
        set_done(s1, s2, key, v2, seq![d2]),
    ensures
        s2.buffer() == rewritten(
            s0.buffer(),
            s0.index()[key_bytes(key)],
            s0.comment_start(s0.index()[key_bytes(key)].line_start as int),
            v2,
            comment_lines(seq![d2]),
        ),
        value_of(s2.buffer(), s2.index()[key_bytes(key)]) == v2,
{
    let k = key_bytes(key);
    law_set_then_get(s1, s2, key, v2, seq![d2]);
    s0.lemma_indexed(k);
    s1.lemma_indexed(k);
    let b0 = s0.buffer();
    let b1 = s1.buffer();
    let sp0 = s0.index()[k];
    let sp1 = s1.index()[k];
    let rs = s0.comment_start(sp0.line_start as int);
    let ca = comment_lines(seq![d1]);
    assert(seq![d1].drop_last() =~= Seq::<String>::empty());
    assert(ca.len() > 0);
    assert(b1.subrange(0, rs) =~= b0.subrange(0, rs));
    assert(b1.subrange(sp1.line_start as int, sp1.value_start as int) =~= b0.subrange(
        sp0.line_start as int,
        sp0.value_start as int,
    ));
    assert(b1.subrange(sp1.value_end as int, b1.len() as int) =~= b0.subrange(
        sp0.value_end as int,
        b0.len() as int,
    ));
}

/// Setting a key that was not indexed twice with one description each
/// leaves only the second description above it: the first `set` appended
/// the line, the second replaced everything after the last entry before it.
pub proof fn law_description_replaced_new_key(
    s0: Environment,
    s1: Environment,
    s2: Environment,
    key: Seq<char>,
    v1: Seq<u8>,
    v2: Seq<u8>,
    d1: String,
    d2: String,
)
    requires
        s0.wf(),
        !s0.index().contains_key(key_bytes(key)),
        set_done(s0, s1, key, v1, seq![d1]),
        set_done(s1, s2, key, v2, seq![d2]),
    ensures
        s2.buffer() == (s0.buffer() + seq![LF]).subrange(
            0,
            s0.comment_start(s0.buffer().len() + 1int),
        ) + comment_lines(seq![d2]) + key_bytes(key) + seq![EQUALS] + v2,
        value_of(s2.buffer(), s2.index()[key_bytes(key)]) == v2,
{
    let k = key_bytes(key);
    law_set_then_get(s1, s2, key, v2, seq![d2]);
    s1.lemma_indexed(k);
    s0.lemma_comment_start_bound(s0.buffer().len() + 1int);
    let b0 = s0.buffer();
    let b1 = s1.buffer();
    let sp1 = s1.index()[k];
    let r = s0.comment_start(b0.len() + 1int);
    let ca = comment_lines(seq![d1]);
    assert(seq![d1].drop_last() =~= Seq::<String>::empty());
    assert(ca.len() > 0);
    assert(b1.subrange(0, r) =~= (b0 + seq![LF]).subrange(0, r));
    assert(b1.subrange(sp1.line_start as int, sp1.value_start as int) =~= k + seq![EQUALS]);
    assert(b1.subrange(sp1.value_end as int, b1.len() as int) =~= Seq::<u8>::empty());
    assert(s2.buffer() =~= (b0 + seq![LF]).subrange(0, r) + comment_lines(seq![d2]) + k
        + seq![EQUALS] + v2);
}

} // verus!
