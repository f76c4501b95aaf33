//! The order diagnostics are rendered in.
//!
//! Rendering places diagnostics in source order: by the position their site
//! renders at, and, at one position, in the order they were reported.  These
//! laws show that the order [`sorted_by_position`] builds is exactly that.
use vstd::prelude::*;
use crate::diagnostics::Diagnostic;
use crate::diagnostics::render::{insert_pos, key_lt, offset_lt, position_key, sorted_by_position};
use crate::source::{SourceId, SourceTable};

verus! {

/// Whether no diagnostic of `s` renders at a position before that of one
/// preceding it.
pub open spec fn position_sorted(table: SourceTable, s: Seq<Diagnostic>) -> bool {
    forall|i: int, j: int|
        0 <= i < j < s.len() ==> !key_lt(
            position_key(table, #[trigger] s[j].site),
            position_key(table, #[trigger] s[i].site),
        )
}

/// The diagnostics of `s` rendering at position `key`, in order.
pub open spec fn at_position(table: SourceTable, s: Seq<Diagnostic>, key: Option<(SourceId, Option<u32>)>) -> Seq<
    Diagnostic,
>
    decreases s.len(),
{
    if s.len() == 0 {
        seq![]
    } else if position_key(table, s.last().site) == key {
        at_position(table, s.drop_last(), key).push(s.last())
    } else {
        at_position(table, s.drop_last(), key)
    }
}

/// Positions are totally ordered: of two distinct positions one comes first,
/// never both, and ordering is transitive.
proof fn lemma_key_order(
    a: Option<(SourceId, Option<u32>)>,
    b: Option<(SourceId, Option<u32>)>,
    c: Option<(SourceId, Option<u32>)>,
)
    ensures
        !key_lt(a, a),
        key_lt(a, b) ==> !key_lt(b, a),
        a != b ==> key_lt(a, b) || key_lt(b, a),
        key_lt(a, b) && key_lt(b, c) ==> key_lt(a, c),
{
    match (a, b) {
        (Some((s1, o1)), Some((s2, o2))) => {
            crate::source::lemma_source_index_round(s1);
            crate::source::lemma_source_index_round(s2);
            assert(s1.spec_index() == s2.spec_index() ==> s1 == s2);
            assert(offset_lt(o1, o2) ==> !offset_lt(o2, o1));
        },
        _ => {},
    }
}

/// Where a diagnostic is inserted: every diagnostic it passes orders after
/// it, and the one it stops at does not.
proof fn lemma_insert_pos(table: SourceTable, s: Seq<Diagnostic>, d: Diagnostic, j: int)
    requires
        0 <= j <= s.len(),
    ensures
        0 <= insert_pos(table, s, d, j) <= j,
        forall|i: int|
            insert_pos(table, s, d, j) <= i < j ==> key_lt(
                position_key(table, d.site),
                position_key(table, #[trigger] s[i].site),
            ),
        insert_pos(table, s, d, j) > 0 ==> !key_lt(
            position_key(table, d.site),
            position_key(table, s[insert_pos(table, s, d, j) - 1].site),
        ),
    decreases j,
{
    if j > 0 && key_lt(position_key(table, d.site), position_key(table, s[j - 1].site)) {
        lemma_insert_pos(table, s, d, j - 1);
    }
}

/// The diagnostics at a position of a concatenation are those of each part.
proof fn lemma_at_position_concat(
    table: SourceTable,
    a: Seq<Diagnostic>,
    b: Seq<Diagnostic>,
    key: Option<(SourceId, Option<u32>)>,
)
    ensures
        at_position(table, a + b, key) == at_position(table, a, key) + at_position(table, b, key),
    decreases b.len(),
{
    if b.len() == 0 {
        assert(a + b =~= a);
        assert(at_position(table, a, key) + at_position(table, b, key) =~= at_position(table, a, key));
    } else {
        lemma_at_position_concat(table, a, b.drop_last(), key);
        assert((a + b).drop_last() =~= a + b.drop_last());
        assert((a + b).last() == b.last());
        assert(at_position(table, a, key) + at_position(table, b, key) =~= if position_key(
            table,
            b.last().site,
        ) == key {
            (at_position(table, a, key) + at_position(table, b.drop_last(), key)).push(b.last())
        } else {
            at_position(table, a, key) + at_position(table, b.drop_last(), key)
        });
    }
}

/// A run of diagnostics all ordering after `key` holds none at it.
proof fn lemma_at_position_after(table: SourceTable, b: Seq<Diagnostic>, key: Option<(SourceId, Option<u32>)>)
    requires
        forall|i: int| 0 <= i < b.len() ==> key_lt(key, position_key(table, #[trigger] b[i].site)),
    ensures
        at_position(table, b, key) == Seq::<Diagnostic>::empty(),
    decreases b.len(),
{
    if b.len() > 0 {
        assert forall|i: int| 0 <= i < b.drop_last().len() implies key_lt(
            key,
            position_key(table, #[trigger] b.drop_last()[i].site),
        ) by {
            assert(b.drop_last()[i] == b[i]);
        }
        lemma_at_position_after(table, b.drop_last(), key);
        assert(key_lt(key, position_key(table, b[b.len() - 1].site)));
        lemma_key_order(key, key, key);
    }
}

/// Diagnostics are rendered in source order, and stably: the order they are
/// placed in never puts one before another that renders at an earlier
/// position, and at every position it keeps exactly the diagnostics reported
/// there, in the order they were reported.
pub proof fn lemma_sorted_by_position(table: SourceTable, ds: Seq<Diagnostic>)
    ensures
        position_sorted(table, sorted_by_position(table, ds)),
        sorted_by_position(table, ds).len() == ds.len(),
        forall|key: Option<(SourceId, Option<u32>)>|
            #[trigger] at_position(table, sorted_by_position(table, ds), key) == at_position(
                table,
                ds,
                key,
            ),
    decreases ds.len(),
{
    if ds.len() > 0 {
        let prev = ds.drop_last();
        let d = ds.last();
        lemma_sorted_by_position(table, prev);
        let s = sorted_by_position(table, prev);
        let p = insert_pos(table, s, d, s.len() as int);
        lemma_insert_pos(table, s, d, s.len() as int);
        let out = s.insert(p, d);
        let kd = position_key(table, d.site);
        assert(out == sorted_by_position(table, ds));
        assert forall|i: int, j: int| 0 <= i < j < out.len() implies !key_lt(
            position_key(table, #[trigger] out[j].site),
            position_key(table, #[trigger] out[i].site),
        ) by {
            let ki = position_key(table, out[i].site);
            let kj = position_key(table, out[j].site);
            if j < p {
                assert(out[i] == s[i] && out[j] == s[j]);
            } else if j == p {
                assert(out[j] == d);
                assert(out[i] == s[i]);
                let kp = position_key(table, s[p - 1].site);
                if i < p - 1 {
                    assert(!key_lt(kp, position_key(table, s[i].site)));
                    lemma_key_order(kd, kp, ki);
                    lemma_key_order(kp, ki, kd);
                    lemma_key_order(kd, ki, kp);
                }
            } else if i == p {
                assert(out[i] == d);
                assert(out[j] == s[j - 1]);
                lemma_key_order(kd, kj, kd);
            } else if i < p {
                assert(out[i] == s[i]);
                assert(out[j] == s[j - 1]);
            } else {
                assert(out[i] == s[i - 1]);
                assert(out[j] == s[j - 1]);
            }
        }
        assert forall|key: Option<(SourceId, Option<u32>)>| #[trigger] at_position(table, out, key)
            == at_position(table, ds, key) by {
            let a = s.subrange(0, p);
            let b = s.subrange(p, s.len() as int);
            assert(s =~= a + b);
            assert(out =~= a + seq![d] + b);
            lemma_at_position_concat(table, a + seq![d], b, key);
            lemma_at_position_concat(table, a, seq![d], key);
            lemma_at_position_concat(table, a, b, key);
            assert(seq![d].drop_last() =~= Seq::<Diagnostic>::empty());
            assert(seq![d].last() == d);
            assert(at_position(table, Seq::<Diagnostic>::empty(), key) == Seq::<Diagnostic>::empty());
            assert(Seq::<Diagnostic>::empty().push(d) =~= seq![d]);
            assert(at_position(table, prev, key) == at_position(table, s, key));
            if kd == key {
                assert forall|i: int| 0 <= i < b.len() implies key_lt(
                    key,
                    position_key(table, #[trigger] b[i].site),
                ) by {
                    assert(b[i] == s[p + i]);
                }
                lemma_at_position_after(table, b, key);
                assert(at_position(table, seq![d], key) =~= seq![d]);
                assert(at_position(table, s, key) =~= at_position(table, a, key));
                assert(at_position(table, out, key) =~= at_position(table, a, key).push(d));
            } else {
                assert(at_position(table, seq![d], key) =~= Seq::<Diagnostic>::empty());
                assert(at_position(table, out, key) =~= at_position(table, s, key));
            }
        }
    }
}

} // verus!
