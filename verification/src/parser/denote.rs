//! How a form denotes a shape.
//!
//! A [`HirForm`] carries ids: a [`SyntaxId`][crate::source::SyntaxId] into
//! the source table and, for names, a [`SymId`] into the interner.  It
//! denotes a [`Shape`] when its origin is the shape's span and its names are
//! the text under the shape's spans.
use vstd::prelude::*;
use crate::interner::SymId;
use crate::parser::{
    HirForm, HirKind, Shape, after_sigil, all_leaves_wf, kind_preorder, leaves_wf, preorder,
    preorder_seq, shape_count, shape_span, shapes_count, span_chars,
};
use crate::source::{SourceId, SourceTable, SyntaxOrigin};

verus! {

/// Whether `y` names `name` among the interned `names`.
pub open spec fn names_symbol(names: Seq<Seq<char>>, y: SymId, name: Seq<char>) -> bool {
    y.spec_index() < names.len() && names[y.spec_index() as int] == name
}

/// Whether `newer` holds every name of `older`, under the same id.
pub open spec fn names_extend(newer: Seq<Seq<char>>, older: Seq<Seq<char>>) -> bool {
    older.len() <= newer.len() && newer.subrange(0, older.len() as int) == older
}

/// Every name sequence extends itself.
pub proof fn lemma_names_extend_refl(names: Seq<Seq<char>>)
    ensures
        names_extend(names, names),
{
    assert(names.subrange(0, names.len() as int) =~= names);
}

/// Whether form `f` denotes shape `s` of source `sid`, reading origins from
/// `table` and names from `names`.
pub open spec fn form_denotes(
    table: SourceTable,
    names: Seq<Seq<char>>,
    sid: SourceId,
    f: HirForm,
    s: Shape,
) -> bool
    decreases f,
{
    &&& table.has_origin(f.id)
    &&& table.origin(f.id) == (SyntaxOrigin { source: sid, span: shape_span(s) })
    &&& kind_denotes(table, names, sid, f.kind, s)
}

/// Whether a form of kind `k` denotes shape `s`, origins aside.
pub open spec fn kind_denotes(
    table: SourceTable,
    names: Seq<Seq<char>>,
    sid: SourceId,
    k: HirKind,
    s: Shape,
) -> bool
    decreases k,
{
    match k {
        HirKind::Int(n) => s == Shape::Int(n, shape_span(s)),
        HirKind::Call(y) => s == Shape::Call(shape_span(s)) && names_symbol(
            names,
            y,
            span_chars(table.text(sid), shape_span(s)),
        ),
        HirKind::Bind(y) => s == Shape::Bind(shape_span(s)) && names_symbol(
            names,
            y,
            span_chars(table.text(sid), after_sigil(shape_span(s))),
        ),
        HirKind::Load(y) => s == Shape::Load(shape_span(s)) && names_symbol(
            names,
            y,
            span_chars(table.text(sid), after_sigil(shape_span(s))),
        ),
        HirKind::Quote(b) => match s {
            Shape::Quote(inner, _) => form_denotes(table, names, sid, *b, *inner),
            _ => false,
        },
        HirKind::List(v) => match s {
            Shape::List(items, _) => forms_denote(table, names, sid, v@, items),
            _ => false,
        },
        HirKind::Vector(v) => match s {
            Shape::Vector(items, _) => forms_denote(table, names, sid, v@, items),
            _ => false,
        },
    }
}

/// Whether the forms `fs` denote the shapes `ss`, one for one.
pub open spec fn forms_denote(
    table: SourceTable,
    names: Seq<Seq<char>>,
    sid: SourceId,
    fs: Seq<HirForm>,
    ss: Seq<Shape>,
) -> bool
    decreases fs,
{
    &&& fs.len() == ss.len()
    &&& forall|k: int|
        0 <= k < fs.len() ==> form_denotes(table, names, sid, #[trigger] fs[k], ss[k])
}

/// Denotation survives growth: a table that extends the one read and names
/// that extend the ones read keep every form denoting what it did.
pub proof fn lemma_form_denotes_grow(
    t1: SourceTable,
    n1: Seq<Seq<char>>,
    t2: SourceTable,
    n2: Seq<Seq<char>>,
    sid: SourceId,
    f: HirForm,
    s: Shape,
)
    requires
        t2.extends(&t1),
        t1.has_source(sid),
        names_extend(n2, n1),
        form_denotes(t1, n1, sid, f, s),
    ensures
        form_denotes(t2, n2, sid, f, s),
    decreases f,
{
    t2.lemma_extends(&t1);
    assert(t2.text(sid) == t1.text(sid));
    assert(t2.origin(f.id) == t1.origin(f.id));
    assert(kind_denotes(t1, n1, sid, f.kind, s));
    match f.kind {
        HirKind::Call(y) => {
            assert(n2[y.spec_index() as int] == n2.subrange(0, n1.len() as int)[y.spec_index() as int]);
            assert(kind_denotes(t2, n2, sid, f.kind, s));
        },
        HirKind::Bind(y) => {
            assert(n2[y.spec_index() as int] == n2.subrange(0, n1.len() as int)[y.spec_index() as int]);
            assert(kind_denotes(t2, n2, sid, f.kind, s));
        },
        HirKind::Load(y) => {
            assert(n2[y.spec_index() as int] == n2.subrange(0, n1.len() as int)[y.spec_index() as int]);
            assert(kind_denotes(t2, n2, sid, f.kind, s));
        },
        HirKind::Quote(b) => {
            if let Shape::Quote(inner, _) = s {
                lemma_form_denotes_grow(t1, n1, t2, n2, sid, *b, *inner);
            }
        },
        HirKind::List(v) => {
            if let Shape::List(items, _) = s {
                assert(kind_denotes(t1, n1, sid, f.kind, s));
                assert(forms_denote(t1, n1, sid, v@, items));
                assert forall|k: int| 0 <= k < v@.len() implies form_denotes(
                    t2,
                    n2,
                    sid,
                    #[trigger] v@[k],
                    items[k],
                ) by {
                    lemma_form_denotes_grow(t1, n1, t2, n2, sid, v@[k], items[k]);
                }
            }
        },
        HirKind::Vector(v) => {
            if let Shape::Vector(items, _) = s {
                assert(kind_denotes(t1, n1, sid, f.kind, s));
                assert(forms_denote(t1, n1, sid, v@, items));
                assert forall|k: int| 0 <= k < v@.len() implies form_denotes(
                    t2,
                    n2,
                    sid,
                    #[trigger] v@[k],
                    items[k],
                ) by {
                    lemma_form_denotes_grow(t1, n1, t2, n2, sid, v@[k], items[k]);
                }
            }
        },
        _ => {},
    }
    assert(kind_denotes(t2, n2, sid, f.kind, s));
}

/// [`lemma_form_denotes_grow`] for a sequence of forms.
pub proof fn lemma_forms_denote_grow(
    t1: SourceTable,
    n1: Seq<Seq<char>>,
    t2: SourceTable,
    n2: Seq<Seq<char>>,
    sid: SourceId,
    fs: Seq<HirForm>,
    ss: Seq<Shape>,
)
    requires
        t2.extends(&t1),
        t1.has_source(sid),
        names_extend(n2, n1),
        forms_denote(t1, n1, sid, fs, ss),
    ensures
        forms_denote(t2, n2, sid, fs, ss),
{
    assert forall|k: int| 0 <= k < fs.len() implies form_denotes(
        t2,
        n2,
        sid,
        #[trigger] fs[k],
        ss[k],
    ) by {
        lemma_form_denotes_grow(t1, n1, t2, n2, sid, fs[k], ss[k]);
    }
}

/// Appending a form that denotes a shape keeps a denoting sequence denoting.
pub proof fn lemma_forms_denote_push(
    table: SourceTable,
    names: Seq<Seq<char>>,
    sid: SourceId,
    fs: Seq<HirForm>,
    ss: Seq<Shape>,
    f: HirForm,
    s: Shape,
)
    requires
        forms_denote(table, names, sid, fs, ss),
        form_denotes(table, names, sid, f, s),
    ensures
        forms_denote(table, names, sid, fs.push(f), ss.push(s)),
{
    assert forall|k: int| 0 <= k < fs.push(f).len() implies form_denotes(
        table,
        names,
        sid,
        #[trigger] fs.push(f)[k],
        ss.push(s)[k],
    ) by {
        if k < fs.len() {
            assert(fs.push(f)[k] == fs[k]);
            assert(ss.push(s)[k] == ss[k]);
        }
    }
}

pub(crate) proof fn lemma_preorder_seq_push(fs: Seq<HirForm>, f: HirForm, depth: nat)
    ensures
        preorder_seq(fs.push(f), depth) == preorder_seq(fs, depth) + preorder(f, depth),
    decreases fs.len(),
{
    if fs.len() == 0 {
        assert(fs.push(f).subrange(1, 1) =~= Seq::<HirForm>::empty());
        assert(preorder_seq(Seq::<HirForm>::empty(), depth) =~= Seq::<(HirForm, nat)>::empty());
        assert(fs.push(f)[0] == f);
        assert(preorder_seq(fs.push(f), depth) =~= preorder(f, depth));
        assert(preorder_seq(fs, depth) =~= Seq::<(HirForm, nat)>::empty());
        assert(preorder_seq(fs, depth) + preorder(f, depth) =~= preorder(f, depth));
    } else {
        let rest = fs.subrange(1, fs.len() as int);
        lemma_preorder_seq_push(rest, f, depth);
        assert(fs.push(f).subrange(1, fs.len() + 1 as int) =~= rest.push(f));
        assert(fs.push(f)[0] == fs[0]);
        assert(preorder_seq(fs.push(f), depth) =~= preorder(fs[0], depth) + (preorder_seq(
            rest,
            depth,
        ) + preorder(f, depth)));
    }
}

/// A form visits, in a pre-order walk, as many forms as its shape counts.
pub proof fn lemma_form_denotes_count(
    table: SourceTable,
    names: Seq<Seq<char>>,
    sid: SourceId,
    f: HirForm,
    s: Shape,
    depth: nat,
)
    requires
        form_denotes(table, names, sid, f, s),
    ensures
        preorder(f, depth).len() == shape_count(s),
    decreases f,
{
    match f.kind {
        HirKind::Quote(b) => {
            if let Shape::Quote(inner, _) = s {
                lemma_form_denotes_count(table, names, sid, *b, *inner, depth + 1);
            }
        },
        HirKind::List(v) => {
            if let Shape::List(items, _) = s {
                lemma_forms_denote_count(table, names, sid, v@, items, depth + 1);
            }
        },
        HirKind::Vector(v) => {
            if let Shape::Vector(items, _) = s {
                lemma_forms_denote_count(table, names, sid, v@, items, depth + 1);
            }
        },
        _ => {},
    }
}

/// Forms visit, in a pre-order walk, as many forms as their shapes count.
pub proof fn lemma_forms_denote_count(
    table: SourceTable,
    names: Seq<Seq<char>>,
    sid: SourceId,
    fs: Seq<HirForm>,
    ss: Seq<Shape>,
    depth: nat,
)
    requires
        forms_denote(table, names, sid, fs, ss),
    ensures
        preorder_seq(fs, depth).len() == shapes_count(ss),
    decreases fs,
{
    if fs.len() > 0 {
        let init = fs.drop_last();
        assert(forms_denote(table, names, sid, init, ss.drop_last())) by {
            assert forall|k: int| 0 <= k < init.len() implies form_denotes(
                table,
                names,
                sid,
                #[trigger] init[k],
                ss.drop_last()[k],
            ) by {
                assert(init[k] == fs[k]);
            }
        }
        lemma_forms_denote_count(table, names, sid, init, ss.drop_last(), depth);
        assert(form_denotes(table, names, sid, fs[fs.len() - 1], ss[ss.len() - 1]));
        lemma_form_denotes_count(table, names, sid, fs.last(), ss.last(), depth);
        assert(init.push(fs.last()) =~= fs);
        lemma_preorder_seq_push(init, fs.last(), depth);
    } else {
        assert(preorder_seq(fs, depth) =~= Seq::<(HirForm, nat)>::empty());
    }
}

/// Whether forms of kind `k` are names or literals, which carry their text.
pub open spec fn is_leaf(k: HirKind) -> bool {
    k is Int || k is Bind || k is Load || k is Call
}

/// Whether the text of every name and literal among `visits` can be cut out
/// of `table`.
pub open spec fn leaf_origins_ok(table: SourceTable, visits: Seq<(HirForm, nat)>) -> bool {
    forall|k: int|
        0 <= k < visits.len() && is_leaf(#[trigger] visits[k].0.kind) ==> table.has_origin(
            visits[k].0.id,
        ) && table.resolvable(table.origin(visits[k].0.id))
}

/// Names and literals readable from either part are readable from both.
pub proof fn lemma_leaf_origins_concat(table: SourceTable, a: Seq<(HirForm, nat)>, b: Seq<(HirForm, nat)>)
    requires
        leaf_origins_ok(table, a),
        leaf_origins_ok(table, b),
    ensures
        leaf_origins_ok(table, a + b),
{
    assert forall|k: int| 0 <= k < (a + b).len() && is_leaf(#[trigger] (a + b)[k].0.kind) implies table.has_origin(
        (a + b)[k].0.id,
    ) && table.resolvable(table.origin((a + b)[k].0.id)) by {
        if k < a.len() {
            assert((a + b)[k] == a[k]);
        } else {
            assert((a + b)[k] == b[k - a.len()]);
        }
    }
}

/// A form whose shape's names and literals cover tokens of its source can
/// have the text of each of its names and literals cut out of the table.
pub proof fn lemma_form_leaves_ok(
    table: SourceTable,
    names: Seq<Seq<char>>,
    sid: SourceId,
    f: HirForm,
    s: Shape,
    depth: nat,
)
    requires
        table.wf(),
        form_denotes(table, names, sid, f, s),
        leaves_wf(table.text(sid), s),
    ensures
        leaf_origins_ok(table, preorder(f, depth)),
    decreases f,
{
    assert(table.in_bounds(table.origins()[f.id.spec_index() as int]));
    let head = seq![(f, depth)];
    assert(leaf_origins_ok(table, head)) by {
        assert forall|k: int| 0 <= k < head.len() && is_leaf(#[trigger] head[k].0.kind) implies table.has_origin(
            head[k].0.id,
        ) && table.resolvable(table.origin(head[k].0.id)) by {
            assert(head[k] == (f, depth));
        }
    }
    match f.kind {
        HirKind::Quote(b) => {
            if let Shape::Quote(inner, _) = s {
                lemma_form_leaves_ok(table, names, sid, *b, *inner, depth + 1);
            }
        },
        HirKind::List(v) => {
            if let Shape::List(items, _) = s {
                lemma_forms_leaves_ok(table, names, sid, v@, items, depth + 1);
            }
        },
        HirKind::Vector(v) => {
            if let Shape::Vector(items, _) = s {
                lemma_forms_leaves_ok(table, names, sid, v@, items, depth + 1);
            }
        },
        _ => {
            assert(kind_preorder(f.kind, depth + 1) =~= Seq::<(HirForm, nat)>::empty());
        },
    }
    lemma_leaf_origins_concat(table, head, kind_preorder(f.kind, depth + 1));
}

/// [`lemma_form_leaves_ok`] for a sequence of forms.
pub proof fn lemma_forms_leaves_ok(
    table: SourceTable,
    names: Seq<Seq<char>>,
    sid: SourceId,
    fs: Seq<HirForm>,
    ss: Seq<Shape>,
    depth: nat,
)
    requires
        table.wf(),
        forms_denote(table, names, sid, fs, ss),
        all_leaves_wf(table.text(sid), ss),
    ensures
        leaf_origins_ok(table, preorder_seq(fs, depth)),
    decreases fs,
{
    if fs.len() > 0 {
        let init = fs.drop_last();
        assert(forms_denote(table, names, sid, init, ss.drop_last())) by {
            assert forall|k: int| 0 <= k < init.len() implies form_denotes(
                table,
                names,
                sid,
                #[trigger] init[k],
                ss.drop_last()[k],
            ) by {
                assert(init[k] == fs[k]);
            }
        }
        assert(all_leaves_wf(table.text(sid), ss.drop_last())) by {
            assert forall|k: int| 0 <= k < ss.drop_last().len() implies leaves_wf(
                table.text(sid),
                #[trigger] ss.drop_last()[k],
            ) by {
                assert(ss.drop_last()[k] == ss[k]);
            }
        }
        lemma_forms_leaves_ok(table, names, sid, init, ss.drop_last(), depth);
        assert(form_denotes(table, names, sid, fs[fs.len() - 1], ss[ss.len() - 1]));
        assert(leaves_wf(table.text(sid), ss[ss.len() - 1]));
        lemma_form_leaves_ok(table, names, sid, fs.last(), ss.last(), depth);
        assert(init.push(fs.last()) =~= fs);
        lemma_preorder_seq_push(init, fs.last(), depth);
        lemma_leaf_origins_concat(table, preorder_seq(init, depth), preorder(fs.last(), depth));
    } else {
        assert(preorder_seq(fs, depth) =~= Seq::<(HirForm, nat)>::empty());
    }
}

/// Pre-order visits of two runs of forms are the visits of each, in turn.
pub proof fn lemma_preorder_seq_append(a: Seq<HirForm>, b: Seq<HirForm>, depth: nat)
    ensures
        preorder_seq(a + b, depth) == preorder_seq(a, depth) + preorder_seq(b, depth),
    decreases b.len(),
{
    if b.len() == 0 {
        assert(a + b =~= a);
        assert(preorder_seq(b, depth) =~= Seq::<(HirForm, nat)>::empty());
        assert(preorder_seq(a, depth) + preorder_seq(b, depth) =~= preorder_seq(a, depth));
    } else {
        let init = b.drop_last();
        lemma_preorder_seq_append(a, init, depth);
        assert((a + init).push(b.last()) =~= a + b);
        assert(init.push(b.last()) =~= b);
        lemma_preorder_seq_push(a + init, b.last(), depth);
        lemma_preorder_seq_push(init, b.last(), depth);
        assert(preorder_seq(a + b, depth) =~= preorder_seq(a, depth) + preorder_seq(b, depth));
    }
}

/// What a table lets be read it still lets be read once it has grown.
pub proof fn lemma_leaf_origins_grow(older: SourceTable, newer: SourceTable, visits: Seq<(HirForm, nat)>)
    requires
        newer.extends(&older),
        leaf_origins_ok(older, visits),
    ensures
        leaf_origins_ok(newer, visits),
{
    newer.lemma_extends(&older);
    assert forall|k: int| 0 <= k < visits.len() && is_leaf(#[trigger] visits[k].0.kind) implies newer.has_origin(
        visits[k].0.id,
    ) && newer.resolvable(newer.origin(visits[k].0.id)) by {
        assert(older.has_origin(visits[k].0.id));
        assert(newer.origin(visits[k].0.id) == older.origin(visits[k].0.id));
    }
}

} // verus!
