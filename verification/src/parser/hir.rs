//! Source-shaped IR the parser produces.
//!
//! This is the first top level representation of a user program: one node per
//! form of the concatenative rForsp syntax.
use vstd::prelude::*;
use vstd::multiset::Multiset;
use crate::interner::SymId;
use crate::source::SyntaxId;
use crate::parser::worklist::{new_worklist, pop_pending, push_pending};

verus! {

/// Syntactic category of an [`HirForm`].
#[derive(Debug)]
pub enum HirKind {
    /// An integer literal, converted.
    Int(i64),
    /// `'f`, wrapping exactly the next form.
    Quote(Box<HirForm>),
    /// `( .. )`, self-evaluating data.
    List(Vec<HirForm>),
    /// `[ .. ]`
    Vector(Vec<HirForm>),
    /// `$x`
    Bind(SymId),
    /// `^x`
    Load(SymId),
    /// `x`, a bare name.
    Call(SymId),
}

/// A single HIR form: a syntactic category plus its origin.
///
/// A body of code is, implicitly, a sequence of forms since rForsp is
/// concatenative.
#[derive(Debug)]
pub struct HirForm {
    /// Origin of this form in the [`SourceTable`][crate::source::SourceTable].
    pub id: SyntaxId,
    /// Syntactic category of this form.
    pub kind: HirKind,
}

/// Number of forms in the tree rooted at `f`, `f` included.
pub open spec fn form_count(f: HirForm) -> nat
    decreases f,
{
    1 + kind_count(f.kind)
}

/// Number of forms strictly below a form of kind `k`.
pub open spec fn kind_count(k: HirKind) -> nat
    decreases k,
{
    match k {
        HirKind::Quote(b) => form_count(*b),
        HirKind::List(v) => forms_count(v@),
        HirKind::Vector(v) => forms_count(v@),
        _ => 0,
    }
}

/// Number of forms in the trees rooted at `fs`.
pub open spec fn forms_count(fs: Seq<HirForm>) -> nat
    decreases fs,
{
    if fs.len() == 0 {
        0
    } else {
        form_count(fs[0]) + forms_count(fs.subrange(1, fs.len() as int))
    }
}

/// The visits of a depth-first, pre-order walk of the tree rooted at `f`,
/// which sits at `depth`: each form with its depth.
pub open spec fn preorder(f: HirForm, depth: nat) -> Seq<(HirForm, nat)>
    decreases f,
{
    seq![(f, depth)] + kind_preorder(f.kind, depth + 1)
}

/// The pre-order visits of the children of a form of kind `k`, which sit at
/// `depth`.
pub open spec fn kind_preorder(k: HirKind, depth: nat) -> Seq<(HirForm, nat)>
    decreases k,
{
    match k {
        HirKind::Quote(b) => preorder(*b, depth),
        HirKind::List(v) => preorder_seq(v@, depth),
        HirKind::Vector(v) => preorder_seq(v@, depth),
        _ => seq![],
    }
}

/// The pre-order visits of the trees rooted at `fs`, in order, all at
/// `depth`.
pub open spec fn preorder_seq(fs: Seq<HirForm>, depth: nat) -> Seq<(HirForm, nat)>
    decreases fs,
{
    if fs.len() == 0 {
        seq![]
    } else {
        preorder(fs[0], depth) + preorder_seq(fs.subrange(1, fs.len() as int), depth)
    }
}

/// The name of a kind, as it is logged.
pub open spec fn kind_label(k: HirKind) -> Seq<char> {
    match k {
        HirKind::Int(_) => "Int"@,
        HirKind::Quote(_) => "Quote"@,
        HirKind::List(_) => "List"@,
        HirKind::Vector(_) => "Vector"@,
        HirKind::Bind(_) => "Bind"@,
        HirKind::Load(_) => "Load"@,
        HirKind::Call(_) => "Call"@,
    }
}

impl HirKind {
    /// Whether this kind owns any [`HirForm`]s.
    pub fn has_children(&self) -> (r: bool)
        ensures
            r == (self is Quote || self is List || self is Vector),
        opens_invariants none
        no_unwind
    {
        match self {
            HirKind::Quote(_) | HirKind::List(_) | HirKind::Vector(_) => true,
            _ => false,
        }
    }

    /// Get a labelling string.
    pub fn label_str(&self) -> (r: &'static str)
        ensures
            r@ == kind_label(*self),
    {
        match self {
            HirKind::Int(_) => "Int",
            HirKind::Quote(_) => "Quote",
            HirKind::List(_) => "List",
            HirKind::Vector(_) => "Vector",
            HirKind::Bind(_) => "Bind",
            HirKind::Load(_) => "Load",
            HirKind::Call(_) => "Call",
        }
    }
}

impl HirForm {
    /// Construct a form of `kind` originating at `id`.
    pub fn new(id: SyntaxId, kind: HirKind) -> (r: Self)
        ensures
            r.id == id,
            r.kind == kind,
    {
        HirForm { id, kind }
    }
}

/// A visit as the specification sees it.
pub open spec fn as_visit(p: (&HirForm, usize)) -> (HirForm, nat) {
    (*p.0, p.1 as nat)
}

/// Visits as the specification sees them.
pub open spec fn as_visits(s: Seq<(&HirForm, usize)>) -> Seq<(HirForm, nat)> {
    s.map_values(|p: (&HirForm, usize)| as_visit(p))
}

/// Pending pre-order visits of a walk's stack, whose top is its last element.
pub open spec fn pending_visits(stack: Seq<(HirForm, nat)>) -> Seq<(HirForm, nat)>
    decreases stack.len(),
{
    if stack.len() == 0 {
        seq![]
    } else {
        preorder(stack.last().0, stack.last().1) + pending_visits(stack.drop_last())
    }
}

/// `fs` paired with `depth`, last first: the order a walk stacks children in.
pub open spec fn stacked(fs: Seq<HirForm>, depth: nat) -> Seq<(HirForm, nat)>
    decreases fs.len(),
{
    if fs.len() == 0 {
        seq![]
    } else {
        stacked(fs.subrange(1, fs.len() as int), depth).push((fs[0], depth))
    }
}

proof fn lemma_pending_stacked(stack: Seq<(HirForm, nat)>, fs: Seq<HirForm>, depth: nat)
    ensures
        pending_visits(stack + stacked(fs, depth)) == preorder_seq(fs, depth) + pending_visits(stack),
    decreases fs.len(),
{
    if fs.len() == 0 {
        assert(stack + stacked(fs, depth) =~= stack);
        assert(preorder_seq(fs, depth) + pending_visits(stack) =~= pending_visits(stack));
    } else {
        let rest = fs.subrange(1, fs.len() as int);
        lemma_pending_stacked(stack, rest, depth);
        let whole = stack + stacked(fs, depth);
        assert(whole.drop_last() =~= stack + stacked(rest, depth));
        assert(whole.last() == (fs[0], depth));
        assert(pending_visits(whole) =~= preorder(fs[0], depth) + (preorder_seq(rest, depth)
            + pending_visits(stack)));
    }
}

proof fn lemma_stacked_step(fs: Seq<HirForm>, j: int, depth: nat)
    requires
        0 < j <= fs.len(),
    ensures
        stacked(fs.subrange(j - 1, fs.len() as int), depth) == stacked(
            fs.subrange(j, fs.len() as int),
            depth,
        ).push((fs[j - 1], depth)),
{
    let s = fs.subrange(j - 1, fs.len() as int);
    assert(s.subrange(1, s.len() as int) =~= fs.subrange(j, fs.len() as int));
}

/// Push the children `xs` of a visited form, last first, so that they are
/// popped in source order.
fn push_children<'a>(stack: &mut Vec<(&'a HirForm, usize)>, xs: &'a Vec<HirForm>, depth: usize)
    ensures
        as_visits(final(stack)@) == as_visits(old(stack)@) + stacked(xs@, depth as nat),
        forall|k: int|
            0 <= k < final(stack)@.len() ==> (#[trigger] final(stack)@[k]).1 == depth || (
            k < old(stack)@.len() && final(stack)@[k] == old(stack)@[k]),
        final(stack)@.len() >= old(stack)@.len(),
{
    let mut j = xs.len();
    assert(xs@.subrange(j as int, xs@.len() as int) =~= Seq::<HirForm>::empty());
    assert(as_visits(stack@) =~= as_visits(old(stack)@) + stacked(
        xs@.subrange(j as int, xs@.len() as int),
        depth as nat,
    ));
    while j > 0
        invariant
            j <= xs@.len(),
            as_visits(stack@) == as_visits(old(stack)@) + stacked(
                xs@.subrange(j as int, xs@.len() as int),
                depth as nat,
            ),
            forall|k: int|
                0 <= k < stack@.len() ==> (#[trigger] stack@[k]).1 == depth || (k < old(
                    stack,
                )@.len() && stack@[k] == old(stack)@[k]),
            stack@.len() >= old(stack)@.len(),
        decreases j,
    {
        j = j - 1;
        let ghost prev = stack@;
        stack.push((&xs[j], depth));
        proof {
            assert(as_visits(stack@) =~= as_visits(prev).push((xs@[j as int], depth as nat)));
            lemma_stacked_step(xs@, j + 1, depth as nat);
            assert(as_visits(stack@) =~= as_visits(old(stack)@) + stacked(
                xs@.subrange(j as int, xs@.len() as int),
                depth as nat,
            ));
        }
    }
    assert(xs@.subrange(0, xs@.len() as int) =~= xs@);
}

/// Perform a depth-first, pre-order walk of `forms`, returning every form
/// visited with its depth, counting the forms in `forms` as depth zero.
///
/// The walk keeps its own stack rather than recurring, so arbitrarily deep
/// trees are walked safely.
pub fn dfs(forms: &[HirForm]) -> (r: Vec<(&HirForm, usize)>)
    requires
        preorder_seq(forms@, 0).len() <= usize::MAX,
    ensures
        as_visits(r@) == preorder_seq(forms@, 0),
{
    let ghost target = preorder_seq(forms@, 0);
    let mut out: Vec<(&HirForm, usize)> = Vec::new();
    let mut stack: Vec<(&HirForm, usize)> = Vec::new();
    let mut i = forms.len();
    assert(forms@.subrange(i as int, forms@.len() as int) =~= Seq::<HirForm>::empty());
    assert(as_visits(stack@) =~= Seq::<(HirForm, nat)>::empty());
    while i > 0
        invariant
            i <= forms@.len(),
            as_visits(stack@) == stacked(forms@.subrange(i as int, forms@.len() as int), 0),
            forall|k: int| 0 <= k < stack@.len() ==> (#[trigger] stack@[k]).1 == 0,
        decreases i,
    {
        i = i - 1;
        stack.push((&forms[i], 0));
        proof {
            lemma_stacked_step(forms@, i + 1, 0);
            assert(as_visits(stack@) =~= stacked(
                forms@.subrange(i as int, forms@.len() as int),
                0,
            ));
        }
    }
    proof {
        assert(forms@.subrange(0, forms@.len() as int) =~= forms@);
        lemma_pending_stacked(Seq::<(HirForm, nat)>::empty(), forms@, 0);
        assert(Seq::<(HirForm, nat)>::empty() + stacked(forms@, 0) =~= stacked(forms@, 0));
        assert(as_visits(out@) =~= Seq::<(HirForm, nat)>::empty());
        assert(as_visits(out@) + pending_visits(as_visits(stack@)) =~= target);
    }
    loop
        invariant
            as_visits(out@) + pending_visits(as_visits(stack@)) == target,
            target.len() <= usize::MAX,
            forall|k: int| 0 <= k < stack@.len() ==> (#[trigger] stack@[k]).1 <= out@.len(),
        ensures
            as_visits(out@) == target,
        decreases target.len() - out@.len(),
    {
        let ghost before = as_visits(stack@);
        match stack.pop() {
            None => {
                assert(as_visits(out@) + pending_visits(as_visits(stack@)) =~= as_visits(out@));
                break;
            },
            Some((form, depth)) => {
                proof {
                    assert(before.last() == (*form, depth as nat));
                    assert(before.drop_last() =~= as_visits(stack@));
                    assert(as_visits(out@.push((form, depth))) =~= as_visits(out@).push(
                        (*form, depth as nat),
                    ));
                }
                out.push((form, depth));
                let child = depth + 1;
                let ghost rest = as_visits(stack@);
                match &form.kind {
                    HirKind::List(xs) => {
                        push_children(&mut stack, xs, child);
                        proof {
                            lemma_pending_stacked(rest, xs@, child as nat);
                        }
                    },
                    HirKind::Vector(xs) => {
                        push_children(&mut stack, xs, child);
                        proof {
                            lemma_pending_stacked(rest, xs@, child as nat);
                        }
                    },
                    HirKind::Quote(inner) => {
                        stack.push((&**inner, child));
                        proof {
                            assert(as_visits(stack@).drop_last() =~= rest);
                        }
                    },
                    _ => {},
                }
                proof {
                    assert(as_visits(out@) + pending_visits(as_visits(stack@)) =~= target);
                }
            },
        }
    }
    out
}

/// Number of forms held by a drop worklist of kinds, each kind counting
/// itself and everything beneath it.
spec fn worklist_weight(s: Seq<HirKind>) -> nat
    decreases s.len(),
{
    if s.len() == 0 {
        0
    } else {
        worklist_weight(s.drop_last()) + 1 + kind_count(s.last())
    }
}

proof fn lemma_forms_count_last(fs: Seq<HirForm>)
    requires
        fs.len() > 0,
    ensures
        forms_count(fs) == forms_count(fs.drop_last()) + form_count(fs.last()),
    decreases fs.len(),
{
    if fs.len() > 1 {
        let rest = fs.subrange(1, fs.len() as int);
        lemma_forms_count_last(rest);
        assert(rest.drop_last() =~= fs.drop_last().subrange(1, fs.drop_last().len() as int));
        assert(rest.last() == fs.last());
    } else {
        assert(fs.drop_last() =~= Seq::<HirForm>::empty());
        assert(fs.subrange(1, fs.len() as int) =~= Seq::<HirForm>::empty());
    }
}

impl Drop for HirForm {
    /// Dismantle this form iteratively.
    ///
    /// The drop glue would recur through every form a form owns, and on
    /// pathological inputs overflow the stack.  Instead, each owned kind is
    /// moved onto a worklist and replaced by a leaf, whose own drop returns
    /// at once, so the machine stack stays flat.
    fn drop(&mut self)
        opens_invariants none
        no_unwind
    {
        if !self.kind.has_children() {
            return;
        }
        let mut taken = HirKind::Int(0);
        std::mem::swap(&mut taken, &mut self.kind);
        let mut work: Vec<HirKind> = new_worklist();
        push_pending(&mut work, taken);
        loop
            decreases worklist_weight(work@),
        {
            let ghost before = work@;
            match pop_pending(&mut work) {
                None => {
                    break;
                },
                Some(kind) => {
                    proof {
                        assert(before.drop_last() =~= work@);
                    }
                    match kind {
                        HirKind::Quote(mut boxed) => {
                            let mut inner = HirKind::Int(0);
                            std::mem::swap(&mut inner, &mut boxed.kind);
                            push_pending(&mut work, inner);
                            proof {
                                assert(work@.drop_last() =~= before.drop_last());
                            }
                        },
                        HirKind::List(mut forms) | HirKind::Vector(mut forms) => {
                            let ghost start = worklist_weight(work@) + forms_count(forms@);
                            loop
                                invariant
                                    worklist_weight(work@) + forms_count(forms@) == start,
                                decreases forms@.len(),
                            {
                                let ghost remaining = forms@;
                                let ghost held = work@;
                                match pop_pending(&mut forms) {
                                    None => {
                                        break;
                                    },
                                    Some(mut form) => {
                                        proof {
                                            lemma_forms_count_last(remaining);
                                            assert(remaining.drop_last() =~= forms@);
                                        }
                                        let mut inner = HirKind::Int(0);
                                        std::mem::swap(&mut inner, &mut form.kind);
                                        push_pending(&mut work, inner);
                                        proof {
                                            assert(work@.drop_last() =~= held);
                                        }
                                    },
                                }
                            }
                        },
                        _ => {},
                    }
                },
            }
        }
    }
}

/* Ids of the forms in a tree */

/// The ids, as indices, of the forms a walk visits, in visiting order.
pub open spec fn visit_ids(visits: Seq<(HirForm, nat)>) -> Seq<nat> {
    visits.map_values(|v: (HirForm, nat)| v.0.id.spec_index() as nat)
}

/// Whether the forms of the trees rooted at `fs`, in pre-order, carry
/// pairwise distinct ids, each from `lo` up to but not including `hi`.
pub open spec fn fresh_ids(fs: Seq<HirForm>, lo: nat, hi: nat) -> bool {
    &&& visit_ids(preorder_seq(fs, 0)).no_duplicates()
    &&& forall|k: int|
        0 <= k < preorder_seq(fs, 0).len() ==> lo <= #[trigger] visit_ids(preorder_seq(fs, 0))[k]
            < hi
}

/// The ids of the forms in the tree rooted at `f`, counted with
/// multiplicity.
pub open spec fn form_ids(f: HirForm) -> Multiset<nat>
    decreases f,
{
    Multiset::singleton(f.id.spec_index() as nat).add(kind_ids(f.kind))
}

/// The ids of the forms strictly below a form of kind `k`.
pub open spec fn kind_ids(k: HirKind) -> Multiset<nat>
    decreases k,
{
    match k {
        HirKind::Quote(b) => form_ids(*b),
        HirKind::List(v) => forms_ids(v@),
        HirKind::Vector(v) => forms_ids(v@),
        _ => Multiset::empty(),
    }
}

/// The ids of the forms in the trees rooted at `fs`.
pub open spec fn forms_ids(fs: Seq<HirForm>) -> Multiset<nat>
    decreases fs,
{
    if fs.len() == 0 {
        Multiset::empty()
    } else {
        forms_ids(fs.drop_last()).add(form_ids(fs.last()))
    }
}

/// Whether every id of `m` occurs once, from `lo` up to but not including
/// `hi`.
pub open spec fn ids_fresh(m: Multiset<nat>, lo: nat, hi: nat) -> bool {
    forall|x: nat| #[trigger] m.count(x) > 0 ==> m.count(x) == 1 && lo <= x < hi
}

proof fn lemma_visit_ids_concat(a: Seq<(HirForm, nat)>, b: Seq<(HirForm, nat)>)
    ensures
        visit_ids(a + b) == visit_ids(a) + visit_ids(b),
{
    assert(visit_ids(a + b) =~= visit_ids(a) + visit_ids(b));
}

proof fn lemma_single_multiset(x: nat)
    ensures
        seq![x].to_multiset() == Multiset::singleton(x),
{
    broadcast use vstd::multiset::group_multiset_axioms, vstd::seq_lib::group_to_multiset_ensures;

    assert(Seq::<nat>::empty().to_multiset().len() == 0);
    assert(Seq::<nat>::empty().to_multiset() =~= Multiset::<nat>::empty());
    assert(Seq::<nat>::empty().push(x) =~= seq![x]);
    assert(Multiset::<nat>::empty().insert(x) =~= Multiset::singleton(x));
}

/// A walk of the tree rooted at `f` visits exactly its ids.
proof fn lemma_form_ids(f: HirForm, depth: nat)
    ensures
        visit_ids(preorder(f, depth)).to_multiset() == form_ids(f),
    decreases f,
{
    broadcast use vstd::multiset::group_multiset_axioms;

    let head = seq![(f, depth)];
    lemma_visit_ids_concat(head, kind_preorder(f.kind, depth + 1));
    assert(visit_ids(head) =~= seq![f.id.spec_index() as nat]);
    lemma_single_multiset(f.id.spec_index() as nat);
    vstd::seq_lib::lemma_multiset_commutative(
        visit_ids(head),
        visit_ids(kind_preorder(f.kind, depth + 1)),
    );
    match f.kind {
        HirKind::Quote(b) => {
            lemma_form_ids(*b, depth + 1);
        },
        HirKind::List(v) => {
            lemma_forms_ids(v@, depth + 1);
        },
        HirKind::Vector(v) => {
            lemma_forms_ids(v@, depth + 1);
        },
        _ => {
            assert(visit_ids(Seq::<(HirForm, nat)>::empty()) =~= Seq::<nat>::empty());
            assert(Seq::<nat>::empty().to_multiset() =~= Multiset::<nat>::empty()) by {
                broadcast use vstd::seq_lib::group_to_multiset_ensures;

                assert(Seq::<nat>::empty().to_multiset().len() == 0);
            }
        },
    }
}

/// A walk of the trees rooted at `fs` visits exactly their ids.
pub(crate) proof fn lemma_forms_ids(fs: Seq<HirForm>, depth: nat)
    ensures
        visit_ids(preorder_seq(fs, depth)).to_multiset() == forms_ids(fs),
    decreases fs,
{
    broadcast use vstd::multiset::group_multiset_axioms;

    if fs.len() == 0 {
        assert(preorder_seq(fs, depth) =~= Seq::<(HirForm, nat)>::empty());
        assert(visit_ids(Seq::<(HirForm, nat)>::empty()) =~= Seq::<nat>::empty());
        assert(Seq::<nat>::empty().to_multiset() =~= Multiset::<nat>::empty()) by {
            broadcast use vstd::seq_lib::group_to_multiset_ensures;

            assert(Seq::<nat>::empty().to_multiset().len() == 0);
        }
    } else {
        let init = fs.drop_last();
        assert(init.push(fs.last()) =~= fs);
        crate::parser::lemma_preorder_seq_push(init, fs.last(), depth);
        lemma_forms_ids(init, depth);
        lemma_form_ids(fs.last(), depth);
        lemma_visit_ids_concat(preorder_seq(init, depth), preorder(fs.last(), depth));
        vstd::seq_lib::lemma_multiset_commutative(
            visit_ids(preorder_seq(init, depth)),
            visit_ids(preorder(fs.last(), depth)),
        );
    }
}

/// Ids counted once each within a range are pairwise distinct in pre-order.
pub proof fn lemma_fresh_ids_of(fs: Seq<HirForm>, lo: nat, hi: nat)
    requires
        ids_fresh(forms_ids(fs), lo, hi),
    ensures
        fresh_ids(fs, lo, hi),
{
    broadcast use vstd::multiset::group_multiset_axioms, vstd::seq_lib::group_to_multiset_ensures;

    let s = visit_ids(preorder_seq(fs, 0));
    lemma_forms_ids(fs, 0);
    assert forall|x: nat| s.to_multiset().contains(x) implies s.to_multiset().count(x) == 1 by {}
    s.lemma_multiset_has_no_duplicates_conv();
    assert forall|k: int| 0 <= k < preorder_seq(fs, 0).len() implies lo <= #[trigger] s[k] < hi by {
        assert(s.contains(s[k]));
        assert(s.to_multiset().count(s[k]) > 0);
    }
}

/// Fresh ids within a range are fresh within any range holding it.
pub proof fn lemma_fresh_ids_wider(fs: Seq<HirForm>, lo: nat, hi: nat, hi2: nat)
    requires
        fresh_ids(fs, lo, hi),
        hi <= hi2,
    ensures
        fresh_ids(fs, lo, hi2),
{
}

/// No forms carry fresh ids vacuously.
pub proof fn lemma_fresh_ids_empty(lo: nat, hi: nat)
    ensures
        fresh_ids(Seq::<HirForm>::empty(), lo, hi),
{
    assert(preorder_seq(Seq::<HirForm>::empty(), 0) =~= Seq::<(HirForm, nat)>::empty());
    assert(visit_ids(Seq::<(HirForm, nat)>::empty()) =~= Seq::<nat>::empty());
}

/// Forms with fresh ids below `mid` followed by forms with fresh ids from
/// `mid` on carry fresh ids together.
pub proof fn lemma_fresh_ids_append(a: Seq<HirForm>, b: Seq<HirForm>, lo: nat, mid: nat, hi: nat)
    requires
        fresh_ids(a, lo, mid),
        fresh_ids(b, mid, hi),
        lo <= mid <= hi,
    ensures
        fresh_ids(a + b, lo, hi),
{
    crate::parser::lemma_preorder_seq_append(a, b, 0);
    lemma_visit_ids_concat(preorder_seq(a, 0), preorder_seq(b, 0));
    let sa = visit_ids(preorder_seq(a, 0));
    let sb = visit_ids(preorder_seq(b, 0));
    let s = sa + sb;
    assert(s == visit_ids(preorder_seq(a + b, 0)));
    assert forall|i: int, j: int| 0 <= i < s.len() && 0 <= j < s.len() && i != j implies s[i]
        != s[j] by {
        assert(sa.len() == preorder_seq(a, 0).len());
        assert(sb.len() == preorder_seq(b, 0).len());
        if i < sa.len() && j >= sa.len() {
            assert(visit_ids(preorder_seq(a, 0))[i] < mid);
            assert(visit_ids(preorder_seq(b, 0))[j - sa.len()] >= mid);
            assert(sa[i] < mid);
            assert(sb[j - sa.len()] >= mid);
        } else if i >= sa.len() && j < sa.len() {
            assert(visit_ids(preorder_seq(a, 0))[j] < mid);
            assert(visit_ids(preorder_seq(b, 0))[i - sa.len()] >= mid);
            assert(sa[j] < mid);
            assert(sb[i - sa.len()] >= mid);
        } else if i < sa.len() {
            assert(sa[i] != sa[j]);
        } else {
            assert(sb[i - sa.len()] != sb[j - sa.len()]);
        }
    }
    assert forall|k: int| 0 <= k < preorder_seq(a + b, 0).len() implies lo <= #[trigger] visit_ids(
        preorder_seq(a + b, 0),
    )[k] < hi by {
        assert(sa.len() == preorder_seq(a, 0).len());
        if k < sa.len() {
            assert(s[k] == sa[k]);
            assert(lo <= visit_ids(preorder_seq(a, 0))[k] < mid);
        } else {
            assert(s[k] == sb[k - sa.len()]);
            assert(mid <= visit_ids(preorder_seq(b, 0))[k - sa.len()] < hi);
        }
    }
}

} // verus!
