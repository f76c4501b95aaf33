//! Printer for HIR.
//!
//! Prints forms back to surface syntax: each form as its own notation, forms
//! beside each other separated by a single space.  A single space suffices
//! because whitespace is always trivia to the lexer and every delimiter is a
//! restricted character.
use vstd::prelude::*;
use crate::chars::{int_text, push_int, push_str, string_of};
use crate::interner::Interner;
use crate::parser::{HirForm, HirKind, form_count, forms_count};

verus! {

/// Whether every name `f` carries is below `n`.
pub open spec fn syms_below(f: HirForm, n: nat) -> bool
    decreases f,
{
    match f.kind {
        HirKind::Int(_) => true,
        HirKind::Bind(y) => y.spec_index() < n,
        HirKind::Load(y) => y.spec_index() < n,
        HirKind::Call(y) => y.spec_index() < n,
        HirKind::Quote(b) => syms_below(*b, n),
        HirKind::List(v) => forall|k: int| 0 <= k < v@.len() ==> syms_below(#[trigger] v@[k], n),
        HirKind::Vector(v) => forall|k: int| 0 <= k < v@.len() ==> syms_below(#[trigger] v@[k], n),
    }
}

/// The surface syntax of `f`, its names read from `names`.
pub open spec fn printed(names: Seq<Seq<char>>, f: HirForm) -> Seq<char>
    decreases f,
{
    match f.kind {
        HirKind::Int(x) => int_text(x as int),
        HirKind::Bind(y) => seq!['$'] + names[y.spec_index() as int],
        HirKind::Load(y) => seq!['^'] + names[y.spec_index() as int],
        HirKind::Call(y) => names[y.spec_index() as int],
        HirKind::Quote(b) => seq!['\''] + printed(names, *b),
        HirKind::List(v) => seq!['('] + printed_seq(names, v@) + seq![')'],
        HirKind::Vector(v) => seq!['['] + printed_seq(names, v@) + seq![']'],
    }
}

/// The surface syntax of `fs`, separated by single spaces.
pub open spec fn printed_seq(names: Seq<Seq<char>>, fs: Seq<HirForm>) -> Seq<char>
    decreases fs,
{
    if fs.len() == 0 {
        seq![]
    } else if fs.len() == 1 {
        printed(names, fs[0])
    } else {
        printed(names, fs[0]) + seq![' '] + printed_seq(names, fs.subrange(1, fs.len() as int))
    }
}

/// Types of objects to print in the stack.
enum ToPrint<'a> {
    /// Standard [`HirForm`].
    Form(&'a HirForm),
    /// End of a List.
    CloseList,
    /// End of a Vec.
    CloseVec,
}

/// A stack item as the specification sees it.
enum Item {
    /// A form still to print.
    Form(HirForm),
    /// `)`.
    CloseList,
    /// `]`.
    CloseVec,
}

spec fn item_of(t: ToPrint) -> Item {
    match t {
        ToPrint::Form(f) => Item::Form(*f),
        ToPrint::CloseList => Item::CloseList,
        ToPrint::CloseVec => Item::CloseVec,
    }
}

spec fn items_of(s: Seq<ToPrint>) -> Seq<Item> {
    s.map_values(|t: ToPrint| item_of(t))
}

/// What an item prints, with no separator.
spec fn item_text(names: Seq<Seq<char>>, item: Item) -> Seq<char> {
    match item {
        Item::Form(f) => printed(names, f),
        Item::CloseList => seq![')'],
        Item::CloseVec => seq![']'],
    }
}

/// What the stack still prints, its top last, when `need_space` says
/// whether a form printed next is separated from what precedes it.  Only a
/// form takes a leading space, and after any item a separator is due.
spec fn pending(names: Seq<Seq<char>>, stack: Seq<Item>, need_space: bool) -> Seq<char>
    decreases stack.len(),
{
    if stack.len() == 0 {
        seq![]
    } else {
        let top = stack.last();
        (if need_space && top is Form {
            seq![' ']
        } else {
            seq![]
        }) + item_text(names, top) + pending(names, stack.drop_last(), true)
    }
}

/// `fs` as stack items, last first, so that popping meets them in order.
spec fn stacked_forms(fs: Seq<HirForm>) -> Seq<Item>
    decreases fs.len(),
{
    if fs.len() == 0 {
        seq![]
    } else {
        stacked_forms(fs.subrange(1, fs.len() as int)).push(Item::Form(fs[0]))
    }
}

/// The weight of one item: a form counts twice its size, a closer once.
spec fn item_weight(item: Item) -> nat {
    match item {
        Item::Form(f) => 2 * form_count(f),
        _ => 1,
    }
}

/// Work left in a stack.
spec fn weight(stack: Seq<Item>) -> nat
    decreases stack.len(),
{
    if stack.len() == 0 {
        0
    } else {
        weight(stack.drop_last()) + item_weight(stack.last())
    }
}

/// Whether every form on the stack has its names below `n`.
spec fn items_named(stack: Seq<Item>, n: nat) -> bool {
    forall|k: int| 0 <= k < stack.len() ==> (#[trigger] stack[k] matches Item::Form(f) ==> syms_below(f, n))
}

proof fn lemma_push_item(names: Seq<Seq<char>>, stack: Seq<Item>, item: Item, n: nat)
    ensures
        stack.push(item).drop_last() == stack,
        stack.push(item).last() == item,
        weight(stack.push(item)) == weight(stack) + item_weight(item),
        forall|b: bool|
            #[trigger] pending(names, stack.push(item), b) == (if b && item is Form {
                seq![' ']
            } else {
                seq![]
            }) + item_text(names, item) + pending(names, stack, true),
        items_named(stack, n) && (item matches Item::Form(f) ==> syms_below(f, n)) ==> items_named(
            stack.push(item),
            n,
        ),
{
    assert(stack.push(item).drop_last() =~= stack);
    if items_named(stack, n) && (item matches Item::Form(f) ==> syms_below(f, n)) {
        assert forall|k: int| 0 <= k < stack.push(item).len() implies (#[trigger] stack.push(
            item,
        )[k] matches Item::Form(f) ==> syms_below(f, n)) by {
            if k < stack.len() {
                assert(stack.push(item)[k] == stack[k]);
            }
        }
    }
}

proof fn lemma_stacked_forms(names: Seq<Seq<char>>, base: Seq<Item>, fs: Seq<HirForm>, need_space: bool, n: nat)
    ensures
        pending(names, base + stacked_forms(fs), need_space) == if fs.len() > 0 {
            (if need_space {
                seq![' ']
            } else {
                seq![]
            }) + printed_seq(names, fs) + pending(names, base, true)
        } else {
            pending(names, base, need_space)
        },
        weight(base + stacked_forms(fs)) == weight(base) + 2 * forms_count(fs),
        items_named(base, n) && (forall|k: int| 0 <= k < fs.len() ==> syms_below(#[trigger] fs[k], n))
            ==> items_named(base + stacked_forms(fs), n),
    decreases fs.len(),
{
    if fs.len() == 0 {
        assert(base + stacked_forms(fs) =~= base);
    } else {
        let rest = fs.subrange(1, fs.len() as int);
        lemma_stacked_forms(names, base, rest, true, n);
        let inner = base + stacked_forms(rest);
        assert(base + stacked_forms(fs) =~= inner.push(Item::Form(fs[0])));
        lemma_push_item(names, inner, Item::Form(fs[0]), n);
        if items_named(base, n) && (forall|k: int| 0 <= k < fs.len() ==> syms_below(#[trigger] fs[k], n)) {
            assert forall|k: int| 0 <= k < rest.len() implies syms_below(#[trigger] rest[k], n) by {
                assert(rest[k] == fs[k + 1]);
            }
            assert(syms_below(fs[0], n));
        }
        if rest.len() == 0 {
            assert(printed_seq(names, fs) == printed(names, fs[0]));
        } else {
            assert(printed_seq(names, fs) == printed(names, fs[0]) + seq![' '] + printed_seq(
                names,
                rest,
            ));
        }
    }
}

/// Push the forms `xs` as items, last first, so that they are popped in
/// order.
fn push_forms<'a>(stack: &mut Vec<ToPrint<'a>>, xs: &'a [HirForm])
    ensures
        items_of(final(stack)@) == items_of(old(stack)@) + stacked_forms(xs@),
{
    let mut j = xs.len();
    assert(xs@.subrange(j as int, xs@.len() as int) =~= Seq::<HirForm>::empty());
    assert(items_of(stack@) =~= items_of(old(stack)@) + stacked_forms(
        xs@.subrange(j as int, xs@.len() as int),
    ));
    while j > 0
        invariant
            j <= xs@.len(),
            items_of(stack@) == items_of(old(stack)@) + stacked_forms(
                xs@.subrange(j as int, xs@.len() as int),
            ),
        decreases j,
    {
        j = j - 1;
        let ghost prev = stack@;
        stack.push(ToPrint::Form(&xs[j]));
        proof {
            let s = xs@.subrange(j as int, xs@.len() as int);
            assert(s.subrange(1, s.len() as int) =~= xs@.subrange(j + 1, xs@.len() as int));
            assert(s[0] == xs@[j as int]);
            assert(items_of(stack@) =~= items_of(prev).push(Item::Form(xs@[j as int])));
            assert(items_of(stack@) =~= items_of(old(stack)@) + stacked_forms(s));
        }
    }
    assert(xs@.subrange(0, xs@.len() as int) =~= xs@);
}

/// Print a sequence of [`HirForm`]s into surface level rForsp syntax,
/// appending to `out`.
///
/// The walk keeps its own stack rather than recurring, so arbitrarily deep
/// trees print safely.
#[verifier::rlimit(50)]
pub fn print_forms(forms: &[HirForm], interner: &Interner, out: &mut String)
    requires
        forall|k: int| 0 <= k < forms@.len() ==> syms_below(#[trigger] forms@[k], interner@.len()),
    ensures
        final(out)@ == old(out)@ + printed_seq(interner@, forms@),
{
    let ghost names = interner@;
    let ghost n = names.len();
    let mut text: Vec<char> = Vec::new();
    push_str(&mut text, out.as_str());
    let mut stack: Vec<ToPrint> = Vec::new();
    push_forms(&mut stack, forms);
    proof {
        assert(items_of(Seq::<ToPrint>::empty()) =~= Seq::<Item>::empty());
        lemma_stacked_forms(names, Seq::empty(), forms@, false, n);
        assert(Seq::<Item>::empty() + stacked_forms(forms@) =~= stacked_forms(forms@));
        assert(text@ =~= Seq::<char>::empty() + old(out)@);
    }
    let ghost target = old(out)@ + printed_seq(names, forms@);
    let mut need_space = false;
    loop
        invariant
            names == interner@,
            n == names.len(),
            text@ + pending(names, items_of(stack@), need_space) == target,
            items_named(items_of(stack@), n),
        ensures
            text@ == target,
        decreases weight(items_of(stack@)),
    {
        let ghost before = items_of(stack@);
        let item = match stack.pop() {
            Some(item) => item,
            None => {
                assert(text@ + Seq::<char>::empty() =~= text@);
                break;
            },
        };
        let ghost rest = items_of(stack@);
        proof {
            assert(before =~= rest.push(item_of(item)));
            lemma_push_item(names, rest, item_of(item), n);
            assert(before[before.len() - 1] == item_of(item));
            assert(rest =~= before.drop_last());
            assert(items_named(rest, n)) by {
                assert forall|k: int| 0 <= k < rest.len() implies (#[trigger] rest[k] matches Item::Form(f)
                    ==> syms_below(f, n)) by {
                    assert(rest[k] == before[k]);
                }
            }
        }
        let is_form = match item {
            ToPrint::Form(_) => true,
            _ => false,
        };
        let ghost start = text@;
        if need_space && is_form {
            text.push(' ');
        }
        let ghost lead = text@;
        assert(lead == start + if need_space && item_of(item) is Form {
            seq![' ']
        } else {
            seq![]
        });
        need_space = true;
        match item {
            ToPrint::CloseList => {
                text.push(')');
                assert(text@ + pending(names, rest, true) =~= target);
            },
            ToPrint::CloseVec => {
                text.push(']');
                assert(text@ + pending(names, rest, true) =~= target);
            },
            ToPrint::Form(form) => {
                match &form.kind {
                    HirKind::Int(x) => {
                        push_int(&mut text, *x);
                        assert(text@ + pending(names, rest, true) =~= target);
                    },
                    HirKind::Bind(s) => {
                        text.push('$');
                        push_str(&mut text, interner.resolve(*s));
                        assert(text@ + pending(names, rest, true) =~= target);
                    },
                    HirKind::Load(s) => {
                        text.push('^');
                        push_str(&mut text, interner.resolve(*s));
                        assert(text@ + pending(names, rest, true) =~= target);
                    },
                    HirKind::Call(s) => {
                        push_str(&mut text, interner.resolve(*s));
                        assert(text@ + pending(names, rest, true) =~= target);
                    },
                    HirKind::Quote(child) => {
                        text.push('\'');
                        let ghost pre = stack@;
                        stack.push(ToPrint::Form(child));
                        need_space = false;
                        proof {
                            assert(items_of(stack@) =~= rest.push(Item::Form(**child)));
                            lemma_push_item(names, rest, Item::Form(**child), n);
                            assert(text@ + pending(names, items_of(stack@), need_space) =~= target);
                        }
                    },
                    HirKind::Vector(children) => {
                        text.push('[');
                        stack.push(ToPrint::CloseVec);
                        let ghost mid = items_of(stack@);
                        proof {
                            assert(mid =~= rest.push(Item::CloseVec));
                            lemma_push_item(names, rest, Item::CloseVec, n);
                        }
                        push_forms(&mut stack, children.as_slice());
                        need_space = false;
                        proof {
                            lemma_stacked_forms(names, mid, children@, false, n);
                            assert(printed(names, *form) == seq!['['] + printed_seq(names, children@) + seq![']']);
                            assert(pending(names, mid, false) == seq![']'] + pending(names, rest, true));
                            assert(pending(names, mid, true) == seq![']'] + pending(names, rest, true));
                            assert(pending(names, items_of(stack@), need_space) =~= printed_seq(names, children@) + seq![']'] + pending(names, rest, true));
                            assert(text@ + pending(names, items_of(stack@), need_space) =~= target);
                        }
                    },
                    HirKind::List(children) => {
                        text.push('(');
                        stack.push(ToPrint::CloseList);
                        let ghost mid = items_of(stack@);
                        proof {
                            assert(mid =~= rest.push(Item::CloseList));
                            lemma_push_item(names, rest, Item::CloseList, n);
                        }
                        push_forms(&mut stack, children.as_slice());
                        need_space = false;
                        proof {
                            lemma_stacked_forms(names, mid, children@, false, n);
                            assert(printed(names, *form) == seq!['('] + printed_seq(names, children@) + seq![')']);
                            assert(pending(names, mid, false) == seq![')'] + pending(names, rest, true));
                            assert(pending(names, mid, true) == seq![')'] + pending(names, rest, true));
                            assert(pending(names, items_of(stack@), need_space) =~= printed_seq(names, children@) + seq![')'] + pending(names, rest, true));
                            assert(text@ + pending(names, items_of(stack@), need_space) =~= target);
                        }
                    },
                }
            },
        }
    }
    *out = string_of(&text);
}

} // verus!
