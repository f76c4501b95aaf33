//! Diagnostics accumulator.
//!
//! Each phase of the compiler that may fail pushes into one of these.
use vstd::prelude::*;
use crate::diagnostics::{Diagnostic, is_fatal};

verus! {

/// Number of fatal diagnostics in `items`.
pub open spec fn count_fatal(items: Seq<Diagnostic>) -> nat
    decreases items.len(),
{
    if items.len() == 0 {
        0
    } else {
        count_fatal(items.drop_last()) + if is_fatal(items.last().class) {
            1nat
        } else {
            0nat
        }
    }
}

/// The fatal count of a concatenation is the sum of the counts.
pub proof fn lemma_count_fatal_concat(a: Seq<Diagnostic>, b: Seq<Diagnostic>)
    ensures
        count_fatal(a + b) == count_fatal(a) + count_fatal(b),
        count_fatal(a) <= a.len(),
    decreases b.len(),
{
    if b.len() == 0 {
        assert(a + b =~= a);
        lemma_count_fatal_bounded(a);
    } else {
        lemma_count_fatal_concat(a, b.drop_last());
        assert((a + b).drop_last() =~= a + b.drop_last());
    }
}

/// At most every item is fatal.
pub proof fn lemma_count_fatal_bounded(a: Seq<Diagnostic>)
    ensures
        count_fatal(a) <= a.len(),
    decreases a.len(),
{
    if a.len() > 0 {
        lemma_count_fatal_bounded(a.drop_last());
    }
}

/// Accumulator of [`Diagnostic`]s.
#[derive(Debug)]
pub struct Diagnostics {
    /// Recorded diagnostics.
    items: Vec<Diagnostic>,
    /// Number of errors recorded.
    errors: usize,
}

impl View for Diagnostics {
    type V = Seq<Diagnostic>;

    /// The recorded diagnostics, in report order.
    closed spec fn view(&self) -> Seq<Diagnostic> {
        self.items@
    }
}

impl Diagnostics {
    /// The stored count always agrees with the stored items.
    #[verifier::type_invariant]
    spec fn count_agrees(self) -> bool {
        self.errors == count_fatal(self.items@)
    }

    /// Construct an empty accumulator.
    pub fn new() -> (r: Self)
        ensures
            r@ == Seq::<Diagnostic>::empty(),
    {
        Diagnostics { items: Vec::new(), errors: 0 }
    }

    /// Record a diagnostic.  Errors and bugs count toward
    /// [`error_count`][Diagnostics::error_count].
    pub fn push(&mut self, diag: Diagnostic)
        ensures
            final(self)@ == old(self)@.push(diag),
    {
        proof {
            use_type_invariant(&*self);
        }
        let fatal = diag.class.is_fatal();
        let mut taken = Diagnostics::new();
        std::mem::swap(&mut taken, self);
        let Diagnostics { items: mut items, errors } = taken;
        items.push(diag);
        let _len = items.len();
        proof {
            lemma_count_fatal_bounded(items@);
            assert(items@.drop_last() =~= old(self).items@);
        }
        let errors = if fatal {
            errors + 1
        } else {
            errors
        };
        *self = Diagnostics { items, errors };
    }

    /// Discard everything accumulated.
    pub fn clear(&mut self)
        ensures
            final(self)@ == Seq::<Diagnostic>::empty(),
    {
        *self = Diagnostics::new();
    }

    /// Merge the given diagnostics into this set, after the ones already
    /// here.  The error count crosses with the items.
    pub fn merge(&mut self, diagnostics: Self)
        ensures
            final(self)@ == old(self)@ + diagnostics@,
    {
        proof {
            use_type_invariant(&*self);
            use_type_invariant(&diagnostics);
        }
        let Diagnostics { items: mut more, errors: more_errors } = diagnostics;
        let mut taken = Diagnostics::new();
        std::mem::swap(&mut taken, self);
        let Diagnostics { items: mut items, errors } = taken;
        let ghost first = items@;
        let ghost second = more@;
        items.append(&mut more);
        let _len = items.len();
        proof {
            lemma_count_fatal_concat(first, second);
            lemma_count_fatal_bounded(first);
            lemma_count_fatal_bounded(second);
        }
        let errors = errors + more_errors;
        *self = Diagnostics { items, errors };
    }

    /// The stored diagnostics in report order.
    pub fn items(&self) -> (r: &[Diagnostic])
        ensures
            r@ == self@,
    {
        self.items.as_slice()
    }

    /// Whether any errors or bugs have been reported.
    pub fn has_errors(&self) -> (r: bool)
        ensures
            r == (count_fatal(self@) > 0),
    {
        proof {
            use_type_invariant(self);
        }
        self.errors > 0
    }

    /// The number of fatal diagnostics reported.
    pub fn error_count(&self) -> (r: usize)
        ensures
            r == count_fatal(self@),
    {
        proof {
            use_type_invariant(self);
        }
        self.errors
    }
}

impl Default for Diagnostics {
    /// An empty accumulator.
    fn default() -> (r: Self)
        ensures
            r@ == Seq::<Diagnostic>::empty(),
    {
        Diagnostics::new()
    }
}

} // verus!
