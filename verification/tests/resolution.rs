use rforsp::context::Compilation;
use rforsp::diagnostics::{Class, Diagnostics, Site};
use rforsp::interner::{Interner, SymId, sym_if, sym_rec};
use rforsp::parser::{HirForm, HirKind};
use rforsp::resolution::{
    BindingId, BindingTable, BodyLayout, CaptureId, CaptureSource, Environment, Recognition, Resolution,
    ResolutionMap, ResolutionResult, ScopeBinding, ScopeBuilder, ScopeLookup, Target, recognise, resolve,
};
use rforsp::runtime::{PrimitiveId, PrimitiveRegistry};
use rforsp::source::{SourceId, SourceTable, Span, SyntaxId};

/* Bindings and layouts */

fn origin(table: &mut SourceTable) -> SyntaxId {
    let source = table.add_source_raw("test", "x".into()).expect("test source should be valid");
    table.add_origin(source, Span::new(0, 1))
}

fn binding(table: &mut BindingTable, layout: &mut BodyLayout) -> BindingId {
    let mut sources = SourceTable::new();
    let origin = origin(&mut sources);
    table.add(origin, layout.add_local())
}

#[test]
fn additions_preserve_their_metadata() {
    let mut sources = SourceTable::new();
    let first_origin = origin(&mut sources);
    let second_origin = origin(&mut sources);
    let mut layout = BodyLayout::new();
    let first_local = layout.add_local();
    let second_local = layout.add_local();
    let mut bindings = BindingTable::new();

    let first = bindings.add(first_origin, first_local);
    let second = bindings.add(second_origin, second_local);

    assert_ne!(first, second);
    assert_eq!(bindings.get(first).origin, first_origin);
    assert_eq!(bindings.get(first).local, first_local);
    assert_eq!(bindings.get(second).origin, second_origin);
    assert_eq!(bindings.get(second).local, second_local);
    assert_eq!(bindings.bindings().len(), 2);
}

#[test]
fn layout_assigns_dense_slots() {
    let mut layout = BodyLayout::new();

    assert_eq!(layout.local_count(), 0);
    assert!(layout.captures().is_empty());

    let first_local = layout.add_local();
    let second_local = layout.add_local();
    let first_capture = layout.add_capture(CaptureSource::Local(first_local));
    let second_capture = layout.add_capture(CaptureSource::Captured(first_capture));

    assert_ne!(first_local, second_local);
    assert_ne!(first_capture, second_capture);
    assert_eq!(layout.local_count(), 2);
    assert_eq!(
        layout.captures(),
        [CaptureSource::Local(first_local), CaptureSource::Captured(first_capture)]
    );
}

#[test]
fn repeated_capture_sources_reuse_their_slot() {
    let mut layout = BodyLayout::new();
    let local = layout.add_local();
    let source = CaptureSource::Local(local);

    let first = layout.add_capture(source);
    let repeated = layout.add_capture(source);

    assert_eq!(first, repeated);
    assert_eq!(layout.captures(), [source]);
}

#[test]
fn layout_ids_are_positions() {
    let mut layout = BodyLayout::new();
    assert_eq!(layout.add_local().index(), 0);
    assert_eq!(layout.add_local().index(), 1);
    let third = layout.add_local();
    let a = layout.add_capture(CaptureSource::Local(third));
    assert_eq!(a.index(), 0);
    let b = layout.add_capture(CaptureSource::Captured(a));
    assert_eq!(b.index(), 1);
    assert_eq!(layout.add_capture(CaptureSource::Captured(a)).index(), 1);
    assert_eq!(layout.local_count(), 3);
}

/* The environment */

struct Origins {
    table: SourceTable,
    source: SourceId,
}

impl Origins {
    fn new() -> Self {
        let mut table = SourceTable::new();
        let source = table.add_source_raw("environment-test", "x".into()).expect("test source should be valid");
        Self { table, source }
    }

    fn next(&mut self) -> SyntaxId {
        self.table.add_origin(self.source, Span::new(0, 1))
    }
}

fn env_local(environment: &mut Environment, sym: SymId) -> BindingId {
    environment
        .resolve(sym)
        .and_then(|target| match target {
            Target::Local(binding) => Some(binding),
            Target::Captured(_) | Target::Primitive(_) => None,
        })
        .expect("expected a local binding")
}

fn env_primitive(environment: &mut Environment, sym: SymId) -> PrimitiveId {
    environment
        .resolve(sym)
        .and_then(|target| match target {
            Target::Primitive(primitive) => Some(primitive),
            Target::Local(_) | Target::Captured(_) => None,
        })
        .expect("expected a primitive")
}

fn assert_captured(environment: &mut Environment, sym: SymId) {
    assert!(matches!(environment.resolve(sym), Some(Target::Captured(_))));
}

#[test]
fn locals_shadow_primitives() {
    let mut origins = Origins::new();
    let mut interner = Interner::new();
    let sym = interner.intern("primitive");
    let mut registry = PrimitiveRegistry::new();
    let expected = registry.add(sym);
    let mut environment = Environment::new(&registry);

    assert_eq!(env_primitive(&mut environment, sym), expected);
    let binding = environment.bind(origins.next(), sym);
    assert_eq!(env_local(&mut environment, sym), binding);
}

#[test]
fn body_scopes_shadow_and_restore() {
    let mut origins = Origins::new();
    let mut interner = Interner::new();
    let x = interner.intern("x");
    let y = interner.intern("y");
    let mut environment = Environment::new(&PrimitiveRegistry::new());

    let _ = environment.bind(origins.next(), x);
    let visible = environment.bind(origins.next(), x);
    assert_eq!(env_local(&mut environment, x), visible);

    environment.open_body();
    assert_captured(&mut environment, x);
    let inner_x = environment.bind(origins.next(), x);
    let inner_y = environment.bind(origins.next(), y);
    assert_eq!(env_local(&mut environment, x), inner_x);
    assert_eq!(env_local(&mut environment, y), inner_y);
    assert_eq!(environment.close_body().local_count(), 2);

    assert_eq!(env_local(&mut environment, x), visible);
    assert!(environment.resolve(y).is_none());
}

#[test]
fn arm_scopes_share_the_body_layout() {
    let mut origins = Origins::new();
    let mut interner = Interner::new();
    let outer_name = interner.intern("outer");
    let arm_name = interner.intern("arm");
    let mut environment = Environment::new(&PrimitiveRegistry::new());

    let outer = environment.bind(origins.next(), outer_name);
    environment.enter_arm();
    let arm = environment.bind(origins.next(), arm_name);
    assert_eq!(env_local(&mut environment, outer_name), outer);
    assert_eq!(env_local(&mut environment, arm_name), arm);

    environment.open_body();
    assert_captured(&mut environment, outer_name);
    assert_captured(&mut environment, arm_name);
    assert_eq!(environment.close_body().captures().len(), 2);

    environment.leave_arm();
    assert!(environment.resolve(arm_name).is_none());
    assert_eq!(environment.finish().1.local_count(), 2);
}

#[test]
fn captures_thread_through_every_intervening_body() {
    let mut origins = Origins::new();
    let mut interner = Interner::new();
    let x = interner.intern("x");
    let mut environment = Environment::new(&PrimitiveRegistry::new());
    let _ = environment.bind(origins.next(), x);
    environment.open_body();
    environment.open_body();
    assert_captured(&mut environment, x);
    let inner = environment.close_body();
    let middle = environment.close_body();
    assert_eq!(middle.captures().len(), 1);
    assert!(matches!(middle.captures()[0], CaptureSource::Local(_)));
    assert_eq!(inner.captures().len(), 1);
    assert!(matches!(inner.captures()[0], CaptureSource::Captured(_)));
}

/* Scopes */

#[test]
fn lexical_scopes_shadow_and_restore_bindings() {
    let mut interner = Interner::new();
    let x = interner.intern("x");
    let y = interner.intern("y");
    let registry = PrimitiveRegistry::new();
    let mut scopes = ScopeBuilder::new(&registry);
    let mut bindings = BindingTable::new();
    let mut layout = BodyLayout::new();
    let outer = binding(&mut bindings, &mut layout);
    let later = binding(&mut bindings, &mut layout);
    let inner = binding(&mut bindings, &mut layout);

    scopes.push_body();
    scopes.bind(x, outer);
    assert_eq!(scopes.lookup(x), Some(ScopeLookup { binding: ScopeBinding::Binding(outer), body_distance: 0 }));
    scopes.bind(x, later);
    assert_eq!(scopes.lookup(x), Some(ScopeLookup { binding: ScopeBinding::Binding(later), body_distance: 0 }));

    scopes.push_body();
    assert_eq!(scopes.lookup(x), Some(ScopeLookup { binding: ScopeBinding::Binding(later), body_distance: 1 }));
    scopes.bind(x, inner);
    scopes.bind(y, inner);
    assert_eq!(scopes.lookup(x), Some(ScopeLookup { binding: ScopeBinding::Binding(inner), body_distance: 0 }));

    scopes.pop_body();
    assert_eq!(scopes.lookup(x), Some(ScopeLookup { binding: ScopeBinding::Binding(later), body_distance: 0 }));
    assert_eq!(scopes.lookup(y), None);
}

#[test]
fn arm_scopes_preserve_body_distance() {
    let mut interner = Interner::new();
    let outer_name = interner.intern("outer");
    let arm_name = interner.intern("arm");
    let registry = PrimitiveRegistry::new();
    let mut scopes = ScopeBuilder::new(&registry);
    let mut bindings = BindingTable::new();
    let mut outer_layout = BodyLayout::new();
    let outer = binding(&mut bindings, &mut outer_layout);
    let arm = binding(&mut bindings, &mut outer_layout);

    scopes.push_body();
    scopes.bind(outer_name, outer);
    scopes.push_arm();
    scopes.bind(arm_name, arm);
    assert_eq!(
        scopes.lookup(outer_name),
        Some(ScopeLookup { binding: ScopeBinding::Binding(outer), body_distance: 0 })
    );

    scopes.push_body();
    assert_eq!(scopes.lookup(arm_name), Some(ScopeLookup { binding: ScopeBinding::Binding(arm), body_distance: 1 }));
    assert_eq!(
        scopes.lookup(outer_name),
        Some(ScopeLookup { binding: ScopeBinding::Binding(outer), body_distance: 1 })
    );

    scopes.pop_body();
    scopes.pop_arm();
    assert_eq!(scopes.lookup(arm_name), None);
}

#[test]
fn bindings_shadow_primordial_primitives() {
    let mut interner = Interner::new();
    let sym = interner.intern("primitive");
    let mut registry = PrimitiveRegistry::new();
    let primitive = registry.add(sym);
    let mut scopes = ScopeBuilder::new(&registry);
    let mut bindings = BindingTable::new();
    let mut layout = BodyLayout::new();
    let binding = binding(&mut bindings, &mut layout);

    assert_eq!(
        scopes.lookup(sym),
        Some(ScopeLookup { binding: ScopeBinding::Primitive(primitive), body_distance: 0 })
    );

    scopes.push_body();
    scopes.bind(sym, binding);
    assert_eq!(scopes.lookup(sym), Some(ScopeLookup { binding: ScopeBinding::Binding(binding), body_distance: 0 }));

    scopes.pop_body();
    assert_eq!(
        scopes.lookup(sym),
        Some(ScopeLookup { binding: ScopeBinding::Primitive(primitive), body_distance: 0 })
    );
}

/* Recognition */

struct RecFixture {
    environment: Environment,
    table: SourceTable,
    source: SourceId,
}

impl RecFixture {
    fn new() -> Self {
        let mut compilation = Compilation::new();
        let source = compilation
            .table
            .add_source_raw("recognition-test", "x".into())
            .expect("test source should be valid");
        let environment = Environment::new(&compilation.primitives);
        Self { environment, table: compilation.table, source }
    }

    fn form(&mut self, kind: HirKind) -> HirForm {
        let id = self.table.add_origin(self.source, Span::new(0, 1));
        HirForm::new(id, kind)
    }
}

#[test]
fn recognises_recursive_vector_and_remainder() {
    let mut fixture = RecFixture::new();

    let body_form = fixture.form(HirKind::Int(1));
    let body_form_id = body_form.id;

    let operand = fixture.form(HirKind::Vector(vec![body_form]));
    let operand_id = operand.id;

    let operator = fixture.form(HirKind::Call(sym_rec()));
    let operator_id = operator.id;

    let trailing = fixture.form(HirKind::Int(2));
    let trailing_id = trailing.id;

    let forms = vec![operand, operator, trailing];

    let (recognition, remaining) =
        recognise(&forms, &fixture.environment).expect("recursive vector should match");

    assert_eq!(remaining.len(), 1);
    assert_eq!(remaining[0].id, trailing_id);
    assert!(matches!(&recognition, Recognition::Recursive { .. }), "expected recursive recognition");

    let Recognition::Recursive { operand_id: recognised_operand, body, operator } = recognition else {
        unreachable!();
    };

    assert_eq!(recognised_operand, operand_id);
    assert_eq!(body.len(), 1);
    assert_eq!(body[0].id, body_form_id);
    assert_eq!(operator.id, operator_id);
}

#[test]
fn recognises_recursive_data_operands() {
    let mut fixture = RecFixture::new();
    let quoted = fixture.form(HirKind::Int(1));
    let kinds = [HirKind::Int(0), HirKind::Quote(Box::new(quoted)), HirKind::List(Vec::new())];

    for kind in kinds {
        let operand = fixture.form(kind);
        let operand_id = operand.id;
        let operator = fixture.form(HirKind::Call(sym_rec()));
        let operator_id = operator.id;
        let forms = vec![operand, operator];

        let (recognition, remaining) = recognise(&forms, &fixture.environment)
            .expect("data before built-in rec should match its error path");
        assert!(remaining.is_empty());
        assert!(matches!(
            recognition,
            Recognition::RecursiveData { operand_id: found_operand, operator_id: found_operator }
                if found_operand == operand_id && found_operator == operator_id
        ));
    }
}

#[test]
fn computed_recursive_operands_keep_the_dynamic_path() {
    let mut fixture = RecFixture::new();
    let sym = sym_if();

    for kind in [HirKind::Bind(sym), HirKind::Load(sym), HirKind::Call(sym)] {
        let operand = fixture.form(kind);
        let operator = fixture.form(HirKind::Call(sym_rec()));
        let forms = vec![operand, operator];
        assert!(recognise(&forms, &fixture.environment).is_none());
    }
}

#[test]
fn recognises_conditional_arms_and_remainder() {
    let mut fixture = RecFixture::new();

    let quoted = fixture.form(HirKind::Int(2));

    let then_body = fixture.form(HirKind::Int(1));
    let then_arm = fixture.form(HirKind::Vector(vec![then_body]));
    let then_id = then_arm.id;

    let else_arm = fixture.form(HirKind::Quote(Box::new(quoted)));
    let else_id = else_arm.id;

    let operator = fixture.form(HirKind::Call(sym_if()));
    let operator_id = operator.id;

    let trailing = fixture.form(HirKind::Int(3));
    let trailing_id = trailing.id;

    let forms = vec![then_arm, else_arm, operator, trailing];

    let (recognition, remaining) = recognise(&forms, &fixture.environment).expect("conditional should match");

    assert_eq!(remaining.len(), 1);
    assert_eq!(remaining[0].id, trailing_id);
    assert!(matches!(&recognition, Recognition::Conditional { .. }), "expected conditional recognition");

    let Recognition::Conditional { then_arm, else_arm, operator } = recognition else {
        unreachable!();
    };

    assert_eq!(then_arm.id, then_id);
    assert_eq!(else_arm.id, else_id);
    assert_eq!(operator.id, operator_id);
}

#[test]
fn environment_dependent_forms_are_not_conditional_arms() {
    let mut fixture = RecFixture::new();
    let sym = sym_if();

    for kind in [HirKind::Bind(sym), HirKind::Load(sym), HirKind::Call(sym)] {
        let then_arm = fixture.form(kind);
        let else_arm = fixture.form(HirKind::Int(0));
        let operator = fixture.form(HirKind::Call(sym_if()));
        let forms = vec![then_arm, else_arm, operator];
        assert!(recognise(&forms, &fixture.environment).is_none());
    }

    for kind in [HirKind::Bind(sym), HirKind::Load(sym), HirKind::Call(sym)] {
        let then_arm = fixture.form(HirKind::Int(0));
        let else_arm = fixture.form(kind);
        let operator = fixture.form(HirKind::Call(sym_if()));
        let forms = vec![then_arm, else_arm, operator];
        assert!(recognise(&forms, &fixture.environment).is_none());
    }
}

#[test]
fn shadowed_operators_are_not_recognised() {
    let mut fixture = RecFixture::new();
    let bind_if = fixture.form(HirKind::Int(0)).id;
    let _ = fixture.environment.bind(bind_if, sym_if());

    let then_arm = fixture.form(HirKind::Int(1));
    let else_arm = fixture.form(HirKind::Int(2));
    let operator = fixture.form(HirKind::Call(sym_if()));

    let forms = vec![then_arm, else_arm, operator];
    assert!(recognise(&forms, &fixture.environment).is_none());

    let bind_rec = fixture.form(HirKind::Int(0)).id;
    let _ = fixture.environment.bind(bind_rec, sym_rec());

    let operand = fixture.form(HirKind::Vector(Vec::new()));
    let operator = fixture.form(HirKind::Call(sym_rec()));

    let forms = vec![operand, operator];
    assert!(recognise(&forms, &fixture.environment).is_none());
}

/* The resolver */

struct Fixture {
    compilation: Compilation,
    source: SourceId,
}

impl Fixture {
    fn new() -> Self {
        let mut compilation = Compilation::new();
        let source =
            compilation.table.add_source_raw("resolver-test", "x".into()).expect("test source should be valid");
        Self { compilation, source }
    }

    fn id(&mut self) -> SyntaxId {
        self.compilation.table.add_origin(self.source, Span::new(0, 1))
    }

    fn sym(&mut self, name: &str) -> SymId {
        self.compilation.interner.intern(name)
    }

    fn resolve(&self, forms: &[HirForm]) -> (ResolutionResult, Diagnostics) {
        let (results, diagnostics) =
            resolve(forms, &self.compilation.table, &self.compilation.interner, &self.compilation.primitives);
        (results.expect("Resolution never returns None"), diagnostics)
    }
}

fn bound(map: &ResolutionMap, id: SyntaxId) -> BindingId {
    map.get(id)
        .and_then(|resolution| match resolution {
            Resolution::Bound(binding) => Some(*binding),
            _ => None,
        })
        .expect("expected a binding")
}

fn local(map: &ResolutionMap, id: SyntaxId) -> BindingId {
    map.get(id)
        .and_then(|resolution| match resolution {
            Resolution::Ref(Target::Local(binding)) => Some(*binding),
            _ => None,
        })
        .expect("expected a local reference")
}

fn captured(map: &ResolutionMap, id: SyntaxId) -> CaptureId {
    map.get(id)
        .and_then(|resolution| match resolution {
            Resolution::Ref(Target::Captured(capture)) => Some(*capture),
            _ => None,
        })
        .expect("expected a captured reference")
}

fn closure(map: &ResolutionMap, id: SyntaxId) -> &BodyLayout {
    map.get(id)
        .and_then(|resolution| match resolution {
            Resolution::MakesClosure(layout) => Some(layout),
            _ => None,
        })
        .expect("expected a closure layout")
}

#[test]
fn data_is_not_walked() {
    let mut fixture = Fixture::new();
    let x = fixture.sym("x");
    let quoted_bind = fixture.id();
    let quote = fixture.id();
    let listed_call = fixture.id();
    let list = fixture.id();
    let forms = vec![
        HirForm::new(quote, HirKind::Quote(Box::new(HirForm::new(quoted_bind, HirKind::Bind(x))))),
        HirForm::new(list, HirKind::List(vec![HirForm::new(listed_call, HirKind::Call(x))])),
    ];

    let (result, _) = fixture.resolve(&forms);
    assert!(result.map.is_empty());
    assert_eq!(result.entry.local_count(), 0);
}

#[test]
fn bindings_resolve_sequentially() {
    let mut fixture = Fixture::new();
    let x = fixture.sym("x");
    let plus = fixture.sym("+");
    let before = fixture.id();
    let bind_1 = fixture.id();
    let load_1 = fixture.id();
    let bind_2 = fixture.id();
    let call_2 = fixture.id();
    let primitive = fixture.id();
    let forms = vec![
        HirForm::new(before, HirKind::Call(x)),
        HirForm::new(bind_1, HirKind::Bind(x)),
        HirForm::new(load_1, HirKind::Load(x)),
        HirForm::new(bind_2, HirKind::Bind(x)),
        HirForm::new(call_2, HirKind::Call(x)),
        HirForm::new(primitive, HirKind::Call(plus)),
    ];

    let (result, diagnostics) = fixture.resolve(&forms);

    assert!(diagnostics.has_errors(), "Expected diagnostics to have errors given call before bind");

    assert!(matches!(result.map.get(before), Some(Resolution::Poison)));

    let first = bound(&result.map, bind_1);
    let second = bound(&result.map, bind_2);
    assert_ne!(first, second);
    assert_eq!(local(&result.map, load_1), first);
    assert_eq!(local(&result.map, call_2), second);
    assert_eq!(result.bindings.get(first).origin, bind_1);
    assert_eq!(result.bindings.get(second).origin, bind_2);
    assert_eq!(result.entry.local_count(), 2);

    assert!(matches!(result.map.get(primitive), Some(Resolution::Ref(Target::Primitive(_)))));
}

#[test]
fn unresolved_references_report_and_continue() {
    let mut fixture = Fixture::new();
    let x = fixture.sym("x");
    let y = fixture.sym("y");
    let missing_x = fixture.id();
    let missing_y = fixture.id();
    let vector = fixture.id();
    let bind_x = fixture.id();
    let resolved_x = fixture.id();
    let forms = vec![
        HirForm::new(missing_x, HirKind::Call(x)),
        HirForm::new(vector, HirKind::Vector(vec![HirForm::new(missing_y, HirKind::Load(y))])),
        HirForm::new(bind_x, HirKind::Bind(x)),
        HirForm::new(resolved_x, HirKind::Call(x)),
    ];

    let (result, diagnostics) = fixture.resolve(&forms);

    assert_eq!(diagnostics.error_count(), 2);
    assert_eq!(diagnostics.items().len(), 2);
    for (diagnostic, origin) in diagnostics.items().iter().zip([missing_x, missing_y]) {
        assert_eq!(diagnostic.class, Class::ResolutionUnresolvedSymbol);
        assert_eq!(diagnostic.site, Site::Syntax(origin));
    }

    assert!(matches!(result.map.get(missing_x), Some(Resolution::Poison)));
    assert!(matches!(result.map.get(missing_y), Some(Resolution::Poison)));
    assert!(matches!(result.map.get(vector), Some(Resolution::MakesClosure(_))));
    assert_eq!(local(&result.map, resolved_x), bound(&result.map, bind_x));
}

#[test]
fn captures_follow_depth_first_demand() {
    let mut fixture = Fixture::new();
    let x = fixture.sym("x");
    let y = fixture.sym("y");
    let bind_x = fixture.id();
    let bind_y = fixture.id();
    let inner_y = fixture.id();
    let inner_x = fixture.id();
    let inner_vector = fixture.id();
    let middle_x = fixture.id();
    let middle_vector = fixture.id();
    let forms = vec![
        HirForm::new(bind_x, HirKind::Bind(x)),
        HirForm::new(bind_y, HirKind::Bind(y)),
        HirForm::new(
            middle_vector,
            HirKind::Vector(vec![
                HirForm::new(
                    inner_vector,
                    HirKind::Vector(vec![
                        HirForm::new(inner_y, HirKind::Call(y)),
                        HirForm::new(inner_x, HirKind::Call(x)),
                    ]),
                ),
                HirForm::new(middle_x, HirKind::Call(x)),
            ]),
        ),
    ];

    let (result, _) = fixture.resolve(&forms);

    let y_slot = captured(&result.map, inner_y);
    let x_slot = captured(&result.map, inner_x);
    assert_ne!(y_slot, x_slot);
    assert!(matches!(
        closure(&result.map, middle_vector).captures(),
        [CaptureSource::Local(_), CaptureSource::Local(_)]
    ));

    assert_eq!(captured(&result.map, middle_x), x_slot);

    assert_eq!(
        closure(&result.map, inner_vector).captures(),
        [CaptureSource::Captured(y_slot), CaptureSource::Captured(x_slot)]
    );
}

#[test]
fn deep_nesting_is_iterative() {
    const DEPTH: usize = 20_000;

    let mut fixture = Fixture::new();
    let mut form = HirForm::new(fixture.id(), HirKind::Int(0));
    for _ in 0..DEPTH {
        form = HirForm::new(fixture.id(), HirKind::Vector(vec![form]));
    }

    let (result, _) = fixture.resolve(&[form]);
    assert_eq!(result.map.len(), DEPTH);
}

#[test]
fn conditionals_and_recursion_are_recognised() {
    let mut fixture = Fixture::new();
    let then_id = fixture.id();
    let else_id = fixture.id();
    let if_id = fixture.id();
    let body_id = fixture.id();
    let rec_id = fixture.id();
    let data_id = fixture.id();
    let bad_rec_id = fixture.id();
    let forms = vec![
        HirForm::new(then_id, HirKind::Vector(Vec::new())),
        HirForm::new(else_id, HirKind::Int(0)),
        HirForm::new(if_id, HirKind::Call(sym_if())),
        HirForm::new(body_id, HirKind::Vector(Vec::new())),
        HirForm::new(rec_id, HirKind::Call(sym_rec())),
        HirForm::new(data_id, HirKind::Int(7)),
        HirForm::new(bad_rec_id, HirKind::Call(sym_rec())),
    ];

    let (result, diagnostics) = fixture.resolve(&forms);

    assert!(matches!(result.map.get(if_id), Some(Resolution::Conditional)));
    assert!(matches!(result.map.get(rec_id), Some(Resolution::Recursive)));
    assert!(matches!(result.map.get(body_id), Some(Resolution::MakesRecursiveClosure(_))));
    assert!(matches!(result.map.get(then_id), Some(Resolution::BranchArm(_))));
    assert!(matches!(result.map.get(else_id), Some(Resolution::BranchArm(_))));
    assert!(matches!(result.map.get(data_id), Some(Resolution::Poison)));
    assert!(matches!(result.map.get(bad_rec_id), Some(Resolution::Recursive)));
    assert_eq!(diagnostics.error_count(), 1);
    assert_eq!(diagnostics.items()[0].class, Class::ResolutionRecDataOperand);
}

#[test]
fn bindings_read_back_after_many_additions() {
    let mut sources = SourceTable::new();
    let mut layout = BodyLayout::new();
    let mut bindings = BindingTable::new();
    let first_origin = origin(&mut sources);
    let first_local = layout.add_local();
    let first = bindings.add(first_origin, first_local);
    let mut last = first;
    for _ in 0..20 {
        let o = origin(&mut sources);
        let l = layout.add_local();
        let id = bindings.add(o, l);
        assert!(id.index() > last.index());
        last = id;
    }
    assert_eq!(bindings.bindings().len(), 21);
    assert_eq!(bindings.get(first).origin, first_origin);
    assert_eq!(bindings.get(first).local, first_local);
}
