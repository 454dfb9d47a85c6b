use starpls::binder::{
    ArgError, Argument, BuiltinFunctionParam, IntrinsicFunctionParam, Param, Slot, SlotProvider,
    Slots,
};
use starpls::ids::{ExprId, Ty};

fn simple(name: &str) -> Param {
    Param::Simple { name: name.to_string(), default: None }
}

fn star(name: &str) -> Param {
    Param::ArgsList { name: name.to_string() }
}

fn pos(e: u32) -> (Argument, Ty) {
    (Argument::Simple { expr: ExprId(e) }, Ty(e))
}

fn kw(name: &str, e: u32) -> (Argument, Ty) {
    (Argument::Keyword { name: name.to_string(), expr: ExprId(e) }, Ty(e))
}

fn single(e: u32) -> SlotProvider {
    SlotProvider::Single(ExprId(e), Ty(e))
}

fn keyword_slot(name: &str, provider: SlotProvider, positional: bool) -> Slot {
    Slot::Keyword { name: name.to_string(), provider, positional }
}

#[test]
fn positional_binding() {
    let params = vec![simple("a"), simple("b"), star("args"), simple("c")];
    let mut slots = Slots::from_params(&params);
    let args = vec![pos(1), pos(2), pos(3), pos(4), kw("c", 5)];
    let errors = slots.assign_args(&args);
    assert!(errors.is_empty());
    let slots = slots.into_inner();
    assert_eq!(
        slots,
        vec![
            keyword_slot("a", single(1), true),
            keyword_slot("b", single(2), true),
            Slot::ArgsList { providers: vec![single(3), single(4)], bare: false },
            keyword_slot("c", single(5), false),
        ]
    );
}

#[test]
fn unexpected_keyword() {
    let mut slots = Slots::from_params(&[simple("a")]);
    let errors = slots.assign_args(&[pos(1), kw("q", 2)]);
    assert_eq!(
        errors,
        vec![ArgError { expr: ExprId(2), message: "Unexpected keyword argument \"q\"".to_string() }]
    );
    assert_eq!(slots.into_inner(), vec![keyword_slot("a", single(1), true)]);
}

#[test]
fn list_unpack_smears_over_positionals() {
    let mut slots = Slots::from_params(&[simple("a"), simple("b"), star("args")]);
    let xs = (Argument::UnpackedList { expr: ExprId(9) }, Ty(9));
    let errors = slots.assign_args(&[pos(1), xs]);
    assert!(errors.is_empty());
    let smeared = SlotProvider::ArgsList(ExprId(9), Ty(9));
    assert_eq!(
        slots.into_inner(),
        vec![
            keyword_slot("a", single(1), true),
            keyword_slot("b", smeared, true),
            Slot::ArgsList { providers: vec![smeared], bare: false },
        ]
    );
}

#[test]
fn unexpected_positional() {
    let mut slots = Slots::from_params(&[simple("a")]);
    let errors = slots.assign_args(&[pos(1), pos(2)]);
    assert_eq!(
        errors,
        vec![ArgError { expr: ExprId(2), message: "Unexpected positional argument".to_string() }]
    );
    assert_eq!(slots.into_inner(), vec![keyword_slot("a", single(1), true)]);
}

#[test]
fn no_duplicate_positional_assignment() {
    let mut slots = Slots::from_params(&[simple("a"), simple("b")]);
    let errors = slots.assign_args(&[pos(1), pos(2), pos(3)]);
    assert_eq!(errors.len(), 1);
    assert_eq!(errors[0].expr, ExprId(3));
    assert_eq!(
        slots.into_inner(),
        vec![keyword_slot("a", single(1), true), keyword_slot("b", single(2), true)]
    );
}

#[test]
fn every_argument_is_accounted_for() {
    let params = vec![simple("a"), Param::KwargsDict { name: "kw".to_string() }];
    let mut slots = Slots::from_params(&params);
    let args = vec![pos(1), pos(2), kw("a", 3), kw("z", 4)];
    let errors = slots.assign_args(&args);
    // The second simple argument has no slot. `a` is bound already, so the
    // keyword `a` goes to `**kw` with `z`.
    assert_eq!(errors.len(), 1);
    assert_eq!(errors[0].expr, ExprId(2));
    assert_eq!(
        slots.into_inner(),
        vec![
            keyword_slot("a", single(1), true),
            Slot::KwargsDict { providers: vec![single(3), single(4)] },
        ]
    );
}

#[test]
fn dict_unpack_marks_every_keyword_slot() {
    let params = vec![simple("a"), simple("b"), Param::KwargsDict { name: "kw".to_string() }];
    let mut slots = Slots::from_params(&params);
    let d = (Argument::UnpackedDict { expr: ExprId(8) }, Ty(8));
    let errors = slots.assign_args(&[kw("a", 1), d]);
    assert!(errors.is_empty());
    let from_dict = SlotProvider::KwargsDict(ExprId(8), Ty(8));
    assert_eq!(
        slots.into_inner(),
        vec![
            keyword_slot("a", from_dict, true),
            keyword_slot("b", from_dict, true),
            Slot::KwargsDict { providers: vec![from_dict] },
        ]
    );
}

#[test]
fn keyword_overrides_dict_provider() {
    let mut slots = Slots::from_params(&[simple("a")]);
    let d = (Argument::UnpackedDict { expr: ExprId(8) }, Ty(8));
    let errors = slots.assign_args(&[d, kw("a", 2)]);
    assert!(errors.is_empty());
    assert_eq!(slots.into_inner(), vec![keyword_slot("a", single(2), true)]);
}

#[test]
fn bare_star_makes_keyword_only() {
    let slots = Slots::from_params(&[simple("a"), star(""), simple("b")]).into_inner();
    assert_eq!(
        slots,
        vec![
            keyword_slot("a", SlotProvider::Missing, true),
            Slot::ArgsList { providers: vec![], bare: true },
            keyword_slot("b", SlotProvider::Missing, false),
        ]
    );
    let mut slots = Slots::from_params(&[simple("a"), star(""), simple("b")]);
    let errors = slots.assign_args(&[pos(1), pos(2)]);
    assert_eq!(errors.len(), 1);
    assert_eq!(errors[0].message, "Unexpected positional argument");
}

#[test]
fn duplicate_star_args_and_trailing_params_are_ignored() {
    let params = vec![
        star("args"),
        star("more"),
        Param::KwargsDict { name: "kw".to_string() },
        simple("late"),
    ];
    let slots = Slots::from_params(&params).into_inner();
    assert_eq!(
        slots,
        vec![
            Slot::ArgsList { providers: vec![], bare: false },
            Slot::KwargsDict { providers: vec![] },
        ]
    );
}

#[test]
fn intrinsic_positional_after_star_stops() {
    let params = vec![
        IntrinsicFunctionParam::Positional { ty: Ty(0), optional: false },
        IntrinsicFunctionParam::Keyword { name: "k".to_string(), ty: Ty(0) },
        IntrinsicFunctionParam::ArgsList { ty: Ty(0) },
        IntrinsicFunctionParam::Positional { ty: Ty(0), optional: false },
        IntrinsicFunctionParam::KwargsDict,
    ];
    let slots = Slots::from_intrinsic_params(&params).into_inner();
    assert_eq!(
        slots,
        vec![
            Slot::Positional { provider: SlotProvider::Missing },
            keyword_slot("k", SlotProvider::Missing, false),
            Slot::ArgsList { providers: vec![], bare: false },
        ]
    );
}

#[test]
fn intrinsic_positional_slot_binds() {
    let params = vec![IntrinsicFunctionParam::Positional { ty: Ty(0), optional: false }];
    let mut slots = Slots::from_intrinsic_params(&params);
    let errors = slots.assign_args(&[pos(1), kw("x", 2)]);
    assert_eq!(errors.len(), 1);
    assert_eq!(errors[0].message, "Unexpected keyword argument \"x\"");
    assert_eq!(slots.into_inner(), vec![Slot::Positional { provider: single(1) }]);
}

#[test]
fn builtin_params_keep_positional_flag() {
    let params = vec![
        BuiltinFunctionParam::Simple { name: "a".to_string(), ty: Ty(0), positional: false },
        BuiltinFunctionParam::Simple { name: "b".to_string(), ty: Ty(0), positional: true },
        BuiltinFunctionParam::KwargsDict,
        BuiltinFunctionParam::ArgsList { ty: Ty(0) },
    ];
    let mut slots = Slots::from_builtin_params(&params);
    let errors = slots.assign_args(&[pos(1)]);
    assert!(errors.is_empty());
    assert_eq!(
        slots.into_inner(),
        vec![
            keyword_slot("a", SlotProvider::Missing, false),
            keyword_slot("b", single(1), true),
            Slot::KwargsDict { providers: vec![] },
        ]
    );
}
