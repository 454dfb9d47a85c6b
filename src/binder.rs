//! Binding of call-site arguments to the formal parameters of a callee.
//!
//! The routine follows PEP 3102, extended with `*args` and `**kwargs`
//! handling: formals become a vector of slots, positional arguments are
//! bound in a first pass and keyword arguments in a second one.
use vstd::prelude::*;
use crate::ids::{ExprId, Ty};

verus! {

/// A formal parameter of a user-defined function.
#[derive(Clone, Debug, PartialEq, Eq)]
pub enum Param {
    Simple { name: String, default: Option<ExprId> },
    /// `*args`; a bare `*` marker has an empty name.
    ArgsList { name: String },
    KwargsDict { name: String },
}

/// A formal parameter of an engine intrinsic.
#[derive(Clone, Debug, PartialEq, Eq)]
pub enum IntrinsicFunctionParam {
    Positional { ty: Ty, optional: bool },
    Keyword { name: String, ty: Ty },
    ArgsList { ty: Ty },
    KwargsDict,
}

/// A formal parameter of a host-provided builtin.
#[derive(Clone, Debug, PartialEq, Eq)]
pub enum BuiltinFunctionParam {
    Simple { name: String, ty: Ty, positional: bool },
    ArgsList { ty: Ty },
    KwargsDict,
}

/// An argument at a call site.
#[derive(Clone, Debug, PartialEq, Eq)]
pub enum Argument {
    Simple { expr: ExprId },
    Keyword { name: String, expr: ExprId },
    UnpackedList { expr: ExprId },
    UnpackedDict { expr: ExprId },
}

/// Describes the value assigned to a slot.
#[derive(Clone, Copy, Debug, PartialEq, Eq, Structural)]
pub enum SlotProvider {
    Missing,
    Single(ExprId, Ty),
    ArgsList(ExprId, Ty),
    KwargsDict(ExprId, Ty),
}

/// A slot for a formal parameter.
#[derive(Clone, Debug, PartialEq, Eq)]
pub enum Slot {
    Positional { provider: SlotProvider },
    Keyword { name: String, provider: SlotProvider, positional: bool },
    ArgsList { providers: Vec<SlotProvider>, bare: bool },
    KwargsDict { providers: Vec<SlotProvider> },
}

/// The mathematical value of a [`Slot`].
pub enum SlotModel {
    Positional { provider: SlotProvider },
    Keyword { name: Seq<char>, provider: SlotProvider, positional: bool },
    ArgsList { providers: Seq<SlotProvider>, bare: bool },
    KwargsDict { providers: Seq<SlotProvider> },
}

impl View for Slot {
    type V = SlotModel;

    open spec fn view(&self) -> SlotModel {
        match self {
            Slot::Positional { provider } => SlotModel::Positional { provider: *provider },
            Slot::Keyword { name, provider, positional } => SlotModel::Keyword {
                name: name@,
                provider: *provider,
                positional: *positional,
            },
            Slot::ArgsList { providers, bare } => SlotModel::ArgsList {
                providers: providers@,
                bare: *bare,
            },
            Slot::KwargsDict { providers } => SlotModel::KwargsDict { providers: providers@ },
        }
    }
}

/// A diagnostic produced while binding arguments.
#[derive(Clone, Debug, PartialEq, Eq)]
pub struct ArgError {
    pub expr: ExprId,
    pub message: String,
}

/// The mathematical value of an [`ArgError`].
pub struct ArgErrorModel {
    pub expr: ExprId,
    pub message: Seq<char>,
}

impl View for ArgError {
    type V = ArgErrorModel;

    open spec fn view(&self) -> ArgErrorModel {
        ArgErrorModel { expr: self.expr, message: self.message@ }
    }
}

/// The slot vector of one call.
pub struct Slots(pub Vec<Slot>);

impl View for Slots {
    type V = Seq<SlotModel>;

    open spec fn view(&self) -> Seq<SlotModel> {
        self.0@.map_values(|s: Slot| s@)
    }
}

/// State while turning formals into slots: the slots so far, whether a
/// `*args` formal was seen, and whether collection has stopped.
pub struct FormalState {
    pub slots: Seq<SlotModel>,
    pub saw_vararg: bool,
    pub done: bool,
}

pub open spec fn initial_formal_state() -> FormalState {
    FormalState { slots: Seq::empty(), saw_vararg: false, done: false }
}

/// One user formal.
pub open spec fn user_formal_step(st: FormalState, p: Param) -> FormalState {
    if st.done {
        st
    } else {
        match p {
            Param::Simple { name, .. } => FormalState {
                slots: st.slots.push(
                    SlotModel::Keyword {
                        name: name@,
                        provider: SlotProvider::Missing,
                        positional: !st.saw_vararg,
                    },
                ),
                ..st
            },
            Param::ArgsList { name } => if st.saw_vararg {
                st
            } else {
                FormalState {
                    slots: st.slots.push(
                        SlotModel::ArgsList { providers: Seq::empty(), bare: name@.len() == 0 },
                    ),
                    saw_vararg: true,
                    done: false,
                }
            },
            Param::KwargsDict { .. } => FormalState {
                slots: st.slots.push(SlotModel::KwargsDict { providers: Seq::empty() }),
                saw_vararg: st.saw_vararg,
                done: true,
            },
        }
    }
}

pub open spec fn user_formals(ps: Seq<Param>) -> FormalState
    decreases ps.len(),
{
    if ps.len() == 0 {
        initial_formal_state()
    } else {
        user_formal_step(user_formals(ps.drop_last()), ps.last())
    }
}

/// One intrinsic formal; a positional formal after `*args` stops collection.
pub open spec fn intrinsic_formal_step(st: FormalState, p: IntrinsicFunctionParam) -> FormalState {
    if st.done {
        st
    } else {
        match p {
            IntrinsicFunctionParam::Positional { .. } => if st.saw_vararg {
                FormalState { done: true, ..st }
            } else {
                FormalState {
                    slots: st.slots.push(SlotModel::Positional { provider: SlotProvider::Missing }),
                    ..st
                }
            },
            IntrinsicFunctionParam::Keyword { name, .. } => FormalState {
                slots: st.slots.push(
                    SlotModel::Keyword {
                        name: name@,
                        provider: SlotProvider::Missing,
                        positional: false,
                    },
                ),
                ..st
            },
            IntrinsicFunctionParam::ArgsList { .. } => if st.saw_vararg {
                st
            } else {
                FormalState {
                    slots: st.slots.push(
                        SlotModel::ArgsList { providers: Seq::empty(), bare: false },
                    ),
                    saw_vararg: true,
                    done: false,
                }
            },
            IntrinsicFunctionParam::KwargsDict => FormalState {
                slots: st.slots.push(SlotModel::KwargsDict { providers: Seq::empty() }),
                saw_vararg: st.saw_vararg,
                done: true,
            },
        }
    }
}

pub open spec fn intrinsic_formals(ps: Seq<IntrinsicFunctionParam>) -> FormalState
    decreases ps.len(),
{
    if ps.len() == 0 {
        initial_formal_state()
    } else {
        intrinsic_formal_step(intrinsic_formals(ps.drop_last()), ps.last())
    }
}

/// One builtin formal; every simple formal carries its own positional flag.
pub open spec fn builtin_formal_step(st: FormalState, p: BuiltinFunctionParam) -> FormalState {
    if st.done {
        st
    } else {
        match p {
            BuiltinFunctionParam::Simple { name, positional, .. } => FormalState {
                slots: st.slots.push(
                    SlotModel::Keyword {
                        name: name@,
                        provider: SlotProvider::Missing,
                        positional: positional,
                    },
                ),
                ..st
            },
            BuiltinFunctionParam::ArgsList { .. } => if st.saw_vararg {
                st
            } else {
                FormalState {
                    slots: st.slots.push(
                        SlotModel::ArgsList { providers: Seq::empty(), bare: false },
                    ),
                    saw_vararg: true,
                    done: false,
                }
            },
            BuiltinFunctionParam::KwargsDict => FormalState {
                slots: st.slots.push(SlotModel::KwargsDict { providers: Seq::empty() }),
                saw_vararg: st.saw_vararg,
                done: true,
            },
        }
    }
}

pub open spec fn builtin_formals(ps: Seq<BuiltinFunctionParam>) -> FormalState
    decreases ps.len(),
{
    if ps.len() == 0 {
        initial_formal_state()
    } else {
        builtin_formal_step(builtin_formals(ps.drop_last()), ps.last())
    }
}

/// Whether the first pass may bind a positional argument to this slot.
pub open spec fn accepts_positional(s: SlotModel) -> bool {
    match s {
        SlotModel::Positional { provider } => provider == SlotProvider::Missing,
        SlotModel::Keyword { provider, positional, .. } => provider == SlotProvider::Missing
            && positional,
        SlotModel::ArgsList { bare, .. } => !bare,
        SlotModel::KwargsDict { .. } => false,
    }
}

/// Whether the second pass may bind a keyword argument named `n` to this slot.
pub open spec fn accepts_keyword(s: SlotModel, n: Seq<char>) -> bool {
    match s {
        SlotModel::Keyword { name, provider, .. } => name == n && (provider
            == SlotProvider::Missing || provider is KwargsDict),
        SlotModel::KwargsDict { .. } => true,
        _ => false,
    }
}

/// The first index at or after `j` whose slot accepts a positional argument,
/// or `slots.len()` when there is none.
pub open spec fn first_positional_from(slots: Seq<SlotModel>, j: int) -> int
    decreases slots.len() - j,
{
    if j < 0 || j >= slots.len() {
        slots.len() as int
    } else if accepts_positional(slots[j]) {
        j
    } else {
        first_positional_from(slots, j + 1)
    }
}

/// The first index at or after `j` whose slot accepts the keyword `n`,
/// or `slots.len()` when there is none.
pub open spec fn first_keyword_from(slots: Seq<SlotModel>, n: Seq<char>, j: int) -> int
    decreases slots.len() - j,
{
    if j < 0 || j >= slots.len() {
        slots.len() as int
    } else if accepts_keyword(slots[j], n) {
        j
    } else {
        first_keyword_from(slots, n, j + 1)
    }
}

/// The slot after `p` is given to it: a single slot takes `p` as its
/// provider, a collecting slot appends it.
pub open spec fn fill_slot(s: SlotModel, p: SlotProvider) -> SlotModel {
    match s {
        SlotModel::Positional { .. } => SlotModel::Positional { provider: p },
        SlotModel::Keyword { name, positional, .. } => SlotModel::Keyword {
            name,
            provider: p,
            positional,
        },
        SlotModel::ArgsList { providers, bare } => SlotModel::ArgsList {
            providers: providers.push(p),
            bare,
        },
        SlotModel::KwargsDict { providers } => SlotModel::KwargsDict {
            providers: providers.push(p),
        },
    }
}

/// What an unpacked list does to one slot.
pub open spec fn smear_list(s: SlotModel, p: SlotProvider) -> SlotModel {
    if accepts_positional(s) {
        fill_slot(s, p)
    } else {
        s
    }
}

/// What an unpacked dict does to one slot.
pub open spec fn smear_dict(s: SlotModel, p: SlotProvider) -> SlotModel {
    match s {
        SlotModel::Keyword { .. } => fill_slot(s, p),
        SlotModel::KwargsDict { .. } => fill_slot(s, p),
        _ => s,
    }
}

pub open spec fn positional_error_message() -> Seq<char> {
    "Unexpected positional argument"@
}

pub open spec fn keyword_error_message(n: Seq<char>) -> Seq<char> {
    "Unexpected keyword argument \""@ + n + "\""@
}

/// The binder's working state: slots and the diagnostics so far.
pub struct BindState {
    pub slots: Seq<SlotModel>,
    pub errors: Seq<ArgErrorModel>,
}

/// First pass, one argument: simple arguments and unpacked lists.
pub open spec fn positional_step(st: BindState, a: (Argument, Ty)) -> BindState {
    match a.0 {
        Argument::Simple { expr } => {
            let i = first_positional_from(st.slots, 0);
            if i < st.slots.len() {
                BindState {
                    slots: st.slots.update(i, fill_slot(st.slots[i], SlotProvider::Single(expr, a.1))),
                    errors: st.errors,
                }
            } else {
                BindState {
                    slots: st.slots,
                    errors: st.errors.push(
                        ArgErrorModel { expr, message: positional_error_message() },
                    ),
                }
            }
        },
        Argument::UnpackedList { expr } => BindState {
            slots: st.slots.map_values(
                |s: SlotModel| smear_list(s, SlotProvider::ArgsList(expr, a.1)),
            ),
            errors: st.errors,
        },
        _ => st,
    }
}

/// Second pass, one argument: keyword arguments and unpacked dicts.
pub open spec fn keyword_step(st: BindState, a: (Argument, Ty)) -> BindState {
    match a.0 {
        Argument::Keyword { name, expr } => {
            let i = first_keyword_from(st.slots, name@, 0);
            if i < st.slots.len() {
                BindState {
                    slots: st.slots.update(i, fill_slot(st.slots[i], SlotProvider::Single(expr, a.1))),
                    errors: st.errors,
                }
            } else {
                BindState {
                    slots: st.slots,
                    errors: st.errors.push(
                        ArgErrorModel { expr, message: keyword_error_message(name@) },
                    ),
                }
            }
        },
        Argument::UnpackedDict { expr } => BindState {
            slots: st.slots.map_values(
                |s: SlotModel| smear_dict(s, SlotProvider::KwargsDict(expr, a.1)),
            ),
            errors: st.errors,
        },
        _ => st,
    }
}

pub open spec fn positional_pass(st: BindState, args: Seq<(Argument, Ty)>) -> BindState
    decreases args.len(),
{
    if args.len() == 0 {
        st
    } else {
        positional_step(positional_pass(st, args.drop_last()), args.last())
    }
}

pub open spec fn keyword_pass(st: BindState, args: Seq<(Argument, Ty)>) -> BindState
    decreases args.len(),
{
    if args.len() == 0 {
        st
    } else {
        keyword_step(keyword_pass(st, args.drop_last()), args.last())
    }
}

/// The complete binding of `args` against `slots`: both passes in turn.
pub open spec fn bind_args(slots: Seq<SlotModel>, args: Seq<(Argument, Ty)>) -> BindState {
    keyword_pass(positional_pass(BindState { slots, errors: Seq::empty() }, args), args)
}

fn accepts_positional_exec(s: &Slot) -> (r: bool)
    ensures
        r == accepts_positional(s@),
{
    match s {
        Slot::Positional { provider } => matches!(provider, SlotProvider::Missing),
        Slot::Keyword { provider, positional, .. } => matches!(provider, SlotProvider::Missing)
            && *positional,
        Slot::ArgsList { bare, .. } => !*bare,
        Slot::KwargsDict { .. } => false,
    }
}

fn accepts_keyword_exec(s: &Slot, n: &String) -> (r: bool)
    ensures
        r == accepts_keyword(s@, n@),
{
    match s {
        Slot::Keyword { name, provider, .. } => *name == *n && (matches!(
            provider,
            SlotProvider::Missing
        ) || matches!(provider, SlotProvider::KwargsDict(_, _))),
        Slot::KwargsDict { .. } => true,
        _ => false,
    }
}

fn pushed(ps: &Vec<SlotProvider>, p: SlotProvider) -> (r: Vec<SlotProvider>)
    ensures
        r@ == ps@.push(p),
{
    let mut r: Vec<SlotProvider> = Vec::new();
    let mut i: usize = 0;
    while i < ps.len()
        invariant
            0 <= i <= ps@.len(),
            r@ =~= ps@.take(i as int),
        decreases ps@.len() - i,
    {
        r.push(ps[i]);
        i = i + 1;
    }
    r.push(p);
    proof {
        assert(ps@.take(i as int) =~= ps@);
    }
    r
}

fn filled(s: &Slot, p: SlotProvider) -> (r: Slot)
    ensures
        r@ == fill_slot(s@, p),
{
    match s {
        Slot::Positional { .. } => Slot::Positional { provider: p },
        Slot::Keyword { name, positional, .. } => Slot::Keyword {
            name: name.clone(),
            provider: p,
            positional: *positional,
        },
        Slot::ArgsList { providers, bare } => Slot::ArgsList {
            providers: pushed(providers, p),
            bare: *bare,
        },
        Slot::KwargsDict { providers } => Slot::KwargsDict { providers: pushed(providers, p) },
    }
}

fn keyword_message(n: &String) -> (r: String)
    ensures
        r@ == keyword_error_message(n@),
{
    let mut m = "Unexpected keyword argument \"".to_owned();
    m.append(n.as_str());
    m.append("\"");
    m
}

fn empty_providers() -> (r: Vec<SlotProvider>)
    ensures
        r@ == Seq::<SlotProvider>::empty(),
{
    Vec::new()
}

impl Slots {
    /// Slots for the formals of a user-defined function.
    pub fn from_params(params: &[Param]) -> (r: Slots)
        ensures
            r@ == user_formals(params@).slots,
    {
        let mut slots: Vec<Slot> = Vec::new();
        let mut saw_vararg = false;
        let mut done = false;
        let mut i: usize = 0;
        while i < params.len()
            invariant
                0 <= i <= params@.len(),
                user_formals(params@.take(i as int)).slots =~= slots@.map_values(|s: Slot| s@),
                user_formals(params@.take(i as int)).saw_vararg == saw_vararg,
                user_formals(params@.take(i as int)).done == done,
            decreases params@.len() - i,
        {
            proof {
                assert(params@.take(i as int + 1).drop_last() =~= params@.take(i as int));
            }
            let ghost before = slots@;
            if !done {
                match &params[i] {
                    Param::Simple { name, .. } => {
                        slots.push(
                            Slot::Keyword {
                                name: name.clone(),
                                provider: SlotProvider::Missing,
                                positional: !saw_vararg,
                            },
                        );
                    },
                    Param::ArgsList { name } => {
                        if !saw_vararg {
                            slots.push(
                                Slot::ArgsList {
                                    providers: empty_providers(),
                                    bare: name.as_str().is_empty(),
                                },
                            );
                            saw_vararg = true;
                        }
                    },
                    Param::KwargsDict { .. } => {
                        slots.push(Slot::KwargsDict { providers: empty_providers() });
                        done = true;
                    },
                }
            }
            proof {
                if slots@.len() > before.len() {
                    assert(slots@.map_values(|s: Slot| s@) =~= before.map_values(|s: Slot| s@).push(
                        slots@.last()@,
                    ));
                }
            }
            i = i + 1;
        }
        proof {
            assert(params@.take(i as int) =~= params@);
        }
        Slots(slots)
    }
    /// Slots for the formals of an engine intrinsic.
    pub fn from_intrinsic_params(params: &[IntrinsicFunctionParam]) -> (r: Slots)
        ensures
            r@ == intrinsic_formals(params@).slots,
    {
        let mut slots: Vec<Slot> = Vec::new();
        let mut saw_vararg = false;
        let mut done = false;
        let mut i: usize = 0;
        while i < params.len()
            invariant
                0 <= i <= params@.len(),
                intrinsic_formals(params@.take(i as int)).slots =~= slots@.map_values(|s: Slot| s@),
                intrinsic_formals(params@.take(i as int)).saw_vararg == saw_vararg,
                intrinsic_formals(params@.take(i as int)).done == done,
            decreases params@.len() - i,
        {
            proof {
                assert(params@.take(i as int + 1).drop_last() =~= params@.take(i as int));
            }
            let ghost before = slots@;
            if !done {
                match &params[i] {
                    IntrinsicFunctionParam::Positional { .. } => {
                        if saw_vararg {
                            done = true;
                        } else {
                            slots.push(Slot::Positional { provider: SlotProvider::Missing });
                        }
                    },
                    IntrinsicFunctionParam::Keyword { name, .. } => {
                        slots.push(
                            Slot::Keyword {
                                name: name.clone(),
                                provider: SlotProvider::Missing,
                                positional: false,
                            },
                        );
                    },
                    IntrinsicFunctionParam::ArgsList { .. } => {
                        if !saw_vararg {
                            slots.push(Slot::ArgsList { providers: empty_providers(), bare: false });
                            saw_vararg = true;
                        }
                    },
                    IntrinsicFunctionParam::KwargsDict => {
                        slots.push(Slot::KwargsDict { providers: empty_providers() });
                        done = true;
                    },
                }
            }
            proof {
                if slots@.len() > before.len() {
                    assert(slots@.map_values(|s: Slot| s@) =~= before.map_values(|s: Slot| s@).push(
                        slots@.last()@,
                    ));
                }
            }
            i = i + 1;
        }
        proof {
            assert(params@.take(i as int) =~= params@);
        }
        Slots(slots)
    }

    /// Slots for the formals of a host-provided builtin.
    pub fn from_builtin_params(params: &[BuiltinFunctionParam]) -> (r: Slots)
        ensures
            r@ == builtin_formals(params@).slots,
    {
        let mut slots: Vec<Slot> = Vec::new();
        let mut saw_vararg = false;
        let mut done = false;
        let mut i: usize = 0;
        while i < params.len()
            invariant
                0 <= i <= params@.len(),
                builtin_formals(params@.take(i as int)).slots =~= slots@.map_values(|s: Slot| s@),
                builtin_formals(params@.take(i as int)).saw_vararg == saw_vararg,
                builtin_formals(params@.take(i as int)).done == done,
            decreases params@.len() - i,
        {
            proof {
                assert(params@.take(i as int + 1).drop_last() =~= params@.take(i as int));
            }
            let ghost before = slots@;
            if !done {
                match &params[i] {
                    BuiltinFunctionParam::Simple { name, positional, .. } => {
                        slots.push(
                            Slot::Keyword {
                                name: name.clone(),
                                provider: SlotProvider::Missing,
                                positional: *positional,
                            },
                        );
                    },
                    BuiltinFunctionParam::ArgsList { .. } => {
                        if !saw_vararg {
                            slots.push(Slot::ArgsList { providers: empty_providers(), bare: false });
                            saw_vararg = true;
                        }
                    },
                    BuiltinFunctionParam::KwargsDict => {
                        slots.push(Slot::KwargsDict { providers: empty_providers() });
                        done = true;
                    },
                }
            }
            proof {
                if slots@.len() > before.len() {
                    assert(slots@.map_values(|s: Slot| s@) =~= before.map_values(|s: Slot| s@).push(
                        slots@.last()@,
                    ));
                }
            }
            i = i + 1;
        }
        proof {
            assert(params@.take(i as int) =~= params@);
        }
        Slots(slots)
    }

    /// Binds `args` to the slots and returns a diagnostic for each argument
    /// that no slot accepts.
    pub fn assign_args(&mut self, args: &[(Argument, Ty)]) -> (errors: Vec<ArgError>)
        ensures
            final(self)@ == bind_args(old(self)@, args@).slots,
            errors@.map_values(|e: ArgError| e@) == bind_args(old(self)@, args@).errors,
    {
        let mut errors: Vec<ArgError> = Vec::new();
        let ghost start = BindState { slots: self@, errors: Seq::empty() };
        proof {
            assert(errors@.map_values(|e: ArgError| e@) =~= Seq::<ArgErrorModel>::empty());
        }
        let mut i: usize = 0;
        while i < args.len()
            invariant
                0 <= i <= args@.len(),
                positional_pass(start, args@.take(i as int)) == (BindState {
                    slots: self@,
                    errors: errors@.map_values(|e: ArgError| e@),
                }),
            decreases args@.len() - i,
        {
            proof {
                assert(args@.take(i as int + 1).drop_last() =~= args@.take(i as int));
            }
            self.bind_positional(&args[i], &mut errors);
            i = i + 1;
        }
        proof {
            assert(args@.take(i as int) =~= args@);
        }
        let ghost mid = positional_pass(start, args@);
        let mut i: usize = 0;
        while i < args.len()
            invariant
                0 <= i <= args@.len(),
                mid == positional_pass(start, args@),
                keyword_pass(mid, args@.take(i as int)) == (BindState {
                    slots: self@,
                    errors: errors@.map_values(|e: ArgError| e@),
                }),
            decreases args@.len() - i,
        {
            proof {
                assert(args@.take(i as int + 1).drop_last() =~= args@.take(i as int));
            }
            self.bind_keyword(&args[i], &mut errors);
            i = i + 1;
        }
        proof {
            assert(args@.take(i as int) =~= args@);
        }
        errors
    }

    fn bind_positional(&mut self, arg: &(Argument, Ty), errors: &mut Vec<ArgError>)
        ensures
            (BindState { slots: final(self)@, errors: final(errors)@.map_values(|e: ArgError| e@) })
                == positional_step(
                BindState { slots: old(self)@, errors: old(errors)@.map_values(|e: ArgError| e@) },
                *arg,
            ),
    {
        let ghost old_errors = errors@;
        let ty = arg.1;
        match &arg.0 {
            Argument::Simple { expr } => {
                let j = self.first_positional();
                if j < self.0.len() {
                    let slot = filled(&self.0[j], SlotProvider::Single(*expr, ty));
                    self.0[j] = slot;
                    proof {
                        assert(self@ =~= old(self)@.update(
                            j as int,
                            fill_slot(old(self)@[j as int], SlotProvider::Single(*expr, ty)),
                        ));
                    }
                } else {
                    errors.push(ArgError { expr: *expr, message: "Unexpected positional argument".to_owned() });
                    proof {
                        assert(errors@.map_values(|e: ArgError| e@) =~= old_errors.map_values(
                            |e: ArgError| e@,
                        ).push(ArgErrorModel { expr: *expr, message: positional_error_message() }));
                    }
                }
            },
            Argument::UnpackedList { expr } => {
                let p = SlotProvider::ArgsList(*expr, ty);
                let mut j: usize = 0;
                while j < self.0.len()
                    invariant
                        0 <= j <= self@.len(),
                        self@.len() == old(self)@.len(),
                        errors@ == old_errors,
                        forall|k: int| 0 <= k < j ==> self@[k] == smear_list(old(self)@[k], p),
                        forall|k: int| j <= k < self@.len() ==> self@[k] == old(self)@[k],
                    decreases self@.len() - j,
                {
                    let ghost prev = self@;
                    if accepts_positional_exec(&self.0[j]) {
                        let slot = filled(&self.0[j], p);
                        self.0[j] = slot;
                    }
                    proof {
                        assert(self@[j as int] == smear_list(old(self)@[j as int], p));
                        assert(forall|k: int| 0 <= k < self@.len() && k != j ==> self@[k] == prev[k]);
                        assert forall|k: int| 0 <= k < j + 1 implies self@[k] == smear_list(
                            old(self)@[k],
                            p,
                        ) by {
                            if k < j {
                                assert(prev[k] == smear_list(old(self)@[k], p));
                            }
                        }
                    }
                    j = j + 1;
                }
                proof {
                    assert(self@ =~= old(self)@.map_values(|s: SlotModel| smear_list(s, p)));
                }
            },
            _ => {},
        }
    }

    fn bind_keyword(&mut self, arg: &(Argument, Ty), errors: &mut Vec<ArgError>)
        ensures
            (BindState { slots: final(self)@, errors: final(errors)@.map_values(|e: ArgError| e@) })
                == keyword_step(
                BindState { slots: old(self)@, errors: old(errors)@.map_values(|e: ArgError| e@) },
                *arg,
            ),
    {
        let ghost old_errors = errors@;
        let ty = arg.1;
        match &arg.0 {
            Argument::Keyword { name, expr } => {
                let j = self.first_keyword(name);
                if j < self.0.len() {
                    let slot = filled(&self.0[j], SlotProvider::Single(*expr, ty));
                    self.0[j] = slot;
                    proof {
                        assert(self@ =~= old(self)@.update(
                            j as int,
                            fill_slot(old(self)@[j as int], SlotProvider::Single(*expr, ty)),
                        ));
                    }
                } else {
                    errors.push(ArgError { expr: *expr, message: keyword_message(name) });
                    proof {
                        assert(errors@.map_values(|e: ArgError| e@) =~= old_errors.map_values(
                            |e: ArgError| e@,
                        ).push(ArgErrorModel { expr: *expr, message: keyword_error_message(name@) }));
                    }
                }
            },
            Argument::UnpackedDict { expr } => {
                let p = SlotProvider::KwargsDict(*expr, ty);
                let mut j: usize = 0;
                while j < self.0.len()
                    invariant
                        0 <= j <= self@.len(),
                        self@.len() == old(self)@.len(),
                        errors@ == old_errors,
                        forall|k: int| 0 <= k < j ==> self@[k] == smear_dict(old(self)@[k], p),
                        forall|k: int| j <= k < self@.len() ==> self@[k] == old(self)@[k],
                    decreases self@.len() - j,
                {
                    let collects = match &self.0[j] {
                        Slot::Keyword { .. } => true,
                        Slot::KwargsDict { .. } => true,
                        _ => false,
                    };
                    let ghost prev = self@;
                    if collects {
                        let slot = filled(&self.0[j], p);
                        self.0[j] = slot;
                    }
                    proof {
                        assert(self@[j as int] == smear_dict(old(self)@[j as int], p));
                        assert(forall|k: int| 0 <= k < self@.len() && k != j ==> self@[k] == prev[k]);
                        assert forall|k: int| 0 <= k < j + 1 implies self@[k] == smear_dict(
                            old(self)@[k],
                            p,
                        ) by {
                            if k < j {
                                assert(prev[k] == smear_dict(old(self)@[k], p));
                            }
                        }
                    }
                    j = j + 1;
                }
                proof {
                    assert(self@ =~= old(self)@.map_values(|s: SlotModel| smear_dict(s, p)));
                }
            },
            _ => {},
        }
    }

    fn first_positional(&self) -> (j: usize)
        ensures
            j as int == first_positional_from(self@, 0),
    {
        let mut j: usize = 0;
        while j < self.0.len()
            invariant
                0 <= j <= self@.len(),
                first_positional_from(self@, 0) == first_positional_from(self@, j as int),
            decreases self@.len() - j,
        {
            if accepts_positional_exec(&self.0[j]) {
                return j;
            }
            j = j + 1;
        }
        j
    }

    fn first_keyword(&self, n: &String) -> (j: usize)
        ensures
            j as int == first_keyword_from(self@, n@, 0),
    {
        let mut j: usize = 0;
        while j < self.0.len()
            invariant
                0 <= j <= self@.len(),
                first_keyword_from(self@, n@, 0) == first_keyword_from(self@, n@, j as int),
            decreases self@.len() - j,
        {
            if accepts_keyword_exec(&self.0[j], n) {
                return j;
            }
            j = j + 1;
        }
        j
    }

    /// The slot vector, for passes that read the final binding.
    pub fn into_inner(self) -> (r: Vec<Slot>)
        ensures
            r@.map_values(|s: Slot| s@) == self@,
    {
        self.0
    }
}

} // verus!

verus! {

/// The binder's state before argument `k` of `args` is looked at by the
/// positional pass.
pub open spec fn positional_state(slots: Seq<SlotModel>, args: Seq<(Argument, Ty)>, k: int) -> BindState {
    positional_pass(BindState { slots, errors: Seq::empty() }, args.take(k))
}

/// The index of the slot that argument `k` is bound to by the positional
/// pass, or the number of slots when none takes it.
pub open spec fn positional_target(slots: Seq<SlotModel>, args: Seq<(Argument, Ty)>, k: int) -> int {
    first_positional_from(positional_state(slots, args, k).slots, 0)
}

/// The binder's state before argument `k` is looked at by the keyword pass.
pub open spec fn keyword_state(slots: Seq<SlotModel>, args: Seq<(Argument, Ty)>, k: int) -> BindState {
    keyword_pass(positional_state(slots, args, args.len() as int), args.take(k))
}

/// The index of the slot that argument `k` is bound to by the keyword pass,
/// or the number of slots when none takes it.
pub open spec fn keyword_target(slots: Seq<SlotModel>, args: Seq<(Argument, Ty)>, k: int) -> int {
    match args[k].0 {
        Argument::Keyword { name, .. } => first_keyword_from(keyword_state(slots, args, k).slots, name@, 0),
        _ => slots.len() as int,
    }
}

/// Whether a slot holds `p`, as its provider or among its providers.
pub open spec fn holds(s: SlotModel, p: SlotProvider) -> bool {
    match s {
        SlotModel::Positional { provider } => provider == p,
        SlotModel::Keyword { provider, .. } => provider == p,
        SlotModel::ArgsList { providers, .. } => providers.contains(p),
        SlotModel::KwargsDict { providers } => providers.contains(p),
    }
}

/// Whether a slot is a single slot that already has a provider.
pub open spec fn occupied(s: SlotModel) -> bool {
    !accepts_positional(s) && !(s is ArgsList)
}

proof fn lemma_first_positional(slots: Seq<SlotModel>, j: int)
    requires
        0 <= j <= slots.len(),
    ensures
        j <= first_positional_from(slots, j) <= slots.len(),
        first_positional_from(slots, j) < slots.len() ==> accepts_positional(
            slots[first_positional_from(slots, j)],
        ),
        forall|k: int| j <= k < first_positional_from(slots, j) ==> !accepts_positional(slots[k]),
    decreases slots.len() - j,
{
    if j < slots.len() && !accepts_positional(slots[j]) {
        lemma_first_positional(slots, j + 1);
    }
}

proof fn lemma_first_keyword(slots: Seq<SlotModel>, n: Seq<char>, j: int)
    requires
        0 <= j <= slots.len(),
    ensures
        j <= first_keyword_from(slots, n, j) <= slots.len(),
        first_keyword_from(slots, n, j) < slots.len() ==> accepts_keyword(
            slots[first_keyword_from(slots, n, j)],
            n,
        ),
    decreases slots.len() - j,
{
    if j < slots.len() && !accepts_keyword(slots[j], n) {
        lemma_first_keyword(slots, n, j + 1);
    }
}

/// The positional pass keeps the number of slots and the kind of each.
proof fn lemma_positional_pass_shape(st: BindState, args: Seq<(Argument, Ty)>)
    ensures
        positional_pass(st, args).slots.len() == st.slots.len(),
        forall|i: int|
            0 <= i < st.slots.len() ==> (positional_pass(st, args).slots[i] is ArgsList
                <==> st.slots[i] is ArgsList),
    decreases args.len(),
{
    if args.len() > 0 {
        lemma_positional_pass_shape(st, args.drop_last());
        let prev = positional_pass(st, args.drop_last());
        lemma_first_positional(prev.slots, 0);
    }
}

/// A slot that takes no positional argument is left alone by later
/// positional steps.
proof fn lemma_unaccepting_stays(slots: Seq<SlotModel>, args: Seq<(Argument, Ty)>, t: int, k: int, m: int)
    requires
        0 <= k <= m <= args.len(),
        0 <= t < positional_state(slots, args, k).slots.len(),
        !accepts_positional(positional_state(slots, args, k).slots[t]),
    ensures
        positional_state(slots, args, m).slots.len() == positional_state(slots, args, k).slots.len(),
        positional_state(slots, args, m).slots[t] == positional_state(slots, args, k).slots[t],
    decreases m - k,
{
    if m > k {
        lemma_unaccepting_stays(slots, args, t, k, m - 1);
        assert(args.take(m).drop_last() =~= args.take(m - 1));
        let prev = positional_state(slots, args, m - 1);
        lemma_first_positional(prev.slots, 0);
    }
}

/// No two simple arguments are bound by the positional pass to the same slot,
/// unless that slot is the `*args` slot.
pub proof fn lemma_no_duplicate_positional(
    slots: Seq<SlotModel>,
    args: Seq<(Argument, Ty)>,
    k1: int,
    k2: int,
)
    requires
        0 <= k1 < k2 < args.len(),
        args[k1].0 is Simple,
        args[k2].0 is Simple,
        positional_target(slots, args, k1) < slots.len(),
        positional_target(slots, args, k1) == positional_target(slots, args, k2),
    ensures
        slots[positional_target(slots, args, k1)] is ArgsList,
{
    let t = positional_target(slots, args, k1);
    let st0 = BindState { slots, errors: Seq::empty() };
    lemma_positional_pass_shape(st0, args.take(k1));
    lemma_positional_pass_shape(st0, args.take(k1 + 1));
    lemma_positional_pass_shape(st0, args.take(k2));
    let before = positional_state(slots, args, k1);
    lemma_first_positional(before.slots, 0);
    if !(slots[t] is ArgsList) {
        assert(args.take(k1 + 1).drop_last() =~= args.take(k1));
        let after = positional_state(slots, args, k1 + 1);
        assert(after.slots[t] == fill_slot(before.slots[t], SlotProvider::Single(
            args[k1].0->Simple_expr,
            args[k1].1,
        )));
        assert(occupied(after.slots[t]));
        lemma_unaccepting_stays(slots, args, t, k1 + 1, k2);
        let at_k2 = positional_state(slots, args, k2);
        lemma_first_positional(at_k2.slots, 0);
        assert(!accepts_positional(at_k2.slots[t]));
    }
}

/// The number of arguments among the first `n` that the positional pass
/// rejects.
pub open spec fn positional_rejections(slots: Seq<SlotModel>, args: Seq<(Argument, Ty)>, n: int) -> nat
    decreases n,
{
    if n <= 0 {
        0
    } else {
        positional_rejections(slots, args, n - 1) + if args[n - 1].0 is Simple
            && positional_target(slots, args, n - 1) >= positional_state(slots, args, n - 1).slots.len() {
            1nat
        } else {
            0nat
        }
    }
}

/// The number of arguments among the first `n` that the keyword pass rejects.
pub open spec fn keyword_rejections(slots: Seq<SlotModel>, args: Seq<(Argument, Ty)>, n: int) -> nat
    decreases n,
{
    if n <= 0 {
        0
    } else {
        keyword_rejections(slots, args, n - 1) + if args[n - 1].0 is Keyword
            && keyword_target(slots, args, n - 1) >= keyword_state(slots, args, n - 1).slots.len() {
            1nat
        } else {
            0nat
        }
    }
}

proof fn lemma_positional_errors(slots: Seq<SlotModel>, args: Seq<(Argument, Ty)>, n: int)
    requires
        0 <= n <= args.len(),
    ensures
        positional_state(slots, args, n).errors.len() == positional_rejections(slots, args, n),
    decreases n,
{
    if n > 0 {
        lemma_positional_errors(slots, args, n - 1);
        assert(args.take(n).drop_last() =~= args.take(n - 1));
        lemma_first_positional(positional_state(slots, args, n - 1).slots, 0);
    }
}

proof fn lemma_keyword_errors(slots: Seq<SlotModel>, args: Seq<(Argument, Ty)>, n: int)
    requires
        0 <= n <= args.len(),
    ensures
        keyword_state(slots, args, n).errors.len() == positional_state(
            slots,
            args,
            args.len() as int,
        ).errors.len() + keyword_rejections(slots, args, n),
    decreases n,
{
    if n > 0 {
        lemma_keyword_errors(slots, args, n - 1);
        assert(args.take(n).drop_last() =~= args.take(n - 1));
        let prev = keyword_state(slots, args, n - 1);
        match args[n - 1].0 {
            Argument::Keyword { name, .. } => lemma_first_keyword(prev.slots, name@, 0),
            _ => {},
        }
    }
}

/// No argument is silently dropped: each simple or keyword argument is
/// either taken by the slot it is bound to or reported by one diagnostic
/// naming its expression, unpacked arguments are taken by every slot that
/// accepts them and never reported, and the diagnostics are exactly as many
/// as the rejected arguments.
pub proof fn lemma_binder_completeness(slots: Seq<SlotModel>, args: Seq<(Argument, Ty)>, k: int)
    requires
        0 <= k < args.len(),
    ensures
        ({
            let before = positional_state(slots, args, k);
            let after = positional_state(slots, args, k + 1);
            let t = positional_target(slots, args, k);
            &&& args[k].0 is Simple ==> {
                ||| t < before.slots.len() && holds(
                    after.slots[t],
                    SlotProvider::Single(args[k].0->Simple_expr, args[k].1),
                ) && after.errors == before.errors
                ||| t == before.slots.len() && after.slots == before.slots && after.errors
                    == before.errors.push(
                    ArgErrorModel { expr: args[k].0->Simple_expr, message: positional_error_message() },
                )
            }
            &&& args[k].0 is UnpackedList ==> after.errors == before.errors && forall|i: int|
                0 <= i < before.slots.len() && accepts_positional(before.slots[i]) ==> holds(
                    after.slots[i],
                    SlotProvider::ArgsList(args[k].0->UnpackedList_expr, args[k].1),
                )
        }),
        ({
            let before = keyword_state(slots, args, k);
            let after = keyword_state(slots, args, k + 1);
            let t = keyword_target(slots, args, k);
            &&& args[k].0 is Keyword ==> {
                ||| t < before.slots.len() && holds(
                    after.slots[t],
                    SlotProvider::Single(args[k].0->Keyword_expr, args[k].1),
                ) && after.errors == before.errors
                ||| t == before.slots.len() && after.slots == before.slots && after.errors
                    == before.errors.push(
                    ArgErrorModel {
                        expr: args[k].0->Keyword_expr,
                        message: keyword_error_message(args[k].0->Keyword_name@),
                    },
                )
            }
            &&& args[k].0 is UnpackedDict ==> after.errors == before.errors && forall|i: int|
                0 <= i < before.slots.len() && (before.slots[i] is Keyword
                    || before.slots[i] is KwargsDict) ==> holds(
                    after.slots[i],
                    SlotProvider::KwargsDict(args[k].0->UnpackedDict_expr, args[k].1),
                )
        }),
        bind_args(slots, args).errors.len() == positional_rejections(slots, args, args.len() as int)
            + keyword_rejections(slots, args, args.len() as int),
{
    assert(args.take(k + 1).drop_last() =~= args.take(k));
    let before = positional_state(slots, args, k);
    lemma_first_positional(before.slots, 0);
    let kbefore = keyword_state(slots, args, k);
    match args[k].0 {
        Argument::Keyword { name, .. } => lemma_first_keyword(kbefore.slots, name@, 0),
        _ => {},
    }
    if args[k].0 is Simple {
        let t = positional_target(slots, args, k);
        if t < before.slots.len() {
            let p = SlotProvider::Single(args[k].0->Simple_expr, args[k].1);
            let filled_slot = fill_slot(before.slots[t], p);
            match before.slots[t] {
                SlotModel::ArgsList { providers, .. } => {
                    assert(filled_slot->ArgsList_providers.last() == p);
                },
                _ => {},
            }
        }
    }
    if args[k].0 is Keyword {
        let t = keyword_target(slots, args, k);
        if t < kbefore.slots.len() {
            let p = SlotProvider::Single(args[k].0->Keyword_expr, args[k].1);
            let filled_slot = fill_slot(kbefore.slots[t], p);
            match kbefore.slots[t] {
                SlotModel::KwargsDict { providers } => {
                    assert(filled_slot->KwargsDict_providers.last() == p);
                },
                _ => {},
            }
        }
    }
    if args[k].0 is UnpackedList {
        let p = SlotProvider::ArgsList(args[k].0->UnpackedList_expr, args[k].1);
        assert forall|i: int|
            0 <= i < before.slots.len() && accepts_positional(before.slots[i]) implies holds(
            positional_state(slots, args, k + 1).slots[i],
            p,
        ) by {
            let f = fill_slot(before.slots[i], p);
            if before.slots[i] is ArgsList {
                assert(f->ArgsList_providers.last() == p);
            }
        }
    }
    if args[k].0 is UnpackedDict {
        let p = SlotProvider::KwargsDict(args[k].0->UnpackedDict_expr, args[k].1);
        assert forall|i: int|
            0 <= i < kbefore.slots.len() && (kbefore.slots[i] is Keyword
                || kbefore.slots[i] is KwargsDict) implies holds(
            keyword_state(slots, args, k + 1).slots[i],
            p,
        ) by {
            let f = fill_slot(kbefore.slots[i], p);
            if kbefore.slots[i] is KwargsDict {
                assert(f->KwargsDict_providers.last() == p);
            }
        }
    }
    let n = args.len() as int;
    lemma_positional_errors(slots, args, n);
    lemma_keyword_errors(slots, args, n);
    assert(args.take(n) =~= args);
}

/// Simple arguments fill single slots in rising slot order: a later simple
/// argument that the positional pass binds goes to a slot after that of an
/// earlier one bound to a single slot, and no later positional step replaces
/// what the earlier one put there.
pub proof fn lemma_positional_targets_rise(
    slots: Seq<SlotModel>,
    args: Seq<(Argument, Ty)>,
    k1: int,
    k2: int,
)
    requires
        0 <= k1 < k2 < args.len(),
        args[k1].0 is Simple,
        args[k2].0 is Simple,
        positional_target(slots, args, k1) < slots.len(),
        !(slots[positional_target(slots, args, k1)] is ArgsList),
    ensures
        positional_target(slots, args, k2) < slots.len() ==> positional_target(slots, args, k1)
            < positional_target(slots, args, k2),
        forall|m: int|
            k1 < m <= args.len() ==> #[trigger] positional_state(slots, args, m).slots[positional_target(
                slots,
                args,
                k1,
            )] == positional_state(slots, args, k1 + 1).slots[positional_target(slots, args, k1)],
        holds(
            positional_state(slots, args, args.len() as int).slots[positional_target(slots, args, k1)],
            SlotProvider::Single(args[k1].0->Simple_expr, args[k1].1),
        ),
{
    let t = positional_target(slots, args, k1);
    let st0 = BindState { slots, errors: Seq::empty() };
    lemma_positional_pass_shape(st0, args.take(k1));
    lemma_positional_pass_shape(st0, args.take(k1 + 1));
    lemma_positional_pass_shape(st0, args.take(k2));
    let before = positional_state(slots, args, k1);
    lemma_first_positional(before.slots, 0);
    assert(args.take(k1 + 1).drop_last() =~= args.take(k1));
    let after = positional_state(slots, args, k1 + 1);
    let p = SlotProvider::Single(args[k1].0->Simple_expr, args[k1].1);
    assert(after.slots[t] == fill_slot(before.slots[t], p));
    assert(!accepts_positional(after.slots[t]));
    assert forall|m: int| k1 < m <= args.len() implies #[trigger] positional_state(slots, args, m).slots[t]
        == after.slots[t] by {
        lemma_unaccepting_stays(slots, args, t, k1 + 1, m);
    }
    assert(positional_state(slots, args, args.len() as int).slots[t] == after.slots[t]);
    let at_k2 = positional_state(slots, args, k2);
    lemma_first_positional(at_k2.slots, 0);
    assert forall|i: int| 0 <= i <= t implies !accepts_positional(#[trigger] at_k2.slots[i]) by {
        if i < t {
            assert(!accepts_positional(before.slots[i]));
            assert(args.take(k1 + 1).drop_last() =~= args.take(k1));
            assert(after.slots[i] == before.slots[i]);
            lemma_unaccepting_stays(slots, args, i, k1 + 1, k2);
        } else {
            lemma_unaccepting_stays(slots, args, t, k1 + 1, k2);
        }
    }
}

/// Whether `a` is a prefix of `b`.
pub open spec fn is_prefix<T>(a: Seq<T>, b: Seq<T>) -> bool {
    a.len() <= b.len() && forall|i: int| 0 <= i < a.len() ==> a[i] == b[i]
}

proof fn lemma_fill_holds(s: SlotModel, p: SlotProvider)
    ensures
        holds(fill_slot(s, p), p),
{
    match s {
        SlotModel::ArgsList { providers, .. } => {
            assert(fill_slot(s, p)->ArgsList_providers.last() == p);
        },
        SlotModel::KwargsDict { providers } => {
            assert(fill_slot(s, p)->KwargsDict_providers.last() == p);
        },
        _ => {},
    }
}

proof fn lemma_fill_keeps(s: SlotModel, q: SlotProvider, p: SlotProvider)
    requires
        holds(s, p),
        s is ArgsList || s is KwargsDict,
    ensures
        holds(fill_slot(s, q), p),
{
    match s {
        SlotModel::ArgsList { providers, .. } => {
            let i = choose|i: int| 0 <= i < providers.len() && providers[i] == p;
            assert(fill_slot(s, q)->ArgsList_providers[i] == p);
        },
        SlotModel::KwargsDict { providers } => {
            let i = choose|i: int| 0 <= i < providers.len() && providers[i] == p;
            assert(fill_slot(s, q)->KwargsDict_providers[i] == p);
        },
        _ => {},
    }
}

/// A positional step keeps what a slot holds, and the diagnostics so far.
proof fn lemma_positional_step_keeps(st: BindState, a: (Argument, Ty), t: int, p: SlotProvider)
    requires
        0 <= t < st.slots.len(),
        p != SlotProvider::Missing,
        holds(st.slots[t], p),
    ensures
        positional_step(st, a).slots.len() == st.slots.len(),
        holds(positional_step(st, a).slots[t], p),
        is_prefix(st.errors, positional_step(st, a).errors),
{
    lemma_first_positional(st.slots, 0);
    let n = positional_step(st, a);
    if n.slots[t] != st.slots[t] {
        lemma_fill_keeps(st.slots[t], match a.0 {
            Argument::Simple { expr } => SlotProvider::Single(expr, a.1),
            Argument::UnpackedList { expr } => SlotProvider::ArgsList(expr, a.1),
            _ => p,
        }, p);
    }
}

/// A keyword step other than an unpacked dict keeps the single argument a
/// slot holds, and the diagnostics so far.
proof fn lemma_keyword_step_keeps(st: BindState, a: (Argument, Ty), t: int, p: SlotProvider)
    requires
        0 <= t < st.slots.len(),
        p is Single,
        !(a.0 is UnpackedDict),
        holds(st.slots[t], p),
    ensures
        keyword_step(st, a).slots.len() == st.slots.len(),
        holds(keyword_step(st, a).slots[t], p),
        is_prefix(st.errors, keyword_step(st, a).errors),
{
    match a.0 {
        Argument::Keyword { name, expr } => {
            lemma_first_keyword(st.slots, name@, 0);
            let n = keyword_step(st, a);
            if n.slots[t] != st.slots[t] {
                lemma_fill_keeps(st.slots[t], SlotProvider::Single(expr, a.1), p);
            }
        },
        _ => {},
    }
}

proof fn lemma_positional_keeps_from(
    slots: Seq<SlotModel>,
    args: Seq<(Argument, Ty)>,
    k: int,
    m: int,
    t: int,
    p: SlotProvider,
)
    requires
        0 <= k <= m <= args.len(),
        0 <= t < positional_state(slots, args, k).slots.len(),
        p != SlotProvider::Missing,
        holds(positional_state(slots, args, k).slots[t], p),
    ensures
        positional_state(slots, args, m).slots.len() == positional_state(slots, args, k).slots.len(),
        holds(positional_state(slots, args, m).slots[t], p),
        is_prefix(positional_state(slots, args, k).errors, positional_state(slots, args, m).errors),
    decreases m - k,
{
    if m > k {
        lemma_positional_keeps_from(slots, args, k, m - 1, t, p);
        assert(args.take(m).drop_last() =~= args.take(m - 1));
        lemma_positional_step_keeps(positional_state(slots, args, m - 1), args[m - 1], t, p);
    }
}

proof fn lemma_keyword_keeps_from(
    slots: Seq<SlotModel>,
    args: Seq<(Argument, Ty)>,
    k: int,
    m: int,
    t: int,
    p: SlotProvider,
)
    requires
        0 <= k <= m <= args.len(),
        0 <= t < keyword_state(slots, args, k).slots.len(),
        p is Single,
        forall|i: int| k <= i < m ==> !(#[trigger] args[i].0 is UnpackedDict),
        holds(keyword_state(slots, args, k).slots[t], p),
    ensures
        keyword_state(slots, args, m).slots.len() == keyword_state(slots, args, k).slots.len(),
        holds(keyword_state(slots, args, m).slots[t], p),
        is_prefix(keyword_state(slots, args, k).errors, keyword_state(slots, args, m).errors),
    decreases m - k,
{
    if m > k {
        lemma_keyword_keeps_from(slots, args, k, m - 1, t, p);
        assert(args.take(m).drop_last() =~= args.take(m - 1));
        lemma_keyword_step_keeps(keyword_state(slots, args, m - 1), args[m - 1], t, p);
    }
}

proof fn lemma_positional_errors_grow(slots: Seq<SlotModel>, args: Seq<(Argument, Ty)>, k: int, m: int)
    requires
        0 <= k <= m <= args.len(),
    ensures
        is_prefix(positional_state(slots, args, k).errors, positional_state(slots, args, m).errors),
    decreases m - k,
{
    if m > k {
        lemma_positional_errors_grow(slots, args, k, m - 1);
        assert(args.take(m).drop_last() =~= args.take(m - 1));
    }
}

proof fn lemma_simple_survives(slots: Seq<SlotModel>, args: Seq<(Argument, Ty)>, k: int)
    requires
        0 <= k < args.len(),
        args[k].0 is Simple,
        forall|i: int| 0 <= i < args.len() ==> !(#[trigger] args[i].0 is UnpackedDict),
    ensures
        positional_target(slots, args, k) < slots.len() && holds(
            bind_args(slots, args).slots[positional_target(slots, args, k)],
            SlotProvider::Single(args[k].0->Simple_expr, args[k].1),
        ) || bind_args(slots, args).errors.contains(
            ArgErrorModel { expr: args[k].0->Simple_expr, message: positional_error_message() },
        ),
{
    let n = args.len() as int;
    let st0 = BindState { slots, errors: Seq::empty() };
    let t = positional_target(slots, args, k);
    let p = SlotProvider::Single(args[k].0->Simple_expr, args[k].1);
    let e = ArgErrorModel { expr: args[k].0->Simple_expr, message: positional_error_message() };
    assert(args.take(n) =~= args);
    assert(args.take(0) =~= Seq::<(Argument, Ty)>::empty());
    assert(args.take(k + 1).drop_last() =~= args.take(k));
    lemma_positional_pass_shape(st0, args.take(k));
    lemma_positional_pass_shape(st0, args.take(k + 1));
    let before = positional_state(slots, args, k);
    let after = positional_state(slots, args, k + 1);
    assert(before.slots.len() == slots.len());
    assert(after.slots.len() == slots.len());
    lemma_first_positional(before.slots, 0);
    assert(keyword_state(slots, args, 0) == positional_state(slots, args, n));
    assert(bind_args(slots, args) == keyword_state(slots, args, n));
    if t < slots.len() {
        assert(after.slots[t] == fill_slot(before.slots[t], p));
        lemma_fill_holds(before.slots[t], p);
        lemma_positional_keeps_from(slots, args, k + 1, n, t, p);
        lemma_keyword_keeps_from(slots, args, 0, n, t, p);
    } else {
        assert(after.errors == before.errors.push(e));
        lemma_positional_errors_grow(slots, args, k + 1, n);
        lemma_keyword_keeps_errors(slots, args, n);
        let fin = bind_args(slots, args);
        assert(fin.errors[after.errors.len() - 1] == e);
    }
}

proof fn lemma_keyword_survives(slots: Seq<SlotModel>, args: Seq<(Argument, Ty)>, k: int)
    requires
        0 <= k < args.len(),
        args[k].0 is Keyword,
        forall|i: int| k < i < args.len() ==> !(#[trigger] args[i].0 is UnpackedDict),
    ensures
        keyword_target(slots, args, k) < slots.len() && holds(
            bind_args(slots, args).slots[keyword_target(slots, args, k)],
            SlotProvider::Single(args[k].0->Keyword_expr, args[k].1),
        ) || bind_args(slots, args).errors.contains(
            ArgErrorModel {
                expr: args[k].0->Keyword_expr,
                message: keyword_error_message(args[k].0->Keyword_name@),
            },
        ),
{
    let n = args.len() as int;
    let t = keyword_target(slots, args, k);
    let p = SlotProvider::Single(args[k].0->Keyword_expr, args[k].1);
    let e = ArgErrorModel {
        expr: args[k].0->Keyword_expr,
        message: keyword_error_message(args[k].0->Keyword_name@),
    };
    assert(args.take(n) =~= args);
    assert(args.take(k + 1).drop_last() =~= args.take(k));
    assert(bind_args(slots, args) == keyword_state(slots, args, n));
    lemma_keyword_state_len(slots, args, k);
    lemma_keyword_state_len(slots, args, k + 1);
    let before = keyword_state(slots, args, k);
    let after = keyword_state(slots, args, k + 1);
    lemma_first_keyword(before.slots, args[k].0->Keyword_name@, 0);
    if t < slots.len() {
        assert(after.slots[t] == fill_slot(before.slots[t], p));
        lemma_fill_holds(before.slots[t], p);
        lemma_keyword_keeps_from(slots, args, k + 1, n, t, p);
    } else {
        assert(after.errors == before.errors.push(e));
        lemma_keyword_errors_grow(slots, args, k + 1, n);
        let fin = bind_args(slots, args);
        assert(fin.errors[after.errors.len() - 1] == e);
    }
}

/// No argument is silently dropped over the whole binding: a simple
/// argument, when no dict is unpacked, and a keyword argument, when no dict
/// is unpacked after it, is held in the end by the slot it was bound to, or
/// its diagnostic is among the final ones.
pub proof fn lemma_binder_completeness_whole_run(slots: Seq<SlotModel>, args: Seq<(Argument, Ty)>, k: int)
    requires
        0 <= k < args.len(),
    ensures
        args[k].0 is Simple && (forall|i: int| 0 <= i < args.len() ==> !(#[trigger] args[i].0 is UnpackedDict))
            ==> {
            ||| positional_target(slots, args, k) < slots.len() && holds(
                bind_args(slots, args).slots[positional_target(slots, args, k)],
                SlotProvider::Single(args[k].0->Simple_expr, args[k].1),
            )
            ||| bind_args(slots, args).errors.contains(
                ArgErrorModel { expr: args[k].0->Simple_expr, message: positional_error_message() },
            )
        },
        args[k].0 is Keyword && (forall|i: int| k < i < args.len() ==> !(#[trigger] args[i].0 is UnpackedDict))
            ==> {
            ||| keyword_target(slots, args, k) < slots.len() && holds(
                bind_args(slots, args).slots[keyword_target(slots, args, k)],
                SlotProvider::Single(args[k].0->Keyword_expr, args[k].1),
            )
            ||| bind_args(slots, args).errors.contains(
                ArgErrorModel {
                    expr: args[k].0->Keyword_expr,
                    message: keyword_error_message(args[k].0->Keyword_name@),
                },
            )
        },
{
    if args[k].0 is Simple && (forall|i: int| 0 <= i < args.len() ==> !(#[trigger] args[i].0 is UnpackedDict)) {
        lemma_simple_survives(slots, args, k);
    }
    if args[k].0 is Keyword && (forall|i: int| k < i < args.len() ==> !(#[trigger] args[i].0 is UnpackedDict)) {
        lemma_keyword_survives(slots, args, k);
    }
}

proof fn lemma_keyword_errors_grow(slots: Seq<SlotModel>, args: Seq<(Argument, Ty)>, k: int, m: int)
    requires
        0 <= k <= m <= args.len(),
    ensures
        is_prefix(keyword_state(slots, args, k).errors, keyword_state(slots, args, m).errors),
        keyword_state(slots, args, m).slots.len() == keyword_state(slots, args, k).slots.len(),
    decreases m - k,
{
    if m > k {
        lemma_keyword_errors_grow(slots, args, k, m - 1);
        assert(args.take(m).drop_last() =~= args.take(m - 1));
        let prev = keyword_state(slots, args, m - 1);
        match args[m - 1].0 {
            Argument::Keyword { name, .. } => lemma_first_keyword(prev.slots, name@, 0),
            _ => {},
        }
    }
}

proof fn lemma_keyword_keeps_errors(slots: Seq<SlotModel>, args: Seq<(Argument, Ty)>, n: int)
    requires
        n == args.len(),
    ensures
        is_prefix(positional_state(slots, args, n).errors, keyword_state(slots, args, n).errors),
{
    assert(args.take(0) =~= Seq::<(Argument, Ty)>::empty());
    assert(keyword_state(slots, args, 0) == positional_state(slots, args, n));
    lemma_keyword_errors_grow(slots, args, 0, n);
}

proof fn lemma_keyword_state_len(slots: Seq<SlotModel>, args: Seq<(Argument, Ty)>, k: int)
    requires
        0 <= k <= args.len(),
    ensures
        keyword_state(slots, args, k).slots.len() == slots.len(),
{
    let n = args.len() as int;
    lemma_positional_pass_shape(BindState { slots, errors: Seq::empty() }, args.take(n));
    lemma_keyword_errors_grow(slots, args, 0, k);
    assert(args.take(0) =~= Seq::<(Argument, Ty)>::empty());
    assert(keyword_state(slots, args, 0) == positional_state(slots, args, n));
}

} // verus!
