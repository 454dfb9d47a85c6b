//! Name resolution over a chain of scopes, falling back to the engine's
//! intrinsics and then to the dialect's global functions and variables.
use vstd::prelude::*;
use crate::ids::ExprId;
use crate::scope::{
    chain_from, Scope, lemma_key_index, key_index, ScopeAnchor, ScopeHirId, TextRange, BuiltinFunctionId, FunctionId, IntrinsicId, ScopeDef, Scopes, TypeRefId, find_key, scope_lookup,
    table_lookup,
};

verus! {

/// Host-provided globals of one dialect.
#[derive(Clone, Debug)]
pub struct BuiltinGlobals {
    pub functions: Vec<(String, BuiltinFunctionId)>,
    pub variables: Vec<(String, TypeRefId)>,
}

/// What a `load` of a name from another file may bind to.
#[derive(Clone, Copy, Debug, PartialEq, Eq, Structural)]
pub enum Export {
    Variable(ExprId),
    Function(FunctionId),
}

/// Answers name queries from one scope of a file.
pub struct Resolver<'a> {
    pub scopes: &'a Scopes,
    pub intrinsics: &'a Vec<(String, IntrinsicId)>,
    pub globals: &'a BuiltinGlobals,
    /// The scope chain, innermost first.
    pub scope_chain: Vec<usize>,
}

/// The declarations of `n` in the first scope of `chain` (from position `j`)
/// that declares it.
pub open spec fn resolve_in_chain(scopes: Scopes, chain: Seq<usize>, n: Seq<char>, j: int) -> Option<
    Seq<ScopeDef>,
>
    decreases chain.len() - j,
{
    if j < 0 || j >= chain.len() {
        None
    } else {
        match scope_lookup(scopes.scopes@[chain[j] as int], n) {
            Some(ds) => Some(ds),
            None => resolve_in_chain(scopes, chain, n, j + 1),
        }
    }
}

/// Builtins in priority order: intrinsics, then global functions, then
/// global variables.
pub open spec fn resolve_builtin(
    intrinsics: Seq<(String, IntrinsicId)>,
    globals: BuiltinGlobals,
    n: Seq<char>,
) -> Option<Seq<ScopeDef>> {
    match table_lookup(intrinsics, n) {
        Some(f) => Some(seq![ScopeDef::IntrinsicFunction(f)]),
        None => resolve_global(globals, n),
    }
}

/// A dialect's globals: a global function before a global variable.
pub open spec fn resolve_global(globals: BuiltinGlobals, n: Seq<char>) -> Option<Seq<ScopeDef>> {
    match table_lookup(globals.functions@, n) {
        Some(f) => Some(seq![ScopeDef::BuiltinFunction(f)]),
        None => match table_lookup(globals.variables@, n) {
            Some(t) => Some(seq![ScopeDef::BuiltinVariable(t)]),
            None => None,
        },
    }
}

/// The export that a declaration list makes, going by its last entry.
pub open spec fn export_of(ds: Seq<ScopeDef>) -> Option<Export> {
    if ds.len() == 0 {
        None
    } else {
        match ds.last() {
            ScopeDef::Variable { expr } => Some(Export::Variable(expr)),
            ScopeDef::Function(f) => Some(Export::Function(f)),
            _ => None,
        }
    }
}

/// The export of `n` from the first scope of `chain` (from position `j`)
/// whose last declaration of it is a variable or a function.
pub open spec fn export_in_chain(scopes: Scopes, chain: Seq<usize>, n: Seq<char>, j: int) -> Option<
    Export,
>
    decreases chain.len() - j,
{
    if j < 0 || j >= chain.len() {
        None
    } else {
        match scope_lookup(scopes.scopes@[chain[j] as int], n) {
            Some(ds) => match export_of(ds) {
                Some(e) => Some(e),
                None => export_in_chain(scopes, chain, n, j + 1),
            },
            None => export_in_chain(scopes, chain, n, j + 1),
        }
    }
}

/// The anchor with the shortest range that contains `offset`; the first
/// such anchor on a tie.
pub open spec fn innermost_anchor(anchors: Seq<ScopeAnchor>, offset: u32) -> Option<int>
    decreases anchors.len(),
{
    if anchors.len() == 0 {
        None
    } else {
        let prev = innermost_anchor(anchors.drop_last(), offset);
        let c = anchors.last();
        if c.range.spec_contains_offset(offset) && (prev is None || c.range.spec_len()
            < anchors[prev->Some_0].range.spec_len()) {
            Some(anchors.len() - 1)
        } else {
            prev
        }
    }
}

/// Whether range `l` ranks above range `r` when picking the nearest
/// predecessor: an enclosing range ranks above what it encloses, and
/// otherwise the later start ranks higher.
pub open spec fn outranks(l: TextRange, r: TextRange) -> bool {
    l.spec_contains_range(r) || (!r.spec_contains_range(l) && l.start > r.start)
}

/// Whether an anchor's range is a candidate for the nearest predecessor:
/// strictly inside `hir_range` and starting at or before `offset`.
pub open spec fn predecessor_candidate(a: ScopeAnchor, hir_range: TextRange, offset: u32) -> bool {
    a.range.start <= offset && hir_range.spec_contains_range(a.range) && hir_range != a.range
}

/// The highest-ranking candidate; the later one among candidates that do
/// not outrank each other.
pub open spec fn nearest_predecessor(anchors: Seq<ScopeAnchor>, hir_range: TextRange, offset: u32) -> Option<int>
    decreases anchors.len(),
{
    if anchors.len() == 0 {
        None
    } else {
        let prev = nearest_predecessor(anchors.drop_last(), hir_range, offset);
        let c = anchors.last();
        if predecessor_candidate(c, hir_range, offset) {
            match prev {
                Some(b) => if outranks(anchors[b].range, c.range) {
                    prev
                } else {
                    Some(anchors.len() - 1)
                },
                None => Some(anchors.len() - 1),
            }
        } else {
            prev
        }
    }
}

/// The scope that a cursor at `offset` belongs to.
pub open spec fn scope_at_offset(anchors: Seq<ScopeAnchor>, offset: u32) -> Option<usize> {
    match innermost_anchor(anchors, offset) {
        Some(i) => match nearest_predecessor(anchors, anchors[i].range, offset) {
            Some(k) => Some(anchors[k].scope),
            None => Some(anchors[i].scope),
        },
        None => None,
    }
}

proof fn lemma_innermost_bound(anchors: Seq<ScopeAnchor>, offset: u32)
    ensures
        innermost_anchor(anchors, offset) is Some ==> 0 <= innermost_anchor(anchors, offset)->Some_0
            < anchors.len(),
    decreases anchors.len(),
{
    if anchors.len() > 0 {
        lemma_innermost_bound(anchors.drop_last(), offset);
    }
}

proof fn lemma_nearest_bound(anchors: Seq<ScopeAnchor>, hir_range: TextRange, offset: u32)
    ensures
        nearest_predecessor(anchors, hir_range, offset) is Some ==> 0 <= nearest_predecessor(
            anchors,
            hir_range,
            offset,
        )->Some_0 < anchors.len(),
    decreases anchors.len(),
{
    if anchors.len() > 0 {
        lemma_nearest_bound(anchors.drop_last(), hir_range, offset);
    }
}

/// The innermost anchor containing `offset`, by index.
fn find_innermost(anchors: &Vec<ScopeAnchor>, offset: u32) -> (r: Option<usize>)
    requires
        forall|k: int| 0 <= k < anchors@.len() ==> #[trigger] anchors@[k].range.wf(),
    ensures
        r is Some <==> innermost_anchor(anchors@, offset) is Some,
        r is Some ==> r->Some_0 as int == innermost_anchor(anchors@, offset)->Some_0,
{
    let mut best: Option<usize> = None;
    let mut k: usize = 0;
    while k < anchors.len()
        invariant
            0 <= k <= anchors@.len(),
            forall|m: int| 0 <= m < anchors@.len() ==> #[trigger] anchors@[m].range.wf(),
            best is Some <==> innermost_anchor(anchors@.take(k as int), offset) is Some,
            best is Some ==> best->Some_0 as int == innermost_anchor(anchors@.take(k as int), offset)->Some_0,
            best is Some ==> best->Some_0 < k,
        decreases anchors@.len() - k,
    {
        proof {
            assert(anchors@.take(k as int + 1).drop_last() =~= anchors@.take(k as int));
            lemma_innermost_bound(anchors@.take(k as int), offset);
        }
        let c = anchors[k].range;
        if c.start <= offset && offset <= c.end {
            match best {
                None => {
                    best = Some(k);
                },
                Some(b) => {
                    if c.len() < anchors[b].range.len() {
                        best = Some(k);
                    }
                },
            }
        }
        k = k + 1;
    }
    proof {
        assert(anchors@.take(k as int) =~= anchors@);
    }
    best
}

/// The nearest predecessor of `offset` strictly inside `hir_range`, by
/// index.
fn find_nearest_predecessor(anchors: &Vec<ScopeAnchor>, hir_range: TextRange, offset: u32) -> (r: Option<usize>)
    ensures
        r is Some <==> nearest_predecessor(anchors@, hir_range, offset) is Some,
        r is Some ==> r->Some_0 as int == nearest_predecessor(anchors@, hir_range, offset)->Some_0,
{
    let mut best: Option<usize> = None;
    let mut k: usize = 0;
    while k < anchors.len()
        invariant
            0 <= k <= anchors@.len(),
            best is Some <==> nearest_predecessor(anchors@.take(k as int), hir_range, offset) is Some,
            best is Some ==> best->Some_0 as int == nearest_predecessor(anchors@.take(k as int), hir_range, offset)->Some_0,
            best is Some ==> best->Some_0 < k,
        decreases anchors@.len() - k,
    {
        proof {
            assert(anchors@.take(k as int + 1).drop_last() =~= anchors@.take(k as int));
        }
        let c = anchors[k].range;
        if c.start <= offset && hir_range.contains_range(c) && hir_range != c {
            match best {
                None => {
                    best = Some(k);
                },
                Some(b) => {
                    let l = anchors[b].range;
                    let ranks_above = l.contains_range(c) || (!c.contains_range(l) && l.start > c.start);
                    if !ranks_above {
                        best = Some(k);
                    }
                },
            }
        }
        k = k + 1;
    }
    proof {
        assert(anchors@.take(k as int) =~= anchors@);
    }
    best
}

/// Adds `(n, d)` unless `n` is already a key: the first entry for a name
/// wins.
pub open spec fn absorb(r: Seq<(String, ScopeDef)>, n: String, d: ScopeDef) -> Seq<(String, ScopeDef)> {
    if exists|i: int| 0 <= i < r.len() && #[trigger] r[i].0@ == n@ {
        r
    } else {
        r.push((n, d))
    }
}

/// Adds the first declaration of each name of a scope, in table order.
pub open spec fn absorb_decls(r: Seq<(String, ScopeDef)>, decls: Seq<(String, Vec<ScopeDef>)>) -> Seq<
    (String, ScopeDef),
>
    decreases decls.len(),
{
    if decls.len() == 0 {
        r
    } else {
        let prev = absorb_decls(r, decls.drop_last());
        let e = decls.last();
        if e.1@.len() == 0 {
            prev
        } else {
            absorb(prev, e.0, e.1@[0])
        }
    }
}

/// Adds the names of each scope of `chain`, innermost first.
pub open spec fn absorb_chain(r: Seq<(String, ScopeDef)>, scopes: Scopes, chain: Seq<usize>) -> Seq<
    (String, ScopeDef),
>
    decreases chain.len(),
{
    if chain.len() == 0 {
        r
    } else {
        absorb_decls(
            absorb_chain(r, scopes, chain.drop_last()),
            scopes.scopes@[chain.last() as int].declarations@,
        )
    }
}

/// Adds each entry of a builtin table, made a declaration by `f`.
pub open spec fn absorb_table<T>(
    r: Seq<(String, ScopeDef)>,
    entries: Seq<(String, T)>,
    f: spec_fn(T) -> ScopeDef,
) -> Seq<(String, ScopeDef)>
    decreases entries.len(),
{
    if entries.len() == 0 {
        r
    } else {
        let e = entries.last();
        absorb(absorb_table(r, entries.drop_last(), f), e.0, f(e.1))
    }
}

/// Whether no name occurs twice as a key.
pub open spec fn keys_unique(r: Seq<(String, ScopeDef)>) -> bool {
    forall|i: int, j: int| 0 <= i < j < r.len() ==> r[i].0@ != r[j].0@
}

proof fn lemma_absorb_unique(r: Seq<(String, ScopeDef)>, n: String, d: ScopeDef)
    requires
        keys_unique(r),
    ensures
        keys_unique(absorb(r, n, d)),
        forall|i: int| 0 <= i < r.len() ==> absorb(r, n, d)[i] == r[i],
        exists|i: int| 0 <= i < absorb(r, n, d).len() && #[trigger] absorb(r, n, d)[i].0@ == n@,
{
    if !(exists|i: int| 0 <= i < r.len() && #[trigger] r[i].0@ == n@) {
        assert(absorb(r, n, d)[r.len() as int].0@ == n@);
    }
}

fn absorb_exec(r: &mut Vec<(String, ScopeDef)>, n: &String, d: ScopeDef)
    ensures
        final(r)@ == absorb(old(r)@, *n, d),
{
    let i = find_key(r, n);
    proof {
        lemma_key_index(old(r)@, n@, 0);
    }
    if i == r.len() {
        r.push((n.clone(), d));
    }
}

proof fn lemma_absorb_decls_unique(r: Seq<(String, ScopeDef)>, decls: Seq<(String, Vec<ScopeDef>)>)
    requires
        keys_unique(r),
    ensures
        keys_unique(absorb_decls(r, decls)),
    decreases decls.len(),
{
    if decls.len() > 0 {
        lemma_absorb_decls_unique(r, decls.drop_last());
        let e = decls.last();
        if e.1@.len() > 0 {
            lemma_absorb_unique(absorb_decls(r, decls.drop_last()), e.0, e.1@[0]);
        }
    }
}

proof fn lemma_absorb_chain_unique(scopes: Scopes, chain: Seq<usize>)
    ensures
        keys_unique(absorb_chain(Seq::empty(), scopes, chain)),
    decreases chain.len(),
{
    if chain.len() > 0 {
        lemma_absorb_chain_unique(scopes, chain.drop_last());
        lemma_absorb_decls_unique(
            absorb_chain(Seq::empty(), scopes, chain.drop_last()),
            scopes.scopes@[chain.last() as int].declarations@,
        );
    }
}

fn copy_defs(ds: &Vec<ScopeDef>) -> (r: Vec<ScopeDef>)
    ensures
        r@ == ds@,
{
    let mut r: Vec<ScopeDef> = Vec::new();
    let mut i: usize = 0;
    while i < ds.len()
        invariant
            0 <= i <= ds@.len(),
            r@ =~= ds@.take(i as int),
        decreases ds@.len() - i,
    {
        r.push(ds[i]);
        i = i + 1;
    }
    proof {
        assert(ds@.take(i as int) =~= ds@);
    }
    r
}

impl<'a> Resolver<'a> {
    /// A resolver whose chain starts at `scope`; no scope gives an empty
    /// chain, where only builtins resolve.
    pub fn from_parts(
        scopes: &'a Scopes,
        intrinsics: &'a Vec<(String, IntrinsicId)>,
        globals: &'a BuiltinGlobals,
        scope: Option<usize>,
    ) -> (r: Resolver<'a>)
        requires
            scopes.wf(),
            scope is Some ==> scope->Some_0 < scopes.scopes@.len(),
        ensures
            r.wf(),
            *r.scopes == *scopes,
            *r.intrinsics == *intrinsics,
            *r.globals == *globals,
            r.scope_chain@ == scopes.spec_scope_chain(scope),
    {
        let scope_chain = scopes.scope_chain(scope);
        Resolver { scopes, intrinsics, globals, scope_chain }
    }

    /// The export of `name` from a file's module scope.
    pub fn resolve_export_in_file(
        scopes: &'a Scopes,
        intrinsics: &'a Vec<(String, IntrinsicId)>,
        globals: &'a BuiltinGlobals,
        name: &String,
    ) -> (r: Option<Export>)
        requires
            scopes.wf(),
        ensures
            r == export_in_chain(
                *scopes,
                scopes.spec_scope_chain(scopes.spec_scope_for_hir_id(ScopeHirId::Module)),
                name@,
                0,
            ),
    {
        Self::new_for_module(scopes, intrinsics, globals).resolve_export(name)
    }

    /// A resolver for the module scope.
    pub fn new_for_module(
        scopes: &'a Scopes,
        intrinsics: &'a Vec<(String, IntrinsicId)>,
        globals: &'a BuiltinGlobals,
    ) -> (r: Resolver<'a>)
        requires
            scopes.wf(),
        ensures
            r.wf(),
            *r.scopes == *scopes,
            *r.intrinsics == *intrinsics,
            *r.globals == *globals,
            r.scope_chain@ == scopes.spec_scope_chain(scopes.spec_scope_for_hir_id(ScopeHirId::Module)),
    {
        let scope = scopes.scope_for_hir_id(ScopeHirId::Module);
        proof {
            crate::scope::lemma_anchor_index(scopes.anchors@, ScopeHirId::Module, 0);
        }
        Self::from_parts(scopes, intrinsics, globals, scope)
    }

    /// A resolver for the scope anchored at `expr`.
    pub fn new_for_expr(
        scopes: &'a Scopes,
        intrinsics: &'a Vec<(String, IntrinsicId)>,
        globals: &'a BuiltinGlobals,
        expr: ExprId,
    ) -> (r: Resolver<'a>)
        requires
            scopes.wf(),
        ensures
            r.wf(),
            *r.scopes == *scopes,
            *r.intrinsics == *intrinsics,
            *r.globals == *globals,
            r.scope_chain@ == scopes.spec_scope_chain(scopes.spec_scope_for_hir_id(ScopeHirId::Expr(expr))),
    {
        let scope = scopes.scope_for_hir_id(ScopeHirId::Expr(expr));
        proof {
            crate::scope::lemma_anchor_index(scopes.anchors@, ScopeHirId::Expr(expr), 0);
        }
        Self::from_parts(scopes, intrinsics, globals, scope)
    }

    /// A resolver for the scope that a cursor at `offset` belongs to.
    pub fn new_for_offset(
        scopes: &'a Scopes,
        intrinsics: &'a Vec<(String, IntrinsicId)>,
        globals: &'a BuiltinGlobals,
        offset: u32,
    ) -> (r: Resolver<'a>)
        requires
            scopes.wf(),
        ensures
            r.wf(),
            *r.scopes == *scopes,
            *r.intrinsics == *intrinsics,
            *r.globals == *globals,
            r.scope_chain@ == scopes.spec_scope_chain(scope_at_offset(scopes.anchors@, offset)),
    {
        proof {
            lemma_innermost_bound(scopes.anchors@, offset);
            if let Some(i) = innermost_anchor(scopes.anchors@, offset) {
                lemma_nearest_bound(scopes.anchors@, scopes.anchors@[i].range, offset);
            }
            assert forall|k: int| 0 <= k < scopes.anchors@.len() implies #[trigger] scopes.anchors@[k].range.wf() by {
                assert(scopes.anchors@[k].scope < scopes.scopes@.len());
            }
        }
        let scope = match find_innermost(&scopes.anchors, offset) {
            Some(i) => match find_nearest_predecessor(&scopes.anchors, scopes.anchors[i].range, offset) {
                Some(k) => Some(scopes.anchors[k].scope),
                None => Some(scopes.anchors[i].scope),
            },
            None => None,
        };
        Self::from_parts(scopes, intrinsics, globals, scope)
    }

    pub open spec fn spec_module_names(&self) -> Seq<(String, ScopeDef)> {
        absorb_chain(Seq::empty(), *self.scopes, self.scope_chain@)
    }

    pub open spec fn spec_names(&self) -> Seq<(String, ScopeDef)> {
        absorb_table(
            absorb_table(
                absorb_table(
                    self.spec_module_names(),
                    self.intrinsics@,
                    |f: IntrinsicId| ScopeDef::IntrinsicFunction(f),
                ),
                self.globals.functions@,
                |f: BuiltinFunctionId| ScopeDef::BuiltinFunction(f),
            ),
            self.globals.variables@,
            |t: TypeRefId| ScopeDef::BuiltinVariable(t),
        )
    }

    /// Every name declared in the scope chain with its first declaration;
    /// closer scopes win.
    pub fn module_names(&self) -> (r: Vec<(String, ScopeDef)>)
        requires
            self.wf(),
        ensures
            r@ == self.spec_module_names(),
            keys_unique(r@),
    {
        let mut r: Vec<(String, ScopeDef)> = Vec::new();
        let mut c: usize = 0;
        while c < self.scope_chain.len()
            invariant
                self.wf(),
                0 <= c <= self.scope_chain@.len(),
                r@ == absorb_chain(Seq::empty(), *self.scopes, self.scope_chain@.take(c as int)),
            decreases self.scope_chain@.len() - c,
        {
            proof {
                assert(self.scope_chain@.take(c as int + 1).drop_last() =~= self.scope_chain@.take(c as int));
            }
            let scope: &Scope = &self.scopes.scopes[self.scope_chain[c]];
            let ghost base = r@;
            let mut k: usize = 0;
            while k < scope.declarations.len()
                invariant
                    0 <= k <= scope.declarations@.len(),
                    r@ == absorb_decls(base, scope.declarations@.take(k as int)),
                decreases scope.declarations@.len() - k,
            {
                proof {
                    assert(scope.declarations@.take(k as int + 1).drop_last() =~= scope.declarations@.take(k as int));
                }
                let ds = &scope.declarations[k].1;
                if ds.len() > 0 {
                    absorb_exec(&mut r, &scope.declarations[k].0, ds[0]);
                }
                k = k + 1;
            }
            proof {
                assert(scope.declarations@.take(k as int) =~= scope.declarations@);
            }
            c = c + 1;
        }
        proof {
            assert(self.scope_chain@.take(c as int) =~= self.scope_chain@);
            lemma_absorb_chain_unique(*self.scopes, self.scope_chain@);
        }
        r
    }

    /// Every visible name with one declaration: the module names, then the
    /// intrinsics, global functions and global variables, each only where no
    /// earlier entry has the name.
    pub fn names(&self) -> (r: Vec<(String, ScopeDef)>)
        requires
            self.wf(),
        ensures
            r@ == self.spec_names(),
            keys_unique(r@),
    {
        let mut r = self.module_names();
        let ghost base = r@;
        let mut k: usize = 0;
        while k < self.intrinsics.len()
            invariant
                0 <= k <= self.intrinsics@.len(),
                keys_unique(r@),
                r@ == absorb_table(base, self.intrinsics@.take(k as int), |f: IntrinsicId| ScopeDef::IntrinsicFunction(f)),
            decreases self.intrinsics@.len() - k,
        {
            proof {
                assert(self.intrinsics@.take(k as int + 1).drop_last() =~= self.intrinsics@.take(k as int));
                lemma_absorb_unique(r@, self.intrinsics@[k as int].0, ScopeDef::IntrinsicFunction(self.intrinsics@[k as int].1));
            }
            absorb_exec(&mut r, &self.intrinsics[k].0, ScopeDef::IntrinsicFunction(self.intrinsics[k].1));
            k = k + 1;
        }
        proof {
            assert(self.intrinsics@.take(k as int) =~= self.intrinsics@);
        }
        let ghost base = r@;
        let mut k: usize = 0;
        while k < self.globals.functions.len()
            invariant
                0 <= k <= self.globals.functions@.len(),
                keys_unique(r@),
                r@ == absorb_table(base, self.globals.functions@.take(k as int), |f: BuiltinFunctionId| ScopeDef::BuiltinFunction(f)),
            decreases self.globals.functions@.len() - k,
        {
            proof {
                assert(self.globals.functions@.take(k as int + 1).drop_last() =~= self.globals.functions@.take(k as int));
                lemma_absorb_unique(r@, self.globals.functions@[k as int].0, ScopeDef::BuiltinFunction(self.globals.functions@[k as int].1));
            }
            absorb_exec(&mut r, &self.globals.functions[k].0, ScopeDef::BuiltinFunction(self.globals.functions[k].1));
            k = k + 1;
        }
        proof {
            assert(self.globals.functions@.take(k as int) =~= self.globals.functions@);
        }
        let ghost base = r@;
        let mut k: usize = 0;
        while k < self.globals.variables.len()
            invariant
                0 <= k <= self.globals.variables@.len(),
                keys_unique(r@),
                r@ == absorb_table(base, self.globals.variables@.take(k as int), |t: TypeRefId| ScopeDef::BuiltinVariable(t)),
            decreases self.globals.variables@.len() - k,
        {
            proof {
                assert(self.globals.variables@.take(k as int + 1).drop_last() =~= self.globals.variables@.take(k as int));
                lemma_absorb_unique(r@, self.globals.variables@[k as int].0, ScopeDef::BuiltinVariable(self.globals.variables@[k as int].1));
            }
            absorb_exec(&mut r, &self.globals.variables[k].0, ScopeDef::BuiltinVariable(self.globals.variables[k].1));
            k = k + 1;
        }
        proof {
            assert(self.globals.variables@.take(k as int) =~= self.globals.variables@);
        }
        r
    }

    pub open spec fn wf(&self) -> bool {
        &&& self.scopes.wf()
        &&& forall|j: int|
            0 <= j < self.scope_chain@.len() ==> #[trigger] self.scope_chain@[j]
                < self.scopes.scopes@.len()
    }

    pub open spec fn spec_resolve_name(&self, n: Seq<char>) -> Option<Seq<ScopeDef>> {
        resolve_along(*self.scopes, self.intrinsics@, *self.globals, self.scope_chain@, n)
    }

    /// All declarations of `name` in the innermost scope that declares it;
    /// failing that, the builtin of that name.
    pub fn resolve_name(&self, name: &String) -> (r: Option<Vec<ScopeDef>>)
        requires
            self.wf(),
        ensures
            r is Some <==> self.spec_resolve_name(name@) is Some,
            r is Some ==> r->Some_0@ == self.spec_resolve_name(name@)->Some_0,
    {
        let mut j: usize = 0;
        while j < self.scope_chain.len()
            invariant
                self.wf(),
                0 <= j <= self.scope_chain@.len(),
                resolve_in_chain(*self.scopes, self.scope_chain@, name@, 0) == resolve_in_chain(
                    *self.scopes,
                    self.scope_chain@,
                    name@,
                    j as int,
                ),
            decreases self.scope_chain@.len() - j,
        {
            let scope = &self.scopes.scopes[self.scope_chain[j]];
            let i = find_key(&scope.declarations, name);
            if i < scope.declarations.len() {
                return Some(copy_defs(&scope.declarations[i].1));
            }
            j = j + 1;
        }
        self.resolve_name_in_builtins(name)
    }

    /// The builtin that `name` names: an intrinsic, else a global function,
    /// else a global variable.
    pub fn resolve_name_in_builtins(&self, name: &String) -> (r: Option<Vec<ScopeDef>>)
        ensures
            r is Some <==> resolve_builtin(self.intrinsics@, *self.globals, name@) is Some,
            r is Some ==> r->Some_0@ == resolve_builtin(self.intrinsics@, *self.globals, name@)->Some_0,
    {
        let i = find_key(self.intrinsics, name);
        if i < self.intrinsics.len() {
            let mut r: Vec<ScopeDef> = Vec::new();
            r.push(ScopeDef::IntrinsicFunction(self.intrinsics[i].1));
            proof {
                assert(r@ =~= seq![ScopeDef::IntrinsicFunction(self.intrinsics@[i as int].1)]);
            }
            return Some(r);
        }
        self.resolve_name_in_builtin_globals(name)
    }

    /// The dialect global that `name` names: a function, else a variable.
    pub fn resolve_name_in_builtin_globals(&self, name: &String) -> (r: Option<Vec<ScopeDef>>)
        ensures
            r is Some <==> resolve_global(*self.globals, name@) is Some,
            r is Some ==> r->Some_0@ == resolve_global(*self.globals, name@)->Some_0,
    {
        let i = find_key(&self.globals.functions, name);
        if i < self.globals.functions.len() {
            let mut r: Vec<ScopeDef> = Vec::new();
            r.push(ScopeDef::BuiltinFunction(self.globals.functions[i].1));
            proof {
                assert(r@ =~= seq![ScopeDef::BuiltinFunction(self.globals.functions@[i as int].1)]);
            }
            return Some(r);
        }
        let k = find_key(&self.globals.variables, name);
        if k < self.globals.variables.len() {
            let mut r: Vec<ScopeDef> = Vec::new();
            r.push(ScopeDef::BuiltinVariable(self.globals.variables[k].1));
            proof {
                assert(r@ =~= seq![ScopeDef::BuiltinVariable(self.globals.variables@[k as int].1)]);
            }
            return Some(r);
        }
        None
    }

    /// The last declaration of `name`, if it is a variable or a function, in
    /// the innermost scope where that holds. Builtins are never exported.
    pub fn resolve_export(&self, name: &String) -> (r: Option<Export>)
        requires
            self.wf(),
        ensures
            r == export_in_chain(*self.scopes, self.scope_chain@, name@, 0),
    {
        let mut j: usize = 0;
        while j < self.scope_chain.len()
            invariant
                self.wf(),
                0 <= j <= self.scope_chain@.len(),
                export_in_chain(*self.scopes, self.scope_chain@, name@, 0) == export_in_chain(
                    *self.scopes,
                    self.scope_chain@,
                    name@,
                    j as int,
                ),
            decreases self.scope_chain@.len() - j,
        {
            let scope = &self.scopes.scopes[self.scope_chain[j]];
            let i = find_key(&scope.declarations, name);
            if i < scope.declarations.len() {
                let ds = &scope.declarations[i].1;
                let n = ds.len();
                if n > 0 {
                    match ds[n - 1] {
                        ScopeDef::Variable { expr } => {
                            return Some(Export::Variable(expr));
                        },
                        ScopeDef::Function(f) => {
                            return Some(Export::Function(f));
                        },
                        _ => {},
                    }
                }
            }
            j = j + 1;
        }
        None
    }
}

} // verus!

verus! {

/// Resolution of `n` along `chain`, falling back to builtins.
pub open spec fn resolve_along(
    scopes: Scopes,
    intrinsics: Seq<(String, IntrinsicId)>,
    globals: BuiltinGlobals,
    chain: Seq<usize>,
    n: Seq<char>,
) -> Option<Seq<ScopeDef>> {
    match resolve_in_chain(scopes, chain, n, 0) {
        Some(ds) => Some(ds),
        None => resolve_builtin(intrinsics, globals, n),
    }
}

proof fn lemma_resolve_in_chain_shift(scopes: Scopes, s: usize, rest: Seq<usize>, n: Seq<char>, j: int)
    requires
        0 <= j <= rest.len(),
    ensures
        resolve_in_chain(scopes, seq![s] + rest, n, j + 1) == resolve_in_chain(scopes, rest, n, j),
    decreases rest.len() - j,
{
    let c = seq![s] + rest;
    if j < rest.len() {
        assert(c[j + 1] == rest[j]);
        lemma_resolve_in_chain_shift(scopes, s, rest, n, j + 1);
    }
}

/// Shadowing: from a scope that declares `n`, resolution gives that scope's
/// own declarations; from one that does not, it gives what resolution from
/// its parent gives.
pub proof fn lemma_shadowing(
    scopes: Scopes,
    intrinsics: Seq<(String, IntrinsicId)>,
    globals: BuiltinGlobals,
    s: usize,
    n: Seq<char>,
)
    requires
        scopes.wf(),
        0 < s < scopes.scopes@.len(),
    ensures
        resolve_along(scopes, intrinsics, globals, chain_from(scopes.parents@, s), n) == match scope_lookup(
            scopes.scopes@[s as int],
            n,
        ) {
            Some(ds) => Some(ds),
            None => resolve_along(
                scopes,
                intrinsics,
                globals,
                chain_from(scopes.parents@, scopes.parents@[s as int]->Some_0),
                n,
            ),
        },
{
    assert(scopes.parents@[s as int] is Some);
    let p = scopes.parents@[s as int]->Some_0;
    let rest = chain_from(scopes.parents@, p);
    assert(chain_from(scopes.parents@, s) == seq![s] + rest);
    assert((seq![s] + rest)[0] == s);
    lemma_resolve_in_chain_shift(scopes, s, rest, n, 0);
}

/// Builtin fallback: a name that no scope of the chain declares resolves to
/// an intrinsic if there is one, else to a global function, else to a global
/// variable, else to nothing.
pub proof fn lemma_builtin_fallback(
    scopes: Scopes,
    intrinsics: Seq<(String, IntrinsicId)>,
    globals: BuiltinGlobals,
    chain: Seq<usize>,
    n: Seq<char>,
)
    requires
        resolve_in_chain(scopes, chain, n, 0) is None,
    ensures
        table_lookup(intrinsics, n) is Some ==> resolve_along(scopes, intrinsics, globals, chain, n)
            == Some(seq![ScopeDef::IntrinsicFunction(table_lookup(intrinsics, n)->Some_0)]),
        table_lookup(intrinsics, n) is None && table_lookup(globals.functions@, n) is Some
            ==> resolve_along(scopes, intrinsics, globals, chain, n) == Some(
            seq![ScopeDef::BuiltinFunction(table_lookup(globals.functions@, n)->Some_0)],
        ),
        table_lookup(intrinsics, n) is None && table_lookup(globals.functions@, n) is None
            && table_lookup(globals.variables@, n) is Some ==> resolve_along(
            scopes,
            intrinsics,
            globals,
            chain,
            n,
        ) == Some(seq![ScopeDef::BuiltinVariable(table_lookup(globals.variables@, n)->Some_0)]),
        table_lookup(intrinsics, n) is None && table_lookup(globals.functions@, n) is None
            && table_lookup(globals.variables@, n) is None ==> resolve_along(
            scopes,
            intrinsics,
            globals,
            chain,
            n,
        ) is None,
{
}

} // verus!

verus! {

/// Determinism: two resolvers over the same scopes, chain and builtin tables
/// answer every name query alike.
pub proof fn lemma_determinism(a: Resolver, b: Resolver, n: Seq<char>)
    requires
        *a.scopes == *b.scopes,
        a.scope_chain@ == b.scope_chain@,
        a.intrinsics@ == b.intrinsics@,
        a.globals.functions@ == b.globals.functions@,
        a.globals.variables@ == b.globals.variables@,
    ensures
        a.spec_resolve_name(n) == b.spec_resolve_name(n),
        export_in_chain(*a.scopes, a.scope_chain@, n, 0) == export_in_chain(*b.scopes, b.scope_chain@, n, 0),
        a.spec_names() == b.spec_names(),
{
}

} // verus!
