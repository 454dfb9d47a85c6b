//! Scopes of one file: an arena of scopes with parent links, each mapping
//! names to the ordered list of their declarations, and the text ranges of
//! the syntax that anchors each scope.
use vstd::prelude::*;
use crate::ids::{ExprId, StmtId};

verus! {

/// Identifies a function declaration.
#[derive(Clone, Copy, Debug, PartialEq, Eq, Structural, Hash)]
pub struct FunctionId(pub u32);

/// Identifies an engine intrinsic function.
#[derive(Clone, Copy, Debug, PartialEq, Eq, Structural, Hash)]
pub struct IntrinsicId(pub u32);

/// Identifies a host-provided builtin function.
#[derive(Clone, Copy, Debug, PartialEq, Eq, Structural, Hash)]
pub struct BuiltinFunctionId(pub u32);

/// Identifies the declared type of a host-provided global variable.
#[derive(Clone, Copy, Debug, PartialEq, Eq, Structural, Hash)]
pub struct TypeRefId(pub u32);

/// A declaration that a name may refer to.
#[derive(Clone, Copy, Debug, PartialEq, Eq, Structural)]
pub enum ScopeDef {
    Variable { expr: ExprId },
    Function(FunctionId),
    Parameter { func: FunctionId, index: u32 },
    LoadItem { stmt: StmtId, index: u32 },
    IntrinsicFunction(IntrinsicId),
    BuiltinFunction(BuiltinFunctionId),
    BuiltinVariable(TypeRefId),
}

/// The syntactic anchor of a scope.
#[derive(Clone, Copy, Debug, PartialEq, Eq, Structural)]
pub enum ScopeHirId {
    Module,
    Expr(ExprId),
    Stmt(StmtId),
}

/// A range of text offsets, `start..=end` in the sense of containment.
#[derive(Clone, Copy, Debug, PartialEq, Eq, Structural)]
pub struct TextRange {
    pub start: u32,
    pub end: u32,
}

impl TextRange {
    pub open spec fn wf(&self) -> bool {
        self.start <= self.end
    }

    pub open spec fn spec_len(&self) -> int {
        self.end - self.start
    }

    pub open spec fn spec_contains_offset(&self, offset: u32) -> bool {
        self.start <= offset && offset <= self.end
    }

    pub open spec fn spec_contains_range(&self, other: TextRange) -> bool {
        self.start <= other.start && other.end <= self.end
    }

    pub fn new(start: u32, end: u32) -> (r: TextRange)
        requires
            start <= end,
        ensures
            r == (TextRange { start, end }),
    {
        TextRange { start, end }
    }

    pub fn len(&self) -> (r: u32)
        requires
            self.wf(),
        ensures
            r == self.spec_len(),
    {
        self.end - self.start
    }

    pub fn contains_range(&self, other: TextRange) -> (r: bool)
        ensures
            r == self.spec_contains_range(other),
    {
        self.start <= other.start && other.end <= self.end
    }
}

/// Where a scope's anchor stands in the text.
#[derive(Clone, Copy, Debug, PartialEq, Eq, Structural)]
pub struct ScopeAnchor {
    pub hir: ScopeHirId,
    pub range: TextRange,
    pub scope: usize,
}

/// One scope: each name with its declarations in source order.
#[derive(Clone, Debug)]
pub struct Scope {
    pub declarations: Vec<(String, Vec<ScopeDef>)>,
}

/// All scopes of one file.
#[derive(Clone, Debug)]
pub struct Scopes {
    pub scopes: Vec<Scope>,
    /// The parent of each scope; the module scope, at index zero, has none.
    pub parents: Vec<Option<usize>>,
    pub anchors: Vec<ScopeAnchor>,
}

/// The index of the first entry at or after `j` whose key is `n`, or the
/// number of entries when there is none.
pub open spec fn key_index<T>(entries: Seq<(String, T)>, n: Seq<char>, j: int) -> int
    decreases entries.len() - j,
{
    if j < 0 || j >= entries.len() {
        entries.len() as int
    } else if entries[j].0@ == n {
        j
    } else {
        key_index(entries, n, j + 1)
    }
}

pub proof fn lemma_key_index<T>(entries: Seq<(String, T)>, n: Seq<char>, j: int)
    requires
        0 <= j <= entries.len(),
    ensures
        j <= key_index(entries, n, j) <= entries.len(),
        key_index(entries, n, j) < entries.len() ==> entries[key_index(entries, n, j)].0@ == n,
        forall|k: int| j <= k < key_index(entries, n, j) ==> entries[k].0@ != n,
    decreases entries.len() - j,
{
    if j < entries.len() && entries[j].0@ != n {
        lemma_key_index(entries, n, j + 1);
    }
}

/// The entry keyed `n` in a table, if any.
pub open spec fn table_lookup<T>(entries: Seq<(String, T)>, n: Seq<char>) -> Option<T> {
    let i = key_index(entries, n, 0);
    if i < entries.len() {
        Some(entries[i].1)
    } else {
        None
    }
}

/// The index of the entry keyed `n`, or the number of entries.
pub fn find_key<T>(entries: &Vec<(String, T)>, n: &String) -> (r: usize)
    ensures
        r == key_index(entries@, n@, 0),
{
    let mut j: usize = 0;
    while j < entries.len()
        invariant
            0 <= j <= entries@.len(),
            key_index(entries@, n@, 0) == key_index(entries@, n@, j as int),
        decreases entries@.len() - j,
    {
        if entries[j].0 == *n {
            return j;
        }
        j = j + 1;
    }
    j
}

/// The declarations of `n` in a scope, in source order.
pub open spec fn scope_lookup(s: Scope, n: Seq<char>) -> Option<Seq<ScopeDef>> {
    match table_lookup(s.declarations@, n) {
        Some(ds) => Some(ds@),
        None => None,
    }
}

/// The scopes from `i` up to the module scope, innermost first.
pub open spec fn chain_from(parents: Seq<Option<usize>>, i: usize) -> Seq<usize>
    decreases i,
{
    if (i as int) < parents.len() && parents[i as int] is Some && parents[i as int]->Some_0 < i {
        seq![i] + chain_from(parents, parents[i as int]->Some_0)
    } else {
        seq![i]
    }
}

/// Whether no name is listed twice in a scope's table.
pub open spec fn decl_names_unique(decls: Seq<(String, Vec<ScopeDef>)>) -> bool {
    forall|i: int, j: int| 0 <= i < j < decls.len() ==> decls[i].0@ != decls[j].0@
}

/// The index of the first anchor at or after `j` for `hir`, or the number of
/// anchors.
pub open spec fn anchor_index(anchors: Seq<ScopeAnchor>, hir: ScopeHirId, j: int) -> int
    decreases anchors.len() - j,
{
    if j < 0 || j >= anchors.len() {
        anchors.len() as int
    } else if anchors[j].hir == hir {
        j
    } else {
        anchor_index(anchors, hir, j + 1)
    }
}

pub proof fn lemma_anchor_index(anchors: Seq<ScopeAnchor>, hir: ScopeHirId, j: int)
    requires
        0 <= j <= anchors.len(),
    ensures
        j <= anchor_index(anchors, hir, j) <= anchors.len(),
        anchor_index(anchors, hir, j) < anchors.len() ==> anchors[anchor_index(anchors, hir, j)].hir == hir,
    decreases anchors.len() - j,
{
    if j < anchors.len() && anchors[j].hir != hir {
        lemma_anchor_index(anchors, hir, j + 1);
    }
}

impl Scopes {
    /// Scope zero is the module scope, and each scope lists a name once; every other scope has a parent
    /// allocated before it, so parent links cannot form a cycle.
    pub open spec fn wf(&self) -> bool {
        &&& self.scopes@.len() > 0
        &&& self.parents@.len() == self.scopes@.len()
        &&& self.parents@[0] is None
        &&& forall|i: int|
            0 < i < self.parents@.len() ==> #[trigger] self.parents@[i] is Some && (
            self.parents@[i]->Some_0 as int) < i
        &&& forall|k: int|
            0 <= k < self.anchors@.len() ==> #[trigger] self.anchors@[k].scope < self.scopes@.len()
                && self.anchors@[k].range.wf()
        &&& forall|s: int|
            0 <= s < self.scopes@.len() ==> decl_names_unique(#[trigger] self.scopes@[s].declarations@)
    }

    /// The scope chain starting at `scope`, innermost first; empty for none.
    pub open spec fn spec_scope_chain(&self, scope: Option<usize>) -> Seq<usize> {
        match scope {
            Some(s) => chain_from(self.parents@, s),
            None => Seq::empty(),
        }
    }

    pub open spec fn spec_scope_for_hir_id(&self, hir: ScopeHirId) -> Option<usize> {
        let k = anchor_index(self.anchors@, hir, 0);
        if k < self.anchors@.len() {
            Some(self.anchors@[k].scope)
        } else {
            None
        }
    }

    /// The scope anchored at `hir`, if any.
    pub fn scope_for_hir_id(&self, hir: ScopeHirId) -> (r: Option<usize>)
        ensures
            r == self.spec_scope_for_hir_id(hir),
    {
        let mut k: usize = 0;
        while k < self.anchors.len()
            invariant
                0 <= k <= self.anchors@.len(),
                anchor_index(self.anchors@, hir, 0) == anchor_index(self.anchors@, hir, k as int),
            decreases self.anchors@.len() - k,
        {
            if self.anchors[k].hir == hir {
                return Some(self.anchors[k].scope);
            }
            k = k + 1;
        }
        None
    }

    /// The scope chain from `scope` up to the module scope, innermost first.
    pub fn scope_chain(&self, scope: Option<usize>) -> (r: Vec<usize>)
        requires
            self.wf(),
            scope is Some ==> scope->Some_0 < self.scopes@.len(),
        ensures
            r@ == self.spec_scope_chain(scope),
            forall|j: int| 0 <= j < r@.len() ==> #[trigger] r@[j] < self.scopes@.len(),
    {
        let mut r: Vec<usize> = Vec::new();
        match scope {
            None => {
                proof {
                    assert(r@ =~= Seq::<usize>::empty());
                }
                r
            },
            Some(s) => {
                let mut cur = s;
                r.push(cur);
                while self.parents[cur].is_some()
                    invariant
                        self.wf(),
                        cur < self.scopes@.len(),
                        r@.len() > 0,
                        r@.last() == cur,
                        r@.drop_last() + chain_from(self.parents@, cur) == chain_from(self.parents@, s),
                        forall|j: int| 0 <= j < r@.len() ==> #[trigger] r@[j] < self.scopes@.len(),
                    decreases cur,
                {
                    let p = self.parents[cur].unwrap();
                    proof {
                        assert(cur > 0);
                        assert(self.parents@[cur as int] is Some);
                        assert(chain_from(self.parents@, cur) == seq![cur] + chain_from(self.parents@, p));
                    }
                    let ghost prev = r@;
                    r.push(p);
                    proof {
                        assert(r@.drop_last() =~= prev);
                        assert(prev.drop_last() + (seq![cur] + chain_from(self.parents@, p)) =~= prev
                            + chain_from(self.parents@, p));
                    }
                    cur = p;
                }
                proof {
                    assert(chain_from(self.parents@, cur) == seq![cur]);
                    assert(r@.drop_last() + seq![cur] =~= r@);
                }
                r
            },
        }
    }

    /// Scopes holding only a module scope anchored at `range`.
    pub fn new_module(range: TextRange) -> (r: Scopes)
        requires
            range.wf(),
        ensures
            r.wf(),
            r.scopes@.len() == 1,
            r.scopes@[0].declarations@.len() == 0,
            r.anchors@ == seq![ScopeAnchor { hir: ScopeHirId::Module, range, scope: 0 }],
    {
        let mut scopes: Vec<Scope> = Vec::new();
        scopes.push(Scope { declarations: Vec::new() });
        let mut parents: Vec<Option<usize>> = Vec::new();
        parents.push(None);
        let mut anchors: Vec<ScopeAnchor> = Vec::new();
        anchors.push(ScopeAnchor { hir: ScopeHirId::Module, range, scope: 0 });
        Scopes { scopes, parents, anchors }
    }

    /// Adds an empty scope under `parent`, anchored at `hir` over `range`,
    /// and returns its index.
    pub fn add_scope(&mut self, parent: usize, hir: ScopeHirId, range: TextRange) -> (r: usize)
        requires
            old(self).wf(),
            parent < old(self).scopes@.len(),
            range.wf(),
            old(self).scopes@.len() < usize::MAX,
        ensures
            final(self).wf(),
            r == old(self).scopes@.len(),
            final(self).scopes@ == old(self).scopes@.push(Scope { declarations: final(self).scopes@[r as int].declarations }),
            final(self).scopes@[r as int].declarations@.len() == 0,
            final(self).parents@ == old(self).parents@.push(Some(parent)),
            final(self).anchors@ == old(self).anchors@.push(ScopeAnchor { hir, range, scope: r }),
    {
        let r = self.scopes.len();
        self.scopes.push(Scope { declarations: Vec::new() });
        self.parents.push(Some(parent));
        self.anchors.push(ScopeAnchor { hir, range, scope: r });
        proof {
            assert forall|i: int| 0 < i < self.parents@.len() implies #[trigger] self.parents@[i] is Some
                && (self.parents@[i]->Some_0 as int) < i by {
                if i < old(self).parents@.len() {
                    assert(self.parents@[i] == old(self).parents@[i]);
                }
            }
            assert forall|t: int| 0 <= t < self.scopes@.len() implies decl_names_unique(
                #[trigger] self.scopes@[t].declarations@,
            ) by {
                if t < old(self).scopes@.len() {
                    assert(self.scopes@[t] == old(self).scopes@[t]);
                }
            }
            assert forall|k: int| 0 <= k < self.anchors@.len() implies #[trigger] self.anchors@[k].scope
                < self.scopes@.len() && self.anchors@[k].range.wf() by {
                if k < old(self).anchors@.len() {
                    assert(self.anchors@[k] == old(self).anchors@[k]);
                }
            }
        }
        r
    }
}

} // verus!

verus! {

/// Following parent links from any scope reaches the module scope in at most
/// as many steps as there are scopes: the chain starts at the scope, links
/// each scope to its parent, and ends at the module scope.
pub proof fn lemma_scope_chain_terminates(scopes: Scopes, i: usize)
    requires
        scopes.wf(),
        i < scopes.scopes@.len(),
    ensures
        1 <= chain_from(scopes.parents@, i).len() <= i + 1 <= scopes.scopes@.len(),
        chain_from(scopes.parents@, i)[0] == i,
        chain_from(scopes.parents@, i).last() == 0,
        forall|j: int|
            0 <= j < chain_from(scopes.parents@, i).len() ==> #[trigger] chain_from(scopes.parents@, i)[j]
                < scopes.scopes@.len(),
        forall|j: int|
            0 <= j < chain_from(scopes.parents@, i).len() - 1 ==> scopes.parents@[#[trigger] chain_from(
                scopes.parents@,
                i,
            )[j] as int] == Some(chain_from(scopes.parents@, i)[j + 1]),
    decreases i,
{
    let c = chain_from(scopes.parents@, i);
    if i > 0 {
        assert(scopes.parents@[i as int] is Some);
        let p = scopes.parents@[i as int]->Some_0;
        lemma_scope_chain_terminates(scopes, p);
        let rest = chain_from(scopes.parents@, p);
        assert(c == seq![i] + rest);
        assert forall|j: int| 0 <= j < c.len() - 1 implies scopes.parents@[#[trigger] c[j] as int] == Some(
            c[j + 1],
        ) by {
            if j > 0 {
                assert(c[j] == rest[j - 1]);
                assert(c[j + 1] == rest[j]);
            }
        }
        assert forall|j: int| 0 <= j < c.len() implies #[trigger] c[j] < scopes.scopes@.len() by {
            if j > 0 {
                assert(c[j] == rest[j - 1]);
            }
        }
    }
}

} // verus!
