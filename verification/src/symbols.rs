use vstd::prelude::*;
use vstd::multiset::Multiset;
use crate::defmap::{DefMap, Symbol, SymbolId, SymbolModel, name_lt};
use crate::metrics::{DurationNanos, WorkMetrics};
use crate::lexer::Token;
use crate::parser::{stmt_id, 
    Expr, ExprModel, Program, Stmt, StmtModel, StmtShape, ExprShape, stmt_models, lemma_stmt_models,
    stmts_shape, stmt_shape, expr_shape, shape_of, ParseState, primary_s, expr_rest_s,
    expr_s, let_s, fn_s, stmt_s, stmts_s, parsed, initial_state, advanced, skip,
};

verus! {

/// A use of a name, bound to the symbol it names when there is one.
#[derive(Debug)]
pub struct Reference {
    pub name: String,
    pub from_stmt: u64,
    pub def: Option<SymbolId>,
}

pub struct RefModel {
    pub name: Seq<char>,
    pub from_stmt: u64,
    pub def: Option<SymbolId>,
}

impl View for Reference {
    type V = RefModel;

    open spec fn view(&self) -> RefModel {
        RefModel { name: self.name@, from_stmt: self.from_stmt, def: self.def }
    }
}

pub open spec fn ref_models(s: Seq<Reference>) -> Seq<RefModel> {
    s.map_values(|r: Reference| r@)
}

/// Definitions by name, uses in program order, and the work spent.
#[derive(Debug)]
pub struct SymbolTable {
    pub defs: DefMap,
    pub refs: Vec<Reference>,
    pub work: WorkMetrics,
}

// ----- what a program defines and uses -----

/// Identifiers used by an expression, left to right.
pub open spec fn expr_names(e: ExprModel) -> Seq<Seq<char>>
    decreases e,
{
    match e {
        ExprModel::Ident { name, .. } => seq![name],
        ExprModel::Number { .. } => Seq::empty(),
        ExprModel::Binary { left, right, .. } => expr_names(*left) + expr_names(*right),
    }
}

/// Definitions made by a statement tree, in order: name and statement id.
pub open spec fn stmt_defs(s: StmtModel) -> Seq<(Seq<char>, u64)>
    decreases s,
{
    match s {
        StmtModel::Let { id, name, .. } => seq![(name, id.0)],
        StmtModel::Fn { id, name, body, .. } => seq![(name, id.0)] + stmts_defs(body),
        StmtModel::Call { .. } => Seq::empty(),
    }
}

pub open spec fn stmts_defs(ss: Seq<StmtModel>) -> Seq<(Seq<char>, u64)>
    decreases ss,
{
    if ss.len() == 0 {
        Seq::empty()
    } else {
        stmt_defs(ss[0]) + stmts_defs(ss.drop_first())
    }
}

/// Uses made by a statement tree, in order: name and statement id.
pub open spec fn stmt_refs(s: StmtModel) -> Seq<(Seq<char>, u64)>
    decreases s,
{
    match s {
        StmtModel::Let { id, expr, .. } => expr_names(expr).map_values(|n: Seq<char>| (n, id.0)),
        StmtModel::Fn { body, .. } => stmts_refs(body),
        StmtModel::Call { id, name, .. } => seq![(name, id.0)],
    }
}

pub open spec fn stmts_refs(ss: Seq<StmtModel>) -> Seq<(Seq<char>, u64)>
    decreases ss,
{
    if ss.len() == 0 {
        Seq::empty()
    } else {
        stmt_refs(ss[0]) + stmts_refs(ss.drop_first())
    }
}

/// `n` advanced `k` times the way a wrapping `u64` counter is.
pub open spec fn advance(n: u64, k: nat) -> u64
    decreases k,
{
    if k == 0 {
        n
    } else {
        advance(((n + 1) % 0x1_0000_0000_0000_0000) as u64, (k - 1) as nat)
    }
}

/// `m` after inserting the definitions `evs` in order, numbered from `next`;
/// a later definition of a name replaces an earlier one.
pub open spec fn insert_defs(m: Map<Seq<char>, SymbolModel>, evs: Seq<(Seq<char>, u64)>, next: u64) -> Map<Seq<char>, SymbolModel>
    decreases evs.len(),
{
    if evs.len() == 0 {
        m
    } else {
        insert_defs(
            m.insert(evs[0].0, SymbolModel { id: SymbolId(next), name: evs[0].0, def_stmt: evs[0].1 }),
            evs.drop_first(),
            ((next + 1) % 0x1_0000_0000_0000_0000) as u64,
        )
    }
}

/// Uses, each bound to the symbol its name has in `m`, if any.
pub open spec fn bind(evs: Seq<(Seq<char>, u64)>, m: Map<Seq<char>, SymbolModel>) -> Seq<RefModel> {
    evs.map_values(|e: (Seq<char>, u64)| RefModel {
        name: e.0,
        from_stmt: e.1,
        def: if m.dom().contains(e.0) { Some(m[e.0].id) } else { None },
    })
}

/// Uses not bound yet.
pub open spec fn unbound(evs: Seq<(Seq<char>, u64)>) -> Seq<RefModel> {
    evs.map_values(|e: (Seq<char>, u64)| RefModel { name: e.0, from_stmt: e.1, def: None })
}

proof fn lemma_defs_cons(s: StmtModel, rest: Seq<StmtModel>)
    ensures
        stmts_defs(seq![s] + rest) == stmt_defs(s) + stmts_defs(rest),
        stmts_refs(seq![s] + rest) == stmt_refs(s) + stmts_refs(rest),
{
    let t = seq![s] + rest;
    assert(t[0] == s);
    assert(t.drop_first() =~= rest);
}

proof fn lemma_defs_skip(ss: Seq<StmtModel>, k: int)
    requires
        0 <= k < ss.len(),
    ensures
        stmts_defs(ss.skip(k)) == stmt_defs(ss[k]) + stmts_defs(ss.skip(k + 1)),
        stmts_refs(ss.skip(k)) == stmt_refs(ss[k]) + stmts_refs(ss.skip(k + 1)),
{
    let t = ss.skip(k);
    assert(t[0] == ss[k]);
    assert(t.drop_first() =~= ss.skip(k + 1));
}

pub proof fn lemma_insert_defs_append(m: Map<Seq<char>, SymbolModel>, a: Seq<(Seq<char>, u64)>, b: Seq<(Seq<char>, u64)>, next: u64)
    ensures
        insert_defs(m, a + b, next) == insert_defs(insert_defs(m, a, next), b, advance(next, a.len())),
        advance(next, (a + b).len()) == advance(advance(next, a.len()), b.len()),
    decreases a.len(),
{
    if a.len() == 0 {
        assert(a + b =~= b);
    } else {
        let n2 = ((next + 1) % 0x1_0000_0000_0000_0000) as u64;
        let m2 = m.insert(a[0].0, SymbolModel { id: SymbolId(next), name: a[0].0, def_stmt: a[0].1 });
        lemma_insert_defs_append(m2, a.drop_first(), b, n2);
        assert((a + b).drop_first() =~= a.drop_first() + b);
        assert((a + b)[0] == a[0]);
    }
}

// ----- collecting -----

fn collect_expr(e: &Expr, from_stmt: u64, refs: &mut Vec<Reference>)
    ensures
        ref_models(final(refs)@) == ref_models(old(refs)@) + unbound(expr_names(e@).map_values(|n: Seq<char>| (n, from_stmt))),
    decreases e,
{
    match e {
        Expr::Ident { name, .. } => {
            refs.push(Reference { name: name.clone(), from_stmt, def: None });
            proof {
                assert(ref_models(refs@) =~= ref_models(old(refs)@) + unbound(expr_names(e@).map_values(|n: Seq<char>| (n, from_stmt))));
            }
        },
        Expr::Number { .. } => {
            proof {
                assert(ref_models(refs@) =~= ref_models(old(refs)@) + unbound(expr_names(e@).map_values(|n: Seq<char>| (n, from_stmt))));
            }
        },
        Expr::Binary { left, right, .. } => {
            collect_expr(left, from_stmt, refs);
            collect_expr(right, from_stmt, refs);
            proof {
                let f = |n: Seq<char>| (n, from_stmt);
                assert(expr_names(e@) == expr_names((**left)@) + expr_names((**right)@));
                assert(expr_names(e@).map_values(f) =~= expr_names((**left)@).map_values(f) + expr_names((**right)@).map_values(f));
                assert(unbound(expr_names(e@).map_values(f)) =~= unbound(expr_names((**left)@).map_values(f)) + unbound(expr_names((**right)@).map_values(f)));
                assert(ref_models(refs@) =~= ref_models(old(refs)@) + unbound(expr_names(e@).map_values(f)));
            }
        },
    }
}

/// Collect one statement tree; says whether the ids it handed out stayed
/// below the counter's maximum.
fn collect_stmt(s: &Stmt, defs: &mut DefMap, refs: &mut Vec<Reference>, next: &mut u64) -> (fits: bool)
    ensures
        final(defs).map() == insert_defs(old(defs).map(), stmt_defs(s@), *old(next)),
        *final(next) == advance(*old(next), stmt_defs(s@).len()),
        ref_models(final(refs)@) == ref_models(old(refs)@) + unbound(stmt_refs(s@)),
        fits <==> *old(next) + stmt_defs(s@).len() <= u64::MAX,
    decreases s,
{
    match s {
        Stmt::Let { id, name, expr, .. } => {
            let fits = *next < u64::MAX;
            defs.insert(Symbol { id: SymbolId(*next), name: name.clone(), def_stmt: id.0 });
            *next = next.wrapping_add(1);
            collect_expr(expr, id.0, refs);
            proof {
                let evs = stmt_defs(s@);
                let n0 = *old(next);
                let m1 = old(defs).map().insert(name@, SymbolModel { id: SymbolId(n0), name: name@, def_stmt: id.0 });
                assert(evs.drop_first() =~= Seq::<(Seq<char>, u64)>::empty());
                assert(insert_defs(m1, evs.drop_first(), ((n0 + 1) % 0x1_0000_0000_0000_0000) as u64) == m1);
                assert(advance(*next, 0) == *next);
            }
            fits
        },
        Stmt::Fn { id, name, body, .. } => {
            let first_fits = *next < u64::MAX;
            defs.insert(Symbol { id: SymbolId(*next), name: name.clone(), def_stmt: id.0 });
            *next = next.wrapping_add(1);
            let ghost mid_defs = defs.map();
            let ghost mid_next = *next;
            let rest_fits = collect_body(body, defs, refs, next);
            proof {
                let evs = stmt_defs(s@);
                assert(evs.drop_first() =~= stmts_defs(stmt_models(body@)));
            }
            first_fits && rest_fits
        },
        Stmt::Call { id, name, .. } => {
            refs.push(Reference { name: name.clone(), from_stmt: id.0, def: None });
            proof {
                assert(ref_models(refs@) =~= ref_models(old(refs)@) + unbound(stmt_refs(s@)));
            }
            true
        },
    }
}

fn collect_body(body: &Vec<Stmt>, defs: &mut DefMap, refs: &mut Vec<Reference>, next: &mut u64) -> (fits: bool)
    ensures
        final(defs).map() == insert_defs(old(defs).map(), stmts_defs(stmt_models(body@)), *old(next)),
        *final(next) == advance(*old(next), stmts_defs(stmt_models(body@)).len()),
        ref_models(final(refs)@) == ref_models(old(refs)@) + unbound(stmts_refs(stmt_models(body@))),
        fits <==> *old(next) + stmts_defs(stmt_models(body@)).len() <= u64::MAX,
    decreases body,
{
    let mut fits = true;
    let ghost ms = stmt_models(body@);
    proof {
        lemma_stmt_models(body@);
        assert(ms.skip(0) =~= ms);
    }
    let mut k: usize = 0;
    while k < body.len()
        invariant
            k <= body@.len(),
            ms == stmt_models(body@),
            ms.len() == body@.len(),
            forall|i: int| 0 <= i < body@.len() ==> #[trigger] ms[i] == body@[i]@,
            insert_defs(old(defs).map(), stmts_defs(ms), *old(next))
                == insert_defs(defs.map(), stmts_defs(ms.skip(k as int)), *next),
            advance(*old(next), stmts_defs(ms).len()) == advance(*next, stmts_defs(ms.skip(k as int)).len()),
            ref_models(old(refs)@) + unbound(stmts_refs(ms)) == ref_models(refs@) + unbound(stmts_refs(ms.skip(k as int))),
            fits ==> *next as int + stmts_defs(ms.skip(k as int)).len() == *old(next) + stmts_defs(ms).len(),
            fits ==> *next as int <= u64::MAX,
            stmts_defs(ms.skip(k as int)).len() <= stmts_defs(ms).len(),
            fits <==> *old(next) + (stmts_defs(ms).len() - stmts_defs(ms.skip(k as int)).len()) <= u64::MAX,
        decreases body@.len() - k,
    {
        proof {
            assert(decreases_to!(body => body@));
            assert(decreases_to!(body@ => body@[k as int]));
            lemma_defs_skip(ms, k as int);
        }
        let ghost d0 = defs.map();
        let ghost n0 = *next;
        let ghost r0 = ref_models(refs@);
        let step_fits = collect_stmt(&body[k], defs, refs, next);
        proof {
            let a = stmt_defs(ms[k as int]);
            let b = stmts_defs(ms.skip(k + 1));
            lemma_insert_defs_append(d0, a, b, n0);
            if fits && step_fits {
                lemma_advance_no_wrap(n0, a.len());
            }
            let ra = stmt_refs(ms[k as int]);
            let rb = stmts_refs(ms.skip(k + 1));
            assert(unbound(ra + rb) =~= unbound(ra) + unbound(rb));
            assert(r0 + unbound(ra + rb) =~= ref_models(refs@) + unbound(rb));
        }
        fits = fits && step_fits;
        k = k + 1;
    }
    proof {
        assert(ms.skip(k as int) =~= Seq::<StmtModel>::empty());
        assert(ref_models(refs@) + Seq::<RefModel>::empty() =~= ref_models(refs@));
    }
    fits
}

/// Bind every use to the symbol of its name.
fn rebind(defs: &DefMap, refs: &mut Vec<Reference>)
    ensures
        final(refs)@.len() == old(refs)@.len(),
        forall|k: int| 0 <= k < old(refs)@.len() ==> {
            &&& (#[trigger] final(refs)@[k]).name@ == old(refs)@[k].name@
            &&& final(refs)@[k].from_stmt == old(refs)@[k].from_stmt
            &&& final(refs)@[k].def == (if defs.map().dom().contains(old(refs)@[k].name@) {
                Some(defs.map()[old(refs)@[k].name@].id)
            } else {
                None
            })
        },
{
    let mut k: usize = 0;
    while k < refs.len()
        invariant
            k <= refs@.len(),
            refs@.len() == old(refs)@.len(),
            forall|i: int| 0 <= i < refs@.len() ==> {
                &&& (#[trigger] refs@[i]).name@ == old(refs)@[i].name@
                &&& refs@[i].from_stmt == old(refs)@[i].from_stmt
            },
            forall|i: int| 0 <= i < k ==> (#[trigger] refs@[i]).def == (if defs.map().dom().contains(old(refs)@[i].name@) {
                Some(defs.map()[old(refs)@[i].name@].id)
            } else {
                None
            }),
            forall|i: int| k <= i < refs@.len() ==> #[trigger] refs@[i] == old(refs)@[i],
        decreases refs@.len() - k,
    {
        let found = match defs.get(refs[k].name.as_str()) {
            Some(sym) => Some(sym.id),
            None => None,
        };
        let mut r = refs.remove(k);
        r.def = found;
        refs.insert(k, r);
        k = k + 1;
    }
}


// ----- full tables -----

/// The definitions of a full symbol pass over `p`.
pub open spec fn full_defs(p: Program) -> Map<Seq<char>, SymbolModel> {
    insert_defs(Map::empty(), stmts_defs(stmt_models(p.stmts@)), 1)
}

/// Name of each use, and whether a definition of that name exists.
pub open spec fn ref_keys(refs: Seq<Reference>) -> Seq<(Seq<char>, bool)> {
    refs.map_values(|r: Reference| (r.name@, r.def is Some))
}

/// The use keys of a full symbol pass over `p`, in program order.
pub open spec fn full_ref_keys(p: Program) -> Seq<(Seq<char>, bool)> {
    stmts_refs(stmt_models(p.stmts@)).map_values(|e: (Seq<char>, u64)| (e.0, full_defs(p).dom().contains(e.0)))
}

/// Same defined names, and the same uses up to order, each equally bound or
/// unbound.
pub open spec fn same_symbols(a: SymbolTable, b: SymbolTable) -> bool {
    &&& a.defs.map().dom() == b.defs.map().dom()
    &&& ref_keys(a.refs@).to_multiset() == ref_keys(b.refs@).to_multiset()
}

/// `t` has the defined names and the uses of a full symbol pass over `p`.
pub open spec fn symbols_agree(t: SymbolTable, p: Program) -> bool {
    &&& t.defs.map().dom() == full_defs(p).dom()
    &&& ref_keys(t.refs@).to_multiset() == full_ref_keys(p).to_multiset()
}

/// Work counters of a pass that computed `n` items anew.
pub open spec fn fresh_work(n: nat) -> WorkMetrics {
    let c: usize = if n <= usize::MAX { n as usize } else { usize::MAX };
    WorkMetrics {
        bytes_processed: 0,
        allocations_hint: 0,
        items_reused: 0,
        items_recomputed: c,
        items_invalidated: 0,
        items_total: c,
        hashing_nanos: DurationNanos(0),
    }
}

/// Symbols of a whole program: every `let` and `fn` defines its name (a later
/// definition replaces an earlier one), every call and identifier is a use,
/// and uses are bound to the definition of their name.
pub fn symbols_full(program: &Program) -> (t: SymbolTable)
    ensures
        t.defs.map() == full_defs(*program),
        ref_models(t.refs@) == bind(stmts_refs(stmt_models(program.stmts@)), full_defs(*program)),
        t.work == fresh_work(t.defs.symbols().len() + t.refs@.len()),
        symbols_agree(t, *program),
        t.defs.in_order(),
        stmts_defs(stmt_models(program.stmts@)).len() < u64::MAX ==> well_bound(t),
{
    let mut defs = DefMap::new();
    let mut refs: Vec<Reference> = Vec::new();
    let mut next: u64 = 1;
    let ghost refs0 = refs@;
    collect_body(&program.stmts, &mut defs, &mut refs, &mut next);
    let ghost collected = refs@;
    rebind(&defs, &mut refs);
    let n = defs.len().saturating_add(refs.len());
    proof {
        use_type_invariant(&defs);
        defs.lemma_in_order();
        let evs = stmts_refs(stmt_models(program.stmts@));
        assert(ref_models(refs0) =~= Seq::<RefModel>::empty());
        assert(ref_models(collected) =~= unbound(evs));
        assert(ref_models(refs@) =~= bind(evs, defs.map())) by {
            assert forall|k: int| 0 <= k < refs@.len() implies #[trigger] ref_models(refs@)[k] == bind(evs, defs.map())[k] by {
                assert(ref_models(collected)[k] == unbound(evs)[k]);
            }
        }
        assert(ref_keys(refs@) =~= full_ref_keys(*program)) by {
            assert forall|k: int| 0 <= k < refs@.len() implies #[trigger] ref_keys(refs@)[k] == full_ref_keys(*program)[k] by {
                assert(ref_models(refs@)[k] == bind(evs, defs.map())[k]);
            }
        }
        assert(defs.symbols().len() + refs@.len() <= usize::MAX ==> n == defs.symbols().len() + refs@.len());
        let evd = stmts_defs(stmt_models(program.stmts@));
        if evd.len() < u64::MAX {
            lemma_insert_defs_ids(Map::empty(), evd, 1);
            assert forall|k: int| 0 <= k < refs@.len() implies (#[trigger] refs@[k]).def == (if defs.map().dom().contains(refs@[k].name@) {
                Some(defs.map()[refs@[k].name@].id)
            } else {
                None
            }) by {
                assert(ref_models(refs@)[k] == bind(evs, defs.map())[k]);
                assert(ref_models(refs@)[k] == refs@[k]@);
            }
        }
    }
    SymbolTable {
        defs,
        refs,
        work: WorkMetrics {
            bytes_processed: 0,
            allocations_hint: 0,
            items_reused: 0,
            items_recomputed: n,
            items_invalidated: 0,
            items_total: n,
            hashing_nanos: DurationNanos(0),
        },
    }
}

proof fn lemma_sorted_same_set(a: Seq<Seq<char>>, b: Seq<Seq<char>>)
    requires
        forall|i: int, j: int| 0 <= i < j < a.len() ==> name_lt(#[trigger] a[i], #[trigger] a[j]),
        forall|i: int, j: int| 0 <= i < j < b.len() ==> name_lt(#[trigger] b[i], #[trigger] b[j]),
        forall|x: Seq<char>| a.contains(x) <==> b.contains(x),
    ensures
        a == b,
    decreases a.len(),
{
    if a.len() == 0 {
        if b.len() > 0 {
            assert(b.contains(b[0]));
        }
        assert(a =~= b);
    } else {
        assert(a.contains(a[0]));
        assert(b.len() > 0);
        assert(b.contains(b[0]));
        let ia = choose|i: int| 0 <= i < a.len() && a[i] == b[0];
        let ib = choose|i: int| 0 <= i < b.len() && b[i] == a[0];
        if a[0] != b[0] {
            assert(ia > 0 && ib > 0);
            assert(name_lt(a[0], a[ia]));
            assert(name_lt(b[0], b[ib]));
            crate::defmap::lemma_name_lt_asymmetric(a[0], b[0]);
        }
        let a2 = a.drop_first();
        let b2 = b.drop_first();
        assert forall|x: Seq<char>| a2.contains(x) <==> b2.contains(x) by {
            if a2.contains(x) {
                let i = choose|i: int| 0 <= i < a2.len() && a2[i] == x;
                assert(name_lt(a[0], a[i + 1]));
                crate::defmap::lemma_name_lt_asymmetric(a[0], x);
                assert(b.contains(x));
                let j = choose|j: int| 0 <= j < b.len() && b[j] == x;
                assert(j != 0);
                assert(b2[j - 1] == x);
            }
            if b2.contains(x) {
                let i = choose|i: int| 0 <= i < b2.len() && b2[i] == x;
                assert(name_lt(b[0], b[i + 1]));
                crate::defmap::lemma_name_lt_asymmetric(b[0], x);
                assert(a.contains(x));
                let j = choose|j: int| 0 <= j < a.len() && a[j] == x;
                assert(j != 0);
                assert(a2[j - 1] == x);
            }
        }
        lemma_sorted_same_set(a2, b2);
        assert(a =~= seq![a[0]] + a2);
        assert(b =~= seq![b[0]] + b2);
    }
}

/// Whether two use lists hold the same keys, counted with multiplicity.
fn same_ref_keys(a: &Vec<Reference>, b: &Vec<Reference>) -> (r: bool)
    ensures
        r == (ref_keys(a@).to_multiset() == ref_keys(b@).to_multiset()),
{
    broadcast use vstd::seq_lib::group_to_multiset_ensures, vstd::multiset::group_multiset_axioms;
    let ghost ka = ref_keys(a@);
    let ghost kb = ref_keys(b@);
    let mut remaining: Vec<usize> = Vec::new();
    let mut j: usize = 0;
    while j < b.len()
        invariant
            j <= b@.len(),
            remaining@.len() == j,
            forall|x: int| 0 <= x < j ==> #[trigger] remaining@[x] == x,
        decreases b@.len() - j,
    {
        remaining.push(j);
        j = j + 1;
    }
    let ghost rest = remaining@.map_values(|x: usize| kb[x as int]);
    proof {
        assert(rest =~= kb);
        assert(ka.take(0) =~= Seq::<(Seq<char>, bool)>::empty());
        assert(ka.take(0).to_multiset() =~= Multiset::empty());
    }
    let mut i: usize = 0;
    while i < a.len()
        invariant
            i <= a@.len(),
            ka == ref_keys(a@),
            kb == ref_keys(b@),
            forall|x: int| 0 <= x < remaining@.len() ==> #[trigger] remaining@[x] < b@.len(),
            rest == remaining@.map_values(|x: usize| kb[x as int]),
            ka.take(i as int).to_multiset().add(rest.to_multiset()) == kb.to_multiset(),
        decreases a@.len() - i,
    {
        let mut found = false;
        let mut k: usize = 0;
        while k < remaining.len() && !found
            invariant
                i < a@.len(),
                ka == ref_keys(a@),
                kb == ref_keys(b@),
                forall|x: int| 0 <= x < remaining@.len() ==> #[trigger] remaining@[x] < b@.len(),
                rest == remaining@.map_values(|x: usize| kb[x as int]),
                k <= remaining@.len(),
                found ==> k < remaining@.len() && rest[k as int] == ka[i as int],
                forall|x: int| 0 <= x < k ==> #[trigger] rest[x] != ka[i as int],
            decreases remaining@.len() - k, (if found { 0int } else { 1int }),
        {
            let bj = remaining[k];
            proof {
                assert(rest[k as int] == kb[bj as int]);
            }
            if a[i].name == b[bj].name && a[i].def.is_some() == b[bj].def.is_some() {
                found = true;
            } else {
                k = k + 1;
            }
        }
        let ghost x = ka[i as int];
        proof {
            assert(ka.take(i + 1) =~= ka.take(i as int).push(x));
        }
        if !found {
            proof {
                assert(!rest.contains(x)) by {
                    if rest.contains(x) {
                        let y = choose|y: int| 0 <= y < rest.len() && rest[y] == x;
                        assert(rest[y] != ka[i as int]);
                    }
                }
                vstd::seq_lib::to_multiset_contains(rest, x);
                assert(rest.to_multiset().count(x) == 0);
                vstd::seq_lib::lemma_multiset_commutative(ka.take(i + 1), ka.skip(i + 1));
                assert(ka =~= ka.take(i + 1) + ka.skip(i + 1));
                vstd::seq_lib::to_multiset_build(ka.take(i as int), x);
                let ct = ka.take(i as int).to_multiset().count(x);
                assert(ka.take(i + 1).to_multiset().count(x) == ct + 1);
                assert(kb.to_multiset().count(x) == ct + rest.to_multiset().count(x));
                assert(ka.to_multiset().count(x) == ka.take(i + 1).to_multiset().count(x) + ka.skip(i + 1).to_multiset().count(x));
                assert(ka.to_multiset().count(x) > kb.to_multiset().count(x));
            }
            return false;
        }
        proof {
            assert(rest[k as int] == x);
        }
        let ghost old_rest = rest;
        remaining.remove(k);
        proof {
            rest = remaining@.map_values(|y: usize| kb[y as int]);
            assert(rest =~= old_rest.remove(k as int));
            assert(old_rest.contains(x));
            let t = ka.take(i as int);
            vstd::seq_lib::to_multiset_build(t, x);
            vstd::seq_lib::to_multiset_remove(old_rest, k as int);
            vstd::seq_lib::to_multiset_contains(old_rest, x);
            assert forall|y: (Seq<char>, bool)| #[trigger] ka.take(i + 1).to_multiset().add(rest.to_multiset()).count(y)
                == kb.to_multiset().count(y) by {
                assert(t.to_multiset().add(old_rest.to_multiset()).count(y) == kb.to_multiset().count(y));
            }
            assert(ka.take(i + 1).to_multiset().add(rest.to_multiset()) =~= kb.to_multiset());
        }
        i = i + 1;
    }
    proof {
        assert(ka.take(i as int) =~= ka);
        if remaining.len() > 0 {
            assert(rest.len() > 0);
            assert(kb.to_multiset().len() == ka.to_multiset().len() + rest.to_multiset().len());
        } else {
            assert(rest =~= Seq::<(Seq<char>, bool)>::empty());
            assert(rest.to_multiset() =~= Multiset::empty());
            assert(ka.to_multiset().add(rest.to_multiset()) =~= ka.to_multiset());
        }
    }
    remaining.len() == 0
}

impl SymbolTable {
    /// An empty table.
    pub fn empty() -> (t: SymbolTable)
        ensures
            t.defs.map() == Map::<Seq<char>, SymbolModel>::empty(),
            t.defs.symbols().len() == 0,
            t.refs@.len() == 0,
            t.work == crate::metrics::zero_work(),
    {
        SymbolTable { defs: DefMap::new(), refs: Vec::new(), work: WorkMetrics::zero() }
    }

    /// Same defined names; same uses up to order, each equally bound.
    pub fn semantic_eq(&self, other: &SymbolTable) -> (r: bool)
        ensures
            r == same_symbols(*self, *other),
    {
        let ka = self.defs.keys();
        let kb = other.defs.keys();
        let ghost na = ka@.map_values(|s: String| s@);
        let ghost nb = kb@.map_values(|s: String| s@);
        proof {
            assert forall|i: int, j: int| 0 <= i < j < na.len() implies name_lt(#[trigger] na[i], #[trigger] na[j]) by {
                assert(na[i] == self.defs.symbols()[i].name@);
                assert(na[j] == self.defs.symbols()[j].name@);
            }
            assert forall|i: int, j: int| 0 <= i < j < nb.len() implies name_lt(#[trigger] nb[i], #[trigger] nb[j]) by {
                assert(nb[i] == other.defs.symbols()[i].name@);
                assert(nb[j] == other.defs.symbols()[j].name@);
            }
            assert forall|x: Seq<char>| na.contains(x) <==> self.defs.map().dom().contains(x) by {
                if na.contains(x) {
                    let i = choose|i: int| 0 <= i < na.len() && na[i] == x;
                    assert(ka@[i]@ == x);
                }
                if self.defs.map().dom().contains(x) {
                    let i = choose|i: int| 0 <= i < ka@.len() && (#[trigger] ka@[i])@ == x;
                    assert(na[i] == x);
                }
            }
            assert forall|x: Seq<char>| nb.contains(x) <==> other.defs.map().dom().contains(x) by {
                if nb.contains(x) {
                    let i = choose|i: int| 0 <= i < nb.len() && nb[i] == x;
                    assert(kb@[i]@ == x);
                }
                if other.defs.map().dom().contains(x) {
                    let i = choose|i: int| 0 <= i < kb@.len() && (#[trigger] kb@[i])@ == x;
                    assert(nb[i] == x);
                }
            }
        }
        let mut same_keys = ka.len() == kb.len();
        if same_keys {
            let mut k: usize = 0;
            while k < ka.len() && same_keys
                invariant
                    ka@.len() == kb@.len(),
                    k <= ka@.len(),
                    forall|i: int| 0 <= i < k ==> (#[trigger] ka@[i])@ == kb@[i]@,
                    !same_keys ==> k < ka@.len() && ka@[k as int]@ != kb@[k as int]@,
                decreases ka@.len() - k, (if same_keys { 1int } else { 0int }),
            {
                if ka[k] != kb[k] {
                    same_keys = false;
                } else {
                    k = k + 1;
                }
            }
            proof {
                if same_keys {
                    assert(na =~= nb) by {
                        assert forall|i: int| 0 <= i < na.len() implies na[i] == nb[i] by {
                            assert(ka@[i]@ == kb@[i]@);
                        }
                    }
                } else {
                    assert(na[k as int] != nb[k as int]);
                }
            }
        }
        proof {
            if same_keys {
                assert forall|x: Seq<char>| self.defs.map().dom().contains(x) <==> other.defs.map().dom().contains(x) by {
                    assert(na.contains(x) == nb.contains(x));
                }
                assert(self.defs.map().dom() =~= other.defs.map().dom());
            } else if self.defs.map().dom() == other.defs.map().dom() {
                lemma_sorted_same_set(na, nb);
                assert(false) by {
                    if ka@.len() == kb@.len() {
                        assert(na.len() == nb.len());
                    }
                }
            }
        }
        if !same_keys {
            return false;
        }
        same_ref_keys(&self.refs, &other.refs)
    }
}


// ----- incremental pass -----

/// Whether `v` holds `x`.
pub fn contains_u64(v: &[u64], x: u64) -> (b: bool)
    ensures
        b == v@.contains(x),
{
    let mut k: usize = 0;
    while k < v.len()
        invariant
            k <= v@.len(),
            forall|i: int| 0 <= i < k ==> v@[i] != x,
        decreases v@.len() - k,
    {
        if v[k] == x {
            return true;
        }
        k = k + 1;
    }
    false
}

fn copy_ref(r: &Reference) -> (c: Reference)
    ensures
        c@ == r@,
{
    Reference { name: r.name.clone(), from_stmt: r.from_stmt, def: r.def }
}

impl SymbolTable {
    /// A copy of this table.
    pub fn duplicate(&self) -> (t: SymbolTable)
        ensures
            t.defs.map() == self.defs.map(),
            t.defs.symbols().len() == self.defs.symbols().len(),
            ref_models(t.refs@) == ref_models(self.refs@),
            t.work == self.work,
    {
        let defs = self.defs.duplicate();
        let mut refs: Vec<Reference> = Vec::new();
        let mut k: usize = 0;
        while k < self.refs.len()
            invariant
                k <= self.refs@.len(),
                refs@.len() == k,
                forall|i: int| 0 <= i < k ==> (#[trigger] refs@[i])@ == self.refs@[i]@,
            decreases self.refs@.len() - k,
        {
            refs.push(copy_ref(&self.refs[k]));
            k = k + 1;
        }
        assert(ref_models(refs@) =~= ref_models(self.refs@));
        SymbolTable { defs, refs, work: self.work }
    }
}

/// Some definitions `evs`, numbered from `n` without wrapping, turn `m0`
/// into `m1` and the counter into `n1`.
pub open spec fn numbered_from(m0: Map<Seq<char>, SymbolModel>, n: u64, m1: Map<Seq<char>, SymbolModel>, n1: u64) -> bool {
    exists|evs: Seq<(Seq<char>, u64)>| #![trigger insert_defs(m0, evs, n)]
        m1 == insert_defs(m0, evs, n) && n + evs.len() <= u64::MAX && n1 == n + evs.len()
}

proof fn lemma_numbered_chain(m0: Map<Seq<char>, SymbolModel>, n0: u64, m1: Map<Seq<char>, SymbolModel>, n1: u64, m2: Map<Seq<char>, SymbolModel>, n2: u64)
    requires
        numbered_from(m0, n0, m1, n1),
        numbered_from(m1, n1, m2, n2),
    ensures
        numbered_from(m0, n0, m2, n2),
{
    let a = choose|evs: Seq<(Seq<char>, u64)>| #![trigger insert_defs(m0, evs, n0)]
        m1 == insert_defs(m0, evs, n0) && n0 + evs.len() <= u64::MAX && n1 == n0 + evs.len();
    let b = choose|evs: Seq<(Seq<char>, u64)>| #![trigger insert_defs(m1, evs, n1)]
        m2 == insert_defs(m1, evs, n1) && n1 + evs.len() <= u64::MAX && n2 == n1 + evs.len();
    lemma_insert_defs_append(m0, a, b, n0);
    lemma_advance_no_wrap(n0, a.len());
    assert(m2 == insert_defs(m0, a + b, n0));
}

proof fn lemma_numbered_refl(m: Map<Seq<char>, SymbolModel>, n: u64)
    ensures
        numbered_from(m, n, m, n),
{
    assert(m == insert_defs(m, Seq::empty(), n));
}

/// The definitions collected anew from a statement tree: those of each
/// statement in it whose id is dirty, outermost first.
pub open spec fn dirty_defs(s: StmtModel, dirty: Seq<u64>) -> Seq<(Seq<char>, u64)>
    decreases s,
{
    (if dirty.contains(stmt_id(s).0) { stmt_defs(s) } else { Seq::empty() }) + match s {
        StmtModel::Fn { body, .. } => dirty_body_defs(body, dirty),
        _ => Seq::empty(),
    }
}

pub open spec fn dirty_body_defs(b: Seq<StmtModel>, dirty: Seq<u64>) -> Seq<(Seq<char>, u64)>
    decreases b,
{
    if b.len() == 0 {
        Seq::empty()
    } else {
        dirty_defs(b[0], dirty) + dirty_body_defs(b.drop_first(), dirty)
    }
}

/// The uses collected anew from a statement tree, in the same order.
pub open spec fn dirty_refs(s: StmtModel, dirty: Seq<u64>) -> Seq<(Seq<char>, u64)>
    decreases s,
{
    (if dirty.contains(stmt_id(s).0) { stmt_refs(s) } else { Seq::empty() }) + match s {
        StmtModel::Fn { body, .. } => dirty_body_refs(body, dirty),
        _ => Seq::empty(),
    }
}

pub open spec fn dirty_body_refs(b: Seq<StmtModel>, dirty: Seq<u64>) -> Seq<(Seq<char>, u64)>
    decreases b,
{
    if b.len() == 0 {
        Seq::empty()
    } else {
        dirty_refs(b[0], dirty) + dirty_body_refs(b.drop_first(), dirty)
    }
}

proof fn lemma_dirty_skip(ss: Seq<StmtModel>, dirty: Seq<u64>, k: int)
    requires
        0 <= k < ss.len(),
    ensures
        dirty_body_defs(ss.skip(k), dirty) == dirty_defs(ss[k], dirty) + dirty_body_defs(ss.skip(k + 1), dirty),
        dirty_body_refs(ss.skip(k), dirty) == dirty_refs(ss[k], dirty) + dirty_body_refs(ss.skip(k + 1), dirty),
{
    let t = ss.skip(k);
    assert(t[0] == ss[k]);
    assert(t.drop_first() =~= ss.skip(k + 1));
}

/// Collect anew the definitions and uses of every dirty statement in the
/// tree of `stmt`; whether the numbering stayed within the counter.
fn walk_dirty(stmt: &Stmt, defs: &mut DefMap, refs: &mut Vec<Reference>, next: &mut u64, dirty: &[u64]) -> (fits: bool)
    ensures
        final(defs).map() == insert_defs(old(defs).map(), dirty_defs(stmt@, dirty@), *old(next)),
        *final(next) == advance(*old(next), dirty_defs(stmt@, dirty@).len()),
        ref_models(final(refs)@) == ref_models(old(refs)@) + unbound(dirty_refs(stmt@, dirty@)),
        fits <==> *old(next) + dirty_defs(stmt@, dirty@).len() <= u64::MAX,
        fits ==> numbered_from(old(defs).map(), *old(next), final(defs).map(), *final(next)),
    decreases stmt,
{
    let mut fits = true;
    proof {
        lemma_numbered_refl(defs.map(), *next);
    }
    let ghost own_defs: Seq<(Seq<char>, u64)> = if dirty@.contains(stmt_id(stmt@).0) { stmt_defs(stmt@) } else { Seq::empty() };
    let ghost own_refs: Seq<(Seq<char>, u64)> = if dirty@.contains(stmt_id(stmt@).0) { stmt_refs(stmt@) } else { Seq::empty() };
    if contains_u64(dirty, stmt.id().0) {
        let n0 = *next;
        fits = collect_stmt(stmt, defs, refs, next);
        proof {
            if fits {
                lemma_advance_no_wrap(n0, stmt_defs(stmt@).len());
                assert(defs.map() == insert_defs(old(defs).map(), stmt_defs(stmt@), n0));
            }
        }
    } else {
        proof {
            assert(ref_models(refs@) =~= ref_models(old(refs)@) + unbound(own_refs));
        }
    }
    match stmt {
        Stmt::Fn { body, .. } => {
            let ghost m1 = defs.map();
            let ghost n1 = *next;
            let ghost r1 = ref_models(refs@);
            let body_fits = walk_dirty_body(body, defs, refs, next, dirty);
            proof {
                let rest = dirty_body_defs(stmt_models(body@), dirty@);
                let rest_refs = dirty_body_refs(stmt_models(body@), dirty@);
                assert(dirty_defs(stmt@, dirty@) == own_defs + rest);
                assert(dirty_refs(stmt@, dirty@) == own_refs + rest_refs);
                lemma_insert_defs_append(old(defs).map(), own_defs, rest, *old(next));
                assert(unbound(own_refs + rest_refs) =~= unbound(own_refs) + unbound(rest_refs));
                assert(ref_models(refs@) =~= ref_models(old(refs)@) + unbound(dirty_refs(stmt@, dirty@)));
                if fits {
                    lemma_advance_no_wrap(*old(next), own_defs.len());
                }
                if fits && body_fits {
                    lemma_numbered_chain(old(defs).map(), *old(next), m1, n1, defs.map(), *next);
                }
            }
            fits && body_fits
        },
        _ => {
            proof {
                assert(dirty_defs(stmt@, dirty@) =~= own_defs);
                assert(dirty_refs(stmt@, dirty@) =~= own_refs);
            }
            fits
        },
    }
}

/// `walk_dirty` over each statement of `body` in turn.
fn walk_dirty_body(body: &Vec<Stmt>, defs: &mut DefMap, refs: &mut Vec<Reference>, next: &mut u64, dirty: &[u64]) -> (fits: bool)
    ensures
        final(defs).map() == insert_defs(old(defs).map(), dirty_body_defs(stmt_models(body@), dirty@), *old(next)),
        *final(next) == advance(*old(next), dirty_body_defs(stmt_models(body@), dirty@).len()),
        ref_models(final(refs)@) == ref_models(old(refs)@) + unbound(dirty_body_refs(stmt_models(body@), dirty@)),
        fits <==> *old(next) + dirty_body_defs(stmt_models(body@), dirty@).len() <= u64::MAX,
        fits ==> numbered_from(old(defs).map(), *old(next), final(defs).map(), *final(next)),
    decreases body,
{
    let mut fits = true;
    let ghost ms = stmt_models(body@);
    proof {
        lemma_numbered_refl(defs.map(), *next);
        lemma_stmt_models(body@);
        assert(ms.skip(0) =~= ms);
    }
    let mut k: usize = 0;
    while k < body.len()
        invariant
            k <= body@.len(),
            ms == stmt_models(body@),
            ms.len() == body@.len(),
            forall|i: int| 0 <= i < body@.len() ==> #[trigger] ms[i] == body@[i]@,
            fits ==> numbered_from(old(defs).map(), *old(next), defs.map(), *next),
            insert_defs(old(defs).map(), dirty_body_defs(ms, dirty@), *old(next))
                == insert_defs(defs.map(), dirty_body_defs(ms.skip(k as int), dirty@), *next),
            advance(*old(next), dirty_body_defs(ms, dirty@).len()) == advance(*next, dirty_body_defs(ms.skip(k as int), dirty@).len()),
            ref_models(old(refs)@) + unbound(dirty_body_refs(ms, dirty@)) == ref_models(refs@) + unbound(dirty_body_refs(ms.skip(k as int), dirty@)),
            fits ==> *next as int + dirty_body_defs(ms.skip(k as int), dirty@).len() == *old(next) + dirty_body_defs(ms, dirty@).len(),
            dirty_body_defs(ms.skip(k as int), dirty@).len() <= dirty_body_defs(ms, dirty@).len(),
            fits <==> *old(next) + (dirty_body_defs(ms, dirty@).len() - dirty_body_defs(ms.skip(k as int), dirty@).len()) <= u64::MAX,
        decreases body@.len() - k,
    {
        proof {
            assert(decreases_to!(body => body@));
            assert(decreases_to!(body@ => body@[k as int]));
            lemma_dirty_skip(ms, dirty@, k as int);
        }
        let ghost m1 = defs.map();
        let ghost n1 = *next;
        let ghost r0 = ref_models(refs@);
        let step = walk_dirty(&body[k], defs, refs, next, dirty);
        proof {
            let a = dirty_defs(ms[k as int], dirty@);
            let b = dirty_body_defs(ms.skip(k + 1), dirty@);
            lemma_insert_defs_append(m1, a, b, n1);
            if fits && step {
                lemma_numbered_chain(old(defs).map(), *old(next), m1, n1, defs.map(), *next);
                lemma_advance_no_wrap(n1, a.len());
            }
            let ra = dirty_refs(ms[k as int], dirty@);
            let rb = dirty_body_refs(ms.skip(k + 1), dirty@);
            assert(unbound(ra + rb) =~= unbound(ra) + unbound(rb));
            assert(r0 + unbound(ra + rb) =~= ref_models(refs@) + unbound(rb));
        }
        fits = fits && step;
        k = k + 1;
    }
    proof {
        assert(ms.skip(k as int) =~= Seq::<StmtModel>::empty());
        assert(ref_models(refs@) + Seq::<RefModel>::empty() =~= ref_models(refs@));
    }
    fits
}

/// The greatest id among `syms`, 0 for none.
pub open spec fn max_symbol_id(syms: Seq<Symbol>) -> u64
    decreases syms.len(),
{
    if syms.len() == 0 {
        0
    } else {
        let m = max_symbol_id(syms.drop_last());
        if syms.last().id.0 > m { syms.last().id.0 } else { m }
    }
}

/// The pass that reuses `previous`: definitions and uses of live statements
/// that are not dirty are kept, dirty statements are collected anew with ids
/// above every id of `previous`, and every use is bound again. `None` when
/// those ids would run past the counter's maximum.
fn symbols_attempt(program: &Program, previous: &SymbolTable, dirty: &[u64]) -> (r: Option<SymbolTable>)
    ensures
        r is None <==> max_symbol_id(previous.defs.symbols()) as int + 1
            + dirty_body_defs(stmt_models(program.stmts@), dirty@).len() > u64::MAX,
        r matches Some(t) ==> t.defs.in_order() && (well_bound(*previous) ==> well_bound(t)),
{
    proof {
        use_type_invariant(&previous.defs);
        previous.defs.lemma_in_order();
    }
    let mut live: Vec<u64> = Vec::new();
    let mut k: usize = 0;
    while k < program.stmts.len()
        decreases program.stmts@.len() - k,
    {
        live.push(program.stmts[k].id().0);
        k = k + 1;
    }
    let mut defs = DefMap::new();
    let prev_syms = previous.defs.values();
    let ghost pm = previous.defs.map();
    let mut max_id: u64 = 0;
    let mut k: usize = 0;
    while k < prev_syms.len()
        invariant
            k <= prev_syms@.len(),
            prev_syms@ == previous.defs.symbols(),
            pm == previous.defs.map(),
            forall|i: int| 0 <= i < prev_syms@.len() ==> pm.dom().contains((#[trigger] prev_syms@[i]).name@)
                && pm[prev_syms@[i].name@] == prev_syms@[i]@,
            forall|i: int| 0 <= i < k ==> (#[trigger] prev_syms@[i]).id.0 <= max_id,
            max_id == max_symbol_id(prev_syms@.take(k as int)),
            forall|x: Seq<char>| #[trigger] defs.map().dom().contains(x) ==> pm.dom().contains(x) && defs.map()[x] == pm[x],
        decreases prev_syms@.len() - k,
    {
        let sym = &prev_syms[k];
        proof {
            assert(prev_syms@.take(k + 1).drop_last() =~= prev_syms@.take(k as int));
        }
        if sym.id.0 > max_id {
            max_id = sym.id.0;
        }
        if contains_u64(live.as_slice(), sym.def_stmt) && !contains_u64(dirty, sym.def_stmt) {
            defs.insert(sym.duplicate());
        }
        k = k + 1;
    }
    let mut refs: Vec<Reference> = Vec::new();
    let mut k: usize = 0;
    while k < previous.refs.len()
        decreases previous.refs@.len() - k,
    {
        let r = &previous.refs[k];
        if contains_u64(live.as_slice(), r.from_stmt) && !contains_u64(dirty, r.from_stmt) {
            refs.push(copy_ref(r));
        }
        k = k + 1;
    }
    let reused = defs.len().saturating_add(refs.len());
    proof {
        assert(prev_syms@.take(prev_syms@.len() as int) =~= prev_syms@);
    }
    if max_id == u64::MAX {
        return None;
    }
    let mut next = max_id + 1;
    let ghost kept = defs.map();
    let ghost n0 = next;
    proof {
        lemma_numbered_refl(defs.map(), next);
        assert forall|x: Seq<char>| #[trigger] kept.dom().contains(x) implies kept[x].id.0 < n0 by {
            let i = choose|i: int| 0 <= i < prev_syms@.len() && (#[trigger] prev_syms@[i]).name@ == x;
            assert(prev_syms@[i].id.0 <= max_id);
        }
    }
    let mut fits = true;
    let ghost ms = stmt_models(program.stmts@);
    let ghost total = dirty_body_defs(ms, dirty@).len();
    proof {
        lemma_stmt_models(program.stmts@);
        assert(ms.skip(0) =~= ms);
    }
    let mut k: usize = 0;
    while k < program.stmts.len()
        invariant
            k <= program.stmts@.len(),
            ms == stmt_models(program.stmts@),
            ms.len() == program.stmts@.len(),
            forall|i: int| 0 <= i < program.stmts@.len() ==> #[trigger] ms[i] == program.stmts@[i]@,
            total == dirty_body_defs(ms, dirty@).len(),
            fits ==> numbered_from(kept, n0, defs.map(), next),
            fits ==> next as int + dirty_body_defs(ms.skip(k as int), dirty@).len() == n0 + total,
            dirty_body_defs(ms.skip(k as int), dirty@).len() <= total,
            fits <==> n0 + (total - dirty_body_defs(ms.skip(k as int), dirty@).len()) <= u64::MAX,
        decreases program.stmts@.len() - k,
    {
        proof {
            lemma_dirty_skip(ms, dirty@, k as int);
        }
        let ghost m1 = defs.map();
        let ghost n1 = next;
        let step = walk_dirty(&program.stmts[k], &mut defs, &mut refs, &mut next, dirty);
        proof {
            if fits && step {
                lemma_numbered_chain(kept, n0, m1, n1, defs.map(), next);
                lemma_advance_no_wrap(n1, dirty_defs(ms[k as int], dirty@).len());
            }
        }
        fits = fits && step;
        k = k + 1;
    }
    proof {
        assert(ms.skip(k as int) =~= Seq::<StmtModel>::empty());
    }
    if !fits {
        return None;
    }
    rebind(&defs, &mut refs);
    let total = defs.len().saturating_add(refs.len());
    let t = SymbolTable {
        defs,
        refs,
        work: WorkMetrics {
            bytes_processed: 0,
            allocations_hint: 0,
            items_reused: reused,
            items_recomputed: total.saturating_sub(reused),
            items_invalidated: 0,
            items_total: total,
            hashing_nanos: DurationNanos(0),
        },
    };
    proof {
        use_type_invariant(&t.defs);
        if well_bound(*previous) {
            let evs = choose|evs: Seq<(Seq<char>, u64)>| #![trigger insert_defs(kept, evs, n0)]
                t.defs.map() == insert_defs(kept, evs, n0) && n0 + evs.len() <= u64::MAX && next == n0 + evs.len();
            assert forall|x: Seq<char>, y: Seq<char>| kept.dom().contains(x) && kept.dom().contains(y) && x != y implies #[trigger] kept[x].id != #[trigger] kept[y].id by {
                assert(pm[x].id != pm[y].id);
            }
            lemma_insert_defs_ids(kept, evs, n0);
        }
    }
    Some(t)
}

/// Symbols after an edit, reusing `previous` where it can. The result always
/// has the defined names and uses of a full pass; when no statement is dirty
/// and `previous` already agrees, it is returned as is, and when the reusing
/// pass would differ, the full pass is returned.
pub fn symbols_incremental(program: &Program, previous: &SymbolTable, dirty_stmt_ids: &[u64]) -> (t: SymbolTable)
    ensures
        symbols_agree(t, *program),
        t.defs.in_order(),
        well_bound(*previous) && stmts_defs(stmt_models(program.stmts@)).len() < u64::MAX ==> well_bound(t),
        dirty_stmt_ids@.len() == 0 && symbols_agree(*previous, *program) ==> {
            let n = previous.defs.symbols().len() + previous.refs@.len();
            &&& t.defs.map() == previous.defs.map()
            &&& ref_models(t.refs@) == ref_models(previous.refs@)
            &&& t.work.items_total == (if n <= usize::MAX { n as usize } else { usize::MAX })
            &&& t.work.items_reused == t.work.items_total
            &&& t.work.items_recomputed == 0
        },
{
    let full = symbols_full(program);
    if dirty_stmt_ids.len() == 0 && previous.semantic_eq(&full) {
        let mut t = previous.duplicate();
        let n = previous.defs.len().saturating_add(previous.refs.len());
        t.work = WorkMetrics {
            bytes_processed: 0,
            allocations_hint: 0,
            items_reused: n,
            items_recomputed: 0,
            items_invalidated: 0,
            items_total: n,
            hashing_nanos: DurationNanos(0),
        };
        proof {
            assert(ref_models(t.refs@).len() == t.refs@.len());
            assert(ref_models(previous.refs@).len() == previous.refs@.len());
            assert(ref_keys(t.refs@) =~= ref_keys(previous.refs@)) by {
                assert forall|k: int| 0 <= k < t.refs@.len() implies #[trigger] ref_keys(t.refs@)[k] == ref_keys(previous.refs@)[k] by {
                    assert(ref_models(t.refs@)[k] == ref_models(previous.refs@)[k]);
                    assert(ref_models(t.refs@)[k] == t.refs@[k]@);
                    assert(ref_models(previous.refs@)[k] == previous.refs@[k]@);
                }
            }
            use_type_invariant(&t.defs);
            if well_bound(*previous) {
                assert forall|k: int| 0 <= k < t.refs@.len() implies (#[trigger] t.refs@[k]).def == (if t.defs.map().dom().contains(t.refs@[k].name@) {
                    Some(t.defs.map()[t.refs@[k].name@].id)
                } else {
                    None
                }) by {
                    assert(ref_models(t.refs@)[k] == t.refs@[k]@);
                    assert(ref_models(previous.refs@)[k] == previous.refs@[k]@);
                    assert(previous.refs@[k].def == (if previous.defs.map().dom().contains(previous.refs@[k].name@) {
                        Some(previous.defs.map()[previous.refs@[k].name@].id)
                    } else {
                        None
                    }));
                }
            }
        }
        return t;
    }
    match symbols_attempt(program, previous, dirty_stmt_ids) {
        Some(attempted) => {
            if attempted.semantic_eq(&full) {
                attempted
            } else {
                full
            }
        },
        None => full,
    }
}


// ----- the symbols of a program depend on its shape alone -----

pub open spec fn shape_expr_names(e: ExprShape) -> Seq<Seq<char>>
    decreases e,
{
    match e {
        ExprShape::Ident(n) => seq![n],
        ExprShape::Number(_) => Seq::empty(),
        ExprShape::Binary(_, l, r) => shape_expr_names(*l) + shape_expr_names(*r),
    }
}

pub open spec fn shape_defs(s: StmtShape) -> Seq<Seq<char>>
    decreases s,
{
    match s {
        StmtShape::Let(n, _) => seq![n],
        StmtShape::Fn(n, body) => seq![n] + shapes_defs(body),
        StmtShape::Call(_) => Seq::empty(),
    }
}

pub open spec fn shapes_defs(ss: Seq<StmtShape>) -> Seq<Seq<char>>
    decreases ss,
{
    if ss.len() == 0 {
        Seq::empty()
    } else {
        shape_defs(ss[0]) + shapes_defs(ss.drop_first())
    }
}

pub open spec fn shape_refs(s: StmtShape) -> Seq<Seq<char>>
    decreases s,
{
    match s {
        StmtShape::Let(_, e) => shape_expr_names(e),
        StmtShape::Fn(_, body) => shapes_refs(body),
        StmtShape::Call(n) => seq![n],
    }
}

pub open spec fn shapes_refs(ss: Seq<StmtShape>) -> Seq<Seq<char>>
    decreases ss,
{
    if ss.len() == 0 {
        Seq::empty()
    } else {
        shape_refs(ss[0]) + shapes_refs(ss.drop_first())
    }
}

pub open spec fn names_of(evs: Seq<(Seq<char>, u64)>) -> Seq<Seq<char>> {
    evs.map_values(|e: (Seq<char>, u64)| e.0)
}

proof fn lemma_expr_names_shape(e: ExprModel)
    ensures
        expr_names(e) == shape_expr_names(expr_shape(e)),
    decreases e,
{
    match e {
        ExprModel::Binary { left, right, .. } => {
            lemma_expr_names_shape(*left);
            lemma_expr_names_shape(*right);
        },
        _ => {},
    }
}

proof fn lemma_names_concat(a: Seq<(Seq<char>, u64)>, b: Seq<(Seq<char>, u64)>)
    ensures
        names_of(a + b) == names_of(a) + names_of(b),
{
    assert(names_of(a + b) =~= names_of(a) + names_of(b));
}

proof fn lemma_stmt_names_shape(s: StmtModel)
    ensures
        names_of(stmt_defs(s)) == shape_defs(stmt_shape(s)),
        names_of(stmt_refs(s)) == shape_refs(stmt_shape(s)),
    decreases s,
{
    match s {
        StmtModel::Let { id, name, expr, .. } => {
            lemma_expr_names_shape(expr);
            assert(names_of(stmt_defs(s)) =~= seq![name]);
            assert(names_of(stmt_refs(s)) =~= expr_names(expr));
        },
        StmtModel::Fn { name, body, .. } => {
            lemma_stmts_names_shape(body);
            lemma_names_concat(seq![(name, stmt_defs(s)[0].1)], stmts_defs(body));
            assert(seq![(name, stmt_defs(s)[0].1)] + stmts_defs(body) == stmt_defs(s));
            assert(names_of(seq![(name, stmt_defs(s)[0].1)]) =~= seq![name]);
        },
        StmtModel::Call { name, .. } => {
            assert(names_of(stmt_defs(s)) =~= Seq::<Seq<char>>::empty());
            assert(names_of(stmt_refs(s)) =~= seq![name]);
        },
    }
}

proof fn lemma_stmts_names_shape(ss: Seq<StmtModel>)
    ensures
        names_of(stmts_defs(ss)) == shapes_defs(stmts_shape(ss)),
        names_of(stmts_refs(ss)) == shapes_refs(stmts_shape(ss)),
    decreases ss,
{
    if ss.len() == 0 {
        assert(names_of(stmts_defs(ss)) =~= Seq::<Seq<char>>::empty());
        assert(names_of(stmts_refs(ss)) =~= Seq::<Seq<char>>::empty());
    } else {
        lemma_stmt_names_shape(ss[0]);
        lemma_stmts_names_shape(ss.drop_first());
        lemma_names_concat(stmt_defs(ss[0]), stmts_defs(ss.drop_first()));
        lemma_names_concat(stmt_refs(ss[0]), stmts_refs(ss.drop_first()));
        assert(stmts_shape(ss)[0] == stmt_shape(ss[0]));
        assert(stmts_shape(ss).drop_first() == stmts_shape(ss.drop_first()));
    }
}

proof fn lemma_insert_defs_dom(m: Map<Seq<char>, SymbolModel>, evs: Seq<(Seq<char>, u64)>, next: u64)
    ensures
        forall|n: Seq<char>| #[trigger] insert_defs(m, evs, next).dom().contains(n) <==> (m.dom().contains(n) || names_of(evs).contains(n)),
    decreases evs.len(),
{
    if evs.len() > 0 {
        let m2 = m.insert(evs[0].0, SymbolModel { id: SymbolId(next), name: evs[0].0, def_stmt: evs[0].1 });
        lemma_insert_defs_dom(m2, evs.drop_first(), ((next + 1) % 0x1_0000_0000_0000_0000) as u64);
        assert(insert_defs(m, evs, next) == insert_defs(m2, evs.drop_first(), ((next + 1) % 0x1_0000_0000_0000_0000) as u64));
        assert(names_of(evs)[0] == evs[0].0);
        assert forall|n: Seq<char>| #[trigger] insert_defs(m, evs, next).dom().contains(n) <==> (m.dom().contains(n) || names_of(evs).contains(n)) by {
            if n == evs[0].0 {
                assert(names_of(evs).contains(n));
            }
            if names_of(evs.drop_first()).contains(n) {
                let i = choose|i: int| 0 <= i < names_of(evs.drop_first()).len() && names_of(evs.drop_first())[i] == n;
                assert(names_of(evs)[i + 1] == n);
            }
            if names_of(evs).contains(n) {
                let i = choose|i: int| 0 <= i < names_of(evs).len() && names_of(evs)[i] == n;
                if i > 0 {
                    assert(names_of(evs.drop_first())[i - 1] == n);
                }
            }
        }
    } else {
        assert forall|n: Seq<char>| !names_of(evs).contains(n) by {}
    }
}

/// The defined names and the uses of a full symbol pass depend on the shape
/// of the program alone.
pub proof fn law_symbols_follow_shape(p1: Program, p2: Program)
    requires
        shape_of(p1) == shape_of(p2),
    ensures
        full_defs(p1).dom() == full_defs(p2).dom(),
        full_ref_keys(p1) == full_ref_keys(p2),
{
    let m1 = stmt_models(p1.stmts@);
    let m2 = stmt_models(p2.stmts@);
    lemma_stmts_names_shape(m1);
    lemma_stmts_names_shape(m2);
    lemma_insert_defs_dom(Map::empty(), stmts_defs(m1), 1);
    lemma_insert_defs_dom(Map::empty(), stmts_defs(m2), 1);
    assert(full_defs(p1).dom() =~= full_defs(p2).dom());
    let r1 = stmts_refs(m1);
    let r2 = stmts_refs(m2);
    assert(names_of(r1) == names_of(r2));
    assert(full_ref_keys(p1) =~= full_ref_keys(p2)) by {
        assert(r1.len() == names_of(r1).len());
        assert(r2.len() == names_of(r2).len());
        assert forall|k: int| 0 <= k < r1.len() implies #[trigger] full_ref_keys(p1)[k] == full_ref_keys(p2)[k] by {
            assert(names_of(r1)[k] == r1[k].0);
            assert(names_of(r2)[k] == r2[k].0);
        }
    }
}


/// Every use is bound to the symbol of its name, if any, and no two defined
/// names share a symbol id.
pub open spec fn well_bound(t: SymbolTable) -> bool {
    &&& forall|k: int| 0 <= k < t.refs@.len() ==> (#[trigger] t.refs@[k]).def == (if t.defs.map().dom().contains(t.refs@[k].name@) {
        Some(t.defs.map()[t.refs@[k].name@].id)
    } else {
        None
    })
    &&& forall|n1: Seq<char>, n2: Seq<char>|
        t.defs.map().dom().contains(n1) && t.defs.map().dom().contains(n2) && n1 != n2
            ==> #[trigger] t.defs.map()[n1].id != #[trigger] t.defs.map()[n2].id
}


pub proof fn lemma_advance_no_wrap(n: u64, k: nat)
    requires
        n + k <= u64::MAX,
    ensures
        advance(n, k) == n + k,
    decreases k,
{
    if k > 0 {
        lemma_advance_no_wrap((n + 1) as u64, (k - 1) as nat);
    }
}

/// Definitions numbered from `n` on, without wrapping, keep the symbol ids
/// of a map distinct when those ids are all below `n`.
pub proof fn lemma_insert_defs_ids(m: Map<Seq<char>, SymbolModel>, evs: Seq<(Seq<char>, u64)>, n: u64)
    requires
        n + evs.len() <= u64::MAX,
        forall|x: Seq<char>| #[trigger] m.dom().contains(x) ==> m[x].id.0 < n,
        forall|x: Seq<char>, y: Seq<char>| m.dom().contains(x) && m.dom().contains(y) && x != y ==> #[trigger] m[x].id != #[trigger] m[y].id,
    ensures
        forall|x: Seq<char>| #[trigger] insert_defs(m, evs, n).dom().contains(x) ==> insert_defs(m, evs, n)[x].id.0 < n + evs.len(),
        forall|x: Seq<char>, y: Seq<char>| insert_defs(m, evs, n).dom().contains(x) && insert_defs(m, evs, n).dom().contains(y) && x != y
            ==> #[trigger] insert_defs(m, evs, n)[x].id != #[trigger] insert_defs(m, evs, n)[y].id,
    decreases evs.len(),
{
    if evs.len() > 0 {
        let m2 = m.insert(evs[0].0, SymbolModel { id: SymbolId(n), name: evs[0].0, def_stmt: evs[0].1 });
        assert(((n + 1) % 0x1_0000_0000_0000_0000) as u64 == n + 1);
        assert forall|x: Seq<char>, y: Seq<char>| m2.dom().contains(x) && m2.dom().contains(y) && x != y implies #[trigger] m2[x].id != #[trigger] m2[y].id by {
            if x != evs[0].0 && y != evs[0].0 {
                assert(m[x].id != m[y].id);
            } else if x == evs[0].0 {
                assert(m[y].id.0 < n);
            } else {
                assert(m[x].id.0 < n);
            }
        }
        lemma_insert_defs_ids(m2, evs.drop_first(), (n + 1) as u64);
        assert(insert_defs(m, evs, n) == insert_defs(m2, evs.drop_first(), (n + 1) as u64));
    }
}


// ----- a parse makes at most one definition per token -----

pub open spec fn opt_defs_len(o: Option<StmtModel>) -> nat {
    match o {
        Some(x) => stmt_defs(x).len(),
        None => 0,
    }
}

proof fn lemma_primary_moves(toks: Seq<Token>, st: ParseState)
    requires
        0 <= st.i <= toks.len(),
    ensures
        st.i <= primary_s(toks, st).1.i <= toks.len(),
{
}

proof fn lemma_rest_moves(toks: Seq<Token>, left: ExprModel, st: ParseState)
    requires
        0 <= st.i <= toks.len(),
    ensures
        st.i <= expr_rest_s(toks, left, st).1.i <= toks.len(),
    decreases toks.len() - st.i,
{
    if 0 <= st.i < toks.len() && (toks[st.i].kind == crate::lexer::TokenKind::Plus || toks[st.i].kind == crate::lexer::TokenKind::Minus) {
        lemma_primary_moves(toks, advanced(st));
        let (r, st2) = primary_s(toks, advanced(st));
        if r is Some {
            let op = if toks[st.i].kind == crate::lexer::TokenKind::Plus { '+' } else { '-' };
            let right = r.unwrap();
            let node = ExprModel::Binary {
                id: crate::parser::AstId(st2.next),
                op,
                left: Box::new(left),
                right: Box::new(right),
                span: crate::range::ByteRange { start: crate::parser::expr_span(left).start, end: crate::parser::expr_span(right).end },
            };
            lemma_rest_moves(toks, node, crate::parser::allocated(st2));
        }
    }
}

proof fn lemma_expr_moves(toks: Seq<Token>, st: ParseState)
    requires
        0 <= st.i <= toks.len(),
    ensures
        st.i <= expr_s(toks, st).1.i <= toks.len(),
{
    lemma_primary_moves(toks, st);
    let (l, st1) = primary_s(toks, st);
    if l is Some {
        lemma_rest_moves(toks, l.unwrap(), st1);
    }
}

proof fn lemma_let_defs(toks: Seq<Token>, st: ParseState)
    requires
        0 <= st.i <= toks.len(),
    ensures
        st.i <= let_s(toks, st).1.i <= toks.len(),
        2 * opt_defs_len(let_s(toks, st).0) <= let_s(toks, st).1.i - st.i,
{
    if 0 <= st.i < toks.len() && st.i + 2 < toks.len() {
        lemma_expr_moves(toks, advanced(advanced(advanced(st))));
    }
}

proof fn lemma_stmt_defs_bound(toks: Seq<Token>, st: ParseState)
    requires
        0 <= st.i <= toks.len(),
    ensures
        st.i <= stmt_s(toks, st).1.i <= toks.len(),
        2 * opt_defs_len(stmt_s(toks, st).0) <= stmt_s(toks, st).1.i - st.i,
    decreases toks.len() - st.i, 1nat,
{
    if 0 <= st.i < toks.len() {
        match toks[st.i].kind {
            crate::lexer::TokenKind::Let => lemma_let_defs(toks, st),
            crate::lexer::TokenKind::Fn => lemma_fn_defs(toks, st),
            _ => {},
        }
    }
}

proof fn lemma_fn_defs(toks: Seq<Token>, st: ParseState)
    requires
        0 <= st.i <= toks.len(),
    ensures
        st.i <= fn_s(toks, st).1.i <= toks.len(),
        2 * opt_defs_len(fn_s(toks, st).0) <= fn_s(toks, st).1.i - st.i,
    decreases toks.len() - st.i, 0nat,
{
    if 0 <= st.i < toks.len() && st.i + 1 < toks.len() {
        let st3 = skip(toks, skip(toks, skip(toks, advanced(advanced(st)))));
        lemma_stmts_defs_bound(toks, Some(crate::lexer::TokenKind::RBrace), st3);
        let (body, st4) = stmts_s(toks, Some(crate::lexer::TokenKind::RBrace), st3);
        let x = fn_s(toks, st).0.unwrap();
        assert(stmt_defs(x).len() == 1 + stmts_defs(body).len()) by {
            assert(stmt_defs(x) == seq![(stmt_defs(x)[0].0, stmt_defs(x)[0].1)] + stmts_defs(body));
        }
    }
}

proof fn lemma_stmts_defs_bound(toks: Seq<Token>, until: Option<crate::lexer::TokenKind>, st: ParseState)
    requires
        0 <= st.i <= toks.len(),
    ensures
        st.i <= stmts_s(toks, until, st).1.i <= toks.len(),
        2 * stmts_defs(stmts_s(toks, until, st).0).len() <= stmts_s(toks, until, st).1.i - st.i,
    decreases toks.len() - st.i, 2nat,
{
    if 0 <= st.i < toks.len() && !(until matches Some(k) && toks[st.i].kind == k) {
        lemma_stmt_defs_bound(toks, st);
        let (s, st1) = stmt_s(toks, st);
        if s is Some {
            let x = s.unwrap();
            if st.i < st1.i <= toks.len() {
                lemma_stmts_defs_bound(toks, until, st1);
                lemma_defs_cons(x, stmts_s(toks, until, st1).0);
            } else {
                lemma_defs_cons(x, Seq::empty());
                assert(seq![x] + Seq::<StmtModel>::empty() =~= seq![x]);
                assert(stmts_defs(Seq::<StmtModel>::empty()).len() == 0);
            }
        } else {
            assert(stmts_defs(Seq::<StmtModel>::empty()).len() == 0);
        }
    } else {
        assert(stmts_defs(Seq::<StmtModel>::empty()).len() == 0);
    }
}

/// A parse of `toks` defines at most one name per two tokens.
pub proof fn lemma_parsed_defs_bound(toks: Seq<Token>)
    ensures
        2 * stmts_defs(parsed(toks).0).len() <= toks.len(),
{
    lemma_stmts_defs_bound(toks, None, initial_state());
}

/// Programs of the same shape make the same number of definitions.
pub proof fn lemma_defs_len_follows_shape(a: Seq<StmtModel>, b: Seq<StmtModel>)
    requires
        stmts_shape(a) == stmts_shape(b),
    ensures
        stmts_defs(a).len() == stmts_defs(b).len(),
{
    lemma_stmts_names_shape(a);
    lemma_stmts_names_shape(b);
    assert(names_of(stmts_defs(a)).len() == stmts_defs(a).len());
    assert(names_of(stmts_defs(b)).len() == stmts_defs(b).len());
}

} // verus!
