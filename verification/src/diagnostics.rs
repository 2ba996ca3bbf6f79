use vstd::prelude::*;
use vstd::multiset::Multiset;
use crate::defmap::{SymbolId, SymbolModel, name_lt};
use crate::metrics::{DurationNanos, WorkMetrics};
use crate::parser::{Program, lemma_stmt_models, stmt_id, stmt_models, texts};
use crate::symbols::{SymbolTable, RefModel, ref_models, ref_keys, contains_u64, well_bound};
use crate::text::{append_str, owned};

verus! {

/// One finding: a key that identifies it across runs, a message, and the
/// statement it is about (0 for the program as a whole).
#[derive(Debug)]
pub struct Diagnostic {
    pub key: String,
    pub message: String,
    pub stmt: u64,
}

pub struct DiagnosticModel {
    pub key: Seq<char>,
    pub message: Seq<char>,
    pub stmt: u64,
}

impl View for Diagnostic {
    type V = DiagnosticModel;

    open spec fn view(&self) -> DiagnosticModel {
        DiagnosticModel { key: self.key@, message: self.message@, stmt: self.stmt }
    }
}

#[derive(Debug)]
pub struct DiagnosticSet {
    pub items: Vec<Diagnostic>,
    pub work: WorkMetrics,
}

pub open spec fn diag_models(s: Seq<Diagnostic>) -> Seq<DiagnosticModel> {
    s.map_values(|d: Diagnostic| d@)
}

pub open spec fn diag_keys(s: Seq<Diagnostic>) -> Seq<Seq<char>> {
    s.map_values(|d: Diagnostic| d.key@)
}

/// Same keys, counted with multiplicity.
pub open spec fn same_diagnostics(a: DiagnosticSet, b: DiagnosticSet) -> bool {
    diag_keys(a.items@).to_multiset() == diag_keys(b.items@).to_multiset()
}

pub open spec fn undef_key(n: Seq<char>) -> Seq<char> {
    "undef:"@ + n
}

pub open spec fn unused_key(n: Seq<char>) -> Seq<char> {
    "unused:"@ + n
}

/// One diagnostic per syntax error.
pub open spec fn syntax_diags(errors: Seq<Seq<char>>) -> Seq<DiagnosticModel> {
    errors.map_values(|e: Seq<char>| DiagnosticModel { key: "syntax"@, message: e, stmt: 0 })
}

/// One diagnostic per use that names no definition, in order.
pub open spec fn undef_diags(refs: Seq<RefModel>) -> Seq<DiagnosticModel>
    decreases refs.len(),
{
    if refs.len() == 0 {
        Seq::empty()
    } else {
        let r = refs.last();
        undef_diags(refs.drop_last()) + (if r.def is None {
            seq![DiagnosticModel { key: undef_key(r.name), message: "undefined `"@ + r.name + "`"@, stmt: r.from_stmt }]
        } else {
            Seq::empty()
        })
    }
}

/// Whether some use is bound to `id`.
pub open spec fn is_used(refs: Seq<RefModel>, id: SymbolId) -> bool {
    exists|k: int| 0 <= k < refs.len() && (#[trigger] refs[k]).def == Some(id)
}

/// One diagnostic per definition that no use is bound to, in name order.
pub open spec fn unused_diags(syms: Seq<SymbolModel>, refs: Seq<RefModel>) -> Seq<DiagnosticModel>
    decreases syms.len(),
{
    if syms.len() == 0 {
        Seq::empty()
    } else {
        let s = syms.last();
        unused_diags(syms.drop_last(), refs) + (if !is_used(refs, s.id) {
            seq![DiagnosticModel { key: unused_key(s.name), message: "unused `"@ + s.name + "`"@, stmt: s.def_stmt }]
        } else {
            Seq::empty()
        })
    }
}

/// The diagnostics of a program and its symbols: syntax errors, undefined
/// names, unused definitions.
pub open spec fn expected_diags(p: Program, t: SymbolTable) -> Seq<DiagnosticModel> {
    syntax_diags(texts(p.errors@)) + undef_diags(ref_models(t.refs@))
        + unused_diags(t.defs.symbols().map_values(|s: crate::defmap::Symbol| s@), ref_models(t.refs@))
}

fn undefined_message(name: &str) -> (m: String)
    ensures
        m@ == "undefined `"@ + name@ + "`"@,
{
    let mut m = owned("undefined `");
    append_str(&mut m, name);
    append_str(&mut m, "`");
    m
}

fn unused_message(name: &str) -> (m: String)
    ensures
        m@ == "unused `"@ + name@ + "`"@,
{
    let mut m = owned("unused `");
    append_str(&mut m, name);
    append_str(&mut m, "`");
    m
}

fn prefixed(prefix: &str, name: &str) -> (k: String)
    ensures
        k@ == prefix@ + name@,
{
    let mut k = owned(prefix);
    append_str(&mut k, name);
    k
}

/// Diagnostics of a whole program: one per syntax error, one per use of an
/// undefined name, one per definition nothing uses.
pub fn diagnostics_full(program: &Program, symbols: &SymbolTable) -> (d: DiagnosticSet)
    ensures
        diag_models(d.items@) == expected_diags(*program, *symbols),
        d.work == crate::symbols::fresh_work(d.items@.len() as nat),
{
    let mut items: Vec<Diagnostic> = Vec::new();
    let mut k: usize = 0;
    while k < program.errors.len()
        invariant
            k <= program.errors@.len(),
            diag_models(items@) == syntax_diags(texts(program.errors@)).take(k as int),
        decreases program.errors@.len() - k,
    {
        let ghost before = items@;
        items.push(Diagnostic { key: owned("syntax"), message: program.errors[k].clone(), stmt: 0 });
        proof {
            assert(diag_models(items@) =~= syntax_diags(texts(program.errors@)).take(k + 1)) by {
                assert(diag_models(items@) =~= diag_models(before).push(items@[k as int]@));
            }
        }
        k = k + 1;
    }
    let ghost syn = items@;
    proof {
        assert(syntax_diags(texts(program.errors@)).take(k as int) =~= syntax_diags(texts(program.errors@)));
    }
    let ghost rm = ref_models(symbols.refs@);
    let mut k: usize = 0;
    while k < symbols.refs.len()
        invariant
            k <= symbols.refs@.len(),
            rm == ref_models(symbols.refs@),
            diag_models(syn) == syntax_diags(texts(program.errors@)),
            diag_models(items@) == diag_models(syn) + undef_diags(rm.take(k as int)),
        decreases symbols.refs@.len() - k,
    {
        let r = &symbols.refs[k];
        proof {
            assert(rm.take(k + 1).drop_last() =~= rm.take(k as int));
            assert(rm.take(k + 1).last() == r@);
        }
        if r.def.is_none() {
            let ghost before = items@;
            items.push(Diagnostic {
                key: prefixed("undef:", r.name.as_str()),
                message: undefined_message(r.name.as_str()),
                stmt: r.from_stmt,
            });
            proof {
                assert(diag_models(items@) =~= diag_models(before).push(items@[items@.len() - 1]@));
                assert(diag_models(items@) =~= diag_models(syn) + undef_diags(rm.take(k + 1)));
            }
        } else {
            proof {
                assert(diag_models(items@) =~= diag_models(syn) + undef_diags(rm.take(k + 1)));
            }
        }
        k = k + 1;
    }
    let ghost und = items@;
    proof {
        assert(rm.take(k as int) =~= rm);
    }
    let syms = symbols.defs.values();
    let ghost sm = syms@.map_values(|s: crate::defmap::Symbol| s@);
    let mut k: usize = 0;
    while k < syms.len()
        invariant
            k <= syms@.len(),
            sm == syms@.map_values(|s: crate::defmap::Symbol| s@),
            rm == ref_models(symbols.refs@),
            diag_models(und) == diag_models(syn) + undef_diags(rm),
            diag_models(items@) == diag_models(und) + unused_diags(sm.take(k as int), rm),
        decreases syms@.len() - k,
    {
        let sym = &syms[k];
        let mut used = false;
        let mut j: usize = 0;
        while j < symbols.refs.len() && !used
            invariant
                j <= symbols.refs@.len(),
                rm == ref_models(symbols.refs@),
                used ==> is_used(rm, sym.id),
                !used ==> forall|i: int| 0 <= i < j ==> (#[trigger] rm[i]).def != Some(sym.id),
            decreases symbols.refs@.len() - j, (if used { 0int } else { 1int }),
        {
            proof {
                assert(rm[j as int] == symbols.refs@[j as int]@);
            }
            if symbols.refs[j].def == Some(sym.id) {
                used = true;
            } else {
                j = j + 1;
            }
        }
        proof {
            assert(sm.take(k + 1).drop_last() =~= sm.take(k as int));
            assert(sm.take(k + 1).last() == sym@);
            if !used {
                assert(!is_used(rm, sym.id)) by {
                    if is_used(rm, sym.id) {
                        let i = choose|i: int| 0 <= i < rm.len() && (#[trigger] rm[i]).def == Some(sym.id);
                        assert(rm.len() == symbols.refs@.len());
                    }
                }
            }
        }
        if !used {
            let ghost before = items@;
            items.push(Diagnostic {
                key: prefixed("unused:", sym.name.as_str()),
                message: unused_message(sym.name.as_str()),
                stmt: sym.def_stmt,
            });
            proof {
                assert(diag_models(items@) =~= diag_models(before).push(items@[items@.len() - 1]@));
                assert(diag_models(items@) =~= diag_models(und) + unused_diags(sm.take(k + 1), rm));
            }
        } else {
            proof {
                assert(diag_models(items@) =~= diag_models(und) + unused_diags(sm.take(k + 1), rm));
            }
        }
        k = k + 1;
    }
    proof {
        assert(sm.take(k as int) =~= sm);
        assert(diag_models(items@) =~= expected_diags(*program, *symbols));
    }
    let n = items.len();
    DiagnosticSet {
        items,
        work: WorkMetrics {
            bytes_processed: 0,
            allocations_hint: 0,
            items_reused: 0,
            items_recomputed: n,
            items_invalidated: 0,
            items_total: n,
            hashing_nanos: DurationNanos(0),
        },
    }
}


/// The keys of the diagnostics of a program and its symbols.
pub open spec fn expected_keys(p: Program, t: SymbolTable) -> Seq<Seq<char>> {
    expected_diags(p, t).map_values(|d: DiagnosticModel| d.key)
}

/// Whether two lists of diagnostics hold the same keys, counted with
/// multiplicity.
fn same_keys(a: &Vec<Diagnostic>, b: &Vec<Diagnostic>) -> (r: bool)
    ensures
        r == (diag_keys(a@).to_multiset() == diag_keys(b@).to_multiset()),
{
    broadcast use vstd::seq_lib::group_to_multiset_ensures, vstd::multiset::group_multiset_axioms;
    let ghost ka = diag_keys(a@);
    let ghost kb = diag_keys(b@);
    let mut remaining: Vec<usize> = Vec::new();
    let mut j: usize = 0;
    while j < b.len()
        invariant
            j <= b@.len(),
            remaining@.len() == j,
            forall|x: int| 0 <= x < j ==> #[trigger] remaining@[x] == x,
        decreases b@.len() - j,
    {
        remaining.push(j);
        j = j + 1;
    }
    let ghost rest = remaining@.map_values(|x: usize| kb[x as int]);
    proof {
        assert(rest =~= kb);
        assert(ka.take(0) =~= Seq::<Seq<char>>::empty());
        assert(ka.take(0).to_multiset() =~= Multiset::empty());
    }
    let mut i: usize = 0;
    while i < a.len()
        invariant
            i <= a@.len(),
            ka == diag_keys(a@),
            kb == diag_keys(b@),
            forall|x: int| 0 <= x < remaining@.len() ==> #[trigger] remaining@[x] < b@.len(),
            rest == remaining@.map_values(|x: usize| kb[x as int]),
            ka.take(i as int).to_multiset().add(rest.to_multiset()) == kb.to_multiset(),
        decreases a@.len() - i,
    {
        let mut found = false;
        let mut k: usize = 0;
        while k < remaining.len() && !found
            invariant
                i < a@.len(),
                ka == diag_keys(a@),
                kb == diag_keys(b@),
                forall|x: int| 0 <= x < remaining@.len() ==> #[trigger] remaining@[x] < b@.len(),
                rest == remaining@.map_values(|x: usize| kb[x as int]),
                k <= remaining@.len(),
                found ==> k < remaining@.len() && rest[k as int] == ka[i as int],
                forall|x: int| 0 <= x < k ==> #[trigger] rest[x] != ka[i as int],
            decreases remaining@.len() - k, (if found { 0int } else { 1int }),
        {
            let bj = remaining[k];
            proof {
                assert(rest[k as int] == kb[bj as int]);
            }
            if a[i].key == b[bj].key {
                found = true;
            } else {
                k = k + 1;
            }
        }
        let ghost x = ka[i as int];
        proof {
            assert(ka.take(i + 1) =~= ka.take(i as int).push(x));
        }
        if !found {
            proof {
                assert(!rest.contains(x)) by {
                    if rest.contains(x) {
                        let y = choose|y: int| 0 <= y < rest.len() && rest[y] == x;
                        assert(rest[y] != ka[i as int]);
                    }
                }
                vstd::seq_lib::to_multiset_contains(rest, x);
                vstd::seq_lib::lemma_multiset_commutative(ka.take(i + 1), ka.skip(i + 1));
                assert(ka =~= ka.take(i + 1) + ka.skip(i + 1));
                vstd::seq_lib::to_multiset_build(ka.take(i as int), x);
                let ct = ka.take(i as int).to_multiset().count(x);
                assert(ka.take(i + 1).to_multiset().count(x) == ct + 1);
                assert(kb.to_multiset().count(x) == ct + rest.to_multiset().count(x));
                assert(ka.to_multiset().count(x) == ka.take(i + 1).to_multiset().count(x) + ka.skip(i + 1).to_multiset().count(x));
                assert(ka.to_multiset().count(x) > kb.to_multiset().count(x));
            }
            return false;
        }
        let ghost old_rest = rest;
        remaining.remove(k);
        proof {
            rest = remaining@.map_values(|y: usize| kb[y as int]);
            assert(rest =~= old_rest.remove(k as int));
            assert(old_rest.contains(x));
            let t = ka.take(i as int);
            vstd::seq_lib::to_multiset_build(t, x);
            vstd::seq_lib::to_multiset_remove(old_rest, k as int);
            vstd::seq_lib::to_multiset_contains(old_rest, x);
            assert forall|y: Seq<char>| #[trigger] ka.take(i + 1).to_multiset().add(rest.to_multiset()).count(y)
                == kb.to_multiset().count(y) by {
                assert(t.to_multiset().add(old_rest.to_multiset()).count(y) == kb.to_multiset().count(y));
            }
            assert(ka.take(i + 1).to_multiset().add(rest.to_multiset()) =~= kb.to_multiset());
        }
        i = i + 1;
    }
    proof {
        assert(ka.take(i as int) =~= ka);
        if remaining.len() > 0 {
            assert(rest.len() > 0);
            assert(kb.to_multiset().len() == ka.to_multiset().len() + rest.to_multiset().len());
        } else {
            assert(rest =~= Seq::<Seq<char>>::empty());
            assert(rest.to_multiset() =~= Multiset::empty());
            assert(ka.to_multiset().add(rest.to_multiset()) =~= ka.to_multiset());
        }
    }
    remaining.len() == 0
}

impl DiagnosticSet {
    /// No diagnostics.
    pub fn empty() -> (d: DiagnosticSet)
        ensures
            d.items@.len() == 0,
            d.work == crate::metrics::zero_work(),
    {
        DiagnosticSet { items: Vec::new(), work: WorkMetrics::zero() }
    }

    /// Same keys, counted with multiplicity.
    pub fn semantic_eq(&self, other: &DiagnosticSet) -> (r: bool)
        ensures
            r == same_diagnostics(*self, *other),
    {
        same_keys(&self.items, &other.items)
    }

    /// A copy of this set.
    pub fn duplicate(&self) -> (d: DiagnosticSet)
        ensures
            diag_models(d.items@) == diag_models(self.items@),
            d.work == self.work,
    {
        let mut items: Vec<Diagnostic> = Vec::new();
        let mut k: usize = 0;
        while k < self.items.len()
            invariant
                k <= self.items@.len(),
                items@.len() == k,
                forall|i: int| 0 <= i < k ==> (#[trigger] items@[i])@ == self.items@[i]@,
            decreases self.items@.len() - k,
        {
            items.push(copy_diag(&self.items[k]));
            k = k + 1;
        }
        assert(diag_models(items@) =~= diag_models(self.items@));
        DiagnosticSet { items, work: self.work }
    }
}

fn copy_diag(d: &Diagnostic) -> (c: Diagnostic)
    ensures
        c@ == d@,
{
    Diagnostic { key: d.key.clone(), message: d.message.clone(), stmt: d.stmt }
}

/// `a` sorts before `b`: by statement, then by key.
pub open spec fn diag_before(a: Diagnostic, b: Diagnostic) -> bool {
    if a.stmt != b.stmt {
        a.stmt < b.stmt
    } else {
        crate::defmap::name_lt(a.key@, b.key@)
    }
}

/// `a` sorts before `b`: by statement, then by key.
fn item_before(a: &Diagnostic, b: &Diagnostic) -> (r: bool)
    ensures
        r == diag_before(*a, *b),
{
    if a.stmt != b.stmt {
        a.stmt < b.stmt
    } else {
        let (lt, _) = crate::defmap::compare_names(a.key.as_str(), b.key.as_str());
        lt
    }
}

/// The pass that reuses `previous`: findings about statements that are
/// neither dirty nor gone are kept, the rest come from a full pass; the
/// result is ordered by statement and key, without repeats.
fn diagnostics_attempt(program: &Program, symbols: &SymbolTable, previous: &DiagnosticSet, dirty: &[u64]) -> (r: DiagnosticSet)
    ensures
        forall|i: int| 0 <= i < r.items@.len() ==> attempt_source(*program, *symbols, *previous, dirty@, #[trigger] r.items@[i]@),
        forall|d: DiagnosticModel| #[trigger] attempt_source(*program, *symbols, *previous, dirty@, d) ==> has_entry(r.items@, d.key, d.stmt),
        forall|i: int| 0 < i < r.items@.len() ==> !(#[trigger] r.items@[i].key@ == r.items@[i - 1].key@
            && r.items@[i].stmt == r.items@[i - 1].stmt),
        r.work.items_total == r.items@.len(),
        r.work.items_reused + r.work.items_recomputed == r.items@.len(),
        r.work.items_invalidated == 0,
        r.work.bytes_processed == 0,
{
    let mut live: Vec<u64> = Vec::new();
    let mut k: usize = 0;
    proof {
        lemma_stmt_models(program.stmts@);
    }
    while k < program.stmts.len()
        invariant
            k <= program.stmts@.len(),
            live@.len() == k,
            stmt_models(program.stmts@).len() == program.stmts@.len(),
            forall|i: int| 0 <= i < program.stmts@.len() ==> #[trigger] stmt_models(program.stmts@)[i] == program.stmts@[i]@,
            forall|i: int| 0 <= i < k ==> #[trigger] live@[i] == stmt_id(program.stmts@[i]@).0,
        decreases program.stmts@.len() - k,
    {
        live.push(program.stmts[k].id().0);
        k = k + 1;
    }
    proof {
        assert(live@ =~= live_ids(*program));
    }
    let syntax_key = owned("syntax");
    let mut reused: Vec<Diagnostic> = Vec::new();
    let mut k: usize = 0;
    while k < previous.items.len()
        invariant
            k <= previous.items@.len(),
            live@ == live_ids(*program),
            syntax_key@ == "syntax"@,
            forall|i: int| 0 <= i < reused@.len() ==> kept_old(#[trigger] reused@[i]@, dirty@, live@)
                && has_model(previous.items@, reused@[i]@),
            forall|j: int| 0 <= j < k && kept_old(#[trigger] previous.items@[j]@, dirty@, live@) ==> has_model(reused@, previous.items@[j]@),
        decreases previous.items@.len() - k,
    {
        let d = &previous.items[k];
        let syntax = d.key == syntax_key;
        if !syntax && !contains_u64(dirty, d.stmt) && (d.stmt == 0 || contains_u64(live.as_slice(), d.stmt)) {
            let c = copy_diag(d);
            let ghost before = reused@;
            reused.push(c);
            proof {
                assert(reused@ == before.push(c));
                assert(previous.items@[k as int]@ == c@);
                assert forall|i: int| 0 <= i < reused@.len() implies kept_old(#[trigger] reused@[i]@, dirty@, live@)
                    && has_model(previous.items@, reused@[i]@) by {
                    if i < before.len() {
                        assert(reused@[i] == before[i]);
                    } else {
                        assert(reused@[i] == c);
                    }
                }
                assert forall|j: int| 0 <= j < k + 1 && kept_old(#[trigger] previous.items@[j]@, dirty@, live@) implies has_model(reused@, previous.items@[j]@) by {
                    if j < k {
                        let i = choose|i: int| 0 <= i < before.len() && #[trigger] before[i]@ == previous.items@[j]@;
                        assert(reused@[i] == before[i]);
                    } else {
                        assert(reused@[before.len() as int] == c);
                    }
                }
            }
        } else {
            proof {
                assert(!kept_old(previous.items@[k as int]@, dirty@, live@));
            }
        }
        k = k + 1;
    }
    let full = diagnostics_full(program, symbols);
    let ghost fresh_src = expected_diags(*program, *symbols);
    let mut items: Vec<Diagnostic> = Vec::new();
    let mut k: usize = 0;
    while k < full.items.len()
        invariant
            k <= full.items@.len(),
            diag_models(full.items@) == fresh_src,
            syntax_key@ == "syntax"@,
            forall|i: int| 0 <= i < items@.len() ==> taken_fresh(#[trigger] items@[i]@, dirty@)
                && fresh_src.contains(items@[i]@),
            forall|j: int| 0 <= j < k && taken_fresh(#[trigger] full.items@[j]@, dirty@) ==> has_model(items@, full.items@[j]@),
        decreases full.items@.len() - k,
    {
        let d = &full.items[k];
        let syntax = d.key == syntax_key;
        if syntax || contains_u64(dirty, d.stmt) || d.stmt == 0 {
            let c = copy_diag(d);
            let ghost before = items@;
            items.push(c);
            proof {
                assert(items@ == before.push(c));
                assert(fresh_src[k as int] == full.items@[k as int]@);
                assert(full.items@[k as int]@ == c@);
                assert forall|i: int| 0 <= i < items@.len() implies taken_fresh(#[trigger] items@[i]@, dirty@)
                    && fresh_src.contains(items@[i]@) by {
                    if i < before.len() {
                        assert(items@[i] == before[i]);
                    } else {
                        assert(items@[i] == c);
                    }
                }
                assert forall|j: int| 0 <= j < k + 1 && taken_fresh(#[trigger] full.items@[j]@, dirty@) implies has_model(items@, full.items@[j]@) by {
                    if j < k {
                        let i = choose|i: int| 0 <= i < before.len() && #[trigger] before[i]@ == full.items@[j]@;
                        assert(items@[i] == before[i]);
                    } else {
                        assert(items@[before.len() as int] == c);
                    }
                }
            }
        } else {
            proof {
                assert(!taken_fresh(full.items@[k as int]@, dirty@));
            }
        }
        k = k + 1;
    }
    let ghost fresh_items = items@;
    let ghost reused_items = reused@;
    items.append(&mut reused);
    proof {
        assert(items@ =~= fresh_items + reused_items);
        assert forall|i: int| 0 <= i < items@.len() implies attempt_source(*program, *symbols, *previous, dirty@, #[trigger] items@[i]@) by {
            if i < fresh_items.len() {
                assert(items@[i] == fresh_items[i]);
            } else {
                assert(items@[i] == reused_items[i - fresh_items.len()]);
            }
        }
        assert forall|d: DiagnosticModel| #[trigger] attempt_source(*program, *symbols, *previous, dirty@, d) implies has_model(items@, d) by {
            if fresh_src.contains(d) && taken_fresh(d, dirty@) {
                let j = choose|j: int| 0 <= j < fresh_src.len() && fresh_src[j] == d;
                assert(full.items@[j]@ == d);
                let i = choose|i: int| 0 <= i < fresh_items.len() && #[trigger] fresh_items[i]@ == full.items@[j]@;
                assert(items@[i] == fresh_items[i]);
            } else {
                let j = choose|j: int| 0 <= j < previous.items@.len() && #[trigger] previous.items@[j]@ == d;
                assert(kept_old(previous.items@[j]@, dirty@, live@));
                let i = choose|i: int| 0 <= i < reused_items.len() && #[trigger] reused_items[i]@ == previous.items@[j]@;
                assert(items@[fresh_items.len() + i] == reused_items[i]);
            }
        }
    }
    let mut sorted: Vec<Diagnostic> = Vec::new();
    let mut k: usize = 0;
    while k < items.len()
        invariant
            k <= items@.len(),
            forall|i: int| 0 <= i < items@.len() ==> attempt_source(*program, *symbols, *previous, dirty@, #[trigger] items@[i]@),
            forall|i: int| 0 <= i < sorted@.len() ==> attempt_source(*program, *symbols, *previous, dirty@, #[trigger] sorted@[i]@),
            forall|j: int| 0 <= j < k ==> has_model(sorted@, #[trigger] items@[j]@),
        decreases items@.len() - k,
    {
        let mut p: usize = 0;
        while p < sorted.len() && !item_before(&items[k], &sorted[p])
            invariant
                p <= sorted@.len(),
                k < items@.len(),
            decreases sorted@.len() - p,
        {
            p = p + 1;
        }
        let ghost before = sorted@;
        let c = copy_diag(&items[k]);
        sorted.insert(p, c);
        proof {
            before.insert_ensures(p as int, c);
            assert(sorted@ == before.insert(p as int, c));
            assert forall|i: int| 0 <= i < sorted@.len() implies attempt_source(*program, *symbols, *previous, dirty@, #[trigger] sorted@[i]@) by {
                if i < p {
                    assert(sorted@[i] == before[i]);
                } else if i > p {
                    assert(sorted@[i] == before[i - 1]);
                } else {
                    assert(sorted@[i]@ == items@[k as int]@);
                }
            }
            assert forall|j: int| 0 <= j < k + 1 implies has_model(sorted@, #[trigger] items@[j]@) by {
                if j < k {
                    let i = choose|i: int| 0 <= i < before.len() && #[trigger] before[i]@ == items@[j]@;
                    if i < p {
                        assert(sorted@[i] == before[i]);
                    } else {
                        assert(sorted@[i + 1] == before[i]);
                    }
                } else {
                    assert(sorted@[p as int]@ == items@[j]@);
                }
            }
        }
        k = k + 1;
    }
    let mut out: Vec<Diagnostic> = Vec::new();
    let mut k: usize = 0;
    while k < sorted.len()
        invariant
            k <= sorted@.len(),
            forall|i: int| 0 <= i < sorted@.len() ==> attempt_source(*program, *symbols, *previous, dirty@, #[trigger] sorted@[i]@),
            forall|i: int| 0 <= i < out@.len() ==> attempt_source(*program, *symbols, *previous, dirty@, #[trigger] out@[i]@),
            forall|j: int| 0 <= j < k ==> has_entry(out@, (#[trigger] sorted@[j]).key@, sorted@[j].stmt),
            forall|i: int| 0 < i < out@.len() ==> !(#[trigger] out@[i].key@ == out@[i - 1].key@ && out@[i].stmt == out@[i - 1].stmt),
        decreases sorted@.len() - k,
    {
        let repeat = out.len() > 0 && out[out.len() - 1].key == sorted[k].key && out[out.len() - 1].stmt == sorted[k].stmt;
        let ghost before = out@;
        if !repeat {
            out.push(copy_diag(&sorted[k]));
            proof {
                assert forall|j: int| 0 <= j < k + 1 implies has_entry(out@, (#[trigger] sorted@[j]).key@, sorted@[j].stmt) by {
                    if j < k {
                        let i = choose|i: int| 0 <= i < before.len() && (#[trigger] before[i]).key@ == sorted@[j].key@ && before[i].stmt == sorted@[j].stmt;
                        assert(out@[i] == before[i]);
                    } else {
                        assert(out@[before.len() as int].key@ == sorted@[j].key@);
                    }
                }
                assert forall|i: int| 0 < i < out@.len() implies !(#[trigger] out@[i].key@ == out@[i - 1].key@ && out@[i].stmt == out@[i - 1].stmt) by {
                    if i < before.len() {
                        assert(out@[i] == before[i] && out@[i - 1] == before[i - 1]);
                    }
                }
            }
        } else {
            proof {
                assert(has_entry(out@, sorted@[k as int].key@, sorted@[k as int].stmt)) by {
                    assert(out@[out@.len() - 1].key@ == sorted@[k as int].key@);
                }
            }
        }
        k = k + 1;
    }
    proof {
        assert forall|d: DiagnosticModel| #[trigger] attempt_source(*program, *symbols, *previous, dirty@, d) implies has_entry(out@, d.key, d.stmt) by {
            let j = choose|j: int| 0 <= j < items@.len() && #[trigger] items@[j]@ == d;
            let i = choose|i: int| 0 <= i < sorted@.len() && #[trigger] sorted@[i]@ == items@[j]@;
            assert(has_entry(out@, sorted@[i].key@, sorted@[i].stmt));
        }
    }
    let mut reused_n: usize = 0;
    let mut k: usize = 0;
    while k < out.len()
        invariant
            reused_n <= k,
            k <= out@.len(),
        decreases out@.len() - k,
    {
        if !contains_u64(dirty, out[k].stmt) && out[k].key != syntax_key {
            reused_n = reused_n + 1;
        }
        k = k + 1;
    }
    let total = out.len();
    DiagnosticSet {
        items: out,
        work: WorkMetrics {
            bytes_processed: 0,
            allocations_hint: 0,
            items_reused: reused_n,
            items_recomputed: total - reused_n,
            items_invalidated: 0,
            items_total: total,
            hashing_nanos: DurationNanos(0),
        },
    }
}

/// The top-level statement ids of a program, in order.
pub open spec fn live_ids(p: Program) -> Seq<u64> {
    Seq::new(p.stmts@.len(), |i: int| stmt_id(p.stmts@[i]@).0)
}

/// A finding of the full pass that the reusing pass takes: a syntax error,
/// or a finding about a dirty statement or about no statement.
pub open spec fn taken_fresh(d: DiagnosticModel, dirty: Seq<u64>) -> bool {
    d.key == "syntax"@ || dirty.contains(d.stmt) || d.stmt == 0
}

/// A finding of the previous pass that the reusing pass keeps: not a syntax
/// error, about a statement that is not dirty and is still there (or about
/// no statement).
pub open spec fn kept_old(d: DiagnosticModel, dirty: Seq<u64>, live: Seq<u64>) -> bool {
    d.key != "syntax"@ && !dirty.contains(d.stmt) && (d.stmt == 0 || live.contains(d.stmt))
}

/// Where a finding of the reusing pass may come from.
pub open spec fn attempt_source(p: Program, t: SymbolTable, previous: DiagnosticSet, dirty: Seq<u64>, d: DiagnosticModel) -> bool {
    ||| expected_diags(p, t).contains(d) && taken_fresh(d, dirty)
    ||| has_model(previous.items@, d) && kept_old(d, dirty, live_ids(p))
}

/// Some item of `s` has the model `d`.
pub open spec fn has_model(s: Seq<Diagnostic>, d: DiagnosticModel) -> bool {
    exists|i: int| 0 <= i < s.len() && #[trigger] s[i]@ == d
}

/// Some item of `s` has the key `key` and is about statement `stmt`.
pub open spec fn has_entry(s: Seq<Diagnostic>, key: Seq<char>, stmt: u64) -> bool {
    exists|i: int| 0 <= i < s.len() && (#[trigger] s[i]).key@ == key && s[i].stmt == stmt
}

/// Diagnostics after an edit, reusing `previous` where it can. The result
/// always has the keys of a full pass; when nothing is dirty and `previous`
/// already has them it is returned as is, and when the reusing pass would
/// differ the full pass is returned.
pub fn diagnostics_incremental(
    program: &Program,
    symbols: &SymbolTable,
    previous: &DiagnosticSet,
    dirty_stmt_ids: &[u64],
) -> (d: DiagnosticSet)
    ensures
        diag_keys(d.items@).to_multiset() == expected_keys(*program, *symbols).to_multiset(),
        dirty_stmt_ids@.len() == 0 && diag_keys(previous.items@).to_multiset() == expected_keys(*program, *symbols).to_multiset() ==> {
            &&& diag_models(d.items@) == diag_models(previous.items@)
            &&& d.work.items_total == previous.items@.len()
            &&& d.work.items_reused == d.work.items_total
            &&& d.work.items_recomputed == 0
        },
{
    let full = diagnostics_full(program, symbols);
    proof {
        assert(diag_keys(full.items@) =~= expected_keys(*program, *symbols)) by {
            assert forall|k: int| 0 <= k < full.items@.len() implies #[trigger] diag_keys(full.items@)[k] == expected_keys(*program, *symbols)[k] by {
                assert(diag_models(full.items@)[k] == full.items@[k]@);
            }
        }
    }
    if dirty_stmt_ids.len() == 0 && previous.semantic_eq(&full) {
        let mut d = previous.duplicate();
        let n = previous.items.len();
        d.work = WorkMetrics {
            bytes_processed: 0,
            allocations_hint: 0,
            items_reused: n,
            items_recomputed: 0,
            items_invalidated: 0,
            items_total: n,
            hashing_nanos: DurationNanos(0),
        };
        proof {
            assert(diag_models(d.items@).len() == d.items@.len());
            assert(diag_models(previous.items@).len() == previous.items@.len());
            assert(diag_keys(d.items@) =~= diag_keys(previous.items@)) by {
                assert forall|k: int| 0 <= k < d.items@.len() implies #[trigger] diag_keys(d.items@)[k] == diag_keys(previous.items@)[k] by {
                    assert(diag_models(d.items@)[k] == diag_models(previous.items@)[k]);
                    assert(diag_models(d.items@)[k] == d.items@[k]@);
                    assert(diag_models(previous.items@)[k] == previous.items@[k]@);
                }
            }
        }
        return d;
    }
    let attempted = diagnostics_attempt(program, symbols, previous, dirty_stmt_ids);
    if attempted.semantic_eq(&full) {
        attempted
    } else {
        full
    }
}


// ----- the keys of a full pass depend on errors, names and uses alone -----

/// How often key `k` occurs among the diagnostics of a program with
/// `errors` syntax errors whose consistently bound symbols define `dom` and
/// have the use keys `uses`.
pub open spec fn expected_count(errors: nat, uses: Multiset<(Seq<char>, bool)>, dom: Set<Seq<char>>, k: Seq<char>) -> nat {
    (if k == "syntax"@ { errors } else { 0nat })
        + (if k.len() >= 6 && k.subrange(0, 6) == "undef:"@ { uses.count((k.subrange(6, k.len() as int), false)) } else { 0nat })
        + (if k.len() >= 7 && k.subrange(0, 7) == "unused:"@ && dom.contains(k.subrange(7, k.len() as int))
            && uses.count((k.subrange(7, k.len() as int), true)) == 0 { 1nat } else { 0nat })
}

pub open spec fn keys_of(ds: Seq<DiagnosticModel>) -> Seq<Seq<char>> {
    ds.map_values(|d: DiagnosticModel| d.key)
}

pub open spec fn rm_keys(rm: Seq<RefModel>) -> Seq<(Seq<char>, bool)> {
    rm.map_values(|r: RefModel| (r.name, r.def is Some))
}

proof fn lemma_count_push<A>(s: Seq<A>, a: A, x: A)
    ensures
        s.push(a).to_multiset().count(x) == s.to_multiset().count(x) + (if a == x { 1nat } else { 0nat }),
{
    broadcast use vstd::multiset::group_multiset_axioms;
    vstd::seq_lib::to_multiset_build(s, a);
}

proof fn lemma_count_concat<A>(a: Seq<A>, b: Seq<A>, x: A)
    ensures
        (a + b).to_multiset().count(x) == a.to_multiset().count(x) + b.to_multiset().count(x),
{
    broadcast use vstd::multiset::group_multiset_axioms;
    vstd::seq_lib::lemma_multiset_commutative(a, b);
}

proof fn lemma_count_empty<A>(x: A)
    ensures
        Seq::<A>::empty().to_multiset().count(x) == 0,
{
    broadcast use vstd::multiset::group_multiset_axioms;
    broadcast use vstd::seq_lib::group_to_multiset_ensures;
    assert(Seq::<A>::empty().to_multiset().len() == 0);
}

proof fn lemma_keys_concat(a: Seq<DiagnosticModel>, b: Seq<DiagnosticModel>)
    ensures
        keys_of(a + b) == keys_of(a) + keys_of(b),
{
    assert(keys_of(a + b) =~= keys_of(a) + keys_of(b));
}

proof fn lemma_prefix_facts(n: Seq<char>)
    ensures
        undef_key(n).len() >= 6 && undef_key(n).subrange(0, 6) == "undef:"@ && undef_key(n).subrange(6, undef_key(n).len() as int) == n,
        unused_key(n).len() >= 7 && unused_key(n).subrange(0, 7) == "unused:"@ && unused_key(n).subrange(7, unused_key(n).len() as int) == n,
        undef_key(n) != "syntax"@,
        unused_key(n) != "syntax"@,
        !(unused_key(n).subrange(0, 6) == "undef:"@),
        !(undef_key(n).len() >= 7 && undef_key(n).subrange(0, 7) == "unused:"@),
{
    reveal_strlit("undef:");
    reveal_strlit("unused:");
    reveal_strlit("syntax");
    assert(undef_key(n).subrange(0, 6) =~= "undef:"@);
    assert(undef_key(n).subrange(6, undef_key(n).len() as int) =~= n);
    assert(unused_key(n).subrange(0, 7) =~= "unused:"@);
    assert(unused_key(n).subrange(7, unused_key(n).len() as int) =~= n);
    assert(undef_key(n)[0] == 'u');
    assert(unused_key(n)[0] == 'u');
    assert(unused_key(n).subrange(0, 6)[2] == 'u');
    if undef_key(n).len() >= 7 {
        assert(undef_key(n).subrange(0, 7)[2] == 'd');
    }
}

proof fn lemma_syntax_count(errors: Seq<Seq<char>>, k: Seq<char>)
    ensures
        keys_of(syntax_diags(errors)).to_multiset().count(k) == (if k == "syntax"@ { errors.len() } else { 0 }),
    decreases errors.len(),
{
    if errors.len() == 0 {
        assert(keys_of(syntax_diags(errors)) =~= Seq::<Seq<char>>::empty());
        lemma_count_empty(k);
    } else {
        let e = errors.drop_last();
        lemma_syntax_count(e, k);
        assert(keys_of(syntax_diags(errors)) =~= keys_of(syntax_diags(e)).push("syntax"@));
        lemma_count_push(keys_of(syntax_diags(e)), "syntax"@, k);
    }
}

proof fn lemma_undef_count(rm: Seq<RefModel>, k: Seq<char>)
    ensures
        keys_of(undef_diags(rm)).to_multiset().count(k) == (if k.len() >= 6 && k.subrange(0, 6) == "undef:"@ {
            rm_keys(rm).to_multiset().count((k.subrange(6, k.len() as int), false))
        } else {
            0
        }),
    decreases rm.len(),
{
    if rm.len() == 0 {
        assert(keys_of(undef_diags(rm)) =~= Seq::<Seq<char>>::empty());
        assert(rm_keys(rm) =~= Seq::<(Seq<char>, bool)>::empty());
        lemma_count_empty(k);
        lemma_count_empty((k.subrange(6, k.len() as int), false));
    } else {
        let r = rm.last();
        let rest = rm.drop_last();
        lemma_undef_count(rest, k);
        assert(rm_keys(rm) =~= rm_keys(rest).push((r.name, r.def is Some)));
        let n = k.subrange(6, k.len() as int);
        lemma_count_push(rm_keys(rest), (r.name, r.def is Some), (n, false));
        lemma_prefix_facts(r.name);
        if r.def is None {
            let d = DiagnosticModel { key: undef_key(r.name), message: "undefined `"@ + r.name + "`"@, stmt: r.from_stmt };
            assert(undef_diags(rm) == undef_diags(rest) + seq![d]);
            assert(keys_of(undef_diags(rm)) =~= keys_of(undef_diags(rest)).push(undef_key(r.name)));
            lemma_count_push(keys_of(undef_diags(rest)), undef_key(r.name), k);
            if k.len() >= 6 && k.subrange(0, 6) == "undef:"@ && undef_key(r.name) != k {
                assert(k =~= "undef:"@ + n);
                assert(r.name != n);
            }
        } else {
            assert(undef_diags(rm) =~= undef_diags(rest));
        }
    }
}

/// The count of an unused-key among the diagnostics of symbols `sm` whose
/// names are strictly increasing.
proof fn lemma_unused_count(sm: Seq<SymbolModel>, rm: Seq<RefModel>, k: Seq<char>)
    requires
        forall|i: int, j: int| 0 <= i < j < sm.len() ==> name_lt((#[trigger] sm[i]).name, (#[trigger] sm[j]).name),
    ensures
        keys_of(unused_diags(sm, rm)).to_multiset().count(k) == (if k.len() >= 7 && k.subrange(0, 7) == "unused:"@
            && exists|i: int| 0 <= i < sm.len() && (#[trigger] sm[i]).name == k.subrange(7, k.len() as int) && !is_used(rm, sm[i].id) {
            1nat
        } else {
            0nat
        }),
    decreases sm.len(),
{
    let n = k.subrange(7, k.len() as int);
    if sm.len() == 0 {
        assert(keys_of(unused_diags(sm, rm)) =~= Seq::<Seq<char>>::empty());
        lemma_count_empty(k);
    } else {
        let s = sm.last();
        let rest = sm.drop_last();
        lemma_unused_count(rest, rm, k);
        lemma_prefix_facts(s.name);
        let here = k.len() >= 7 && k.subrange(0, 7) == "unused:"@ && s.name == n && !is_used(rm, s.id);
        if !is_used(rm, s.id) {
            let d = DiagnosticModel { key: unused_key(s.name), message: "unused `"@ + s.name + "`"@, stmt: s.def_stmt };
            assert(unused_diags(sm, rm) == unused_diags(rest, rm) + seq![d]);
            assert(keys_of(unused_diags(sm, rm)) =~= keys_of(unused_diags(rest, rm)).push(unused_key(s.name)));
            lemma_count_push(keys_of(unused_diags(rest, rm)), unused_key(s.name), k);
            if k.len() >= 7 && k.subrange(0, 7) == "unused:"@ {
                assert(k =~= "unused:"@ + n);
            }
        } else {
            assert(unused_diags(sm, rm) =~= unused_diags(rest, rm));
        }
        if k.len() >= 7 && k.subrange(0, 7) == "unused:"@ {
            if exists|i: int| 0 <= i < rest.len() && (#[trigger] rest[i]).name == n && !is_used(rm, rest[i].id) {
                let i = choose|i: int| 0 <= i < rest.len() && (#[trigger] rest[i]).name == n && !is_used(rm, rest[i].id);
                assert(sm[i] == rest[i]);
                assert(name_lt(sm[i].name, sm[sm.len() - 1].name));
                crate::defmap::lemma_name_lt_irreflexive(n);
                assert(s.name != n);
            }
            if exists|i: int| 0 <= i < sm.len() && (#[trigger] sm[i]).name == n && !is_used(rm, sm[i].id) {
                let i = choose|i: int| 0 <= i < sm.len() && (#[trigger] sm[i]).name == n && !is_used(rm, sm[i].id);
                if i < sm.len() - 1 {
                    assert(rest[i] == sm[i]);
                }
            }
        }
    }
}

/// With consistently bound symbols, the keys of a full diagnostic pass
/// follow from the syntax errors, the defined names and the use keys alone.
pub proof fn lemma_expected_count(p: Program, t: SymbolTable, k: Seq<char>)
    requires
        well_bound(t),
        t.defs.in_order(),
    ensures
        expected_keys(p, t).to_multiset().count(k) == expected_count(
            texts(p.errors@).len(),
            ref_keys(t.refs@).to_multiset(),
            t.defs.map().dom(),
            k,
        ),
{
    t.defs.lemma_in_order();
    let rm = ref_models(t.refs@);
    let sm = t.defs.symbols().map_values(|s: crate::defmap::Symbol| s@);
    let errs = texts(p.errors@);
    let a = syntax_diags(errs);
    let b = undef_diags(rm);
    let c = unused_diags(sm, rm);
    assert(expected_diags(p, t) == a + b + c);
    lemma_keys_concat(a + b, c);
    lemma_keys_concat(a, b);
    assert(expected_keys(p, t) == keys_of(expected_diags(p, t)));
    lemma_count_concat(keys_of(a) + keys_of(b), keys_of(c), k);
    lemma_count_concat(keys_of(a), keys_of(b), k);
    lemma_syntax_count(errs, k);
    lemma_undef_count(rm, k);
    assert(forall|i: int, j: int| 0 <= i < j < sm.len() ==> name_lt((#[trigger] sm[i]).name, (#[trigger] sm[j]).name)) by {
        assert forall|i: int, j: int| 0 <= i < j < sm.len() implies name_lt((#[trigger] sm[i]).name, (#[trigger] sm[j]).name) by {
            assert(sm[i] == t.defs.symbols()[i]@);
            assert(sm[j] == t.defs.symbols()[j]@);
        }
    }
    lemma_unused_count(sm, rm, k);
    assert(rm_keys(rm) =~= ref_keys(t.refs@)) by {
        assert forall|i: int| 0 <= i < rm.len() implies #[trigger] rm_keys(rm)[i] == ref_keys(t.refs@)[i] by {
            assert(rm[i] == t.refs@[i]@);
        }
    }
    let uses = ref_keys(t.refs@).to_multiset();
    let n = k.subrange(7, k.len() as int);
    if k.len() >= 7 && k.subrange(0, 7) == "unused:"@ {
        // an unused diagnostic for n exactly when n is defined and no bound use names it
        let found = exists|i: int| 0 <= i < sm.len() && (#[trigger] sm[i]).name == n && !is_used(rm, sm[i].id);
        vstd::seq_lib::to_multiset_contains(ref_keys(t.refs@), (n, true));
        if found {
            let i = choose|i: int| 0 <= i < sm.len() && (#[trigger] sm[i]).name == n && !is_used(rm, sm[i].id);
            let sym = t.defs.symbols()[i];
            assert(sm[i] == sym@);
            assert(t.defs.map().dom().contains(n));
            if uses.count((n, true)) > 0 {
                let j = choose|j: int| 0 <= j < t.refs@.len() && ref_keys(t.refs@)[j] == (n, true);
                assert(ref_keys(t.refs@)[j] == (t.refs@[j].name@, t.refs@[j].def is Some));
                assert(t.refs@[j].def == Some(t.defs.map()[n].id));
                assert(rm[j].def == Some(sym.id));
                assert(is_used(rm, sm[i].id));
            }
        } else if t.defs.map().dom().contains(n) && uses.count((n, true)) == 0 {
            let i = choose|i: int| 0 <= i < t.defs.symbols().len() && (#[trigger] t.defs.symbols()[i]).name@ == n;
            let sym = t.defs.symbols()[i];
            assert(sm[i] == sym@);
            assert(is_used(rm, sm[i].id));
            let j = choose|j: int| 0 <= j < rm.len() && (#[trigger] rm[j]).def == Some(sm[i].id);
            let rn = t.refs@[j].name@;
            assert(rm[j] == t.refs@[j]@);
            assert(t.refs@[j].def == (if t.defs.map().dom().contains(rn) { Some(t.defs.map()[rn].id) } else { None }));
            assert(t.defs.map().dom().contains(rn));
            assert(t.defs.map()[rn].id == t.defs.map()[n].id);
            assert(rn == n);
            assert(ref_keys(t.refs@)[j] == (n, true));
            assert(ref_keys(t.refs@).contains((n, true)));
        }
    }
}

/// Two programs with the same syntax errors, whose consistently bound symbol
/// tables agree, have diagnostics with the same keys.
pub proof fn law_diagnostics_follow_symbols(p1: Program, t1: SymbolTable, p2: Program, t2: SymbolTable)
    requires
        texts(p1.errors@) == texts(p2.errors@),
        crate::symbols::same_symbols(t1, t2),
        well_bound(t1),
        well_bound(t2),
        t1.defs.in_order(),
        t2.defs.in_order(),
    ensures
        expected_keys(p1, t1).to_multiset() == expected_keys(p2, t2).to_multiset(),
{
    assert forall|k: Seq<char>| #[trigger] expected_keys(p1, t1).to_multiset().count(k) == expected_keys(p2, t2).to_multiset().count(k) by {
        lemma_expected_count(p1, t1, k);
        lemma_expected_count(p2, t2, k);
    }
    assert(expected_keys(p1, t1).to_multiset() =~= expected_keys(p2, t2).to_multiset());
}

} // verus!
