use vstd::prelude::*;
use vstd::utf8::*;
use crate::delta::{
    apply_delta_mut, apply_op, inserts_ascii, net_counts, lemma_apply_keeps_ascii,
    lemma_ascii_from_bytes, lemma_ascii_to_bytes, reports, utf8, zero_stats, Delta,
};
use crate::diagnostics::{
    DiagnosticSet, diag_keys, diag_models, diagnostics_full, diagnostics_incremental, expected_diags,
    expected_keys, law_diagnostics_follow_symbols, same_diagnostics,
};
use crate::error::Error;
use crate::id::NodeId;
use crate::lexer::{TokenStream, full_lex_work, keys_of_text, lex_full, lex_incremental, same_token_keys, tokens_of_text, lexed};
use crate::parser::{
    AstId, Program, full_parse_work, stmts_ids, top_ids, law_parse_respects_token_keys, parse_full, parse_incremental, parsed, same_program, shape_of,
    stmt_models, stmts_shape, texts,
};
use crate::symbols::{
    SymbolTable, bind, fresh_work, ref_models, stmts_refs, full_defs, lemma_defs_len_follows_shape, lemma_parsed_defs_bound, law_symbols_follow_shape,
    same_symbols, stmts_defs, symbols_agree, symbols_full, symbols_incremental, well_bound,
};
use crate::timing::{clock_elapsed, clock_now, duration_as_nanos};
use crate::budget::{edit_within_budget, lemma_budget_fits, plain_edit, within_budget};

verus! {

broadcast use {vstd::utf8::group_utf8_lib, vstd::string::group_string_axioms};

/// Source text and every stage computed from it: tokens, program, symbols,
/// diagnostics.
#[derive(Debug)]
pub struct LanguagePipeline {
    pub source: String,
    pub tokens: TokenStream,
    pub program: Program,
    pub symbols: SymbolTable,
    pub diagnostics: DiagnosticSet,
}

/// Counters of one edit through the pipeline.
#[derive(Debug)]
pub struct PipelineSnapshot {
    pub inserted_chars: i64,
    pub deleted_chars: i64,
    pub tokens_total: usize,
    pub tokens_reused: usize,
    pub tokens_recomputed: usize,
    pub ast_total: usize,
    pub ast_reused: usize,
    pub ast_recomputed: usize,
    pub symbols_total: usize,
    pub symbols_reused: usize,
    pub symbols_recomputed: usize,
    pub diagnostics_total: usize,
    pub diagnostics_reused: usize,
    pub diagnostics_recomputed: usize,
    pub diagnostics_before: usize,
    pub diagnostics_after: usize,
    pub bytes_processed: usize,
    pub elapsed_nanos: u128,
    pub source_len: usize,
    pub mode: String,
}

impl Default for PipelineSnapshot {
    fn default() -> (s: PipelineSnapshot)
        ensures
            s.inserted_chars == 0 && s.deleted_chars == 0,
            s.tokens_total == 0 && s.tokens_reused == 0 && s.tokens_recomputed == 0,
            s.ast_total == 0 && s.ast_reused == 0 && s.ast_recomputed == 0,
            s.symbols_total == 0 && s.symbols_reused == 0 && s.symbols_recomputed == 0,
            s.diagnostics_total == 0 && s.diagnostics_reused == 0 && s.diagnostics_recomputed == 0,
            s.diagnostics_before == 0 && s.diagnostics_after == 0,
            s.bytes_processed == 0 && s.elapsed_nanos == 0 && s.source_len == 0,
            s.mode@ == Seq::<char>::empty(),
    {
        PipelineSnapshot {
            inserted_chars: 0,
            deleted_chars: 0,
            tokens_total: 0,
            tokens_reused: 0,
            tokens_recomputed: 0,
            ast_total: 0,
            ast_reused: 0,
            ast_recomputed: 0,
            symbols_total: 0,
            symbols_reused: 0,
            symbols_recomputed: 0,
            diagnostics_total: 0,
            diagnostics_reused: 0,
            diagnostics_recomputed: 0,
            diagnostics_before: 0,
            diagnostics_after: 0,
            bytes_processed: 0,
            elapsed_nanos: 0,
            source_len: 0,
            mode: String::new(),
        }
    }
}

/// The nodes of the language graph in an engine.
#[derive(Clone, Copy, Debug)]
pub struct LanguageHandles {
    pub source: NodeId,
    pub tokens: NodeId,
    pub ast: NodeId,
    pub symbols: NodeId,
    pub diagnostics: NodeId,
}

/// Every stage agrees with a full recomputation from the source: the tokens
/// have the kinds, texts and starts of a full lex, the program the shape and
/// errors of a full parse of those tokens, the symbols the names and uses of a
/// full pass over that program (consistently bound), the diagnostics the keys
/// of a full pass over program and symbols.
pub open spec fn consistent(p: LanguagePipeline) -> bool {
    &&& is_ascii_chars(p.source@)
    &&& keys_of_text(p.tokens.tokens@, p.source@)
    &&& shape_of(p.program) == stmts_shape(parsed(p.tokens.tokens@).0)
    &&& texts(p.program.errors@) == parsed(p.tokens.tokens@).1.errors
    &&& symbols_agree(p.symbols, p.program)
    &&& well_bound(p.symbols)
    &&& p.symbols.defs.in_order()
    &&& diag_keys(p.diagnostics.items@).to_multiset() == expected_keys(p.program, p.symbols).to_multiset()
}

/// Every stage is exactly the full recomputation from the source.
pub open spec fn fully_built(p: LanguagePipeline) -> bool {
    &&& tokens_of_text(p.tokens.tokens@, p.source@, 1)
    &&& p.tokens.edit is None
    &&& stmt_models(p.program.stmts@) == parsed(p.tokens.tokens@).0
    &&& texts(p.program.errors@) == parsed(p.tokens.tokens@).1.errors
    &&& p.program.next_id == parsed(p.tokens.tokens@).1.next
    &&& p.symbols.defs.map() == full_defs(p.program)
    &&& diag_models(p.diagnostics.items@) == expected_diags(p.program, p.symbols)
    &&& consistent(p)
}

/// Every stage is exactly what the full passes give for the source, ids and
/// work counters included.
pub open spec fn full_results(p: LanguagePipeline) -> bool {
    &&& fully_built(p)
    &&& p.tokens.next_id == (1 + p.tokens.tokens@.len()) % 0x1_0000_0000_0000_0000
    &&& p.tokens.work == full_lex_work(p.source@.len(), p.tokens.tokens@.len())
    &&& p.program.id == AstId(0)
    &&& p.program.dirty_stmt_ids@ == top_ids(stmt_models(p.program.stmts@))
    &&& p.program.work == full_parse_work(stmts_ids(stmt_models(p.program.stmts@)).len(), p.tokens.work.bytes_processed)
    &&& ref_models(p.symbols.refs@) == bind(stmts_refs(stmt_models(p.program.stmts@)), full_defs(p.program))
    &&& p.symbols.work == fresh_work(p.symbols.defs.symbols().len() + p.symbols.refs@.len())
    &&& p.diagnostics.work == fresh_work(p.diagnostics.items@.len() as nat)
}

/// The stages of `a` and `b` are the same values.
pub open spec fn same_stages(a: LanguagePipeline, b: LanguagePipeline) -> bool {
    &&& a.tokens == b.tokens
    &&& a.program == b.program
    &&& a.symbols == b.symbols
    &&& a.diagnostics == b.diagnostics
}

/// The state an edit leaves behind: the source is the edited text, and when
/// the edit applied every stage agrees with a full recomputation from it.
pub open spec fn edited(before: LanguagePipeline, after: LanguagePipeline, delta: Delta, r: Result<PipelineSnapshot, Error>) -> bool {
    let out = apply_op(utf8(before.source@), delta@, zero_stats());
    &&& utf8(after.source@) == out.bytes
    &&& (r is Ok <==> out.fault is None)
    &&& r matches Err(e) ==> reports(e, out.fault.unwrap())
    &&& r is Ok ==> consistent(after)
}

/// What the snapshot of an applied edit reports: the characters inserted and
/// deleted, the mode, and the sizes of the source and of every stage after
/// it, with the diagnostics before and after.
pub open spec fn reported(before: LanguagePipeline, after: LanguagePipeline, delta: Delta, s: PipelineSnapshot, mode: Seq<char>) -> bool {
    &&& s.inserted_chars == net_counts(delta@).0
    &&& s.deleted_chars == net_counts(delta@).1
    &&& s.mode@ == mode
    &&& s.tokens_total == after.tokens.tokens@.len()
    &&& s.ast_total == after.program.work.items_total
    &&& s.symbols_total == after.symbols.work.items_total
    &&& s.diagnostics_total == after.diagnostics.work.items_total
    &&& s.diagnostics_before == before.diagnostics.items@.len()
    &&& s.diagnostics_after == after.diagnostics.items@.len()
    &&& s.source_len == utf8(after.source@).len() as usize
}

/// The edit an apply needs: ASCII stays ASCII, counters fit machine words.
pub open spec fn applicable(p: LanguagePipeline, delta: Delta) -> bool {
    &&& is_ascii_chars(p.source@)
    &&& inserts_ascii(delta@)
    &&& apply_op(utf8(p.source@), delta@, zero_stats()).fits
}

/// An edit the pipeline can be asked to apply, checked before the call: the
/// source is ASCII, the edit inserts ASCII, and applying it stays within the
/// length budget.
pub open spec fn takes_edit(p: LanguagePipeline, delta: Delta) -> bool {
    &&& is_ascii_chars(p.source@)
    &&& plain_edit(delta@)
    &&& within_budget(utf8(p.source@).len(), delta@)
}

/// An edit the pipeline takes can be applied.
pub proof fn lemma_takes_edit_applicable(p: LanguagePipeline, delta: Delta)
    requires
        takes_edit(p, delta),
    ensures
        applicable(p, delta),
{
    lemma_budget_fits(utf8(p.source@), delta@);
}

proof fn lemma_full_symbols_bound(p: Program, toks: Seq<crate::lexer::Token>)
    requires
        shape_of(p) == stmts_shape(parsed(toks).0),
        toks.len() <= usize::MAX,
    ensures
        stmts_defs(stmt_models(p.stmts@)).len() < u64::MAX,
{
    lemma_parsed_defs_bound(toks);
    lemma_defs_len_follows_shape(stmt_models(p.stmts@), parsed(toks).0);
}

proof fn lemma_edit_keeps_ascii(before: Seq<char>, after: Seq<char>, delta: Delta)
    requires
        is_ascii_chars(before),
        inserts_ascii(delta@),
        utf8(after) == apply_op(utf8(before), delta@, zero_stats()).bytes,
    ensures
        is_ascii_chars(after),
{
    lemma_ascii_to_bytes(before);
    lemma_apply_keeps_ascii(utf8(before), delta@, zero_stats());
    lemma_ascii_from_bytes(after);
}

impl LanguagePipeline {
    /// Whether `delta` is an edit this pipeline takes.
    pub fn takes(&self, delta: &Delta) -> (b: bool)
        ensures
            b == takes_edit(*self, *delta),
    {
        self.source.as_str().is_ascii() && delta.is_plain() && edit_within_budget(self.source.as_str(), delta)
    }

    /// Build every stage from `text`.
    pub fn from_text(text: &str) -> (p: LanguagePipeline)
        requires
            is_ascii_chars(text@),
        ensures
            p.source@ == text@,
            fully_built(p),
            full_results(p),
    {
        let source = text.to_owned();
        let tokens = lex_full(source.as_str());
        let program = parse_full(&tokens);
        let symbols = symbols_full(&program);
        let diagnostics = diagnostics_full(&program, &symbols);
        let _count = tokens.tokens.len();
        proof {
            lemma_full_symbols_bound(program, tokens.tokens@);
            assert(diag_keys(diagnostics.items@) =~= expected_keys(program, symbols)) by {
                assert forall|k: int| 0 <= k < diagnostics.items@.len() implies #[trigger] diag_keys(diagnostics.items@)[k] == expected_keys(program, symbols)[k] by {
                    assert(diag_models(diagnostics.items@)[k] == diagnostics.items@[k]@);
                }
            }
        }
        LanguagePipeline { source, tokens, program, symbols, diagnostics }
    }

    /// Recompute every stage from the source.
    pub fn rebuild_full(&mut self)
        requires
            is_ascii_chars(old(self).source@),
        ensures
            final(self).source == old(self).source,
            fully_built(*final(self)),
            full_results(*final(self)),
    {
        self.tokens = lex_full(self.source.as_str());
        self.program = parse_full(&self.tokens);
        self.symbols = symbols_full(&self.program);
        self.diagnostics = diagnostics_full(&self.program, &self.symbols);
        let _count = self.tokens.tokens.len();
        proof {
            lemma_full_symbols_bound(self.program, self.tokens.tokens@);
            assert(diag_keys(self.diagnostics.items@) =~= expected_keys(self.program, self.symbols)) by {
                assert forall|k: int| 0 <= k < self.diagnostics.items@.len() implies #[trigger] diag_keys(self.diagnostics.items@)[k] == expected_keys(self.program, self.symbols)[k] by {
                    assert(diag_models(self.diagnostics.items@)[k] == self.diagnostics.items@[k]@);
                }
            }
        }
    }

    /// Apply `delta` to the source and recompute every stage in full.
    pub fn apply_full(&mut self, delta: &Delta) -> (r: Result<PipelineSnapshot, Error>)
        requires
            applicable(*old(self), *delta),
        ensures
            edited(*old(self), *final(self), *delta, r),
            r is Ok ==> fully_built(*final(self)),
            r is Ok ==> full_results(*final(self)),
            r is Err ==> same_stages(*final(self), *old(self)),
            r matches Ok(snap) ==> reported(*old(self), *final(self), *delta, snap, "full"@),
            r matches Ok(snap) ==> snap.bytes_processed == sum_capped(
                (apply_op(utf8(old(self).source@), delta@, zero_stats()).stats.processed + 2 * (final(self).source@.len() as usize)) as nat,
            ),
    {
        let t0 = clock_now();
        let before_diag = self.diagnostics.items.len();
        let (ins, del) = delta.net_char_delta();
        let ghost src0 = self.source@;
        let stats = apply_delta_mut(&mut self.source, delta)?;
        proof {
            lemma_edit_keeps_ascii(src0, self.source@, *delta);
        }
        self.rebuild_full();
        Ok(self.snapshot("full", ins, del, stats.bytes_processed, before_diag, &t0))
    }

    /// Apply `delta` to the source and bring every stage up to date, reusing
    /// what each stage knew where it can.
    pub fn apply_incremental(&mut self, delta: &Delta) -> (r: Result<PipelineSnapshot, Error>)
        requires
            applicable(*old(self), *delta),
            consistent(*old(self)),
        ensures
            edited(*old(self), *final(self), *delta, r),
            r is Err ==> same_stages(*final(self), *old(self)),
            r matches Ok(snap) ==> reported(*old(self), *final(self), *delta, snap, "incremental"@),
            r matches Ok(snap) ==> snap.bytes_processed == sum_capped(
                (apply_op(utf8(old(self).source@), delta@, zero_stats()).stats.processed + final(self).tokens.work.bytes_processed
                    + final(self).program.work.bytes_processed) as nat,
            ),
    {
        let t0 = clock_now();
        let before_diag = self.diagnostics.items.len();
        let (ins, del) = delta.net_char_delta();
        let ghost src0 = self.source@;
        let stats = apply_delta_mut(&mut self.source, delta)?;
        proof {
            lemma_edit_keeps_ascii(src0, self.source@, *delta);
        }
        self.tokens = lex_incremental(self.source.as_str(), &self.tokens, delta)?;
        self.program = parse_incremental(&self.tokens, &self.program)?;
        let dirty = dirty_stmt_ids(&self.program);
        let ghost old_symbols = self.symbols;
        self.symbols = symbols_incremental(&self.program, &self.symbols, dirty.as_slice());
        let dirty = expand_symbol_fanout(&self.symbols, dirty.as_slice());
        self.diagnostics = diagnostics_incremental(&self.program, &self.symbols, &self.diagnostics, dirty.as_slice());
        let _count = self.tokens.tokens.len();
        proof {
            lemma_full_symbols_bound(self.program, self.tokens.tokens@);
        }
        Ok(self.snapshot("incremental", ins, del, stats.bytes_processed, before_diag, &t0))
    }

    fn snapshot(&self, mode: &str, ins: isize, del: isize, bytes: usize, before_diag: usize, t0: &std::time::Instant) -> (s: PipelineSnapshot)
        ensures
            s.inserted_chars == ins,
            s.deleted_chars == del,
            s.tokens_total == self.tokens.tokens@.len(),
            s.tokens_reused == self.tokens.work.items_reused,
            s.tokens_recomputed == self.tokens.work.items_recomputed,
            s.ast_total == self.program.work.items_total,
            s.ast_reused == self.program.work.items_reused,
            s.ast_recomputed == self.program.work.items_recomputed,
            s.symbols_total == self.symbols.work.items_total,
            s.symbols_reused == self.symbols.work.items_reused,
            s.symbols_recomputed == self.symbols.work.items_recomputed,
            s.diagnostics_total == self.diagnostics.work.items_total,
            s.diagnostics_reused == self.diagnostics.work.items_reused,
            s.diagnostics_recomputed == self.diagnostics.work.items_recomputed,
            s.diagnostics_before == before_diag,
            s.diagnostics_after == self.diagnostics.items@.len(),
            s.bytes_processed == sum_capped((bytes + self.tokens.work.bytes_processed + self.program.work.bytes_processed) as nat),
            s.source_len == utf8(self.source@).len() as usize,
            s.mode@ == mode@,
    {
        let bytes_processed = bytes.saturating_add(self.tokens.work.bytes_processed).saturating_add(self.program.work.bytes_processed);
        let elapsed = clock_elapsed(t0);
        PipelineSnapshot {
            inserted_chars: ins as i64,
            deleted_chars: del as i64,
            tokens_total: self.tokens.tokens.len(),
            tokens_reused: self.tokens.work.items_reused,
            tokens_recomputed: self.tokens.work.items_recomputed,
            ast_total: self.program.work.items_total,
            ast_reused: self.program.work.items_reused,
            ast_recomputed: self.program.work.items_recomputed,
            symbols_total: self.symbols.work.items_total,
            symbols_reused: self.symbols.work.items_reused,
            symbols_recomputed: self.symbols.work.items_recomputed,
            diagnostics_total: self.diagnostics.work.items_total,
            diagnostics_reused: self.diagnostics.work.items_reused,
            diagnostics_recomputed: self.diagnostics.work.items_recomputed,
            diagnostics_before: before_diag,
            diagnostics_after: self.diagnostics.items.len(),
            bytes_processed,
            elapsed_nanos: duration_as_nanos(&elapsed),
            source_len: self.source.as_str().len(),
            mode: mode.to_owned(),
        }
    }
}

/// `n` if it fits a machine word, else the largest word.
pub open spec fn sum_capped(n: nat) -> usize {
    if n <= usize::MAX { n as usize } else { usize::MAX }
}

/// Ids of the statements the last parse produced anew.
fn dirty_stmt_ids(program: &Program) -> (r: Vec<u64>)
    ensures
        r@ == program.dirty_stmt_ids@,
{
    let mut r: Vec<u64> = Vec::new();
    let mut k: usize = 0;
    while k < program.dirty_stmt_ids.len()
        invariant
            k <= program.dirty_stmt_ids@.len(),
            r@ == program.dirty_stmt_ids@.take(k as int),
        decreases program.dirty_stmt_ids@.len() - k,
    {
        r.push(program.dirty_stmt_ids[k]);
        proof {
            assert(program.dirty_stmt_ids@.take(k + 1) =~= program.dirty_stmt_ids@.take(k as int).push(program.dirty_stmt_ids@[k as int]));
        }
        k = k + 1;
    }
    proof {
        assert(program.dirty_stmt_ids@.take(k as int) =~= program.dirty_stmt_ids@);
    }
    r
}

/// The dirty statements, and every statement that uses a name a dirty
/// statement defines; ascending, without repeats.
pub fn expand_symbol_fanout(symbols: &SymbolTable, dirty: &[u64]) -> (out: Vec<u64>)
    ensures
        forall|i: int, j: int| 0 <= i < j < out@.len() ==> out@[i] < out@[j],
        forall|x: u64| #[trigger] out@.contains(x) <==> (dirty@.contains(x) || exists|k: int| 0 <= k < symbols.refs@.len()
            && (#[trigger] symbols.refs@[k]).from_stmt == x
            && exists|s: int| 0 <= s < symbols.defs.symbols().len() && symbols.defs.symbols()[s].name@ == symbols.refs@[k].name@
                && dirty@.contains(symbols.defs.symbols()[s].def_stmt)),
{
    let mut out: Vec<u64> = Vec::new();
    let mut k: usize = 0;
    while k < dirty.len()
        invariant
            k <= dirty@.len(),
            forall|i: int, j: int| 0 <= i < j < out@.len() ==> out@[i] < out@[j],
            forall|x: u64| #[trigger] out@.contains(x) <==> exists|i: int| 0 <= i < k && dirty@[i] == x,
        decreases dirty@.len() - k,
    {
        insert_sorted(&mut out, dirty[k]);
        k = k + 1;
    }
    let syms = symbols.defs.values();
    let mut r: usize = 0;
    while r < symbols.refs.len()
        invariant
            r <= symbols.refs@.len(),
            syms@ == symbols.defs.symbols(),
            forall|i: int, j: int| 0 <= i < j < out@.len() ==> out@[i] < out@[j],
            forall|x: u64| #[trigger] out@.contains(x) <==> (dirty@.contains(x) || exists|k: int| 0 <= k < r
                && (#[trigger] symbols.refs@[k]).from_stmt == x
                && exists|s: int| 0 <= s < symbols.defs.symbols().len() && symbols.defs.symbols()[s].name@ == symbols.refs@[k].name@
                    && dirty@.contains(symbols.defs.symbols()[s].def_stmt)),
        decreases symbols.refs@.len() - r,
    {
        let rf = &symbols.refs[r];
        let mut hit = false;
        let mut s: usize = 0;
        while s < syms.len() && !hit
            invariant
                s <= syms@.len(),
                syms@ == symbols.defs.symbols(),
                rf == symbols.refs@[r as int],
                hit ==> exists|t: int| 0 <= t < symbols.defs.symbols().len() && symbols.defs.symbols()[t].name@ == rf.name@
                    && dirty@.contains(symbols.defs.symbols()[t].def_stmt),
                !hit ==> forall|t: int| 0 <= t < s ==> !(symbols.defs.symbols()[t].name@ == rf.name@
                    && dirty@.contains(symbols.defs.symbols()[t].def_stmt)),
            decreases syms@.len() - s, (if hit { 0int } else { 1int }),
        {
            if syms[s].name == rf.name && crate::symbols::contains_u64(dirty, syms[s].def_stmt) {
                hit = true;
            } else {
                s = s + 1;
            }
        }
        let ghost before = out@;
        if hit {
            insert_sorted(&mut out, rf.from_stmt);
        }
        proof {
            assert forall|x: u64| #[trigger] out@.contains(x) <==> (dirty@.contains(x) || exists|k: int| 0 <= k < r + 1
                && (#[trigger] symbols.refs@[k]).from_stmt == x
                && exists|s: int| 0 <= s < symbols.defs.symbols().len() && symbols.defs.symbols()[s].name@ == symbols.refs@[k].name@
                    && dirty@.contains(symbols.defs.symbols()[s].def_stmt)) by {
                if !hit {
                    if exists|k: int| 0 <= k < r + 1
                        && (#[trigger] symbols.refs@[k]).from_stmt == x
                        && exists|s: int| 0 <= s < symbols.defs.symbols().len() && symbols.defs.symbols()[s].name@ == symbols.refs@[k].name@
                            && dirty@.contains(symbols.defs.symbols()[s].def_stmt) {
                        let k = choose|k: int| 0 <= k < r + 1
                            && (#[trigger] symbols.refs@[k]).from_stmt == x
                            && exists|s: int| 0 <= s < symbols.defs.symbols().len() && symbols.defs.symbols()[s].name@ == symbols.refs@[k].name@
                                && dirty@.contains(symbols.defs.symbols()[s].def_stmt);
                        if k == r {
                            let t = choose|s: int| 0 <= s < symbols.defs.symbols().len() && symbols.defs.symbols()[s].name@ == symbols.refs@[k].name@
                                && dirty@.contains(symbols.defs.symbols()[s].def_stmt);
                            assert(t < s || t >= s);
                        }
                    }
                }
            }
        }
        r = r + 1;
    }
    out
}

/// Add `x` to the ascending list `v`, unless it is there.
fn insert_sorted(v: &mut Vec<u64>, x: u64)
    requires
        forall|i: int, j: int| 0 <= i < j < old(v)@.len() ==> old(v)@[i] < old(v)@[j],
    ensures
        forall|i: int, j: int| 0 <= i < j < final(v)@.len() ==> final(v)@[i] < final(v)@[j],
        forall|y: u64| #[trigger] final(v)@.contains(y) <==> (old(v)@.contains(y) || y == x),
{
    let mut p: usize = 0;
    while p < v.len() && v[p] < x
        invariant
            p <= v@.len(),
            forall|i: int| 0 <= i < p ==> v@[i] < x,
        decreases v@.len() - p,
    {
        p = p + 1;
    }
    if p < v.len() && v[p] == x {
        return;
    }
    let ghost before = v@;
    v.insert(p, x);
    proof {
        assert forall|y: u64| #[trigger] v@.contains(y) <==> (before.contains(y) || y == x) by {
            if v@.contains(y) {
                let i = choose|i: int| 0 <= i < v@.len() && v@[i] == y;
                if i < p {
                    assert(before[i] == y);
                } else if i > p {
                    assert(before[i - 1] == y);
                }
            }
            if before.contains(y) {
                let i = choose|i: int| 0 <= i < before.len() && before[i] == y;
                if i < p {
                    assert(v@[i] == y);
                } else {
                    assert(v@[i + 1] == y);
                }
            }
            if y == x {
                assert(v@[p as int] == x);
            }
        }
    }
}

/// Two pipelines over the same source that each agree with a full
/// recomputation have the same tokens (kinds, texts, starts), the same
/// program, the same symbols and the same diagnostic keys: incremental
/// updates never give a different answer than full recomputation.
pub proof fn law_incremental_matches_full(a: LanguagePipeline, b: LanguagePipeline)
    requires
        consistent(a),
        consistent(b),
        utf8(a.source@) == utf8(b.source@),
    ensures
        a.source@ == b.source@,
        same_token_keys(a.tokens.tokens@, b.tokens.tokens@),
        same_program(a.program, b.program),
        same_symbols(a.symbols, b.symbols),
        same_diagnostics(a.diagnostics, b.diagnostics),
{
    encode_utf8_decode_utf8(a.source@);
    encode_utf8_decode_utf8(b.source@);
    let text = a.source@;
    let sc = lexed(text);
    assert(same_token_keys(a.tokens.tokens@, b.tokens.tokens@)) by {
        assert forall|k: int| 0 <= k < a.tokens.tokens@.len() implies {
            &&& (#[trigger] a.tokens.tokens@[k]).kind == b.tokens.tokens@[k].kind
            &&& a.tokens.tokens@[k].lexeme@ == b.tokens.tokens@[k].lexeme@
            &&& a.tokens.tokens@[k].start == b.tokens.tokens@[k].start
        } by {
            assert(b.tokens.tokens@[k].kind == sc[k].0);
        }
    }
    law_parse_respects_token_keys(a.tokens.tokens@, b.tokens.tokens@);
    law_symbols_follow_shape(a.program, b.program);
    law_diagnostics_follow_symbols(a.program, a.symbols, b.program, b.symbols);
}

} // verus!
