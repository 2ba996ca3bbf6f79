//! One workload run twice: recomputed in full after every edit, and updated
//! incrementally. The incremental run never disagrees with the full oracle.

use vstd::prelude::*;
use vstd::utf8::*;
use crate::delta::{apply_op, lemma_models_len_index, net_counts, models, utf8, zero_stats, DeltaModel};
use crate::error::Error;
use crate::pipeline::{
    consistent, law_incremental_matches_full, lemma_takes_edit_applicable, sum_capped, LanguagePipeline,
    PipelineSnapshot,
};
use crate::budget::{plain_edit, within_budget};
use crate::text::owned;
use crate::timing::{clock_elapsed, clock_now, duration_as_nanos};
use crate::workload::Workload;

verus! {

broadcast use {vstd::utf8::group_utf8_lib, vstd::string::group_string_axioms};

/// The bytes of `bytes` after the edits of `ops` in turn, as long as each
/// applies.
pub open spec fn replayed(bytes: Seq<u8>, ops: Seq<DeltaModel>) -> Seq<u8>
    decreases ops.len(),
{
    if ops.len() == 0 {
        bytes
    } else {
        apply_op(replayed(bytes, ops.drop_last()), ops.last(), zero_stats()).bytes
    }
}

/// An edit that the pipeline takes on a text of these bytes, and that
/// applies to it.
pub open spec fn runs(b: Seq<u8>, d: DeltaModel) -> bool {
    &&& plain_edit(d)
    &&& within_budget(b.len(), d)
    &&& apply_op(b, d, zero_stats()).fault is None
}

/// Every edit of `ops`, applied in turn from `start`, is taken and applies.
pub open spec fn runs_through(start: Seq<u8>, ops: Seq<DeltaModel>) -> bool {
    forall|k: int| 0 <= k < ops.len() ==> #[trigger] runs(replayed(start, ops.take(k)), ops[k])
}

/// `a + b`, or the counter's maximum when that does not fit.
pub open spec fn sat_add(a: usize, b: usize) -> usize {
    if a + b <= usize::MAX { (a + b) as usize } else { usize::MAX }
}

/// The bytes a full run processes: for each edit, the bytes the edit itself
/// touched plus a full lex and a full parse of the text after it (capped),
/// summed with saturation.
pub open spec fn full_run_bytes(start: Seq<u8>, ops: Seq<DeltaModel>) -> usize
    decreases ops.len(),
{
    if ops.len() == 0 {
        0
    } else {
        let out = apply_op(replayed(start, ops.drop_last()), ops.last(), zero_stats());
        sat_add(
            full_run_bytes(start, ops.drop_last()),
            sum_capped((out.stats.processed + 2 * (out.bytes.len() as usize)) as nat),
        )
    }
}

/// The processed bytes of the reports `snaps`, summed with saturation.
pub open spec fn snapshot_bytes(snaps: Seq<PipelineSnapshot>) -> usize
    decreases snaps.len(),
{
    if snaps.len() == 0 {
        0
    } else {
        sat_add(snapshot_bytes(snaps.drop_last()), snaps.last().bytes_processed)
    }
}

/// `snaps` are the reports of the incremental edits `ops`, one for each in
/// turn: `total` sums their processed bytes and `last` is the last of them.
pub open spec fn incremental_reports(ops: Seq<DeltaModel>, snaps: Seq<PipelineSnapshot>, total: usize, last: Option<PipelineSnapshot>) -> bool {
    &&& snaps.len() == ops.len()
    &&& total == snapshot_bytes(snaps)
    &&& last == (if snaps.len() > 0 { Some(snaps.last()) } else { None })
    &&& forall|k: int| 0 <= k < snaps.len() ==> {
        &&& (#[trigger] snaps[k]).mode@ == "incremental"@
        &&& snaps[k].inserted_chars == net_counts(ops[k]).0
        &&& snaps[k].deleted_chars == net_counts(ops[k]).1
    }
}

/// Some reports of the incremental edits `ops` account for `total` and `last`.
pub open spec fn incremental_explained(ops: Seq<DeltaModel>, total: usize, last: Option<PipelineSnapshot>) -> bool {
    exists|snaps: Seq<PipelineSnapshot>| #[trigger] incremental_reports(ops, snaps, total, last)
}

/// The message of an incremental run that disagrees with the full one.
pub open spec fn msg_oracle_mismatch() -> Seq<char> {
    "incremental result != full oracle"@
}

/// The message of an initial text the pipeline does not read.
pub open spec fn msg_not_ascii() -> Seq<char> {
    "the language pipeline reads ASCII text only"@
}

/// Both runs of one workload.
pub struct CompareRuns {
    /// Recomputed in full after every edit.
    pub full: LanguagePipeline,
    /// Updated incrementally after every edit.
    pub incremental: LanguagePipeline,
    /// Bytes the full run processed, summed over the edits.
    pub full_bytes: usize,
    /// Bytes the incremental run processed, summed over the edits.
    pub incremental_bytes: usize,
    pub full_nanos: u128,
    pub incremental_nanos: u128,
    /// The counters of the last incremental edit, if there was one.
    pub last_incremental: Option<PipelineSnapshot>,
    /// The runs agree: same source, tokens, program, symbols and
    /// diagnostics.
    pub correct: bool,
}

/// Run the workload's edits in full and incrementally, each from its
/// initial text, and compare the two results. The initial text must be
/// ASCII and every edit one the pipeline takes; an edit that does not apply
/// stops the comparison with its error.
pub fn compare_runs(workload: &Workload) -> (r: Result<CompareRuns, Error>)
    ensures
        !is_ascii_chars(workload.initial@) ==> (r matches Err(Error::Unsupported(m)) && m@ == msg_not_ascii()),
        r matches Ok(c) ==> {
            &&& c.correct
            &&& c.full.source@ == c.incremental.source@
            &&& utf8(c.full.source@) == replayed(utf8(workload.initial@), models(workload.deltas@))
        },
        r matches Err(e) ==> !(e matches Error::Computation(m) && m@ == msg_oracle_mismatch()),
        is_ascii_chars(workload.initial@) ==> (r is Ok <==> runs_through(utf8(workload.initial@), models(workload.deltas@))),
        r matches Ok(c) ==> c.full_bytes == full_run_bytes(utf8(workload.initial@), models(workload.deltas@)),
        r matches Ok(c) ==> (c.last_incremental is Some <==> workload.deltas@.len() > 0),
        r matches Ok(c) ==> incremental_explained(models(workload.deltas@), c.incremental_bytes, c.last_incremental),
        r matches Ok(c) ==> (c.last_incremental matches Some(snap) ==> {
            let d = workload.deltas@.last();
            &&& snap.mode@ == "incremental"@
            &&& snap.inserted_chars == net_counts(d@).0
            &&& snap.deleted_chars == net_counts(d@).1
            &&& snap.tokens_total == c.incremental.tokens.tokens@.len()
            &&& snap.ast_total == c.incremental.program.work.items_total
            &&& snap.symbols_total == c.incremental.symbols.work.items_total
            &&& snap.diagnostics_total == c.incremental.diagnostics.work.items_total
            &&& snap.diagnostics_after == c.incremental.diagnostics.items@.len()
            &&& snap.source_len == utf8(c.incremental.source@).len() as usize
        }),
{
    if !workload.initial.as_str().is_ascii() {
        return Err(Error::Unsupported(owned("the language pipeline reads ASCII text only")));
    }
    let ghost ops = models(workload.deltas@);
    proof {
        lemma_models_len_index(workload.deltas@);
    }
    let mut full_pipe = LanguagePipeline::from_text(workload.initial.as_str());
    let mut inc_pipe = LanguagePipeline::from_text(workload.initial.as_str());
    let ghost start = utf8(workload.initial@);

    let t_full = clock_now();
    let mut full_bytes: usize = 0;
    let mut k: usize = 0;
    proof {
        assert(ops.take(0) =~= Seq::<DeltaModel>::empty());
    }
    while k < workload.deltas.len()
        invariant
            k <= workload.deltas@.len(),
            ops == models(workload.deltas@),
            ops.len() == workload.deltas@.len(),
            forall|j: int| 0 <= j < ops.len() ==> #[trigger] ops[j] == workload.deltas@[j]@,
            consistent(full_pipe),
            start == utf8(workload.initial@),
            is_ascii_chars(workload.initial@),
            utf8(full_pipe.source@) == replayed(start, ops.take(k as int)),
            forall|j: int| 0 <= j < k ==> #[trigger] runs(replayed(start, ops.take(j)), ops[j]),
            full_bytes == full_run_bytes(start, ops.take(k as int)),
        decreases workload.deltas@.len() - k,
    {
        let d = &workload.deltas[k];
        proof {
            assert(is_ascii_chars(full_pipe.source@));
            assert(ops[k as int] == d@);
        }
        if !full_pipe.takes(d) {
            proof {
                assert(!runs(replayed(start, ops.take(k as int)), ops[k as int]));
            }
            return Err(Error::InvalidDelta(owned(
                "edit refused: the language pipeline takes ASCII edits whose sizes fit machine words",
            )));
        }
        proof {
            lemma_takes_edit_applicable(full_pipe, *d);
            assert(ops.take(k + 1).drop_last() =~= ops.take(k as int));
            assert(ops.take(k + 1).last() == d@);
        }
        let ghost before = full_pipe;
        let applied = full_pipe.apply_full(d);
        let snap = match applied {
            Ok(snap) => snap,
            Err(e) => {
                proof {
                    assert(!runs(replayed(start, ops.take(k as int)), ops[k as int]));
                }
                return Err(e);
            },
        };
        proof {
            let out = apply_op(utf8(before.source@), d@, zero_stats());
            assert(full_pipe.source@.len() == utf8(full_pipe.source@).len());
            assert(out.bytes == utf8(full_pipe.source@));
            assert(runs(replayed(start, ops.take(k as int)), ops[k as int]));
            assert(full_run_bytes(start, ops.take(k + 1)) == sat_add(
                full_run_bytes(start, ops.take(k as int)),
                sum_capped((out.stats.processed + 2 * (out.bytes.len() as usize)) as nat),
            ));
        }
        full_bytes = full_bytes.saturating_add(snap.bytes_processed);
        k = k + 1;
    }
    proof {
        assert(ops.take(ops.len() as int) =~= ops);
    }
    let full_nanos = duration_as_nanos(&clock_elapsed(&t_full));

    let t_inc = clock_now();
    let mut inc_bytes: usize = 0;
    let mut last: Option<PipelineSnapshot> = None;
    let mut k: usize = 0;
    let ghost mut snaps: Seq<PipelineSnapshot> = Seq::empty();
    while k < workload.deltas.len()
        invariant
            k <= workload.deltas@.len(),
            incremental_reports(ops.take(k as int), snaps, inc_bytes, last),
            ops == models(workload.deltas@),
            ops.len() == workload.deltas@.len(),
            forall|j: int| 0 <= j < ops.len() ==> #[trigger] ops[j] == workload.deltas@[j]@,
            consistent(inc_pipe),
            start == utf8(workload.initial@),
            is_ascii_chars(workload.initial@),
            utf8(inc_pipe.source@) == replayed(start, ops.take(k as int)),
            runs_through(start, ops),
            full_bytes == full_run_bytes(start, ops),
            k > 0 <==> last is Some,
            last matches Some(snap) ==> {
                let d = workload.deltas@[k - 1];
                &&& snap.mode@ == "incremental"@
                &&& snap.inserted_chars == net_counts(d@).0
                &&& snap.deleted_chars == net_counts(d@).1
                &&& snap.tokens_total == inc_pipe.tokens.tokens@.len()
                &&& snap.ast_total == inc_pipe.program.work.items_total
                &&& snap.symbols_total == inc_pipe.symbols.work.items_total
                &&& snap.diagnostics_total == inc_pipe.diagnostics.work.items_total
                &&& snap.diagnostics_after == inc_pipe.diagnostics.items@.len()
                &&& snap.source_len == utf8(inc_pipe.source@).len() as usize
            },
        decreases workload.deltas@.len() - k,
    {
        let d = &workload.deltas[k];
        proof {
            assert(ops[k as int] == d@);
            assert(runs(replayed(start, ops.take(k as int)), ops[k as int]));
        }
        if !inc_pipe.takes(d) {
            return Err(Error::InvalidDelta(owned(
                "edit refused: the language pipeline takes ASCII edits whose sizes fit machine words",
            )));
        }
        proof {
            lemma_takes_edit_applicable(inc_pipe, *d);
            assert(ops.take(k + 1).drop_last() =~= ops.take(k as int));
            assert(ops.take(k + 1).last() == d@);
        }
        let snap = inc_pipe.apply_incremental(d)?;
        let ghost snaps0 = snaps;
        inc_bytes = inc_bytes.saturating_add(snap.bytes_processed);
        proof {
            snaps = snaps.push(snap);
            assert(snaps.drop_last() =~= snaps0);
            assert forall|j: int| 0 <= j < snaps.len() implies {
                &&& (#[trigger] snaps[j]).mode@ == "incremental"@
                &&& snaps[j].inserted_chars == net_counts(ops.take(k + 1)[j]).0
                &&& snaps[j].deleted_chars == net_counts(ops.take(k + 1)[j]).1
            } by {
                if j < k {
                    assert(snaps[j] == snaps0[j]);
                    assert(ops.take(k + 1)[j] == ops.take(k as int)[j]);
                }
            }
        }
        last = Some(snap);
        k = k + 1;
    }
    let inc_nanos = duration_as_nanos(&clock_elapsed(&t_inc));

    proof {
        assert(ops.take(ops.len() as int) =~= ops);
        law_incremental_matches_full(inc_pipe, full_pipe);
        assert(incremental_reports(ops, snaps, inc_bytes, last));
    }
    let correct = inc_pipe.source == full_pipe.source && inc_pipe.tokens.semantic_eq(&full_pipe.tokens)
        && inc_pipe.program.semantic_eq(&full_pipe.program) && inc_pipe.symbols.semantic_eq(&full_pipe.symbols)
        && inc_pipe.diagnostics.semantic_eq(&full_pipe.diagnostics);
    if !correct {
        return Err(Error::Computation(owned("incremental result != full oracle")));
    }
    Ok(CompareRuns {
        full: full_pipe,
        incremental: inc_pipe,
        full_bytes,
        incremental_bytes: inc_bytes,
        full_nanos,
        incremental_nanos: inc_nanos,
        last_incremental: last,
        correct,
    })
}

} // verus!
