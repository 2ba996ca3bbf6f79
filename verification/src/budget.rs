//! A bound under which applying an edit keeps every length and counter in
//! a machine word: the text never grows past its length plus the bytes the
//! edit inserts, and each leaf operation moves at most that many bytes.

use vstd::prelude::*;
use crate::delta::{
    apply_all, apply_op, inserts_ascii, inserts_ascii_all, lemma_models_len_index, models, splice, utf8,
    zero_stats, Delta, DeltaModel, StatsModel,
};

verus! {

/// The leaf operations of a delta: every operation that is not a composite.
pub open spec fn leaf_ops(d: DeltaModel) -> nat
    decreases d,
{
    match d {
        DeltaModel::Composite { ops } => leaf_ops_all(ops),
        _ => 1,
    }
}

pub open spec fn leaf_ops_all(ops: Seq<DeltaModel>) -> nat
    decreases ops,
{
    if ops.len() == 0 {
        0
    } else {
        leaf_ops(ops[0]) + leaf_ops_all(ops.drop_first())
    }
}

/// The UTF-8 bytes a delta inserts.
pub open spec fn ins_bytes(d: DeltaModel) -> nat
    decreases d,
{
    match d {
        DeltaModel::Insert { text, .. } => utf8(text).len(),
        DeltaModel::Replace { text, .. } => utf8(text).len(),
        DeltaModel::Composite { ops } => ins_bytes_all(ops),
        _ => 0,
    }
}

pub open spec fn ins_bytes_all(ops: Seq<DeltaModel>) -> nat
    decreases ops,
{
    if ops.len() == 0 {
        0
    } else {
        ins_bytes(ops[0]) + ins_bytes_all(ops.drop_first())
    }
}

/// Applying `d` to a text of `len` bytes stays within machine words: the
/// text plus everything inserted fits, and so do that many bytes moved by
/// each leaf operation.
pub open spec fn within_budget(len: nat, d: DeltaModel) -> bool {
    let m = len + ins_bytes(d);
    &&& m <= usize::MAX
    &&& leaf_ops(d) <= usize::MAX
    &&& leaf_ops(d) * m <= usize::MAX
}

/// Counters that start from `st` and grow by at most what `d` can add.
pub open spec fn room_for(st: StatsModel, leaves: nat, ins: nat, m: nat) -> bool {
    &&& st.inserted >= 0 && st.deleted >= 0 && st.processed >= 0 && st.ops >= 0
    &&& st.inserted + ins <= usize::MAX
    &&& st.deleted + leaves * m <= usize::MAX
    &&& st.processed + leaves * m <= usize::MAX
    &&& st.ops + leaves <= usize::MAX
}

/// The counters of `after` grew from `st` by at most what `d` can add.
pub open spec fn grew_within(after: StatsModel, st: StatsModel, leaves: nat, ins: nat, m: nat) -> bool {
    &&& st.inserted <= after.inserted <= st.inserted + ins
    &&& st.deleted <= after.deleted <= st.deleted + leaves * m
    &&& st.processed <= after.processed <= st.processed + leaves * m
    &&& st.ops <= after.ops <= st.ops + leaves
}

pub proof fn lemma_budget_op(bytes: Seq<u8>, d: DeltaModel, st: StatsModel, m: nat)
    requires
        bytes.len() + ins_bytes(d) <= m,
        m <= usize::MAX,
        room_for(st, leaf_ops(d), ins_bytes(d), m),
    ensures
        apply_op(bytes, d, st).fits,
        apply_op(bytes, d, st).bytes.len() <= bytes.len() + ins_bytes(d),
        grew_within(apply_op(bytes, d, st).stats, st, leaf_ops(d), ins_bytes(d), m),
    decreases d,
{
    match d {
        DeltaModel::Composite { ops } => {
            assert(leaf_ops(d) == leaf_ops_all(ops));
            assert(ins_bytes(d) == ins_bytes_all(ops));
            lemma_budget_all(bytes, ops, st, m);
            assert(apply_op(bytes, d, st) == apply_all(bytes, ops, st));
        },
        DeltaModel::Insert { offset, text } => {
            assert(leaf_ops(d) == 1);
            let l = leaf_ops(d);
            assert(l * m == m) by (nonlinear_arith)
                requires
                    l == 1,
            ;
            if crate::delta::offset_fault(bytes, offset as nat) is None {
                let r = splice(bytes, offset as nat, offset as nat, utf8(text), st);
                assert(r.bytes.len() == bytes.len() + utf8(text).len());
            }
        },
        DeltaModel::Delete { start, end } => {
            assert(leaf_ops(d) == 1);
            let l = leaf_ops(d);
            assert(l * m == m) by (nonlinear_arith)
                requires
                    l == 1,
            ;
            if crate::delta::range_fault(bytes, start as nat, end as nat) is None {
                assert(start <= end <= bytes.len());
                let r = splice(bytes, start as nat, end as nat, Seq::empty(), st);
                assert(r.bytes.len() == bytes.len() - (end - start));
            }
        },
        DeltaModel::Replace { start, end, text } => {
            assert(leaf_ops(d) == 1);
            let l = leaf_ops(d);
            assert(l * m == m) by (nonlinear_arith)
                requires
                    l == 1,
            ;
            if crate::delta::range_fault(bytes, start as nat, end as nat) is None {
                assert(start <= end <= bytes.len());
                let r = splice(bytes, start as nat, end as nat, utf8(text), st);
                assert(r.bytes.len() == bytes.len() - (end - start) + utf8(text).len());
            }
        },
        _ => {},
    }
}

pub proof fn lemma_budget_all(bytes: Seq<u8>, ops: Seq<DeltaModel>, st: StatsModel, m: nat)
    requires
        bytes.len() + ins_bytes_all(ops) <= m,
        m <= usize::MAX,
        room_for(st, leaf_ops_all(ops), ins_bytes_all(ops), m),
    ensures
        apply_all(bytes, ops, st).fits,
        apply_all(bytes, ops, st).bytes.len() <= bytes.len() + ins_bytes_all(ops),
        grew_within(apply_all(bytes, ops, st).stats, st, leaf_ops_all(ops), ins_bytes_all(ops), m),
    decreases ops,
{
    if ops.len() > 0 {
        let first = ops[0];
        let rest = ops.drop_first();
        let l0 = leaf_ops(first);
        let lr = leaf_ops_all(rest);
        assert((l0 + lr) * m == l0 * m + lr * m) by (nonlinear_arith);
        assert(l0 * m >= 0 && lr * m >= 0) by (nonlinear_arith);
        lemma_budget_op(bytes, first, st, m);
        let r = apply_op(bytes, first, st);
        if r.fault is None && r.fits {
            lemma_budget_all(r.bytes, rest, r.stats, m);
        }
    }
}

/// Within the budget, applying an edit keeps every length and counter in a
/// machine word.
pub proof fn lemma_budget_fits(bytes: Seq<u8>, d: DeltaModel)
    requires
        within_budget(bytes.len(), d),
    ensures
        apply_op(bytes, d, zero_stats()).fits,
{
    let m = bytes.len() + ins_bytes(d);
    lemma_budget_op(bytes, d, zero_stats(), m);
}

impl Delta {
    /// Leaf operations and inserted bytes, when both fit a machine word.
    fn leaves_and_bytes(&self) -> (r: Option<(usize, usize)>)
        ensures
            match r {
                Some((n, i)) => n == leaf_ops(self@) && i == ins_bytes(self@),
                None => leaf_ops(self@) > usize::MAX || ins_bytes(self@) > usize::MAX,
            },
        decreases self,
    {
        match self {
            Delta::Insert { text, .. } => Some((1, text.as_str().as_bytes().len())),
            Delta::Replace { text, .. } => Some((1, text.as_str().as_bytes().len())),
            Delta::Composite { ops } => Self::leaves_and_bytes_all(ops),
            _ => Some((1, 0)),
        }
    }

    fn leaves_and_bytes_all(ops: &Vec<Delta>) -> (r: Option<(usize, usize)>)
        ensures
            match r {
                Some((n, i)) => n == leaf_ops_all(models(ops@)) && i == ins_bytes_all(models(ops@)),
                None => leaf_ops_all(models(ops@)) > usize::MAX || ins_bytes_all(models(ops@)) > usize::MAX,
            },
        decreases ops,
    {
        let ghost all = models(ops@);
        proof {
            lemma_models_len_index(ops@);
            assert(all.subrange(0, all.len() as int) =~= all);
        }
        let mut n: usize = 0;
        let mut b: usize = 0;
        let mut i: usize = 0;
        while i < ops.len()
            invariant
                0 <= i <= ops@.len(),
                all == models(ops@),
                all.len() == ops@.len(),
                forall|k: int| 0 <= k < ops@.len() ==> #[trigger] all[k] == ops@[k]@,
                n + leaf_ops_all(all.subrange(i as int, all.len() as int)) == leaf_ops_all(all),
                b + ins_bytes_all(all.subrange(i as int, all.len() as int)) == ins_bytes_all(all),
            decreases ops@.len() - i,
        {
            let ghost rest = all.subrange(i as int, all.len() as int);
            assert(rest[0] == ops@[i as int]@);
            assert(rest.drop_first() =~= all.subrange(i + 1, all.len() as int));
            proof {
                assert(decreases_to!(ops => ops@));
                assert(decreases_to!(ops@ => ops@[i as int]));
            }
            match ops[i].leaves_and_bytes() {
                Some((dn, db)) => {
                    match (n.checked_add(dn), b.checked_add(db)) {
                        (Some(n2), Some(b2)) => {
                            n = n2;
                            b = b2;
                        },
                        _ => {
                            return None;
                        },
                    }
                },
                None => {
                    return None;
                },
            }
            i = i + 1;
        }
        assert(all.subrange(i as int, all.len() as int) =~= Seq::<DeltaModel>::empty());
        Some((n, b))
    }
}

/// Whether applying `delta` to `text` stays within the budget.
pub fn edit_within_budget(text: &str, delta: &Delta) -> (b: bool)
    ensures
        b == within_budget(utf8(text@).len(), delta@),
{
    let len = text.as_bytes().len();
    match delta.leaves_and_bytes() {
        Some((n, i)) => match len.checked_add(i) {
            Some(m) => n.checked_mul(m).is_some(),
            None => false,
        },
        None => false,
    }
}

/// Every inserted text is ASCII.
pub open spec fn plain_edit(d: DeltaModel) -> bool {
    inserts_ascii(d)
}

impl Delta {
    /// Whether every inserted text is ASCII.
    pub fn is_plain(&self) -> (b: bool)
        ensures
            b == plain_edit(self@),
        decreases self,
    {
        match self {
            Delta::Insert { text, .. } => text.as_str().is_ascii(),
            Delta::Replace { text, .. } => text.as_str().is_ascii(),
            Delta::Composite { ops } => Self::all_plain(ops),
            _ => true,
        }
    }

    fn all_plain(ops: &Vec<Delta>) -> (b: bool)
        ensures
            b == inserts_ascii_all(models(ops@)),
        decreases ops,
    {
        let ghost all = models(ops@);
        proof {
            lemma_models_len_index(ops@);
            assert(all.subrange(0, all.len() as int) =~= all);
        }
        let mut i: usize = 0;
        while i < ops.len()
            invariant
                0 <= i <= ops@.len(),
                all == models(ops@),
                all.len() == ops@.len(),
                forall|k: int| 0 <= k < ops@.len() ==> #[trigger] all[k] == ops@[k]@,
                inserts_ascii_all(all) == inserts_ascii_all(all.subrange(i as int, all.len() as int)),
            decreases ops@.len() - i,
        {
            let ghost rest = all.subrange(i as int, all.len() as int);
            assert(rest[0] == ops@[i as int]@);
            assert(rest.drop_first() =~= all.subrange(i + 1, all.len() as int));
            proof {
                assert(decreases_to!(ops => ops@));
                assert(decreases_to!(ops@ => ops@[i as int]));
            }
            if !ops[i].is_plain() {
                return false;
            }
            i = i + 1;
        }
        assert(all.subrange(i as int, all.len() as int) =~= Seq::<DeltaModel>::empty());
        true
    }
}

} // verus!
