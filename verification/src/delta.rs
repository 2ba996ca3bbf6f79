use vstd::prelude::*;
use vstd::utf8::*;
use crate::error::Error;
use crate::range::{ByteRange, range_length_message, range_order_message};
use crate::text::{append_decimal, append_str, decimal, owned};

verus! {

broadcast use {vstd::utf8::group_utf8_lib, vstd::string::group_string_axioms};

/// The UTF-8 bytes of a character sequence.
pub open spec fn utf8(s: Seq<char>) -> Seq<u8> {
    encode_utf8(s)
}

/// Encoding distributes over concatenation.
pub proof fn lemma_utf8_concat(a: Seq<char>, b: Seq<char>)
    ensures
        utf8(a + b) == utf8(a) + utf8(b),
    decreases a.len(),
{
    if a.len() == 0 {
        assert(a + b =~= b);
        assert(utf8(a) =~= Seq::<u8>::empty());
        assert(utf8(a) + utf8(b) =~= utf8(b));
    } else {
        lemma_utf8_concat(a.drop_first(), b);
        assert((a + b).drop_first() =~= a.drop_first() + b);
        assert((a + b)[0] == a[0]);
        assert(encode_scalar(a[0] as u32) + (utf8(a.drop_first()) + utf8(b)) =~= (encode_scalar(
            a[0] as u32,
        ) + utf8(a.drop_first())) + utf8(b));
    }
}

/// A state transformation: `old + delta = new`.
///
/// Text operations are the first concrete kind. `Custom` lets other domains
/// carry their own payload. `Move` is reserved and is refused when applied.
#[derive(Debug)]
pub enum Delta {
    Insert { offset: usize, text: String },
    Delete { start: usize, end: usize },
    Replace { start: usize, end: usize, text: String },
    Move { from_start: usize, from_end: usize, to: usize },
    Composite { ops: Vec<Delta> },
    Custom { domain: String, payload: String },
}

/// The mathematical value of a [`Delta`]: texts as character sequences.
pub enum DeltaModel {
    Insert { offset: usize, text: Seq<char> },
    Delete { start: usize, end: usize },
    Replace { start: usize, end: usize, text: Seq<char> },
    Move { from_start: usize, from_end: usize, to: usize },
    Composite { ops: Seq<DeltaModel> },
    Custom { domain: Seq<char>, payload: Seq<char> },
}

/// The models of a sequence of deltas.
pub open spec fn models(ops: Seq<Delta>) -> Seq<DeltaModel>
    decreases ops,
{
    if ops.len() == 0 {
        Seq::empty()
    } else {
        seq![ops[0]@] + models(ops.drop_first())
    }
}

impl View for Delta {
    type V = DeltaModel;

    open spec fn view(&self) -> DeltaModel
        decreases self,
    {
        match self {
            Delta::Insert { offset, text } => DeltaModel::Insert { offset: *offset, text: text@ },
            Delta::Delete { start, end } => DeltaModel::Delete { start: *start, end: *end },
            Delta::Replace { start, end, text } => DeltaModel::Replace {
                start: *start,
                end: *end,
                text: text@,
            },
            Delta::Move { from_start, from_end, to } => DeltaModel::Move {
                from_start: *from_start,
                from_end: *from_end,
                to: *to,
            },
            Delta::Composite { ops } => DeltaModel::Composite { ops: models(ops@) },
            Delta::Custom { domain, payload } => DeltaModel::Custom {
                domain: domain@,
                payload: payload@,
            },
        }
    }
}

pub proof fn lemma_models_len_index(ops: Seq<Delta>)
    ensures
        models(ops).len() == ops.len(),
        forall|i: int| 0 <= i < ops.len() ==> #[trigger] models(ops)[i] == ops[i]@,
    decreases ops.len(),
{
    if ops.len() > 0 {
        let rest = ops.drop_first();
        lemma_models_len_index(rest);
        assert(models(ops) == seq![ops[0]@] + models(rest));
        assert forall|i: int| 0 <= i < ops.len() implies #[trigger] models(ops)[i] == ops[i]@ by {
            if i > 0 {
                assert(rest[i - 1] == ops[i]);
                assert(models(ops)[i] == models(rest)[i - 1]);
            }
        }
    }
}

/// Whether a delta changes nothing.
pub open spec fn delta_is_empty(d: DeltaModel) -> bool
    decreases d,
{
    match d {
        DeltaModel::Insert { text, .. } => text.len() == 0,
        DeltaModel::Delete { start, end } => start == end,
        DeltaModel::Replace { start, end, text } => start == end && text.len() == 0,
        DeltaModel::Composite { ops } => all_empty(ops),
        DeltaModel::Move { from_start, from_end, .. } => from_start == from_end,
        DeltaModel::Custom { payload, .. } => payload.len() == 0,
    }
}

/// Whether every delta of a sequence changes nothing.
pub open spec fn all_empty(ops: Seq<DeltaModel>) -> bool
    decreases ops,
{
    if ops.len() == 0 {
        true
    } else {
        delta_is_empty(ops[0]) && all_empty(ops.drop_first())
    }
}

/// The span a delete or replace reports: its end minus its start, each
/// taken as a signed machine word and subtracted with wrapping, and never
/// below zero.
pub open spec fn span_word(start: usize, end: usize) -> isize {
    let d = vstd::wrapping::isize_specs::wrapping_sub(end as isize, start as isize);
    if d > 0 { d } else { 0 }
}

/// Characters a delta inserts and the span it deletes, as signed machine
/// words; over a composite, summed left to right with wrapping.
pub open spec fn net_counts(d: DeltaModel) -> (isize, isize)
    decreases d,
{
    match d {
        DeltaModel::Insert { text, .. } => ((text.len() as usize) as isize, 0),
        DeltaModel::Delete { start, end } => (0, span_word(start, end)),
        DeltaModel::Replace { start, end, text } => ((text.len() as usize) as isize, span_word(start, end)),
        DeltaModel::Composite { ops } => net_counts_all(ops),
        _ => (0, 0),
    }
}

pub open spec fn net_counts_all(ops: Seq<DeltaModel>) -> (isize, isize)
    decreases ops,
{
    if ops.len() == 0 {
        (0, 0)
    } else {
        let acc = net_counts_all(ops.drop_last());
        let here = net_counts(ops.last());
        (
            vstd::wrapping::isize_specs::wrapping_add(acc.0, here.0),
            vstd::wrapping::isize_specs::wrapping_add(acc.1, here.1),
        )
    }
}

/// Counters of an apply, as integers.
pub struct StatsModel {
    pub inserted: int,
    pub deleted: int,
    pub processed: int,
    pub ops: int,
}

/// Why an apply stopped.
pub enum Fault {
    Invalid(Seq<char>),
    Unsupported(Seq<char>),
}

/// What applying a delta to some bytes leads to: the bytes at the end (or at
/// the point where it stopped), the counters, the fault if one stopped it, and
/// whether every length and counter on the way fit a machine word.
pub struct Outcome {
    pub bytes: Seq<u8>,
    pub stats: StatsModel,
    pub fault: Option<Fault>,
    pub fits: bool,
}

/// An error value that reports a fault.
pub open spec fn reports(e: Error, f: Fault) -> bool {
    match f {
        Fault::Invalid(m) => e.is_invalid_delta(m),
        Fault::Unsupported(m) => e.is_unsupported(m),
    }
}

pub open spec fn msg_offset_exceeds(off: nat, len: nat) -> Seq<char> {
    "offset "@ + decimal(off) + " exceeds length "@ + decimal(len)
}

pub open spec fn msg_not_boundary(off: nat) -> Seq<char> {
    "offset "@ + decimal(off) + " is not a UTF-8 char boundary"@
}

pub open spec fn msg_move() -> Seq<char> {
    "Move is reserved and not applied in this preview"@
}

pub open spec fn msg_custom(domain: Seq<char>) -> Seq<char> {
    "custom delta domain '"@ + domain + "' has no core applicator"@
}

/// The fault of an offset past the end or inside a character, if any.
pub open spec fn offset_fault(bytes: Seq<u8>, off: nat) -> Option<Fault> {
    if off > bytes.len() {
        Some(Fault::Invalid(msg_offset_exceeds(off, bytes.len())))
    } else if !is_char_boundary(bytes, off as int) {
        Some(Fault::Invalid(msg_not_boundary(off)))
    } else {
        None
    }
}

/// The fault of a range `[start, end)`, checked as the applier does: order,
/// length, then both ends on character boundaries.
pub open spec fn range_fault(bytes: Seq<u8>, start: nat, end: nat) -> Option<Fault> {
    if start > end {
        Some(Fault::Invalid(range_order_message(start, end)))
    } else if end > bytes.len() {
        Some(Fault::Invalid(range_length_message(start, end, bytes.len())))
    } else if offset_fault(bytes, start) is Some {
        offset_fault(bytes, start)
    } else {
        offset_fault(bytes, end)
    }
}

pub open spec fn stats_fit(st: StatsModel) -> bool {
    &&& st.inserted <= usize::MAX
    &&& st.deleted <= usize::MAX
    &&& st.processed <= usize::MAX
    &&& st.ops <= usize::MAX
}

pub open spec fn stopped(bytes: Seq<u8>, st: StatsModel, f: Fault) -> Outcome {
    Outcome { bytes, stats: st, fault: Some(f), fits: true }
}

/// Replace the bytes `[start, end)` with `ins`, counting as the applier does.
pub open spec fn splice(bytes: Seq<u8>, start: nat, end: nat, ins: Seq<u8>, st: StatsModel) -> Outcome {
    let new_bytes = bytes.subrange(0, start as int) + ins + bytes.subrange(end as int, bytes.len() as int);
    let d = end - start;
    let tail = bytes.len() - end;
    let st2 = StatsModel {
        inserted: st.inserted + ins.len(),
        deleted: st.deleted + d,
        processed: st.processed + tail + d + ins.len(),
        ops: st.ops + 1,
    };
    Outcome { bytes: new_bytes, stats: st2, fault: None, fits: new_bytes.len() <= usize::MAX && stats_fit(st2) }
}

/// Applying one delta to UTF-8 bytes.
pub open spec fn apply_op(bytes: Seq<u8>, d: DeltaModel, st: StatsModel) -> Outcome
    decreases d,
{
    match d {
        DeltaModel::Insert { offset, text } => {
            if bytes.len() > usize::MAX {
                Outcome { bytes, stats: st, fault: None, fits: false }
            } else if offset_fault(bytes, offset as nat) is Some {
                stopped(bytes, st, offset_fault(bytes, offset as nat).unwrap())
            } else {
                splice(bytes, offset as nat, offset as nat, utf8(text), st)
            }
        },
        DeltaModel::Delete { start, end } => {
            if bytes.len() > usize::MAX {
                Outcome { bytes, stats: st, fault: None, fits: false }
            } else if range_fault(bytes, start as nat, end as nat) is Some {
                stopped(bytes, st, range_fault(bytes, start as nat, end as nat).unwrap())
            } else {
                splice(bytes, start as nat, end as nat, Seq::empty(), st)
            }
        },
        DeltaModel::Replace { start, end, text } => {
            if bytes.len() > usize::MAX {
                Outcome { bytes, stats: st, fault: None, fits: false }
            } else if range_fault(bytes, start as nat, end as nat) is Some {
                stopped(bytes, st, range_fault(bytes, start as nat, end as nat).unwrap())
            } else {
                splice(bytes, start as nat, end as nat, utf8(text), st)
            }
        },
        DeltaModel::Move { .. } => stopped(bytes, st, Fault::Unsupported(msg_move())),
        DeltaModel::Custom { domain, .. } => stopped(bytes, st, Fault::Unsupported(msg_custom(domain))),
        DeltaModel::Composite { ops } => apply_all(bytes, ops, st),
    }
}

/// Applying deltas one after the other, each in the coordinates left by the
/// previous one, stopping at the first fault.
pub open spec fn apply_all(bytes: Seq<u8>, ops: Seq<DeltaModel>, st: StatsModel) -> Outcome
    decreases ops,
{
    if ops.len() == 0 {
        Outcome { bytes, stats: st, fault: None, fits: true }
    } else {
        let r = apply_op(bytes, ops[0], st);
        if r.fault is Some || !r.fits {
            r
        } else {
            apply_all(r.bytes, ops.drop_first(), r.stats)
        }
    }
}

/// An empty delta changes nothing: where it applies, the text is what it was.
pub proof fn law_empty_delta_changes_nothing(bytes: Seq<u8>, d: DeltaModel, st: StatsModel)
    requires
        delta_is_empty(d),
        apply_op(bytes, d, st).fault is None,
    ensures
        apply_op(bytes, d, st).bytes == bytes,
    decreases d,
{
    match d {
        DeltaModel::Composite { ops } => {
            lemma_all_empty_changes_nothing(bytes, ops, st);
        },
        DeltaModel::Insert { offset, text } => {
            assert(text =~= Seq::<char>::empty());
            assert(utf8(text) =~= Seq::<u8>::empty());
            assert(bytes.subrange(0, offset as int) + utf8(text) + bytes.subrange(offset as int, bytes.len() as int) =~= bytes);
        },
        DeltaModel::Delete { start, end } => {
            assert(bytes.subrange(0, start as int) + Seq::<u8>::empty() + bytes.subrange(end as int, bytes.len() as int) =~= bytes);
        },
        DeltaModel::Replace { start, end, text } => {
            assert(text =~= Seq::<char>::empty());
            assert(utf8(text) =~= Seq::<u8>::empty());
            assert(bytes.subrange(0, start as int) + utf8(text) + bytes.subrange(end as int, bytes.len() as int) =~= bytes);
        },
        _ => {},
    }
}

proof fn lemma_all_empty_changes_nothing(bytes: Seq<u8>, ops: Seq<DeltaModel>, st: StatsModel)
    requires
        all_empty(ops),
        apply_all(bytes, ops, st).fault is None,
    ensures
        apply_all(bytes, ops, st).bytes == bytes,
    decreases ops,
{
    if ops.len() > 0 {
        let r = apply_op(bytes, ops[0], st);
        if r.fault is None {
            law_empty_delta_changes_nothing(bytes, ops[0], st);
            if r.fits {
                lemma_all_empty_changes_nothing(r.bytes, ops.drop_first(), r.stats);
            }
        }
    }
}

pub open spec fn zero_stats() -> StatsModel {
    StatsModel { inserted: 0, deleted: 0, processed: 0, ops: 0 }
}

/// Counters of one apply.
#[derive(Clone, Copy, Debug, Default, PartialEq, Eq, Structural)]
pub struct ApplyStats {
    pub inserted_bytes: usize,
    pub deleted_bytes: usize,
    pub bytes_processed: usize,
    pub ops: usize,
}

impl View for ApplyStats {
    type V = StatsModel;

    open spec fn view(&self) -> StatsModel {
        StatsModel {
            inserted: self.inserted_bytes as int,
            deleted: self.deleted_bytes as int,
            processed: self.bytes_processed as int,
            ops: self.ops as int,
        }
    }
}

fn offset_message_exceeds(off: usize, len: usize) -> (m: String)
    ensures
        m@ == msg_offset_exceeds(off as nat, len as nat),
{
    let mut m = owned("offset ");
    append_decimal(&mut m, off as u128);
    append_str(&mut m, " exceeds length ");
    append_decimal(&mut m, len as u128);
    assert(m@ =~= msg_offset_exceeds(off as nat, len as nat));
    m
}

fn offset_message_boundary(off: usize) -> (m: String)
    ensures
        m@ == msg_not_boundary(off as nat),
{
    let mut m = owned("offset ");
    append_decimal(&mut m, off as u128);
    append_str(&mut m, " is not a UTF-8 char boundary");
    assert(m@ =~= msg_not_boundary(off as nat));
    m
}

fn validate_offset(buf: &str, offset: usize) -> (r: Result<(), Error>)
    requires
        utf8(buf@).len() <= usize::MAX,
    ensures
        r is Ok <==> offset_fault(utf8(buf@), offset as nat) is None,
        r matches Err(e) ==> reports(e, offset_fault(utf8(buf@), offset as nat).unwrap()),
{
    let len = buf.len();
    if offset > len {
        return Err(Error::InvalidDelta(offset_message_exceeds(offset, len)));
    }
    if !buf.is_char_boundary(offset) {
        return Err(Error::InvalidDelta(offset_message_boundary(offset)));
    }
    Ok(())
}

fn validate_range(buf: &str, start: usize, end: usize) -> (r: Result<(), Error>)
    requires
        utf8(buf@).len() <= usize::MAX,
    ensures
        r is Ok <==> range_fault(utf8(buf@), start as nat, end as nat) is None,
        r matches Err(e) ==> reports(e, range_fault(utf8(buf@), start as nat, end as nat).unwrap()),
{
    let range = ByteRange::new(start, end)?;
    range.validate_against(buf.len())?;
    validate_offset(buf, start)?;
    validate_offset(buf, end)?;
    Ok(())
}

/// Replace bytes `[start, end)` of `buf` with `text`.
fn splice_string(buf: &mut String, start: usize, end: usize, text: &str)
    requires
        start <= end <= utf8(old(buf)@).len(),
        is_char_boundary(utf8(old(buf)@), start as int),
        is_char_boundary(utf8(old(buf)@), end as int),
    ensures
        utf8(final(buf)@) == utf8(old(buf)@).subrange(0, start as int) + utf8(text@)
            + utf8(old(buf)@).subrange(end as int, utf8(old(buf)@).len() as int),
{
    let out;
    {
        let s: &str = buf.as_str();
        let (a, _) = s.split_at(start);
        let (_, c) = s.split_at(end);
        let mut o = a.to_owned();
        o.append(text);
        o.append(c);
        proof {
            lemma_utf8_concat(a@, text@);
            lemma_utf8_concat(a@ + text@, c@);
        }
        out = o;
    }
    *buf = out;
}

proof fn lemma_outcome_bytes_valid(bytes: Seq<u8>, d: DeltaModel, st: StatsModel)
    requires
        valid_utf8(bytes),
    ensures
        valid_utf8(apply_op(bytes, d, st).bytes),
    decreases d,
{
    match d {
        DeltaModel::Composite { ops } => lemma_outcome_all_valid(bytes, ops, st),
        DeltaModel::Insert { offset, text } => {
            if bytes.len() <= usize::MAX && offset_fault(bytes, offset as nat) is None {
                lemma_splice_valid(bytes, offset as nat, offset as nat, utf8(text));
            }
        },
        DeltaModel::Delete { start, end } => {
            if bytes.len() <= usize::MAX && range_fault(bytes, start as nat, end as nat) is None {
                lemma_splice_valid(bytes, start as nat, end as nat, Seq::empty());
            }
        },
        DeltaModel::Replace { start, end, text } => {
            if bytes.len() <= usize::MAX && range_fault(bytes, start as nat, end as nat) is None {
                lemma_splice_valid(bytes, start as nat, end as nat, utf8(text));
            }
        },
        _ => {},
    }
}

proof fn lemma_outcome_all_valid(bytes: Seq<u8>, ops: Seq<DeltaModel>, st: StatsModel)
    requires
        valid_utf8(bytes),
    ensures
        valid_utf8(apply_all(bytes, ops, st).bytes),
    decreases ops,
{
    if ops.len() > 0 {
        lemma_outcome_bytes_valid(bytes, ops[0], st);
        let r = apply_op(bytes, ops[0], st);
        lemma_outcome_all_valid(r.bytes, ops.drop_first(), r.stats);
    }
}

proof fn lemma_splice_valid(bytes: Seq<u8>, start: nat, end: nat, ins: Seq<u8>)
    requires
        valid_utf8(bytes),
        valid_utf8(ins),
        start <= end <= bytes.len(),
        is_char_boundary(bytes, start as int),
        is_char_boundary(bytes, end as int),
    ensures
        valid_utf8(bytes.subrange(0, start as int) + ins + bytes.subrange(end as int, bytes.len() as int)),
{
    valid_utf8_split(bytes, start as int);
    valid_utf8_split(bytes, end as int);
    valid_utf8_concat(bytes.subrange(0, start as int), ins);
    valid_utf8_concat(bytes.subrange(0, start as int) + ins, bytes.subrange(end as int, bytes.len() as int));
}

fn apply_inner(buf: &mut String, delta: &Delta, stats: &mut ApplyStats) -> (r: Result<(), Error>)
    requires
        apply_op(utf8(old(buf)@), delta@, old(stats)@).fits,
    ensures
        utf8(final(buf)@) == apply_op(utf8(old(buf)@), delta@, old(stats)@).bytes,
        final(stats)@ == apply_op(utf8(old(buf)@), delta@, old(stats)@).stats,
        r is Ok <==> apply_op(utf8(old(buf)@), delta@, old(stats)@).fault is None,
        r matches Err(e) ==> reports(e, apply_op(utf8(old(buf)@), delta@, old(stats)@).fault.unwrap()),
    decreases delta,
{
    let ghost b0 = utf8(buf@);
    match delta {
        Delta::Insert { offset, text } => {
            validate_offset(buf.as_str(), *offset)?;
            let len = buf.as_str().len();
            let tlen = text.as_str().len();
            let tail = len - *offset;
            splice_string(buf, *offset, *offset, text.as_str());
            stats.inserted_bytes = stats.inserted_bytes + tlen;
            stats.bytes_processed = stats.bytes_processed + tail + tlen;
            stats.ops = stats.ops + 1;
            assert(b0.subrange(*offset as int, *offset as int) =~= Seq::<u8>::empty());
            assert(utf8(buf@) =~= apply_op(b0, delta@, old(stats)@).bytes);
            Ok(())
        },
        Delta::Delete { start, end } => {
            validate_range(buf.as_str(), *start, *end)?;
            let len = buf.as_str().len();
            let deleted = *end - *start;
            let tail = len - *end;
            let empty = "";
            proof {
                reveal_strlit("");
            }
            splice_string(buf, *start, *end, empty);
            stats.deleted_bytes = stats.deleted_bytes + deleted;
            stats.bytes_processed = stats.bytes_processed + tail + deleted;
            stats.ops = stats.ops + 1;
            assert(utf8(empty@) =~= Seq::<u8>::empty());
            assert(utf8(buf@) =~= apply_op(b0, delta@, old(stats)@).bytes);
            Ok(())
        },
        Delta::Replace { start, end, text } => {
            validate_range(buf.as_str(), *start, *end)?;
            let len = buf.as_str().len();
            let tlen = text.as_str().len();
            let deleted = *end - *start;
            let tail = len - *end;
            splice_string(buf, *start, *end, text.as_str());
            stats.inserted_bytes = stats.inserted_bytes + tlen;
            stats.deleted_bytes = stats.deleted_bytes + deleted;
            stats.bytes_processed = stats.bytes_processed + tail + deleted + tlen;
            stats.ops = stats.ops + 1;
            assert(utf8(buf@) =~= apply_op(b0, delta@, old(stats)@).bytes);
            Ok(())
        },
        Delta::Move { .. } => {
            Err(Error::Unsupported(owned("Move is reserved and not applied in this preview")))
        },
        Delta::Custom { domain, .. } => {
            let mut m = owned("custom delta domain '");
            append_str(&mut m, domain.as_str());
            append_str(&mut m, "' has no core applicator");
            assert(m@ =~= msg_custom(domain@));
            Err(Error::Unsupported(m))
        },
        Delta::Composite { ops } => apply_seq(buf, ops, stats),
    }
}

fn apply_seq(buf: &mut String, ops: &Vec<Delta>, stats: &mut ApplyStats) -> (r: Result<(), Error>)
    requires
        apply_all(utf8(old(buf)@), models(ops@), old(stats)@).fits,
    ensures
        utf8(final(buf)@) == apply_all(utf8(old(buf)@), models(ops@), old(stats)@).bytes,
        final(stats)@ == apply_all(utf8(old(buf)@), models(ops@), old(stats)@).stats,
        r is Ok <==> apply_all(utf8(old(buf)@), models(ops@), old(stats)@).fault is None,
        r matches Err(e) ==> reports(e, apply_all(utf8(old(buf)@), models(ops@), old(stats)@).fault.unwrap()),
    decreases ops,
{
    let ghost all = models(ops@);
    let ghost s0 = stats@;
    let ghost b0 = utf8(buf@);
    proof {
        lemma_models_len_index(ops@);
    }
    let mut i: usize = 0;
    assert(all.subrange(0, all.len() as int) =~= all);
    while i < ops.len()
        invariant
            0 <= i <= ops@.len(),
            b0 == utf8(old(buf)@),
            s0 == old(stats)@,
            all == models(ops@),
            all.len() == ops@.len(),
            forall|k: int| 0 <= k < ops@.len() ==> #[trigger] all[k] == ops@[k]@,
            apply_all(utf8(buf@), all.subrange(i as int, all.len() as int), stats@)
                == apply_all(b0, all, s0),
            apply_all(b0, all, s0).fits,
        decreases ops@.len() - i,
    {
        let ghost rest = all.subrange(i as int, all.len() as int);
        let ghost bb = utf8(buf@);
        let ghost ss = stats@;
        assert(rest[0] == ops@[i as int]@);
        assert(rest.drop_first() =~= all.subrange(i + 1, all.len() as int));
        let op = &ops[i];
        proof {
            assert(decreases_to!(ops => ops@));
            assert(decreases_to!(ops@ => ops@[i as int]));
        }
        let r = apply_inner(buf, op, stats);
        if r.is_err() {
            assert(apply_op(bb, op@, ss).fault is Some);
            assert(apply_all(bb, rest, ss) == apply_op(bb, op@, ss));
            assert(utf8(buf@) == apply_all(b0, all, s0).bytes);
            return r;
        }
        i = i + 1;
    }
    assert(all.subrange(i as int, all.len() as int) =~= Seq::<DeltaModel>::empty());
    Ok(())
}

/// Apply a delta, building a new string (full-rebuild style).
///
/// `Ok` exactly when no offset lies past the text or inside a character, no
/// range is reversed or past the text, and no `Move` or `Custom` is met; the
/// result is then the bytes of [`apply_op`]. Every length and counter must fit
/// a machine word.
pub fn apply_delta(input: &str, delta: &Delta) -> (r: Result<(String, ApplyStats), Error>)
    requires
        apply_op(utf8(input@), delta@, zero_stats()).fits,
    ensures
        r is Ok <==> apply_op(utf8(input@), delta@, zero_stats()).fault is None,
        r matches Ok((s, st)) ==> utf8(s@) == apply_op(utf8(input@), delta@, zero_stats()).bytes
            && st@ == apply_op(utf8(input@), delta@, zero_stats()).stats,
        r matches Err(e) ==> reports(e, apply_op(utf8(input@), delta@, zero_stats()).fault.unwrap()),
{
    let mut out = input.to_owned();
    let stats = apply_delta_mut(&mut out, delta)?;
    Ok((out, stats))
}

/// Apply a delta in place. On a fault the buffer keeps the operations of a
/// composite that were applied before it.
pub fn apply_delta_mut(buf: &mut String, delta: &Delta) -> (r: Result<ApplyStats, Error>)
    requires
        apply_op(utf8(old(buf)@), delta@, zero_stats()).fits,
    ensures
        utf8(final(buf)@) == apply_op(utf8(old(buf)@), delta@, zero_stats()).bytes,
        r is Ok <==> apply_op(utf8(old(buf)@), delta@, zero_stats()).fault is None,
        r matches Ok(st) ==> st@ == apply_op(utf8(old(buf)@), delta@, zero_stats()).stats,
        r matches Err(e) ==> reports(e, apply_op(utf8(old(buf)@), delta@, zero_stats()).fault.unwrap()),
{
    let mut stats = ApplyStats { inserted_bytes: 0, deleted_bytes: 0, bytes_processed: 0, ops: 0 };
    apply_inner(buf, delta, &mut stats)?;
    Ok(stats)
}


pub proof fn lemma_models_push(ops: Seq<Delta>, d: Delta)
    ensures
        models(ops.push(d)) == models(ops).push(d@),
{
    lemma_models_len_index(ops);
    lemma_models_len_index(ops.push(d));
    assert(models(ops.push(d)) =~= models(ops).push(d@));
}

/// The model of `x.then(y)`: `y` appended to a composite `x`, else a
/// composite of the two.
pub open spec fn then_model(x: DeltaModel, y: DeltaModel) -> DeltaModel {
    match x {
        DeltaModel::Composite { ops } => DeltaModel::Composite { ops: ops.push(y) },
        _ => DeltaModel::Composite { ops: seq![x, y] },
    }
}

/// What applying `x` and then `y` leads to, stopping at the first fault.
pub open spec fn in_sequence(bytes: Seq<u8>, x: DeltaModel, y: DeltaModel, st: StatsModel) -> Outcome {
    let r = apply_op(bytes, x, st);
    if r.fault is Some || !r.fits {
        r
    } else {
        apply_op(r.bytes, y, r.stats)
    }
}

proof fn lemma_apply_single(bytes: Seq<u8>, y: DeltaModel, st: StatsModel)
    ensures
        apply_all(bytes, seq![y], st) == apply_op(bytes, y, st),
{
    let r = apply_op(bytes, y, st);
    assert(seq![y].drop_first() =~= Seq::<DeltaModel>::empty());
    assert(seq![y][0] == y);
    if !(r.fault is Some || !r.fits) {
        assert(apply_all(r.bytes, Seq::<DeltaModel>::empty(), r.stats) == r);
    }
}

proof fn lemma_apply_all_push(bytes: Seq<u8>, ops: Seq<DeltaModel>, y: DeltaModel, st: StatsModel)
    ensures
        apply_all(bytes, ops.push(y), st) == ({
            let r = apply_all(bytes, ops, st);
            if r.fault is Some || !r.fits {
                r
            } else {
                apply_op(r.bytes, y, r.stats)
            }
        }),
    decreases ops.len(),
{
    if ops.len() == 0 {
        assert(ops.push(y) =~= seq![y]);
        lemma_apply_single(bytes, y, st);
    } else {
        assert(ops.push(y)[0] == ops[0]);
        assert(ops.push(y).drop_first() =~= ops.drop_first().push(y));
        let r = apply_op(bytes, ops[0], st);
        if !(r.fault is Some || !r.fits) {
            lemma_apply_all_push(r.bytes, ops.drop_first(), y, r.stats);
        }
    }
}

/// `x.then(y)` applies `x`, then `y` in the coordinates `x` left.
pub proof fn law_then_applies_in_sequence(bytes: Seq<u8>, x: DeltaModel, y: DeltaModel, st: StatsModel)
    ensures
        apply_op(bytes, then_model(x, y), st) == in_sequence(bytes, x, y, st),
{
    match x {
        DeltaModel::Composite { ops } => {
            lemma_apply_all_push(bytes, ops, y, st);
        },
        _ => {
            let xs = seq![x, y];
            assert(xs[0] == x);
            assert(xs.drop_first() =~= seq![y]);
            let r = apply_op(bytes, x, st);
            if !(r.fault is Some || !r.fits) {
                lemma_apply_single(r.bytes, y, r.stats);
            }
        },
    }
}

proof fn lemma_first_byte_not_continuation(s: Seq<u8>)
    requires
        valid_utf8(s),
        s.len() > 0,
    ensures
        !is_continuation_byte(s[0]),
{
    is_char_boundary_iff_not_is_continuation_byte(s, 0);
}

/// Inserting a text and then deleting the bytes just inserted gives back the
/// text it started from.
pub proof fn law_insert_then_delete_restores(text: Seq<char>, ins: Seq<char>, off: usize, st: StatsModel)
    requires
        utf8(text).len() + utf8(ins).len() <= usize::MAX,
        off <= utf8(text).len(),
        is_char_boundary(utf8(text), off as int),
    ensures
        ({
            let n = utf8(ins).len();
            let r1 = apply_op(utf8(text), DeltaModel::Insert { offset: off, text: ins }, st);
            let r2 = apply_op(
                r1.bytes,
                DeltaModel::Delete { start: off, end: (off + n) as usize },
                r1.stats,
            );
            &&& r1.fault is None
            &&& r2.fault is None
            &&& r2.bytes == utf8(text)
        }),
{
    let b = utf8(text);
    let i = utf8(ins);
    let n = i.len();
    encode_utf8_valid_utf8(text);
    encode_utf8_valid_utf8(ins);
    lemma_splice_valid(b, off as nat, off as nat, i);
    let nb = b.subrange(0, off as int) + i + b.subrange(off as int, b.len() as int);
    assert(nb.len() == b.len() + n);
    is_char_boundary_start_end_of_seq(nb);
    if off < nb.len() {
        if n > 0 {
            lemma_first_byte_not_continuation(i);
            assert(nb[off as int] == i[0]);
        } else {
            is_char_boundary_iff_not_is_continuation_byte(b, off as int);
            assert(nb[off as int] == b[off as int]);
        }
        is_char_boundary_iff_not_is_continuation_byte(nb, off as int);
    }
    if off + n < nb.len() {
        is_char_boundary_iff_not_is_continuation_byte(b, off as int);
        assert(nb[off + n] == b[off as int]);
        is_char_boundary_iff_not_is_continuation_byte(nb, off + n);
    }
    assert(nb.subrange(0, off as int) + Seq::<u8>::empty() + nb.subrange(off + n, nb.len() as int) =~= b);
}

/// `end - start` as signed words, wrapping, and never below zero.
fn span_of(start: usize, end: usize) -> (d: isize)
    ensures
        d == span_word(start, end),
{
    let d = (end as isize).wrapping_sub(start as isize);
    if d > 0 { d } else { 0 }
}

impl Delta {
    pub fn insert(offset: usize, text: &str) -> (d: Delta)
        ensures
            d@ == (DeltaModel::Insert { offset, text: text@ }),
    {
        Delta::Insert { offset, text: text.to_owned() }
    }

    pub fn delete(start: usize, end: usize) -> (d: Delta)
        ensures
            d@ == (DeltaModel::Delete { start, end }),
    {
        Delta::Delete { start, end }
    }

    pub fn replace(start: usize, end: usize, text: &str) -> (d: Delta)
        ensures
            d@ == (DeltaModel::Replace { start, end, text: text@ }),
    {
        Delta::Replace { start, end, text: text.to_owned() }
    }

    pub fn composite(ops: Vec<Delta>) -> (d: Delta)
        ensures
            d@ == (DeltaModel::Composite { ops: models(ops@) }),
    {
        Delta::Composite { ops }
    }

    pub fn delete_range(range: ByteRange) -> (d: Delta)
        ensures
            d@ == (DeltaModel::Delete { start: range.start, end: range.end }),
    {
        Delta::Delete { start: range.start, end: range.end }
    }

    /// Sequential composition: `next` is in coordinates after `self`.
    pub fn then(self, next: Delta) -> (d: Delta)
        ensures
            d@ == then_model(self@, next@),
    {
        match self {
            Delta::Composite { mut ops } => {
                proof {
                    lemma_models_push(ops@, next);
                }
                ops.push(next);
                Delta::Composite { ops }
            },
            other => {
                let ghost x = other@;
                let mut ops: Vec<Delta> = Vec::new();
                ops.push(other);
                ops.push(next);
                proof {
                    lemma_models_len_index(ops@);
                    assert(models(ops@) =~= seq![x, next@]);
                }
                Delta::Composite { ops }
            },
        }
    }

    /// Whether applying this delta changes nothing.
    pub fn is_empty(&self) -> (b: bool)
        ensures
            b == delta_is_empty(self@),
        decreases self,
    {
        match self {
            Delta::Insert { text, .. } => text.as_str().is_empty(),
            Delta::Delete { start, end } => *start == *end,
            Delta::Replace { start, end, text } => *start == *end && text.as_str().is_empty(),
            Delta::Composite { ops } => Self::all_empty_ops(ops),
            Delta::Move { from_start, from_end, .. } => *from_start == *from_end,
            Delta::Custom { payload, .. } => payload.as_str().is_empty(),
        }
    }

    fn all_empty_ops(ops: &Vec<Delta>) -> (b: bool)
        ensures
            b == all_empty(models(ops@)),
        decreases ops,
    {
        let ghost all = models(ops@);
        proof {
            lemma_models_len_index(ops@);
        }
        let mut i: usize = 0;
        assert(all.subrange(0, all.len() as int) =~= all);
        while i < ops.len()
            invariant
                0 <= i <= ops@.len(),
                all == models(ops@),
                all.len() == ops@.len(),
                forall|k: int| 0 <= k < ops@.len() ==> #[trigger] all[k] == ops@[k]@,
                all_empty(all) == all_empty(all.subrange(i as int, all.len() as int)),
            decreases ops@.len() - i,
        {
            let ghost rest = all.subrange(i as int, all.len() as int);
            assert(rest[0] == ops@[i as int]@);
            assert(rest.drop_first() =~= all.subrange(i + 1, all.len() as int));
            proof {
                assert(decreases_to!(ops => ops@));
                assert(decreases_to!(ops@ => ops@[i as int]));
            }
            if !ops[i].is_empty() {
                return false;
            }
            i = i + 1;
        }
        assert(all.subrange(i as int, all.len() as int) =~= Seq::<DeltaModel>::empty());
        true
    }

    /// Characters inserted and byte offsets deleted, summed over a composite
    /// (signed machine words, wrapping past their range).
    pub fn net_char_delta(&self) -> (r: (isize, isize))
        ensures
            r == net_counts(self@),
        decreases self,
    {
        match self {
            Delta::Insert { text, .. } => (text.as_str().unicode_len() as isize, 0),
            Delta::Delete { start, end } => (0, span_of(*start, *end)),
            Delta::Replace { start, end, text } => (text.as_str().unicode_len() as isize, span_of(*start, *end)),
            Delta::Composite { ops } => Self::net_all(ops),
            Delta::Move { .. } | Delta::Custom { .. } => (0, 0),
        }
    }

    fn net_all(ops: &Vec<Delta>) -> (r: (isize, isize))
        ensures
            r == net_counts_all(models(ops@)),
        decreases ops,
    {
        let ghost all = models(ops@);
        proof {
            lemma_models_len_index(ops@);
            assert(all.take(0) =~= Seq::<DeltaModel>::empty());
        }
        let mut ins: isize = 0;
        let mut del: isize = 0;
        let mut i: usize = 0;
        while i < ops.len()
            invariant
                0 <= i <= ops@.len(),
                all == models(ops@),
                all.len() == ops@.len(),
                forall|k: int| 0 <= k < ops@.len() ==> #[trigger] all[k] == ops@[k]@,
                (ins, del) == net_counts_all(all.take(i as int)),
            decreases ops@.len() - i,
        {
            proof {
                assert(decreases_to!(ops => ops@));
                assert(decreases_to!(ops@ => ops@[i as int]));
                assert(all.take(i + 1).drop_last() =~= all.take(i as int));
                assert(all.take(i + 1).last() == ops@[i as int]@);
            }
            let (a, b) = ops[i].net_char_delta();
            ins = ins.wrapping_add(a);
            del = del.wrapping_add(b);
            i = i + 1;
        }
        proof {
            assert(all.take(all.len() as int) =~= all);
        }
        (ins, del)
    }

    /// A copy of this delta.
    pub fn duplicate(&self) -> (d: Delta)
        ensures
            d@ == self@,
        decreases self,
    {
        match self {
            Delta::Insert { offset, text } => Delta::Insert { offset: *offset, text: text.clone() },
            Delta::Delete { start, end } => Delta::Delete { start: *start, end: *end },
            Delta::Replace { start, end, text } => Delta::Replace {
                start: *start,
                end: *end,
                text: text.clone(),
            },
            Delta::Move { from_start, from_end, to } => Delta::Move {
                from_start: *from_start,
                from_end: *from_end,
                to: *to,
            },
            Delta::Composite { ops } => Delta::Composite { ops: Self::duplicate_all(ops) },
            Delta::Custom { domain, payload } => Delta::Custom {
                domain: domain.clone(),
                payload: payload.clone(),
            },
        }
    }

    fn duplicate_all(ops: &Vec<Delta>) -> (r: Vec<Delta>)
        ensures
            models(r@) == models(ops@),
        decreases ops,
    {
        let mut out: Vec<Delta> = Vec::new();
        let mut i: usize = 0;
        proof {
            lemma_models_len_index(ops@);
        }
        while i < ops.len()
            invariant
                0 <= i <= ops@.len(),
                models(out@) == models(ops@).subrange(0, i as int),
                models(ops@).len() == ops@.len(),
                forall|k: int| 0 <= k < ops@.len() ==> #[trigger] models(ops@)[k] == ops@[k]@,
            decreases ops@.len() - i,
        {
            proof {
                assert(decreases_to!(ops => ops@));
                assert(decreases_to!(ops@ => ops@[i as int]));
            }
            let d = ops[i].duplicate();
            proof {
                lemma_models_push(out@, d);
                assert(models(ops@).subrange(0, i + 1) =~= models(ops@).subrange(0, i as int).push(d@));
            }
            out.push(d);
            i = i + 1;
        }
        assert(models(ops@).subrange(0, i as int) =~= models(ops@));
        out
    }
}

impl Clone for Delta {
    fn clone(&self) -> (d: Delta)
        ensures
            d@ == self@,
    {
        self.duplicate()
    }
}


/// Every byte is below 128.
pub open spec fn ascii_bytes(b: Seq<u8>) -> bool {
    forall|i: int| 0 <= i < b.len() ==> b[i] < 128
}

/// Every text a delta inserts is ASCII.
pub open spec fn inserts_ascii(d: DeltaModel) -> bool
    decreases d,
{
    match d {
        DeltaModel::Insert { text, .. } => is_ascii_chars(text),
        DeltaModel::Replace { text, .. } => is_ascii_chars(text),
        DeltaModel::Composite { ops } => inserts_ascii_all(ops),
        _ => true,
    }
}

pub open spec fn inserts_ascii_all(ops: Seq<DeltaModel>) -> bool
    decreases ops,
{
    if ops.len() == 0 {
        true
    } else {
        inserts_ascii(ops[0]) && inserts_ascii_all(ops.drop_first())
    }
}

pub proof fn lemma_ascii_to_bytes(s: Seq<char>)
    requires
        is_ascii_chars(s),
    ensures
        ascii_bytes(utf8(s)),
{
    is_ascii_chars_encode_utf8(s);
    is_ascii_chars_nat_bound(s);
    assert forall|i: int| 0 <= i < utf8(s).len() implies utf8(s)[i] < 128 by {
        assert(s[i] as u8 == utf8(s)[i]);
        assert((s[i] as nat) < 128);
    }
}

proof fn lemma_char_ascii(ch: char)
    requires
        (ch as u32) <= 0x7F,
    ensures
        '\0' <= ch <= '\u{7f}',
{
    let u = ch as u32;
    assert(('\u{7f}' as u32) == 0x7F);
    assert((ch as u32) <= ('\u{7f}' as u32));
}

/// Text whose UTF-8 bytes are all below 128 is ASCII.
pub proof fn lemma_ascii_from_bytes(s: Seq<char>)
    requires
        ascii_bytes(utf8(s)),
    ensures
        is_ascii_chars(s),
    decreases s.len(),
{
    if s.len() > 0 {
        let c = s[0] as u32;
        let head = encode_scalar(c);
        assert(utf8(s) == head + utf8(s.drop_first()));
        assert(head.len() >= 1);
        assert(utf8(s)[0] == head[0]);
        if !has_width_1_encoding(c) {
            let b = head[0];
            if has_width_2_encoding(c) {
                let x = ((c >> 6) & 0x1F) as u8;
                assert(0xC0u8 | x >= 128) by (bit_vector);
            } else if has_width_3_encoding(c) {
                let x = ((c >> 12) & 0x0F) as u8;
                assert(0xE0u8 | x >= 128) by (bit_vector);
            } else {
                let x = ((c >> 18) & 0x7) as u8;
                assert(0xF0u8 | x >= 128) by (bit_vector);
            }
            assert(b >= 128);
        }
        let rest = s.drop_first();
        assert forall|i: int| 0 <= i < utf8(rest).len() implies utf8(rest)[i] < 128 by {
            assert(utf8(s)[head.len() + i] == utf8(rest)[i]);
        }
        lemma_ascii_from_bytes(rest);
        assert(has_width_1_encoding(c));
        assert(c <= 0x7F);
        lemma_char_ascii(s[0]);
        assert forall|i: int| 0 <= i < s.len() implies '\0' <= #[trigger] s[i] <= '\u{7f}' by {
            if i > 0 {
                assert(s[i] == rest[i - 1]);
                assert('\0' <= rest[i - 1] <= '\u{7f}');
            } else {
                assert(c <= 0x7F);
                assert((s[0] as u32) <= 0x7F);
            }
        }
    }
}

proof fn lemma_splice_ascii(bytes: Seq<u8>, start: nat, end: nat, ins: Seq<u8>, st: StatsModel)
    requires
        ascii_bytes(bytes),
        ascii_bytes(ins),
        start <= end <= bytes.len(),
    ensures
        ascii_bytes(splice(bytes, start, end, ins, st).bytes),
{
    let nb = splice(bytes, start, end, ins, st).bytes;
    let a = bytes.subrange(0, start as int);
    let c = bytes.subrange(end as int, bytes.len() as int);
    assert(nb == a + ins + c);
    assert forall|i: int| 0 <= i < nb.len() implies nb[i] < 128 by {
        if i < a.len() {
            assert(nb[i] == bytes[i]);
        } else if i < a.len() + ins.len() {
            assert(nb[i] == ins[i - a.len()]);
        } else {
            assert(nb[i] == bytes[end + (i - a.len() - ins.len())]);
        }
    }
}

/// Every offset within ASCII text is a character boundary.
pub proof fn lemma_ascii_boundary(b: Seq<u8>, i: int)
    requires
        ascii_bytes(b),
        valid_utf8(b),
        0 <= i <= b.len(),
    ensures
        is_char_boundary(b, i),
        offset_fault(b, i as nat) is None,
{
    if i == b.len() {
        is_char_boundary_start_end_of_seq(b);
    } else {
        is_char_boundary_iff_is_leading_byte(b, i);
        assert(b[i] < 128);
    }
}

/// Inserting ASCII text within ASCII text applies, and leaves ASCII text
/// that much longer.
pub proof fn lemma_ascii_insert_applies(b: Seq<u8>, off: nat, text: Seq<char>, st: StatsModel)
    requires
        ascii_bytes(b),
        valid_utf8(b),
        off <= b.len(),
        is_ascii_chars(text),
    ensures
        apply_op(b, DeltaModel::Insert { offset: off as usize, text }, st).fault is None,
        apply_op(b, DeltaModel::Insert { offset: off as usize, text }, st).fits ==> {
            let out = apply_op(b, DeltaModel::Insert { offset: off as usize, text }, st).bytes;
            &&& ascii_bytes(out)
            &&& valid_utf8(out)
            &&& out.len() == b.len() + text.len()
        },
{
    let d = DeltaModel::Insert { offset: off as usize, text };
    if b.len() <= usize::MAX {
        assert(off as usize as nat == off);
        lemma_ascii_boundary(b, off as int);
        is_ascii_chars_encode_utf8(text);
        lemma_splice_valid(b, off, off, utf8(text));
        lemma_apply_keeps_ascii(b, d, st);
    }
}

/// A range within ASCII text can be deleted, or replaced with ASCII text.
pub proof fn lemma_ascii_range_applies(b: Seq<u8>, start: nat, end: nat, text: Seq<char>, st: StatsModel)
    requires
        ascii_bytes(b),
        valid_utf8(b),
        start <= end <= b.len(),
    ensures
        apply_op(b, DeltaModel::Delete { start: start as usize, end: end as usize }, st).fault is None,
        apply_op(b, DeltaModel::Replace { start: start as usize, end: end as usize, text }, st).fault is None,
{
    if b.len() <= usize::MAX {
        assert(start as usize as nat == start);
        assert(end as usize as nat == end);
        lemma_ascii_boundary(b, start as int);
        lemma_ascii_boundary(b, end as int);
    }
}

/// Applying a delta that inserts only ASCII to ASCII bytes gives ASCII bytes.
pub proof fn lemma_apply_keeps_ascii(bytes: Seq<u8>, d: DeltaModel, st: StatsModel)
    requires
        ascii_bytes(bytes),
        inserts_ascii(d),
    ensures
        ascii_bytes(apply_op(bytes, d, st).bytes),
    decreases d,
{
    match d {
        DeltaModel::Insert { offset, text } => {
            if bytes.len() <= usize::MAX && offset_fault(bytes, offset as nat) is None {
                lemma_ascii_to_bytes(text);
                lemma_splice_ascii(bytes, offset as nat, offset as nat, utf8(text), st);
            }
        },
        DeltaModel::Delete { start, end } => {
            if bytes.len() <= usize::MAX && range_fault(bytes, start as nat, end as nat) is None {
                lemma_splice_ascii(bytes, start as nat, end as nat, Seq::empty(), st);
            }
        },
        DeltaModel::Replace { start, end, text } => {
            if bytes.len() <= usize::MAX && range_fault(bytes, start as nat, end as nat) is None {
                lemma_ascii_to_bytes(text);
                lemma_splice_ascii(bytes, start as nat, end as nat, utf8(text), st);
            }
        },
        DeltaModel::Composite { ops } => {
            lemma_apply_all_keeps_ascii(bytes, ops, st);
        },
        _ => {},
    }
}

pub proof fn lemma_apply_all_keeps_ascii(bytes: Seq<u8>, ops: Seq<DeltaModel>, st: StatsModel)
    requires
        ascii_bytes(bytes),
        inserts_ascii_all(ops),
    ensures
        ascii_bytes(apply_all(bytes, ops, st).bytes),
    decreases ops,
{
    if ops.len() > 0 {
        lemma_apply_keeps_ascii(bytes, ops[0], st);
        let r = apply_op(bytes, ops[0], st);
        if !(r.fault is Some || !r.fits) {
            lemma_apply_all_keeps_ascii(r.bytes, ops.drop_first(), r.stats);
        }
    }
}

} // verus!
