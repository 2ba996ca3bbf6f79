//! Benchmark workloads: an initial text and the edits applied to it, both
//! fully determined by a kind, a size and a seed.

use vstd::prelude::*;
use vstd::utf8::*;
use crate::defmap::compare_names;
use crate::delta::{
    apply_all, apply_op, ascii_bytes, lemma_ascii_insert_applies, lemma_ascii_range_applies, lemma_ascii_to_bytes,
    lemma_models_len_index, models, utf8, zero_stats, Delta, DeltaModel, StatsModel,
};
use crate::text::{append_decimal, append_str, decimal, lemma_decimal_ascii, owned};

verus! {

broadcast use {vstd::utf8::group_utf8_lib, vstd::string::group_string_axioms};

/// The workloads the benchmark knows.
#[derive(Clone, Copy, Debug, PartialEq, Eq, Structural)]
pub enum WorkloadKind {
    TextSmoke,
    SingleCharacter,
    SingleToken,
    SingleLine,
    FunctionBody,
    GlobalSymbol,
    LargeInsert,
    LargeDelete,
    RandomEdit,
    MassiveFanout,
    HugePaste,
}

/// The name a workload kind is written with.
pub open spec fn kind_name(k: WorkloadKind) -> Seq<char> {
    match k {
        WorkloadKind::TextSmoke => "text-smoke"@,
        WorkloadKind::SingleCharacter => "single_character"@,
        WorkloadKind::SingleToken => "single_token"@,
        WorkloadKind::SingleLine => "single_line"@,
        WorkloadKind::FunctionBody => "function_body"@,
        WorkloadKind::GlobalSymbol => "global_symbol"@,
        WorkloadKind::LargeInsert => "large_insert"@,
        WorkloadKind::LargeDelete => "large_delete"@,
        WorkloadKind::RandomEdit => "random_edit"@,
        WorkloadKind::MassiveFanout => "massive_fanout"@,
        WorkloadKind::HugePaste => "huge_paste"@,
    }
}

/// Every kind, in the order the names are listed.
pub open spec fn all_kinds() -> Seq<WorkloadKind> {
    seq![
        WorkloadKind::TextSmoke,
        WorkloadKind::SingleCharacter,
        WorkloadKind::SingleToken,
        WorkloadKind::SingleLine,
        WorkloadKind::FunctionBody,
        WorkloadKind::GlobalSymbol,
        WorkloadKind::LargeInsert,
        WorkloadKind::LargeDelete,
        WorkloadKind::RandomEdit,
        WorkloadKind::MassiveFanout,
        WorkloadKind::HugePaste,
    ]
}

impl WorkloadKind {
    pub fn as_str(self) -> (s: &'static str)
        ensures
            s@ == kind_name(self),
    {
        match self {
            WorkloadKind::TextSmoke => "text-smoke",
            WorkloadKind::SingleCharacter => "single_character",
            WorkloadKind::SingleToken => "single_token",
            WorkloadKind::SingleLine => "single_line",
            WorkloadKind::FunctionBody => "function_body",
            WorkloadKind::GlobalSymbol => "global_symbol",
            WorkloadKind::LargeInsert => "large_insert",
            WorkloadKind::LargeDelete => "large_delete",
            WorkloadKind::RandomEdit => "random_edit",
            WorkloadKind::MassiveFanout => "massive_fanout",
            WorkloadKind::HugePaste => "huge_paste",
        }
    }

    /// The kind written `name`, if any.
    pub fn parse(name: &str) -> (r: Option<WorkloadKind>)
        ensures
            r matches Some(k) ==> kind_name(k) == name@,
            r is None ==> forall|k: WorkloadKind| kind_name(k) != name@,
    {
        if compare_names(name, "text-smoke").1 {
            Some(WorkloadKind::TextSmoke)
        } else if compare_names(name, "single_character").1 {
            Some(WorkloadKind::SingleCharacter)
        } else if compare_names(name, "single_token").1 {
            Some(WorkloadKind::SingleToken)
        } else if compare_names(name, "single_line").1 {
            Some(WorkloadKind::SingleLine)
        } else if compare_names(name, "function_body").1 {
            Some(WorkloadKind::FunctionBody)
        } else if compare_names(name, "global_symbol").1 {
            Some(WorkloadKind::GlobalSymbol)
        } else if compare_names(name, "large_insert").1 {
            Some(WorkloadKind::LargeInsert)
        } else if compare_names(name, "large_delete").1 {
            Some(WorkloadKind::LargeDelete)
        } else if compare_names(name, "random_edit").1 {
            Some(WorkloadKind::RandomEdit)
        } else if compare_names(name, "massive_fanout").1 {
            Some(WorkloadKind::MassiveFanout)
        } else if compare_names(name, "huge_paste").1 {
            Some(WorkloadKind::HugePaste)
        } else {
            None
        }
    }
}

/// No two kinds share a name, so a name read back gives the kind it was
/// written from.
pub proof fn law_kind_names_distinct(a: WorkloadKind, b: WorkloadKind)
    ensures
        kind_name(a) == kind_name(b) ==> a == b,
{
    reveal_strlit("text-smoke");
    reveal_strlit("single_character");
    reveal_strlit("single_token");
    reveal_strlit("single_line");
    reveal_strlit("function_body");
    reveal_strlit("global_symbol");
    reveal_strlit("large_insert");
    reveal_strlit("large_delete");
    reveal_strlit("random_edit");
    reveal_strlit("massive_fanout");
    reveal_strlit("huge_paste");
    if kind_name(a) == kind_name(b) && a != b {
        let x = kind_name(a);
        assert(x.len() == kind_name(b).len());
        assert(x[0] == kind_name(b)[0]);
        assert(x[1] == kind_name(b)[1]);
        assert(x[x.len() - 1] == kind_name(b)[x.len() - 1]);
        assert(x[x.len() - 2] == kind_name(b)[x.len() - 2]);
        assert(x[x.len() - 3] == kind_name(b)[x.len() - 3]);
    }
}

/// The names of every kind, in a fixed order.
pub fn workload_names() -> (r: Vec<&'static str>)
    ensures
        r@.len() == all_kinds().len(),
        forall|i: int| 0 <= i < r@.len() ==> (#[trigger] r@[i])@ == kind_name(all_kinds()[i]),
{
    let mut r: Vec<&'static str> = Vec::new();
    r.push("text-smoke");
    r.push("single_character");
    r.push("single_token");
    r.push("single_line");
    r.push("function_body");
    r.push("global_symbol");
    r.push("large_insert");
    r.push("large_delete");
    r.push("random_edit");
    r.push("massive_fanout");
    r.push("huge_paste");
    r
}

/// A workload: its kind's name (twice, as name and kind), the byte length
/// of its initial text, the seed, the initial text and the edits.
#[derive(Clone, Debug)]
pub struct Workload {
    pub name: String,
    pub kind: String,
    pub size_bytes: usize,
    pub seed: u64,
    pub initial: String,
    pub deltas: Vec<Delta>,
}

/// The mathematical value of a [`Workload`].
pub struct WorkloadModel {
    pub name: Seq<char>,
    pub kind: Seq<char>,
    pub size_bytes: usize,
    pub seed: u64,
    pub initial: Seq<char>,
    pub deltas: Seq<DeltaModel>,
}

impl View for Workload {
    type V = WorkloadModel;

    open spec fn view(&self) -> WorkloadModel {
        WorkloadModel {
            name: self.name@,
            kind: self.kind@,
            size_bytes: self.size_bytes,
            seed: self.seed,
            initial: self.initial@,
            deltas: models(self.deltas@),
        }
    }
}

/// A saved workload, with the format version it was written in.
#[derive(Clone, Debug)]
pub struct ReplayFile {
    pub version: u32,
    pub workload: Workload,
}

/// An insertion of an edit.
pub open spec fn ins(offset: nat, text: Seq<char>) -> DeltaModel {
    DeltaModel::Insert { offset: offset as usize, text }
}

/// Where an edit at `kind` lands in a text of `len` bytes: the start for
/// "begin", the end for "end", else the middle.
pub open spec fn edit_offset(len: nat, kind: Seq<char>) -> nat {
    if kind == "begin"@ {
        0
    } else if kind == "end"@ {
        len
    } else {
        len / 2
    }
}

/// A one-character insertion at the start, the end or the middle of `text`.
pub fn edit_at(text: &str, kind: &str) -> (d: Delta)
    ensures
        d@ == ins(edit_offset(text.len() as nat, kind@), "x"@),
{
    if compare_names(kind, "begin").1 {
        Delta::insert(0, "x")
    } else if compare_names(kind, "end").1 {
        Delta::insert(text.len(), "x")
    } else {
        Delta::insert(text.len() / 2, "x")
    }
}

/// A value in `lo..hi` taken from `seed`, or `lo` when the range is empty.
pub open spec fn pick_spec(seed: u64, lo: nat, hi: nat) -> nat {
    if hi <= lo {
        lo
    } else {
        lo + (seed as usize) as nat % (hi - lo) as nat
    }
}

fn pick(seed: u64, lo: usize, hi: usize) -> (r: usize)
    ensures
        r == pick_spec(seed, lo as nat, hi as nat),
{
    if hi <= lo {
        return lo;
    }
    lo + (seed as usize % (hi - lo))
}

/// Ten to the power `k`.
pub open spec fn pow10(k: nat) -> nat
    decreases k,
{
    if k == 0 {
        1
    } else {
        10 * pow10((k - 1) as nat)
    }
}

proof fn lemma_decimal_len(n: nat, k: nat)
    requires
        k >= 1,
        n < pow10(k),
    ensures
        1 <= decimal(n).len() <= k,
    decreases k,
{
    if n >= 10 {
        if k == 1 {
            assert(pow10(1) == 10) by {
                reveal_with_fuel(pow10, 2);
            }
        } else {
            let p = pow10((k - 1) as nat);
            assert(n / 10 < p) by (nonlinear_arith)
                requires
                    n < 10 * p,
            ;
            lemma_decimal_len(n / 10, (k - 1) as nat);
        }
    }
}

/// A 64-bit number has at most twenty decimal digits.
proof fn lemma_decimal_u64(n: nat)
    requires
        n <= u64::MAX,
    ensures
        1 <= decimal(n).len() <= 20,
{
    assert(pow10(20) == 100000000000000000000) by {
        reveal_with_fuel(pow10, 21);
    }
    lemma_decimal_len(n, 20);
}

/// One line of the generated program: `let v<i> = <i>;` and a newline.
pub open spec fn let_line(i: nat) -> Seq<char> {
    "let v"@ + decimal(i) + " = "@ + decimal(i) + ";\n"@
}

/// The first `n` lines of the generated program.
pub open spec fn lets(n: nat) -> Seq<char>
    decreases n,
{
    if n == 0 {
        Seq::empty()
    } else {
        lets((n - 1) as nat) + let_line((n - 1) as nat)
    }
}

/// `t` written `n` times.
pub open spec fn repeat_text(t: Seq<char>, n: nat) -> Seq<char>
    decreases n,
{
    if n == 0 {
        Seq::empty()
    } else {
        repeat_text(t, (n - 1) as nat) + t
    }
}

/// A function declaration followed by `n` calls of it.
pub open spec fn calls(n: nat) -> Seq<char> {
    "fn foo() {}\n"@ + repeat_text("foo();\n"@, n)
}

/// The first count from `n` on at which the text `text(count)` has reached
/// `size` characters.
pub open spec fn reach_count(text: spec_fn(nat) -> Seq<char>, n: nat, size: nat) -> nat
    decreases size - n,
{
    if n >= size || text(n).len() >= size {
        n
    } else {
        reach_count(text, n + 1, size)
    }
}

/// As many generated lines as it takes to reach `size` characters.
pub open spec fn lets_upto(size: nat) -> Seq<char> {
    lets(reach_count(|k: nat| lets(k), 0, size))
}

/// As many calls as it takes to reach `size` characters.
pub open spec fn calls_upto(size: nat) -> Seq<char> {
    calls(reach_count(|k: nat| calls(k), 0, size))
}

proof fn lemma_let_line(i: nat)
    requires
        i <= u64::MAX,
    ensures
        12 <= let_line(i).len() <= 50,
        is_ascii_chars(let_line(i)),
{
    reveal_strlit("let v");
    reveal_strlit(" = ");
    reveal_strlit(";\n");
    lemma_decimal_u64(i);
    lemma_decimal_ascii(i);
    let l = let_line(i);
    assert forall|k: int| 0 <= k < l.len() implies '\0' <= #[trigger] l[k] <= '\u{7f}' by {
        let d = decimal(i);
        if k < 5 {
        } else if k < 5 + d.len() {
            assert(l[k] == d[k - 5]);
        } else if k < 8 + d.len() {
        } else if k < 8 + 2 * d.len() {
            assert(l[k] == d[k - 8 - d.len()]);
        }
    }
}

proof fn lemma_lets(n: nat)
    requires
        n <= u64::MAX + 1,
    ensures
        lets(n).len() >= n,
        is_ascii_chars(lets(n)),
    decreases n,
{
    if n > 0 {
        let m = (n - 1) as nat;
        lemma_lets(m);
        lemma_let_line(m);
        assert forall|k: int| 0 <= k < lets(n).len() implies '\0' <= #[trigger] lets(n)[k] <= '\u{7f}' by {
            if k < lets(m).len() {
                assert(lets(n)[k] == lets(m)[k]);
            } else {
                assert(lets(n)[k] == let_line(m)[k - lets(m).len()]);
            }
        }
    }
}

proof fn lemma_repeat_text(t: Seq<char>, n: nat)
    requires
        is_ascii_chars(t),
    ensures
        repeat_text(t, n).len() == n * t.len(),
        is_ascii_chars(repeat_text(t, n)),
    decreases n,
{
    if n > 0 {
        let m = (n - 1) as nat;
        lemma_repeat_text(t, m);
        assert(n * t.len() == m * t.len() + t.len()) by (nonlinear_arith)
            requires
                n == m + 1,
        ;
        assert forall|k: int| 0 <= k < repeat_text(t, n).len() implies '\0' <= #[trigger] repeat_text(t, n)[k] <= '\u{7f}' by {
            if k < repeat_text(t, m).len() {
                assert(repeat_text(t, n)[k] == repeat_text(t, m)[k]);
            } else {
                assert(repeat_text(t, n)[k] == t[k - repeat_text(t, m).len()]);
            }
        }
    }
}

/// As many generated lines as it takes to reach `size` bytes.
fn repeat_lets(size: usize) -> (s: String)
    requires
        size <= isize::MAX,
    ensures
        s@ == lets_upto(size as nat),
        is_ascii_chars(s@),
        s@.len() < size + 50,
{
    let mut out = String::new();
    let mut i: u64 = 0;
    let ghost text = |k: nat| lets(k);
    proof {
        assert(out@ =~= lets(0));
    }
    while out.as_str().len() < size
        invariant
            out@ == lets(i as nat),
            is_ascii_chars(out@),
            reach_count(text, i as nat, size as nat) == reach_count(text, 0, size as nat),
            i <= out@.len(),
            out@.len() < size + 50,
            size <= isize::MAX,
            text == (|k: nat| lets(k)),
        decreases size - i,
    {
        proof {
            lemma_lets(i as nat);
            lemma_let_line(i as nat);
            assert(text(i as nat) == lets(i as nat));
            is_ascii_chars_encode_utf8(out@);
            assert(out@.len() < size);
        }
        append_str(&mut out, "let v");
        append_decimal(&mut out, i as u128);
        append_str(&mut out, " = ");
        append_decimal(&mut out, i as u128);
        append_str(&mut out, ";\n");
        proof {
            assert(out@ =~= lets((i + 1) as nat));
            lemma_lets((i + 1) as nat);
        }
        i = i + 1;
    }
    proof {
        assert(text(i as nat) == lets(i as nat));
    }
    out
}

/// `t` written `n` times.
fn repeat_str(t: &str, n: usize) -> (s: String)
    ensures
        s@ == repeat_text(t@, n as nat),
{
    let mut out = String::new();
    let mut k: usize = 0;
    proof {
        assert(out@ =~= repeat_text(t@, 0));
    }
    while k < n
        invariant
            k <= n,
            out@ == repeat_text(t@, k as nat),
        decreases n - k,
    {
        append_str(&mut out, t);
        k = k + 1;
    }
    out
}

/// A declaration of `foo` and as many calls of it as it takes to reach
/// `size` bytes.
fn repeat_calls(size: usize) -> (s: String)
    requires
        size <= isize::MAX,
    ensures
        s@ == calls_upto(size as nat),
        is_ascii_chars(s@),
        s@.len() <= size + 12,
{
    let mut out = owned("fn foo() {}\n");
    let mut m: usize = 0;
    let ghost text = |k: nat| calls(k);
    proof {
        reveal_strlit("fn foo() {}\n");
        reveal_strlit("foo();\n");
        lemma_repeat_text("foo();\n"@, 0);
        assert(out@ =~= calls(0));
    }
    while out.as_str().len() < size
        invariant
            out@ == calls(m as nat),
            is_ascii_chars(out@),
            out@.len() == 12 + 7 * m,
            reach_count(text, m as nat, size as nat) == reach_count(text, 0, size as nat),
            out@.len() <= size + 12,
            size <= isize::MAX,
            text == (|k: nat| calls(k)),
        decreases size - m,
    {
        proof {
            assert(text(m as nat) == calls(m as nat));
            is_ascii_chars_encode_utf8(out@);
            assert(out@.len() < size);
        }
        append_str(&mut out, "foo();\n");
        proof {
            reveal_strlit("foo();\n");
            assert(out@ =~= calls((m + 1) as nat));
            lemma_repeat_text("foo();\n"@, (m + 1) as nat);
            reveal_strlit("fn foo() {}\n");
        }
        m = m + 1;
    }
    proof {
        assert(text(m as nat) == calls(m as nat));
    }
    out
}

/// `pat` occurs in `text` starting at `i`.
pub open spec fn occurs_at(text: Seq<char>, pat: Seq<char>, i: int) -> bool {
    0 <= i && i + pat.len() <= text.len() && text.subrange(i, i + pat.len()) == pat
}

/// Where `pat` first occurs in `text`, if anywhere.
pub open spec fn first_occurrence(text: Seq<char>, pat: Seq<char>) -> Option<nat> {
    if exists|i: int| occurs_at(text, pat, i) {
        Some(choose|i: nat| occurs_at(text, pat, i as int) && forall|j: int| 0 <= j < i ==> !occurs_at(text, pat, j))
    } else {
        None
    }
}

proof fn lemma_first_occurrence(text: Seq<char>, pat: Seq<char>, i: nat)
    requires
        occurs_at(text, pat, i as int),
        forall|j: int| 0 <= j < i ==> !occurs_at(text, pat, j),
    ensures
        first_occurrence(text, pat) == Some(i),
{
    let c = choose|c: nat| occurs_at(text, pat, c as int) && forall|j: int| 0 <= j < c ==> !occurs_at(text, pat, j);
    assert(occurs_at(text, pat, c as int));
    if c < i {
        assert(!occurs_at(text, pat, c as int));
    }
    if i < c {
        assert(!occurs_at(text, pat, i as int));
    }
}

/// The byte index of the first occurrence of `pat` in the ASCII `text`.
fn find_str(text: &str, pat: &str) -> (r: Option<usize>)
    requires
        is_ascii_chars(text@),
        pat@.len() >= 1,
    ensures
        match r {
            Some(i) => first_occurrence(text@, pat@) == Some(i as nat) && occurs_at(text@, pat@, i as int),
            None => first_occurrence(text@, pat@) is None,
        },
{
    let n = text.unicode_len();
    let m = pat.unicode_len();
    proof {
        is_ascii_chars_encode_utf8(text@);
    }
    if m > n {
        proof {
            assert forall|j: int| !occurs_at(text@, pat@, j) by {
                if j >= 0 {
                    assert(j + pat@.len() > text@.len());
                }
            }
        }
        return None;
    }
    let mut i: usize = 0;
    while i <= n - m
        invariant
            n == text@.len(),
            m == pat@.len(),
            1 <= m <= n,
            i <= n - m + 1,
            is_ascii_chars(text@),
            forall|j: int| 0 <= j < i ==> !occurs_at(text@, pat@, j),
        decreases n - m + 1 - i,
    {
        let window = text.substring_ascii(i, i + m);
        if compare_names(window, pat).1 {
            proof {
                lemma_first_occurrence(text@, pat@, i as nat);
            }
            return Some(i);
        }
        i = i + 1;
    }
    proof {
        assert forall|j: int| !occurs_at(text@, pat@, j) by {
            if j >= i {
                assert(j + pat@.len() > text@.len());
            }
        }
    }
    None
}

/// The size a workload is generated for: at least 32 bytes.
pub open spec fn min_size(size_bytes: usize) -> nat {
    if size_bytes < 32 {
        32
    } else {
        size_bytes as nat
    }
}

/// The initial text of a workload of `kind` for `size` bytes.
pub open spec fn initial_text(kind: WorkloadKind, size: nat) -> Seq<char> {
    match kind {
        WorkloadKind::TextSmoke => lets_upto(2048),
        WorkloadKind::FunctionBody => "fn foo() {\n"@ + lets_upto(size) + "\n}\n"@,
        WorkloadKind::GlobalSymbol => calls_upto(size),
        WorkloadKind::MassiveFanout => calls_upto(size),
        _ => lets_upto(size),
    }
}

/// The state of the generator after `r`.
pub open spec fn next_rng(r: u64) -> u64 {
    let m = ((r as nat * 6364136223846793005nat) % 0x1_0000_0000_0000_0000nat) as u64;
    if m + 1 > u64::MAX {
        (m + 1 - 0x1_0000_0000_0000_0000nat) as u64
    } else {
        (m + 1) as u64
    }
}

/// `k` one-character insertions at places drawn from the generator, each
/// into the text as the ones before left it.
pub open spec fn random_edits(rng: u64, cursor: nat, k: nat) -> Seq<DeltaModel>
    decreases k,
{
    if k == 0 {
        Seq::empty()
    } else {
        let r = next_rng(rng);
        let span = if cursor >= 1 { cursor } else { 1 };
        seq![ins(pick_spec(r, 0, span), "z"@)] + random_edits(r, cursor + 1, (k - 1) as nat)
    }
}

/// Where the single-token edit goes: just after the `v` of `v10`, or after
/// the middle of the text when there is no such name.
pub open spec fn token_offset(initial: Seq<char>) -> nat {
    match first_occurrence(initial, "v10"@) {
        Some(i) => i + 1,
        None => initial.len() / 2 + 1,
    }
}

/// The edits of a workload of `kind` over `initial`.
pub open spec fn workload_edits(kind: WorkloadKind, initial: Seq<char>, seed: u64) -> Seq<DeltaModel> {
    let len = initial.len();
    match kind {
        WorkloadKind::TextSmoke => seq![ins(len / 2, "x"@)],
        WorkloadKind::SingleCharacter => seq![ins(pick_spec(seed, 8, if len >= 1 { (len - 1) as nat } else { 0 }), "x"@)],
        WorkloadKind::SingleToken => seq![ins(token_offset(initial), "zz"@)],
        WorkloadKind::SingleLine => seq![ins(len / 2, "let extra = 1;\n"@)],
        WorkloadKind::FunctionBody => seq![ins(11, "let inner = 1;\n"@)],
        WorkloadKind::GlobalSymbol => seq![DeltaModel::Replace { start: 3, end: 6, text: "bar"@ }],
        WorkloadKind::MassiveFanout => seq![DeltaModel::Replace { start: 3, end: 6, text: "bar"@ }],
        WorkloadKind::LargeInsert => seq![ins(len / 2, repeat_text("let pasted = 1;\n"@, 200))],
        WorkloadKind::HugePaste => seq![ins(len / 2, repeat_text("let pasted = 1;\n"@, 200))],
        WorkloadKind::LargeDelete => seq![
            DeltaModel::Delete {
                start: (len / 4) as usize,
                end: (if len / 4 + len / 2 <= len { len / 4 + len / 2 } else { len }) as usize,
            },
        ],
        WorkloadKind::RandomEdit => random_edits(seed, len, 8),
    }
}

/// The workload of `kind` for `size_bytes` and `seed`.
pub open spec fn workload_of(kind: WorkloadKind, size_bytes: usize, seed: u64) -> WorkloadModel {
    let initial = initial_text(kind, min_size(size_bytes));
    WorkloadModel {
        name: kind_name(kind),
        kind: kind_name(kind),
        size_bytes: initial.len() as usize,
        seed,
        initial,
        deltas: workload_edits(kind, initial, seed),
    }
}

fn one_edit(d: Delta) -> (v: Vec<Delta>)
    ensures
        models(v@) == seq![d@],
{
    let v = vec![d];
    proof {
        lemma_models_len_index(v@);
        assert(models(v@) =~= seq![d@]);
    }
    v
}

fn random_edit_list(seed: u64, len: usize) -> (v: Vec<Delta>)
    requires
        len + 8 <= usize::MAX,
    ensures
        models(v@) == random_edits(seed, len as nat, 8),
{
    let mut deltas: Vec<Delta> = Vec::new();
    let mut rng = seed;
    let mut cursor_len = len;
    let mut k: usize = 0;
    proof {
        lemma_models_len_index(deltas@);
        assert(models(deltas@) + random_edits(rng, cursor_len as nat, 8) =~= random_edits(seed, len as nat, 8));
    }
    while k < 8
        invariant
            k <= 8,
            cursor_len == len + k,
            len + 8 <= usize::MAX,
            models(deltas@) + random_edits(rng, cursor_len as nat, (8 - k) as nat) == random_edits(seed, len as nat, 8),
        decreases 8 - k,
    {
        let ghost before = deltas@;
        rng = rng.wrapping_mul(6364136223846793005).wrapping_add(1);
        let span = if cursor_len >= 1 { cursor_len } else { 1 };
        let at = pick(rng, 0, span);
        let d = Delta::insert(at, "z");
        deltas.push(d);
        proof {
            lemma_models_len_index(before);
            lemma_models_len_index(deltas@);
            assert(models(deltas@) =~= models(before).push(d@));
            let rest = random_edits(rng, (cursor_len + 1) as nat, (8 - k - 1) as nat);
            assert(models(deltas@) + rest =~= models(before) + (seq![d@] + rest));
        }
        cursor_len = cursor_len + 1;
        k = k + 1;
    }
    proof {
        assert(models(deltas@) + random_edits(rng, cursor_len as nat, 0) =~= models(deltas@));
    }
    deltas
}

/// Generate the workload of `kind` for `size_bytes` (at least 32) and
/// `seed`.
pub fn generate(kind: WorkloadKind, size_bytes: usize, seed: u64) -> (w: Workload)
    requires
        size_bytes <= isize::MAX,
    ensures
        w@ == workload_of(kind, size_bytes, seed),
{
    let size = if size_bytes < 32 { 32 } else { size_bytes };
    let name = kind.as_str();
    match kind {
        WorkloadKind::TextSmoke => {
            let initial = repeat_lets(2048);
            proof {
                is_ascii_chars_encode_utf8(initial@);
            }
            let len = initial.as_str().len();
            let deltas = one_edit(Delta::insert(len / 2, "x"));
            Workload { name: name.to_owned(), kind: name.to_owned(), size_bytes: len, seed, initial, deltas }
        },
        WorkloadKind::SingleCharacter => {
            let initial = repeat_lets(size);
            proof {
                is_ascii_chars_encode_utf8(initial@);
            }
            let len = initial.as_str().len();
            let at = pick(seed, 8, len.saturating_sub(1));
            let deltas = one_edit(Delta::insert(at, "x"));
            Workload { name: name.to_owned(), kind: name.to_owned(), size_bytes: len, seed, initial, deltas }
        },
        WorkloadKind::SingleToken => {
            let initial = repeat_lets(size);
            proof {
                is_ascii_chars_encode_utf8(initial@);
                reveal_strlit("v10");
            }
            let len = initial.as_str().len();
            let at = match find_str(initial.as_str(), "v10") {
                Some(i) => i,
                None => len / 2,
            };
            let deltas = one_edit(Delta::insert(at + 1, "zz"));
            Workload { name: name.to_owned(), kind: name.to_owned(), size_bytes: len, seed, initial, deltas }
        },
        WorkloadKind::SingleLine => {
            let initial = repeat_lets(size);
            proof {
                is_ascii_chars_encode_utf8(initial@);
            }
            let len = initial.as_str().len();
            let deltas = one_edit(Delta::insert(len / 2, "let extra = 1;\n"));
            Workload { name: name.to_owned(), kind: name.to_owned(), size_bytes: len, seed, initial, deltas }
        },
        WorkloadKind::FunctionBody => {
            let body = repeat_lets(size);
            let mut initial = owned("fn foo() {\n");
            append_str(&mut initial, body.as_str());
            append_str(&mut initial, "\n}\n");
            proof {
                reveal_strlit("fn foo() {\n");
                reveal_strlit("\n}\n");
                reveal_strlit("{");
                assert forall|k: int| 0 <= k < initial@.len() implies '\0' <= #[trigger] initial@[k] <= '\u{7f}' by {
                    if 11 <= k < 11 + body@.len() {
                        assert(initial@[k] == body@[k - 11]);
                    }
                }
                is_ascii_chars_encode_utf8(initial@);
                assert(occurs_at(initial@, "{"@, 9)) by {
                    assert(initial@.subrange(9, 10) =~= "{"@);
                }
                assert forall|j: int| 0 <= j < 9 implies !occurs_at(initial@, "{"@, j) by {
                    assert(initial@.subrange(j, j + 1)[0] == initial@[j]);
                }
                lemma_first_occurrence(initial@, "{"@, 9);
            }
            let len = initial.as_str().len();
            let brace = find_str(initial.as_str(), "{");
            let at = match brace {
                Some(i) => i + 2,
                None => 0,
            };
            let deltas = one_edit(Delta::insert(at, "let inner = 1;\n"));
            Workload { name: name.to_owned(), kind: name.to_owned(), size_bytes: len, seed, initial, deltas }
        },
        WorkloadKind::GlobalSymbol | WorkloadKind::MassiveFanout => {
            let initial = repeat_calls(size);
            proof {
                is_ascii_chars_encode_utf8(initial@);
            }
            let len = initial.as_str().len();
            let deltas = one_edit(Delta::replace(3, 6, "bar"));
            Workload { name: name.to_owned(), kind: name.to_owned(), size_bytes: len, seed, initial, deltas }
        },
        WorkloadKind::LargeInsert | WorkloadKind::HugePaste => {
            let initial = repeat_lets(size);
            proof {
                is_ascii_chars_encode_utf8(initial@);
            }
            let len = initial.as_str().len();
            let paste = repeat_str("let pasted = 1;\n", 200);
            let deltas = one_edit(Delta::insert(len / 2, paste.as_str()));
            Workload { name: name.to_owned(), kind: name.to_owned(), size_bytes: len, seed, initial, deltas }
        },
        WorkloadKind::LargeDelete => {
            let initial = repeat_lets(size);
            proof {
                is_ascii_chars_encode_utf8(initial@);
            }
            let len = initial.as_str().len();
            let start = len / 4;
            let end = if start + len / 2 <= len { start + len / 2 } else { len };
            let deltas = one_edit(Delta::delete(start, end));
            Workload { name: name.to_owned(), kind: name.to_owned(), size_bytes: len, seed, initial, deltas }
        },
        WorkloadKind::RandomEdit => {
            let initial = repeat_lets(size);
            proof {
                is_ascii_chars_encode_utf8(initial@);
            }
            let len = initial.as_str().len();
            let deltas = random_edit_list(seed, len);
            Workload { name: name.to_owned(), kind: name.to_owned(), size_bytes: len, seed, initial, deltas }
        },
    }
}

proof fn lemma_reach_bounds(text: spec_fn(nat) -> Seq<char>, n: nat, size: nat)
    ensures
        n <= reach_count(text, n, size),
        n <= size ==> reach_count(text, n, size) <= size,
        n < size && text(n).len() < size ==> reach_count(text, n, size) > n,
    decreases size - n,
{
    if !(n >= size || text(n).len() >= size) {
        lemma_reach_bounds(text, n + 1, size);
    }
}

proof fn lemma_lets_upto(size: nat)
    requires
        1 <= size <= u64::MAX,
    ensures
        is_ascii_chars(lets_upto(size)),
        lets_upto(size).len() >= 12,
{
    let f = |k: nat| lets(k);
    let c = reach_count(f, 0, size);
    assert(f(0).len() == 0);
    lemma_reach_bounds(f, 0, size);
    lemma_lets(c);
    lemma_let_line((c - 1) as nat);
    assert(lets_upto(size) == lets(c));
}

proof fn lemma_calls_upto(size: nat)
    requires
        size <= u64::MAX,
    ensures
        is_ascii_chars(calls_upto(size)),
        calls_upto(size).len() >= 12,
{
    let f = |k: nat| calls(k);
    let c = reach_count(f, 0, size);
    reveal_strlit("fn foo() {}\n");
    reveal_strlit("foo();\n");
    lemma_repeat_text("foo();\n"@, c);
    assert(calls_upto(size) == calls(c));
    is_ascii_chars_concat(calls(c), "fn foo() {}\n"@, repeat_text("foo();\n"@, c));
}

proof fn lemma_initial_ascii(kind: WorkloadKind, size: nat)
    requires
        32 <= size <= u64::MAX,
    ensures
        is_ascii_chars(initial_text(kind, size)),
        initial_text(kind, size).len() >= 12,
{
    match kind {
        WorkloadKind::TextSmoke => lemma_lets_upto(2048),
        WorkloadKind::FunctionBody => {
            lemma_lets_upto(size);
            reveal_strlit("fn foo() {\n");
            reveal_strlit("\n}\n");
            let head = "fn foo() {\n"@ + lets_upto(size);
            is_ascii_chars_concat(head, "fn foo() {\n"@, lets_upto(size));
            is_ascii_chars_concat(initial_text(kind, size), head, "\n}\n"@);
        },
        WorkloadKind::GlobalSymbol => lemma_calls_upto(size),
        WorkloadKind::MassiveFanout => lemma_calls_upto(size),
        _ => lemma_lets_upto(size),
    }
}

proof fn lemma_least_occurrence(text: Seq<char>, pat: Seq<char>, j: nat)
    requires
        occurs_at(text, pat, j as int),
    ensures
        exists|i: nat| #[trigger] occurs_at(text, pat, i as int) && forall|k: int| 0 <= k < i ==> !occurs_at(text, pat, k),
    decreases j,
{
    if exists|k: int| 0 <= k < j && occurs_at(text, pat, k) {
        let k = choose|k: int| 0 <= k < j && occurs_at(text, pat, k);
        lemma_least_occurrence(text, pat, k as nat);
    } else {
        assert(occurs_at(text, pat, j as int) && forall|k: int| 0 <= k < j ==> !occurs_at(text, pat, k));
    }
}

/// Where `pat` first occurs, it occurs.
proof fn lemma_first_occurrence_occurs(text: Seq<char>, pat: Seq<char>)
    ensures
        first_occurrence(text, pat) matches Some(i) ==> occurs_at(text, pat, i as int),
{
    if exists|i: int| occurs_at(text, pat, i) {
        let j = choose|i: int| occurs_at(text, pat, i);
        lemma_least_occurrence(text, pat, j as nat);
    }
}

proof fn lemma_single_edit(b: Seq<u8>, d: DeltaModel)
    requires
        apply_op(b, d, zero_stats()).fault is None,
    ensures
        apply_all(b, seq![d], zero_stats()).fault is None,
{
    let r = apply_op(b, d, zero_stats());
    assert(seq![d].drop_first() =~= Seq::<DeltaModel>::empty());
    if r.fits {
        assert(apply_all(r.bytes, seq![d].drop_first(), r.stats).fault is None);
    }
}

proof fn lemma_random_edits_apply(b: Seq<u8>, rng: u64, k: nat, st: StatsModel)
    requires
        ascii_bytes(b),
        valid_utf8(b),
    ensures
        apply_all(b, random_edits(rng, b.len(), k), st).fault is None,
    decreases k,
{
    if k > 0 {
        let ops = random_edits(rng, b.len(), k);
        let r = next_rng(rng);
        let span: nat = if b.len() >= 1 { b.len() } else { 1 };
        let x = (r as usize) as nat;
        assert(x % span < span) by (nonlinear_arith)
            requires
                span >= 1,
        ;
        let off = pick_spec(r, 0, span);
        assert(off <= b.len());
        reveal_strlit("z");
        lemma_ascii_insert_applies(b, off, "z"@, st);
        let d = ins(off, "z"@);
        assert(ops[0] == d);
        let out = apply_op(b, d, st);
        if out.fits {
            assert(ops.drop_first() =~= random_edits(r, b.len() + 1, (k - 1) as nat));
            lemma_random_edits_apply(out.bytes, r, (k - 1) as nat, out.stats);
        }
    }
}

proof fn lemma_insert_edit(b: Seq<u8>, off: nat, text: Seq<char>)
    requires
        ascii_bytes(b),
        valid_utf8(b),
        off <= b.len(),
        is_ascii_chars(text),
    ensures
        apply_all(b, seq![ins(off, text)], zero_stats()).fault is None,
{
    lemma_ascii_insert_applies(b, off, text, zero_stats());
    lemma_single_edit(b, ins(off, text));
}

proof fn lemma_range_edit(b: Seq<u8>, start: nat, end: nat, text: Seq<char>)
    requires
        ascii_bytes(b),
        valid_utf8(b),
        start <= end <= b.len(),
    ensures
        apply_all(b, seq![DeltaModel::Delete { start: start as usize, end: end as usize }], zero_stats()).fault is None,
        apply_all(b, seq![DeltaModel::Replace { start: start as usize, end: end as usize, text }], zero_stats()).fault
            is None,
{
    lemma_ascii_range_applies(b, start, end, text, zero_stats());
    lemma_single_edit(b, DeltaModel::Delete { start: start as usize, end: end as usize });
    lemma_single_edit(b, DeltaModel::Replace { start: start as usize, end: end as usize, text });
}

proof fn lemma_token_offset(init: Seq<char>)
    requires
        init.len() >= 12,
    ensures
        token_offset(init) <= init.len(),
{
    reveal_strlit("v10");
    lemma_first_occurrence_occurs(init, "v10"@);
}

proof fn lemma_pick_within(seed: u64, len: nat)
    requires
        len >= 12,
    ensures
        pick_spec(seed, 8, (len - 1) as nat) <= len,
{
    let hi: nat = (len - 1) as nat;
    let x = (seed as usize) as nat;
    if hi > 8 {
        assert(x % ((hi - 8) as nat) < hi - 8) by (nonlinear_arith)
            requires
                hi > 8,
        ;
    }
}

#[verifier::spinoff_prover]
proof fn lemma_edits_apply(kind: WorkloadKind, init: Seq<char>, seed: u64)
    requires
        is_ascii_chars(init),
        init.len() >= 12,
    ensures
        apply_all(utf8(init), workload_edits(kind, init, seed), zero_stats()).fault is None,
{
    let b = utf8(init);
    lemma_ascii_to_bytes(init);
    is_ascii_chars_encode_utf8(init);
    let len = init.len();
    assert(b.len() == len);
    assert(valid_utf8(b));
    match kind {
        WorkloadKind::RandomEdit => {
            lemma_random_edits_apply(b, seed, 8, zero_stats());
        },
        WorkloadKind::TextSmoke => {
            reveal_strlit("x");
            lemma_insert_edit(b, len / 2, "x"@);
        },
        WorkloadKind::SingleLine => {
            reveal_strlit("let extra = 1;\n");
            lemma_insert_edit(b, len / 2, "let extra = 1;\n"@);
        },
        WorkloadKind::SingleCharacter => {
            reveal_strlit("x");
            lemma_pick_within(seed, len);
            lemma_insert_edit(b, pick_spec(seed, 8, (len - 1) as nat), "x"@);
        },
        WorkloadKind::SingleToken => {
            reveal_strlit("zz");
            lemma_token_offset(init);
            lemma_insert_edit(b, token_offset(init), "zz"@);
        },
        WorkloadKind::FunctionBody => {
            reveal_strlit("let inner = 1;\n");
            lemma_insert_edit(b, 11, "let inner = 1;\n"@);
        },
        WorkloadKind::GlobalSymbol => {
            lemma_range_edit(b, 3, 6, "bar"@);
        },
        WorkloadKind::MassiveFanout => {
            lemma_range_edit(b, 3, 6, "bar"@);
        },
        WorkloadKind::LargeInsert => {
            reveal_strlit("let pasted = 1;\n");
            lemma_repeat_text("let pasted = 1;\n"@, 200);
            lemma_insert_edit(b, len / 2, repeat_text("let pasted = 1;\n"@, 200));
        },
        WorkloadKind::HugePaste => {
            reveal_strlit("let pasted = 1;\n");
            lemma_repeat_text("let pasted = 1;\n"@, 200);
            lemma_insert_edit(b, len / 2, repeat_text("let pasted = 1;\n"@, 200));
        },
        WorkloadKind::LargeDelete => {
            let end: nat = if len / 4 + len / 2 <= len { len / 4 + len / 2 } else { len };
            lemma_range_edit(b, len / 4, end, Seq::empty());
        },
    }
}

/// Every generated workload runs: its edits, applied in turn to its initial
/// text, all apply.
pub proof fn law_generated_edits_apply(kind: WorkloadKind, size_bytes: usize, seed: u64)
    requires
        size_bytes <= isize::MAX,
    ensures
        apply_all(utf8(workload_of(kind, size_bytes, seed).initial), workload_of(kind, size_bytes, seed).deltas, zero_stats()).fault
            is None,
{
    let size = min_size(size_bytes);
    lemma_initial_ascii(kind, size);
    lemma_edits_apply(kind, initial_text(kind, size), seed);
}

} // verus!
