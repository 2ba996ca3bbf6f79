use vstd::prelude::*;
use vstd::utf8::*;
use crate::delta::{lemma_models_len_index, models, utf8, Delta, DeltaModel};
use crate::error::Error;
use crate::fingerprint::{fnv1a64_spec, Fingerprint};
use crate::metrics::{DurationNanos, WorkMetrics, zero_work};

verus! {

broadcast use {vstd::utf8::group_utf8_lib, vstd::string::group_string_axioms};

/// Identity of a token, kept across incremental relexing where possible.
#[derive(Clone, Copy, Debug, PartialEq, Eq, Hash, Structural)]
pub struct TokenId(pub u64);

#[derive(Clone, Copy, Debug, PartialEq, Eq, Structural)]
pub enum TokenKind {
    Let,
    Fn,
    Ident,
    Number,
    Eq,
    Plus,
    Minus,
    Semi,
    LParen,
    RParen,
    LBrace,
    RBrace,
    Unknown,
}

/// A token: its kind, the bytes `[start, end)` of the text it covers, and
/// those bytes as text.
#[derive(Debug)]
pub struct Token {
    pub id: TokenId,
    pub kind: TokenKind,
    pub start: usize,
    pub end: usize,
    pub lexeme: String,
}

/// Tokens that agree on kind, text and start, position by position.
pub open spec fn same_token_keys(a: Seq<Token>, b: Seq<Token>) -> bool {
    &&& a.len() == b.len()
    &&& forall|k: int| 0 <= k < a.len() ==> {
        &&& (#[trigger] a[k]).kind == b[k].kind
        &&& a[k].lexeme@ == b[k].lexeme@
        &&& a[k].start == b[k].start
    }
}

impl Token {
    /// Same kind, same text, same start.
    pub fn semantic_eq(&self, other: &Token) -> (r: bool)
        ensures
            r == (self.kind == other.kind && self.lexeme@ == other.lexeme@ && self.start == other.start),
    {
        self.kind == other.kind && self.lexeme == other.lexeme && self.start == other.start
    }

    /// A copy of this token.
    pub fn duplicate(&self) -> (t: Token)
        ensures
            t.id == self.id,
            t.kind == self.kind,
            t.start == self.start,
            t.end == self.end,
            t.lexeme@ == self.lexeme@,
    {
        Token { id: self.id, kind: self.kind, start: self.start, end: self.end, lexeme: self.lexeme.clone() }
    }
}

/// Byte span of an applied text edit, in both old and new coordinates.
#[derive(Clone, Copy, Debug, PartialEq, Eq, Structural)]
pub struct EditSpan {
    pub old_start: usize,
    pub old_end: usize,
    pub new_start: usize,
    pub new_end: usize,
}

impl EditSpan {
    /// How far text after the edit moved.
    pub fn shift(self) -> (d: isize)
        requires
            self.new_end <= isize::MAX,
            self.old_end <= isize::MAX,
        ensures
            d == self.new_end - self.old_end,
    {
        self.new_end as isize - self.old_end as isize
    }
}

/// Tokens of a text, with the next free token id, the work spent, and the
/// edit an incremental relex started from.
#[derive(Debug)]
pub struct TokenStream {
    pub tokens: Vec<Token>,
    pub next_id: u64,
    pub work: WorkMetrics,
    pub edit: Option<EditSpan>,
}

/// The UTF-8 bytes of the tokens' lexemes, one after another.
pub open spec fn lexeme_bytes(toks: Seq<Token>) -> Seq<u8>
    decreases toks.len(),
{
    if toks.len() == 0 {
        Seq::empty()
    } else {
        lexeme_bytes(toks.drop_last()) + utf8(toks.last().lexeme@)
    }
}

impl TokenStream {
    /// The fingerprint of the stream's lexemes, written one after another.
    pub fn lexeme_fingerprint(&self) -> (f: Fingerprint)
        ensures
            f.0 == fnv1a64_spec(lexeme_bytes(self.tokens@)),
    {
        let mut bytes: Vec<u8> = Vec::new();
        let mut i: usize = 0;
        while i < self.tokens.len()
            invariant
                i <= self.tokens@.len(),
                bytes@ == lexeme_bytes(self.tokens@.take(i as int)),
            decreases self.tokens@.len() - i,
        {
            let b = self.tokens[i].lexeme.as_str().as_bytes();
            let ghost start = bytes@;
            let mut j: usize = 0;
            while j < b.len()
                invariant
                    j <= b@.len(),
                    bytes@ == start + b@.take(j as int),
                decreases b@.len() - j,
            {
                bytes.push(b[j]);
                proof {
                    assert(b@.take(j + 1) =~= b@.take(j as int).push(b@[j as int]));
                }
                j = j + 1;
            }
            proof {
                assert(b@.take(b@.len() as int) =~= b@);
                assert(self.tokens@.take(i + 1).drop_last() =~= self.tokens@.take(i as int));
                assert(self.tokens@.take(i + 1).last() == self.tokens@[i as int]);
            }
            i = i + 1;
        }
        proof {
            assert(self.tokens@.take(self.tokens@.len() as int) =~= self.tokens@);
        }
        Fingerprint::of_bytes(bytes.as_slice())
    }
}

impl TokenStream {
    /// An empty stream.
    pub fn empty() -> (ts: TokenStream)
        ensures
            ts.tokens@.len() == 0,
            ts.next_id == 0,
            ts.work == zero_work(),
            ts.edit is None,
    {
        TokenStream { tokens: Vec::new(), next_id: 0, work: WorkMetrics::zero(), edit: None }
    }

    /// Same number of tokens, agreeing on kind, text and start.
    pub fn semantic_eq(&self, other: &TokenStream) -> (r: bool)
        ensures
            r == same_token_keys(self.tokens@, other.tokens@),
    {
        if self.tokens.len() != other.tokens.len() {
            return false;
        }
        let mut k: usize = 0;
        while k < self.tokens.len()
            invariant
                self.tokens@.len() == other.tokens@.len(),
                k <= self.tokens@.len(),
                forall|m: int| 0 <= m < k ==> {
                    &&& (#[trigger] self.tokens@[m]).kind == other.tokens@[m].kind
                    &&& self.tokens@[m].lexeme@ == other.tokens@[m].lexeme@
                    &&& self.tokens@[m].start == other.tokens@[m].start
                },
            decreases self.tokens@.len() - k,
        {
            if !self.tokens[k].semantic_eq(&other.tokens[k]) {
                return false;
            }
            k = k + 1;
        }
        true
    }

    /// A copy of this stream.
    pub fn duplicate(&self) -> (ts: TokenStream)
        ensures
            ts.tokens@.len() == self.tokens@.len(),
            forall|k: int| 0 <= k < self.tokens@.len() ==> {
                &&& (#[trigger] ts.tokens@[k]).id == self.tokens@[k].id
                &&& ts.tokens@[k].kind == self.tokens@[k].kind
                &&& ts.tokens@[k].start == self.tokens@[k].start
                &&& ts.tokens@[k].end == self.tokens@[k].end
                &&& ts.tokens@[k].lexeme@ == self.tokens@[k].lexeme@
            },
            ts.next_id == self.next_id,
            ts.work == self.work,
            ts.edit == self.edit,
    {
        let tokens = copy_tokens(&self.tokens, 0, self.tokens.len());
        TokenStream { tokens, next_id: self.next_id, work: self.work, edit: self.edit }
    }
}

/// Copies of `v[from..to]`.
fn copy_tokens(v: &Vec<Token>, from: usize, to: usize) -> (r: Vec<Token>)
    requires
        from <= to <= v@.len(),
    ensures
        r@.len() == to - from,
        forall|k: int| 0 <= k < r@.len() ==> {
            &&& (#[trigger] r@[k]).id == v@[from + k].id
            &&& r@[k].kind == v@[from + k].kind
            &&& r@[k].start == v@[from + k].start
            &&& r@[k].end == v@[from + k].end
            &&& r@[k].lexeme@ == v@[from + k].lexeme@
        },
{
    let mut r: Vec<Token> = Vec::new();
    let mut k: usize = from;
    while k < to
        invariant
            from <= k <= to,
            to <= v@.len(),
            r@.len() == k - from,
            forall|m: int| 0 <= m < r@.len() ==> {
                &&& (#[trigger] r@[m]).id == v@[from + m].id
                &&& r@[m].kind == v@[from + m].kind
                &&& r@[m].start == v@[from + m].start
                &&& r@[m].end == v@[from + m].end
                &&& r@[m].lexeme@ == v@[from + m].lexeme@
            },
        decreases to - k,
    {
        r.push(v[k].duplicate());
        k = k + 1;
    }
    r
}

/// `u8::is_ascii_whitespace`: space, tab, line feed, form feed, carriage return.
pub open spec fn is_space(b: u8) -> bool {
    b == 32 || b == 9 || b == 10 || b == 12 || b == 13
}

pub open spec fn is_digit(b: u8) -> bool {
    48 <= b <= 57
}

pub open spec fn is_alpha(b: u8) -> bool {
    (65 <= b <= 90) || (97 <= b <= 122)
}

pub open spec fn ident_start(b: u8) -> bool {
    is_alpha(b) || b == 95
}

pub open spec fn ident_continue(b: u8) -> bool {
    is_alpha(b) || is_digit(b) || b == 95
}

/// End of the run of identifier bytes (or of digits) that begins at `i`.
pub open spec fn run_end(b: Seq<u8>, i: int, digits: bool) -> int
    decreases b.len() - i,
{
    if 0 <= i < b.len() && (if digits { is_digit(b[i]) } else { ident_continue(b[i]) }) {
        run_end(b, i + 1, digits)
    } else {
        i
    }
}

/// End of the token that starts at `i`.
pub open spec fn token_end(b: Seq<u8>, i: int) -> int {
    if ident_start(b[i]) {
        run_end(b, i + 1, false)
    } else if is_digit(b[i]) {
        run_end(b, i + 1, true)
    } else {
        i + 1
    }
}

/// Kind of the token `[i, e)`.
pub open spec fn kind_of(b: Seq<u8>, i: int, e: int) -> TokenKind {
    let c = b[i];
    if ident_start(c) {
        if b.subrange(i, e) == seq![108u8, 101u8, 116u8] {
            TokenKind::Let
        } else if b.subrange(i, e) == seq![102u8, 110u8] {
            TokenKind::Fn
        } else {
            TokenKind::Ident
        }
    } else if is_digit(c) {
        TokenKind::Number
    } else if c == 61 {
        TokenKind::Eq
    } else if c == 43 {
        TokenKind::Plus
    } else if c == 45 {
        TokenKind::Minus
    } else if c == 59 {
        TokenKind::Semi
    } else if c == 40 {
        TokenKind::LParen
    } else if c == 41 {
        TokenKind::RParen
    } else if c == 123 {
        TokenKind::LBrace
    } else if c == 125 {
        TokenKind::RBrace
    } else {
        TokenKind::Unknown
    }
}

pub proof fn lemma_run_end(b: Seq<u8>, i: int, digits: bool)
    requires
        0 <= i <= b.len(),
    ensures
        i <= run_end(b, i, digits) <= b.len(),
    decreases b.len() - i,
{
    if i < b.len() && (if digits { is_digit(b[i]) } else { ident_continue(b[i]) }) {
        lemma_run_end(b, i + 1, digits);
    }
}

/// The tokens of the bytes from `i` on: kind, start and end of each.
pub open spec fn scan_from(b: Seq<u8>, i: int) -> Seq<(TokenKind, int, int)>
    decreases b.len() - i,
{
    if i < 0 || i >= b.len() {
        Seq::empty()
    } else if is_space(b[i]) {
        scan_from(b, i + 1)
    } else {
        let e = token_end(b, i);
        proof {
            if ident_start(b[i]) {
                lemma_run_end(b, i + 1, false);
            } else if is_digit(b[i]) {
                lemma_run_end(b, i + 1, true);
            }
        }
        seq![(kind_of(b, i, e), i, e)] + scan_from(b, e)
    }
}

pub proof fn lemma_scan_len(b: Seq<u8>, i: int)
    requires
        0 <= i <= b.len(),
    ensures
        scan_from(b, i).len() <= b.len() - i,
        forall|k: int| 0 <= k < scan_from(b, i).len() ==> {
            let t = #[trigger] scan_from(b, i)[k];
            &&& i <= t.1 < t.2 <= b.len()
        },
    decreases b.len() - i,
{
    if i < b.len() {
        if is_space(b[i]) {
            lemma_scan_len(b, i + 1);
        } else {
            let e = token_end(b, i);
            if ident_start(b[i]) {
                lemma_run_end(b, i + 1, false);
            } else if is_digit(b[i]) {
                lemma_run_end(b, i + 1, true);
            }
            lemma_scan_len(b, e);
            let rest = scan_from(b, e);
            assert forall|k: int| 0 <= k < scan_from(b, i).len() implies {
                let t = #[trigger] scan_from(b, i)[k];
                &&& i <= t.1 < t.2 <= b.len()
            } by {
                if k > 0 {
                    assert(scan_from(b, i)[k] == rest[k - 1]);
                }
            }
        }
    }
}

/// An ASCII letter, digit or underscore: a byte that can continue a word
/// (`u8::is_ascii_alphanumeric` or `_`).
pub open spec fn word_byte(c: u8) -> bool {
    (65 <= c <= 90) || (97 <= c <= 122) || (48 <= c <= 57) || c == 95
}

/// Token `t` of `b` is a whole word where it is one: an identifier or a
/// keyword starts with a letter or underscore, covers only letters, digits
/// and underscores, and the byte after it (if any) is none of those; a
/// number covers only digits and the byte after it is not a digit.
pub open spec fn whole_word(b: Seq<u8>, t: (TokenKind, int, int)) -> bool {
    &&& (t.0 is Ident || t.0 is Let || t.0 is Fn) ==> {
        &&& ((65 <= b[t.1] <= 90) || (97 <= b[t.1] <= 122) || b[t.1] == 95)
        &&& forall|j: int| t.1 <= j < t.2 ==> word_byte(#[trigger] b[j])
        &&& (t.2 == b.len() || !word_byte(b[t.2]))
    }
    &&& t.0 is Number ==> {
        &&& forall|j: int| t.1 <= j < t.2 ==> 48 <= #[trigger] b[j] <= 57
        &&& (t.2 == b.len() || !(48 <= b[t.2] <= 57))
    }
}

proof fn lemma_run_end_maximal(b: Seq<u8>, i: int, digits: bool)
    requires
        0 <= i <= b.len(),
    ensures
        run_end(b, i, digits) == b.len() || !(if digits { is_digit(b[run_end(b, i, digits)]) } else { ident_continue(b[run_end(b, i, digits)]) }),
        forall|j: int| i <= j < run_end(b, i, digits) ==> (if digits { is_digit(#[trigger] b[j]) } else { ident_continue(b[j]) }),
    decreases b.len() - i,
{
    lemma_run_end(b, i, digits);
    if i < b.len() && (if digits { is_digit(b[i]) } else { ident_continue(b[i]) }) {
        lemma_run_end_maximal(b, i + 1, digits);
    }
}

proof fn lemma_token_whole(b: Seq<u8>, i: int)
    requires
        0 <= i < b.len(),
    ensures
        whole_word(b, (kind_of(b, i, token_end(b, i)), i, token_end(b, i))),
{
    let e = token_end(b, i);
    if ident_start(b[i]) {
        lemma_run_end_maximal(b, i + 1, false);
        assert forall|j: int| i <= j < e implies word_byte(#[trigger] b[j]) by {
            if j > i {
                assert(ident_continue(b[j]));
            }
        }
    } else if is_digit(b[i]) {
        lemma_run_end_maximal(b, i + 1, true);
        assert forall|j: int| i <= j < e implies 48 <= #[trigger] b[j] <= 57 by {
            if j > i {
                assert(is_digit(b[j]));
            }
        }
    }
}

proof fn lemma_scan_whole(b: Seq<u8>, i: int)
    requires
        0 <= i <= b.len(),
    ensures
        forall|k: int| 0 <= k < scan_from(b, i).len() ==> whole_word(b, #[trigger] scan_from(b, i)[k]),
    decreases b.len() - i,
{
    if i < b.len() {
        if is_space(b[i]) {
            lemma_scan_whole(b, i + 1);
        } else {
            let e = token_end(b, i);
            if ident_start(b[i]) {
                lemma_run_end(b, i + 1, false);
            } else if is_digit(b[i]) {
                lemma_run_end(b, i + 1, true);
            }
            lemma_token_whole(b, i);
            lemma_scan_whole(b, e);
            let rest = scan_from(b, e);
            assert forall|k: int| 0 <= k < scan_from(b, i).len() implies whole_word(b, #[trigger] scan_from(b, i)[k]) by {
                if k > 0 {
                    assert(scan_from(b, i)[k] == rest[k - 1]);
                }
            }
        }
    }
}

/// Words are lexed whole: every identifier or keyword token of a text starts
/// with a letter or underscore, spans only letters, digits and underscores,
/// and is not followed by another of them; every number token spans only
/// digits and is not followed by a digit. So `x1` is one identifier, never
/// `x` then `1`.
pub proof fn law_words_lexed_whole(text: Seq<char>)
    ensures
        forall|k: int| 0 <= k < lexed(text).len() ==> whole_word(utf8(text), #[trigger] lexed(text)[k]),
{
    lemma_scan_whole(utf8(text), 0);
}

/// The tokens of a text.
pub open spec fn lexed(text: Seq<char>) -> Seq<(TokenKind, int, int)> {
    scan_from(utf8(text), 0)
}

/// `toks` have the kinds, starts and texts of the tokens of `text`.
pub open spec fn keys_of_text(toks: Seq<Token>, text: Seq<char>) -> bool {
    let sc = lexed(text);
    &&& toks.len() == sc.len()
    &&& forall|k: int| 0 <= k < toks.len() ==> {
        &&& (#[trigger] toks[k]).kind == sc[k].0
        &&& toks[k].start == sc[k].1
        &&& toks[k].lexeme@ == text.subrange(sc[k].1, sc[k].2)
    }
}

/// `toks` are exactly the tokens of `text`, ends included, numbered from
/// `first` on.
pub open spec fn tokens_of_text(toks: Seq<Token>, text: Seq<char>, first: u64) -> bool {
    let sc = lexed(text);
    &&& keys_of_text(toks, text)
    &&& forall|k: int| 0 <= k < toks.len() ==> {
        &&& (#[trigger] toks[k]).end == sc[k].2
        &&& toks[k].id.0 == first + k
    }
}

/// The tokens a lex gives are whole words, as `law_words_lexed_whole` says of
/// the text's tokens: read by kind, start and end.
pub proof fn law_tokens_are_whole_words(toks: Seq<Token>, text: Seq<char>, first: u64)
    requires
        tokens_of_text(toks, text, first),
    ensures
        forall|k: int| 0 <= k < toks.len() ==> whole_word(utf8(text), ((#[trigger] toks[k]).kind, toks[k].start as int, toks[k].end as int)),
{
    law_words_lexed_whole(text);
    assert forall|k: int| 0 <= k < toks.len() implies whole_word(utf8(text), ((#[trigger] toks[k]).kind, toks[k].start as int, toks[k].end as int)) by {
        let t = lexed(text)[k];
        assert(whole_word(utf8(text), t));
        assert(t == (toks[k].kind, toks[k].start as int, toks[k].end as int));
    }
}

fn is_space_byte(b: u8) -> (r: bool)
    ensures
        r == is_space(b),
{
    b == 32 || b == 9 || b == 10 || b == 12 || b == 13
}

fn is_digit_byte(b: u8) -> (r: bool)
    ensures
        r == is_digit(b),
{
    48 <= b && b <= 57
}

fn ident_start_byte(b: u8) -> (r: bool)
    ensures
        r == ident_start(b),
{
    (65 <= b && b <= 90) || (97 <= b && b <= 122) || b == 95
}

fn ident_continue_byte(b: u8) -> (r: bool)
    ensures
        r == ident_continue(b),
{
    (65 <= b && b <= 90) || (97 <= b && b <= 122) || (48 <= b && b <= 57) || b == 95
}

/// Scan `text` from byte `from`, numbering tokens from `*next_id` on; returns
/// the tokens and the number of bytes scanned.
fn scan(text: &str, from: usize, next_id: &mut u64) -> (r: (Vec<Token>, usize))
    requires
        is_ascii_chars(text@),
        from <= text@.len(),
    ensures
        r.1 == text@.len() - from,
        r.0@.len() == scan_from(utf8(text@), from as int).len(),
        forall|k: int| 0 <= k < r.0@.len() ==> {
            let sc = scan_from(utf8(text@), from as int);
            &&& (#[trigger] r.0@[k]).kind == sc[k].0
            &&& r.0@[k].start == sc[k].1
            &&& r.0@[k].end == sc[k].2
            &&& r.0@[k].lexeme@ == text@.subrange(sc[k].1, sc[k].2)
            &&& r.0@[k].id.0 == (*old(next_id) + k) % 0x1_0000_0000_0000_0000
        },
        *final(next_id) == (*old(next_id) + r.0@.len()) % 0x1_0000_0000_0000_0000,
{
    let bytes = text.as_bytes();
    let ghost b = utf8(text@);
    proof {
        assert(bytes@ == b);
        assert(b.len() == text@.len());
    }
    let n = bytes.len();
    let mut i: usize = from;
    let mut tokens: Vec<Token> = Vec::new();
    let ghost first = *next_id;
    while i < n
        invariant
            is_ascii_chars(text@),
            bytes@ == b,
            b == utf8(text@),
            n == b.len(),
            b.len() == text@.len(),
            from <= i <= n,
            tokens@.len() + scan_from(b, i as int).len() == scan_from(b, from as int).len(),
            forall|k: int| 0 <= k < tokens@.len() ==> {
                let sc = scan_from(b, from as int);
                &&& (#[trigger] tokens@[k]).kind == sc[k].0
                &&& tokens@[k].start == sc[k].1
                &&& tokens@[k].end == sc[k].2
                &&& tokens@[k].lexeme@ == text@.subrange(sc[k].1, sc[k].2)
                &&& tokens@[k].id.0 == (first + k) % 0x1_0000_0000_0000_0000
            },
            forall|k: int| 0 <= k < scan_from(b, i as int).len() ==>
                #[trigger] scan_from(b, i as int)[k] == scan_from(b, from as int)[tokens@.len() + k],
            *next_id == (first + tokens@.len()) % 0x1_0000_0000_0000_0000,
        decreases n - i,
    {
        let c = bytes[i];
        if is_space_byte(c) {
            i = i + 1;
            continue;
        }
        let start = i;
        let kind: TokenKind;
        if ident_start_byte(c) {
            i = i + 1;
            while i < n && ident_continue_byte(bytes[i])
                invariant
                    start < i <= n,
                    n == b.len(),
                    bytes@ == b,
                    run_end(b, start + 1, false) == run_end(b, i as int, false),
                decreases n - i,
            {
                i = i + 1;
            }
            let len = i - start;
            if len == 3 && bytes[start] == 108 && bytes[start + 1] == 101 && bytes[start + 2] == 116 {
                assert(b.subrange(start as int, i as int) =~= seq![108u8, 101u8, 116u8]);
                kind = TokenKind::Let;
            } else if len == 2 && bytes[start] == 102 && bytes[start + 1] == 110 {
                assert(b.subrange(start as int, i as int) =~= seq![102u8, 110u8]);
                kind = TokenKind::Fn;
            } else {
                proof {
                    let sr = b.subrange(start as int, i as int);
                    if sr == seq![108u8, 101u8, 116u8] {
                        assert(sr.len() == 3);
                        assert(sr[0] == b[start as int]);
                        assert(sr[1] == b[start + 1]);
                        assert(sr[2] == b[start + 2]);
                    }
                    if sr == seq![102u8, 110u8] {
                        assert(sr.len() == 2);
                        assert(sr[0] == b[start as int]);
                        assert(sr[1] == b[start + 1]);
                    }
                }
                kind = TokenKind::Ident;
            }
        } else if is_digit_byte(c) {
            i = i + 1;
            while i < n && is_digit_byte(bytes[i])
                invariant
                    start < i <= n,
                    n == b.len(),
                    bytes@ == b,
                    run_end(b, start + 1, true) == run_end(b, i as int, true),
                decreases n - i,
            {
                i = i + 1;
            }
            kind = TokenKind::Number;
        } else {
            i = i + 1;
            kind = if c == 61 {
                TokenKind::Eq
            } else if c == 43 {
                TokenKind::Plus
            } else if c == 45 {
                TokenKind::Minus
            } else if c == 59 {
                TokenKind::Semi
            } else if c == 40 {
                TokenKind::LParen
            } else if c == 41 {
                TokenKind::RParen
            } else if c == 123 {
                TokenKind::LBrace
            } else if c == 125 {
                TokenKind::RBrace
            } else {
                TokenKind::Unknown
            };
        }
        proof {
            assert(token_end(b, start as int) == i as int);
            assert(kind == kind_of(b, start as int, i as int));
            assert(scan_from(b, start as int) == seq![(kind, start as int, i as int)] + scan_from(b, i as int));
        }
        let id = TokenId(*next_id);
        *next_id = next_id.wrapping_add(1);
        let lexeme = text.substring_ascii(start, i).to_owned();
        let ghost before = tokens@;
        tokens.push(Token { id, kind, start, end: i, lexeme });
        proof {
            let sa = scan_from(b, start as int);
            assert(sa[0] == (kind, start as int, i as int));
            assert forall|k: int| 0 <= k < scan_from(b, i as int).len() implies
                #[trigger] scan_from(b, i as int)[k] == scan_from(b, from as int)[tokens@.len() + k] by {
                assert(scan_from(b, i as int)[k] == sa[k + 1]);
            }
            assert(scan_from(b, from as int)[before.len() as int] == sa[0]);
        }
    }
    proof {
        assert(scan_from(b, i as int).len() == 0);
    }
    (tokens, n - from)
}

/// Work counters of a full scan of `n` tokens over `bytes` bytes.
pub open spec fn full_lex_work(bytes: nat, n: nat) -> WorkMetrics {
    WorkMetrics {
        bytes_processed: bytes as usize,
        allocations_hint: 0,
        items_reused: 0,
        items_recomputed: n as usize,
        items_invalidated: 0,
        items_total: n as usize,
        hashing_nanos: DurationNanos(0),
    }
}

/// Lex a whole text. Tokens are numbered from 1.
pub fn lex_full(text: &str) -> (ts: TokenStream)
    requires
        is_ascii_chars(text@),
    ensures
        tokens_of_text(ts.tokens@, text@, 1),
        ts.next_id == (1 + ts.tokens@.len()) % 0x1_0000_0000_0000_0000,
        ts.work == full_lex_work(text@.len(), ts.tokens@.len()),
        ts.edit is None,
{
    let mut next_id: u64 = 1;
    let (tokens, scanned) = scan(text, 0, &mut next_id);
    let n = tokens.len();
    proof {
        assert forall|k: int| 0 <= k < tokens@.len() implies (#[trigger] tokens@[k]).id.0 == 1 + k by {
            assert(1 + k < 0x1_0000_0000_0000_0000) by {
                lemma_scan_len(utf8(text@), 0);
            }
        }
    }
    TokenStream {
        tokens,
        next_id,
        work: WorkMetrics {
            bytes_processed: scanned,
            allocations_hint: 0,
            items_reused: 0,
            items_recomputed: n,
            items_invalidated: 0,
            items_total: n,
            hashing_nanos: DurationNanos(0),
        },
        edit: None,
    }
}


/// `x` moved by `shift` in signed machine arithmetic, negative results
/// clamped to 0.
pub open spec fn clamp_shift(x: usize, shift: isize) -> usize {
    let v = (x as isize).wrapping_add(shift);
    if v < 0 { 0 } else { v as usize }
}

/// `(edit_start, old_end, new_end)` of an edit in byte offsets; `None` for
/// an edit that cannot be localized. Offsets that do not fit wrap as
/// machine arithmetic does.
pub open spec fn span_of(d: DeltaModel) -> Option<(usize, usize, usize)>
    decreases d,
{
    match d {
        DeltaModel::Insert { offset, text } => Some((offset, offset, offset.wrapping_add(utf8(text).len() as usize))),
        DeltaModel::Delete { start, end } => Some((start, end, start)),
        DeltaModel::Replace { start, end, text } => Some((start, end, start.wrapping_add(utf8(text).len() as usize))),
        DeltaModel::Composite { ops } => span_fold(ops, usize::MAX, 0, 0, 0, false),
        DeltaModel::Move { .. } => None,
        DeltaModel::Custom { .. } => None,
    }
}

/// The span of a composite's remaining operations `ops`, folded into the
/// span so far: each operation's span is moved by the shift of those
/// before it; the start is the least, the ends the greatest.
pub open spec fn span_fold(
    ops: Seq<DeltaModel>,
    start: usize,
    old_end: usize,
    new_end: usize,
    shift: isize,
    any: bool,
) -> Option<(usize, usize, usize)>
    decreases ops,
{
    if ops.len() == 0 {
        if any { Some((start, old_end, new_end)) } else { None }
    } else {
        match span_of(ops[0]) {
            None => None,
            Some(t) => {
                let s = clamp_shift(t.0, shift);
                let o = clamp_shift(t.1, shift);
                let n = clamp_shift(t.2, shift);
                span_fold(
                    ops.drop_first(),
                    if !any || s < start { s } else { start },
                    if o > old_end { o } else { old_end },
                    if n > new_end { n } else { new_end },
                    shift.wrapping_add((n as isize).wrapping_sub(o as isize)),
                    true,
                )
            },
        }
    }
}

/// `(edit_start, old_end, new_end)` of a text edit in byte offsets, or `None`
/// for a delta that cannot be localized. Offsets that do not fit wrap as
/// machine arithmetic does.
fn delta_span(delta: &Delta) -> (r: Option<(usize, usize, usize)>)
    ensures
        r == span_of(delta@),
    decreases delta,
{
    match delta {
        Delta::Insert { offset, text } => Some((*offset, *offset, offset.wrapping_add(text.as_str().len()))),
        Delta::Delete { start, end } => Some((*start, *end, *start)),
        Delta::Replace { start, end, text } => Some((*start, *end, start.wrapping_add(text.as_str().len()))),
        Delta::Composite { ops } => composite_span(ops),
        Delta::Move { .. } => None,
        Delta::Custom { .. } => None,
    }
}

/// The span of a composite: its operations' spans, each moved by the shifts of
/// those before it, merged.
fn composite_span(ops: &Vec<Delta>) -> (r: Option<(usize, usize, usize)>)
    ensures
        r == span_fold(models(ops@), usize::MAX, 0, 0, 0, false),
    decreases ops,
{
    let mut start: usize = usize::MAX;
    let mut old_end: usize = 0;
    let mut new_end: usize = 0;
    let mut shift: isize = 0;
    let mut any = false;
    let ghost all = models(ops@);
    proof {
        lemma_models_len_index(ops@);
        assert(all.skip(0) =~= all);
    }
    let mut k: usize = 0;
    while k < ops.len()
        invariant
            k <= ops@.len(),
            all == models(ops@),
            all.len() == ops@.len(),
            forall|i: int| 0 <= i < ops@.len() ==> #[trigger] all[i] == ops@[i]@,
            span_fold(all, usize::MAX, 0, 0, 0, false) == span_fold(all.skip(k as int), start, old_end, new_end, shift, any),
        decreases ops@.len() - k,
    {
        proof {
            assert(decreases_to!(ops => ops@));
            assert(decreases_to!(ops@ => ops@[k as int]));
            assert(all.skip(k as int)[0] == ops@[k as int]@);
            assert(all.skip(k as int).drop_first() =~= all.skip(k + 1));
        }
        let (s, o, n) = match delta_span(&ops[k]) {
            Some(t) => t,
            None => return None,
        };
        let s = clamp_shifted(s, shift);
        let o = clamp_shifted(o, shift);
        let n = clamp_shifted(n, shift);
        if !any {
            start = s;
            any = true;
        }
        if s < start {
            start = s;
        }
        if o > old_end {
            old_end = o;
        }
        if n > new_end {
            new_end = n;
        }
        shift = shift.wrapping_add((n as isize).wrapping_sub(o as isize));
        k = k + 1;
    }
    proof {
        assert(all.skip(k as int) =~= Seq::<DeltaModel>::empty());
    }
    if any {
        Some((start, old_end, new_end))
    } else {
        None
    }
}

/// `x + shift` in signed machine arithmetic, negative results clamped to 0.
fn clamp_shifted(x: usize, shift: isize) -> (r: usize)
    ensures
        r == clamp_shift(x, shift),
{
    let v = (x as isize).wrapping_add(shift);
    if v < 0 {
        0
    } else {
        v as usize
    }
}

/// A token moved by `shift` bytes.
fn shifted_token(t: &Token, shift: isize) -> (r: Token)
    ensures
        r.id == t.id,
        r.kind == t.kind,
        r.start == (t.start as isize).wrapping_add(shift) as usize,
        r.end == (t.end as isize).wrapping_add(shift) as usize,
        r.lexeme@ == t.lexeme@,
{
    Token {
        id: t.id,
        kind: t.kind,
        start: (t.start as isize).wrapping_add(shift) as usize,
        end: (t.end as isize).wrapping_add(shift) as usize,
        lexeme: t.lexeme.clone(),
    }
}

/// `old`, moved by `shift`, has the start, kind and text of `tok`.
pub open spec fn moved_to(old: Token, tok: Token, shift: isize) -> bool {
    &&& (old.start as isize).wrapping_add(shift) == tok.start as isize
    &&& old.kind == tok.kind
    &&& old.lexeme@ == tok.lexeme@
}

/// Position of the first token of `previous` that, moved by `shift`, has the
/// start, kind and text of `tok`.
fn find_moved(previous: &TokenStream, tok: &Token, shift: isize) -> (r: Option<usize>)
    ensures
        r matches Some(j) ==> j < previous.tokens@.len() && moved_to(previous.tokens@[j as int], *tok, shift),
        r matches Some(j) ==> forall|i: int| 0 <= i < j ==> !moved_to(#[trigger] previous.tokens@[i], *tok, shift),
        r is None ==> forall|i: int| 0 <= i < previous.tokens@.len() ==> !moved_to(#[trigger] previous.tokens@[i], *tok, shift),
{
    let mut j: usize = 0;
    while j < previous.tokens.len()
        invariant
            j <= previous.tokens@.len(),
            forall|i: int| 0 <= i < j ==> !moved_to(#[trigger] previous.tokens@[i], *tok, shift),
        decreases previous.tokens@.len() - j,
    {
        let old = &previous.tokens[j];
        if (old.start as isize).wrapping_add(shift) == tok.start as isize && old.kind == tok.kind
            && old.lexeme == tok.lexeme {
            return Some(j);
        }
        j = j + 1;
    }
    None
}

/// Where a relex for an edit at `at` starts: the start of the last token of
/// `toks` that starts at or before `at`, else 0.
pub open spec fn rescan_point(toks: Seq<Token>, at: usize) -> usize
    decreases toks.len(),
{
    if toks.len() == 0 {
        0
    } else if toks.last().start <= at {
        toks.last().start
    } else {
        rescan_point(toks.drop_last(), at)
    }
}

/// A token ends at or before `point`.
pub open spec fn ends_by(point: usize) -> spec_fn(Token) -> bool {
    |t: Token| t.end <= point
}

/// The tokens of `toks` kept before a rescan from `point`: those ending at or
/// before it.
pub open spec fn kept_tokens(toks: Seq<Token>, point: usize) -> Seq<Token> {
    toks.filter(ends_by(point))
}

/// What a relex for an edit spanning `t` gives: the tokens of `previous`
/// that end by the rescan point, then the tokens scanned from that point up
/// to the first one that `previous` also has (the recomputed ones), then the
/// tokens of `previous` from that one on, moved by the edit's shift.
pub open spec fn relexed(r: TokenStream, previous: TokenStream, text: Seq<char>, t: (usize, usize, usize)) -> bool {
    let point = rescan_point(previous.tokens@, t.0);
    let kept = kept_tokens(previous.tokens@, point);
    let sc = rescanned(text, point);
    &&& kept.len() + r.work.items_recomputed <= r.tokens@.len()
    &&& forall|i: int| 0 <= i < kept.len() ==> same_token(#[trigger] r.tokens@[i], kept[i])
    &&& r.work.items_recomputed <= sc.len()
    &&& forall|i: int| 0 <= i < r.work.items_recomputed ==> {
        let tok = #[trigger] r.tokens@[kept.len() + i];
        &&& tok.kind == sc[i].0
        &&& tok.start == sc[i].1
        &&& tok.end == sc[i].2
        &&& tok.lexeme@ == text.subrange(sc[i].1, sc[i].2)
    }
    &&& forall|i: int| 0 <= i < r.work.items_recomputed ==> !cuts_at(previous.tokens@, #[trigger] sc[i], text, t)
    &&& exists|m: int| #[trigger] tail_matches(
        r.tokens@,
        kept.len() + r.work.items_recomputed,
        previous.tokens@,
        m,
        (t.2 as isize).wrapping_sub(t.1 as isize),
    ) && reuse_from(previous.tokens@, sc, text, t, r.work.items_recomputed as int, m)
        && r.work.items_reused == (if kept.len() + (previous.tokens@.len() - m) <= usize::MAX {
            (kept.len() + (previous.tokens@.len() - m)) as usize
        } else {
            usize::MAX
        })
}

/// The reusing relex is kept whenever it agrees with a full lex: then the
/// result records the edit's span and is that relex (kept prefix, rescanned
/// middle, reused tail, and the reuse counted).
pub open spec fn relex_kept(r: TokenStream, previous: TokenStream, text: Seq<char>, d: DeltaModel) -> bool {
    match span_of(d) {
        Some(t) => (exists|a: TokenStream| #[trigger] relexed(a, previous, text, t) && keys_of_text(a.tokens@, text)) ==> {
            &&& r.edit == Some(EditSpan { old_start: t.0, old_end: t.1, new_start: t.0, new_end: t.2 })
            &&& relexed(r, previous, text, t)
        },
        None => true,
    }
}

/// Two relexes of the same edit have the same tokens, up to their ids.
pub proof fn lemma_relexed_keys(a: TokenStream, b: TokenStream, previous: TokenStream, text: Seq<char>, t: (usize, usize, usize))
    requires
        relexed(a, previous, text, t),
        relexed(b, previous, text, t),
    ensures
        same_token_keys(a.tokens@, b.tokens@),
{
    let prev = previous.tokens@;
    let point = rescan_point(prev, t.0);
    let kept = kept_tokens(prev, point);
    let sc = rescanned(text, point);
    let shift = (t.2 as isize).wrapping_sub(t.1 as isize);
    let ra = a.work.items_recomputed as int;
    let rb = b.work.items_recomputed as int;
    let ma = choose|m: int| #[trigger] tail_matches(a.tokens@, kept.len() + a.work.items_recomputed, prev, m, shift)
        && reuse_from(prev, sc, text, t, ra, m)
        && a.work.items_reused == (if kept.len() + (prev.len() - m) <= usize::MAX {
            (kept.len() + (prev.len() - m)) as usize
        } else {
            usize::MAX
        });
    let mb = choose|m: int| #[trigger] tail_matches(b.tokens@, kept.len() + b.work.items_recomputed, prev, m, shift)
        && reuse_from(prev, sc, text, t, rb, m)
        && b.work.items_reused == (if kept.len() + (prev.len() - m) <= usize::MAX {
            (kept.len() + (prev.len() - m)) as usize
        } else {
            usize::MAX
        });
    if ra < rb {
        assert(!cuts_at(prev, sc[ra], text, t));
    }
    if rb < ra {
        assert(!cuts_at(prev, sc[rb], text, t));
    }
    assert(ra == rb);
    if ra < sc.len() {
        let ja = choose|j: int| #[trigger] first_twin(prev, j, sc[ra], text, t) && first_with_id(prev, ma, prev[j].id);
        let jb = choose|j: int| #[trigger] first_twin(prev, j, sc[rb], text, t) && first_with_id(prev, mb, prev[j].id);
        if ja < jb {
            assert(!sc_twin(prev[ja], sc[ra], text, t));
        }
        if jb < ja {
            assert(!sc_twin(prev[jb], sc[ra], text, t));
        }
        assert(ja == jb);
        if ma < mb {
            assert(prev[ma].id != prev[ja].id);
        }
        if mb < ma {
            assert(prev[mb].id != prev[ja].id);
        }
    }
    assert(ma == mb);
    let at = kept.len() + ra;
    assert forall|k: int| 0 <= k < a.tokens@.len() implies {
        &&& (#[trigger] a.tokens@[k]).kind == b.tokens@[k].kind
        &&& a.tokens@[k].lexeme@ == b.tokens@[k].lexeme@
        &&& a.tokens@[k].start == b.tokens@[k].start
    } by {
        if k < kept.len() {
            assert(same_token(a.tokens@[k], kept[k]));
            assert(same_token(b.tokens@[k], kept[k]));
        } else if k < at {
            let i = k - kept.len();
            assert(a.tokens@[kept.len() + i] == a.tokens@[k]);
            assert(b.tokens@[kept.len() + i] == b.tokens@[k]);
        } else {
            let i = k - at;
            assert(a.tokens@[at + i] == a.tokens@[k]);
            assert(b.tokens@[at + i] == b.tokens@[k]);
            assert(is_shifted_copy(a.tokens@[at + i], prev[ma + i], shift));
            assert(is_shifted_copy(b.tokens@[at + i], prev[ma + i], shift));
        }
    }
}

/// The tokens a rescan from `point` finds: none when `point` lies beyond
/// the text's length (as a machine word).
pub open spec fn rescanned(text: Seq<char>, point: usize) -> Seq<(TokenKind, int, int)> {
    if point <= (utf8(text).len() as usize) {
        scan_from(utf8(text), point as int)
    } else {
        Seq::empty()
    }
}

/// `p` moved by the shift of the edit `t` has the kind, start and text of the
/// scanned token `e`.
pub open spec fn sc_twin(p: Token, e: (TokenKind, int, int), text: Seq<char>, t: (usize, usize, usize)) -> bool {
    &&& (p.start as isize).wrapping_add((t.2 as isize).wrapping_sub(t.1 as isize)) == e.1 as isize
    &&& p.kind == e.0
    &&& p.lexeme@ == text.subrange(e.1, e.2)
}

/// The rescan stops at the scanned token `e`: it starts at or after the end
/// of the edit and the previous stream has it, moved by the edit's shift.
pub open spec fn cuts_at(prev: Seq<Token>, e: (TokenKind, int, int), text: Seq<char>, t: (usize, usize, usize)) -> bool {
    &&& e.1 >= t.2
    &&& exists|j: int| 0 <= j < prev.len() && #[trigger] sc_twin(prev[j], e, text, t)
}

/// `j` is the first token of `prev` that is the twin of `e`.
pub open spec fn first_twin(prev: Seq<Token>, j: int, e: (TokenKind, int, int), text: Seq<char>, t: (usize, usize, usize)) -> bool {
    &&& 0 <= j < prev.len()
    &&& sc_twin(prev[j], e, text, t)
    &&& forall|j2: int| 0 <= j2 < j ==> !#[trigger] sc_twin(prev[j2], e, text, t)
}

/// `m` is the first position of `prev` holding a token with id `id`.
pub open spec fn first_with_id(prev: Seq<Token>, m: int, id: TokenId) -> bool {
    &&& 0 <= m < prev.len()
    &&& prev[m].id == id
    &&& forall|m2: int| 0 <= m2 < m ==> (#[trigger] prev[m2]).id != id
}

/// Where the reused tail starts: when the rescan stopped at the scanned
/// token `rec`, at the first token of `prev` with the id of that token's
/// first twin; when it never stopped, nowhere.
pub open spec fn reuse_from(prev: Seq<Token>, sc: Seq<(TokenKind, int, int)>, text: Seq<char>, t: (usize, usize, usize), rec: int, m: int) -> bool {
    if rec < sc.len() {
        &&& cuts_at(prev, sc[rec], text, t)
        &&& exists|j: int| #[trigger] first_twin(prev, j, sc[rec], text, t) && first_with_id(prev, m, prev[j].id)
    } else {
        m == prev.len()
    }
}

/// From position `at` on, `toks` holds the tokens of `prev` from `m` on,
/// each moved by `shift` bytes.
pub open spec fn tail_matches(toks: Seq<Token>, at: int, prev: Seq<Token>, m: int, shift: isize) -> bool {
    &&& 0 <= m <= prev.len()
    &&& toks.len() == at + (prev.len() - m)
    &&& forall|i: int| 0 <= i < prev.len() - m ==> is_shifted_copy(#[trigger] toks[at + i], prev[m + i], shift)
}

/// `a` is `b` moved by `shift` bytes.
pub open spec fn is_shifted_copy(a: Token, b: Token, shift: isize) -> bool {
    &&& a.id == b.id
    &&& a.kind == b.kind
    &&& a.start == (b.start as isize).wrapping_add(shift) as usize
    &&& a.end == (b.end as isize).wrapping_add(shift) as usize
    &&& a.lexeme@ == b.lexeme@
}

/// Two tokens agree in every field, texts by their characters.
pub open spec fn same_token(a: Token, b: Token) -> bool {
    &&& a.id == b.id
    &&& a.kind == b.kind
    &&& a.start == b.start
    &&& a.end == b.end
    &&& a.lexeme@ == b.lexeme@
}

/// The relex that reuses `previous`: tokens before the edit are kept, the text
/// is rescanned from the last token that starts at or before the edit, and
/// the rescan stops at the first token after the edit that the previous
/// stream also has (moved by the edit's shift), whose tail is then reused.
fn lex_attempt(text: &str, previous: &TokenStream, delta: &Delta) -> (r: TokenStream)
    requires
        is_ascii_chars(text@),
    ensures
        span_of(delta@) is None ==> tokens_of_text(r.tokens@, text@, 1)
            && r.next_id == (1 + r.tokens@.len()) % 0x1_0000_0000_0000_0000
            && r.work == full_lex_work(text@.len(), r.tokens@.len())
            && r.edit is None,
        span_of(delta@) matches Some(t) ==> r.edit == Some(EditSpan { old_start: t.0, old_end: t.1, new_start: t.0, new_end: t.2 })
            && r.work.items_total == r.tokens@.len()
            && r.work.items_recomputed <= r.tokens@.len(),
        span_of(delta@) is Some ==> forall|k: int| 0 <= k < r.tokens@.len() ==> (#[trigger] r.tokens@[k]).id.0 < r.next_id || r.next_id == u64::MAX,
        span_of(delta@) matches Some(t) ==> relexed(r, *previous, text@, t),
{
    let (edit_start, old_end, new_end) = match delta_span(delta) {
        Some(t) => t,
        None => return lex_full(text),
    };
    let edit = EditSpan { old_start: edit_start, old_end, new_start: edit_start, new_end };
    let shift: isize = (new_end as isize).wrapping_sub(old_end as isize);

    let mut rescan_from: usize = 0;
    let mut found = false;
    let mut k: usize = previous.tokens.len();
    proof {
        assert(previous.tokens@.take(k as int) =~= previous.tokens@);
    }
    while k > 0 && !found
        invariant
            k <= previous.tokens@.len(),
            rescan_point(previous.tokens@, edit_start) == (if found {
                rescan_from
            } else {
                rescan_point(previous.tokens@.take(k as int), edit_start)
            }),
            !found ==> rescan_from == 0,
        decreases k,
    {
        proof {
            assert(previous.tokens@.take(k as int).drop_last() =~= previous.tokens@.take(k - 1));
            assert(previous.tokens@.take(k as int).last() == previous.tokens@[k - 1]);
        }
        k = k - 1;
        if previous.tokens[k].start <= edit_start {
            rescan_from = previous.tokens[k].start;
            found = true;
        }
    }
    proof {
        if !found {
            assert(previous.tokens@.take(0) =~= Seq::<Token>::empty());
        }
    }

    let mut tokens: Vec<Token> = Vec::new();
    let mut k: usize = 0;
    proof {
        assert(previous.tokens@.take(0) =~= Seq::<Token>::empty());
    }
    while k < previous.tokens.len()
        invariant
            k <= previous.tokens@.len(),
            tokens@.len() == kept_tokens(previous.tokens@.take(k as int), rescan_from).len(),
            forall|i: int| 0 <= i < tokens@.len() ==> same_token(#[trigger] tokens@[i], kept_tokens(previous.tokens@.take(k as int), rescan_from)[i]),
        decreases previous.tokens@.len() - k,
    {
        let ghost before = tokens@;
        proof {
            assert(previous.tokens@.take(k + 1) =~= previous.tokens@.take(k as int).push(previous.tokens@[k as int]));
            previous.tokens@.take(k as int).lemma_filter_push(previous.tokens@[k as int], ends_by(rescan_from));
        }
        if previous.tokens[k].end <= rescan_from {
            tokens.push(previous.tokens[k].duplicate());
            proof {
                assert forall|i: int| 0 <= i < tokens@.len() implies same_token(#[trigger] tokens@[i], kept_tokens(previous.tokens@.take(k + 1), rescan_from)[i]) by {
                    if i < before.len() {
                        assert(tokens@[i] == before[i]);
                    }
                }
            }
        }
        k = k + 1;
    }
    proof {
        assert(previous.tokens@.take(k as int) =~= previous.tokens@);
    }
    let ghost kept_len = tokens@.len();
    let ghost kept_prefix = tokens@;

    let mut next_id = previous.next_id;
    let text_len = text.len();
    proof {
        assert(utf8(text@).len() == text@.len());
    }
    let (mut scanned, bytes) = if rescan_from <= text_len {
        scan(text, rescan_from, &mut next_id)
    } else {
        (Vec::new(), 0)
    };

    let ghost sc = rescanned(text@, rescan_from);
    let ghost tt = (edit_start, old_end, new_end);
    proof {
        assert(text_len == (utf8(text@).len() as usize));
    }
    let mut reused_suffix: Vec<Token> = Vec::new();
    let mut cut = scanned.len();
    let ghost mut from: int = previous.tokens@.len() as int;
    let ghost mut found = false;
    let mut i: usize = 0;
    while i < scanned.len()
        invariant
            i <= scanned@.len(),
            scanned@.len() == sc.len(),
            forall|k: int| 0 <= k < scanned@.len() ==> {
                &&& (#[trigger] scanned@[k]).kind == sc[k].0
                &&& scanned@[k].start == sc[k].1
                &&& scanned@[k].end == sc[k].2
                &&& scanned@[k].lexeme@ == text@.subrange(sc[k].1, sc[k].2)
            },
            shift == (tt.2 as isize).wrapping_sub(tt.1 as isize),
            tt.2 == new_end,
            cut <= scanned@.len(),
            0 <= from <= previous.tokens@.len(),
            reused_suffix@.len() == previous.tokens@.len() - from,
            forall|q: int| 0 <= q < reused_suffix@.len() ==> is_shifted_copy(#[trigger] reused_suffix@[q], previous.tokens@[from + q], shift),
            forall|i2: int| 0 <= i2 < (if found { cut as int } else { i as int }) ==> !cuts_at(previous.tokens@, #[trigger] sc[i2], text@, tt),
            !found ==> cut == scanned@.len() && from == previous.tokens@.len(),
            found ==> i == cut,
            found ==> reuse_from(previous.tokens@, sc, text@, tt, cut as int, from),
        ensures
            found || i >= scanned@.len(),
        decreases scanned@.len() - i,
    {
        let ghost tok = scanned@[i as int];
        proof {
            assert(tok.kind == sc[i as int].0 && tok.start == sc[i as int].1 && tok.lexeme@ == text@.subrange(sc[i as int].1, sc[i as int].2));
            assert forall|j: int| 0 <= j < previous.tokens@.len() implies moved_to(#[trigger] previous.tokens@[j], tok, shift)
                == sc_twin(previous.tokens@[j], sc[i as int], text@, tt) by {}
        }
        if scanned[i].start >= new_end {
            if let Some(j) = find_moved(previous, &scanned[i], shift) {
                cut = i;
                let old_id = previous.tokens[j].id;
                let mut m: usize = 0;
                while m < previous.tokens.len() && previous.tokens[m].id != old_id
                    invariant
                        m <= j < previous.tokens@.len(),
                        previous.tokens@[j as int].id == old_id,
                        forall|m2: int| 0 <= m2 < m ==> (#[trigger] previous.tokens@[m2]).id != old_id,
                    decreases previous.tokens@.len() - m,
                {
                    m = m + 1;
                }
                proof {
                    assert(first_twin(previous.tokens@, j as int, sc[i as int], text@, tt)) by {
                        assert forall|j2: int| 0 <= j2 < j implies !#[trigger] sc_twin(previous.tokens@[j2], sc[i as int], text@, tt) by {
                            assert(!moved_to(previous.tokens@[j2], tok, shift));
                        }
                    }
                    assert(first_with_id(previous.tokens@, m as int, previous.tokens@[j as int].id));
                    assert(cuts_at(previous.tokens@, sc[i as int], text@, tt));
                }
                reused_suffix = Vec::new();
                proof {
                    from = m as int;
                    found = true;
                    assert(reuse_from(previous.tokens@, sc, text@, tt, cut as int, from));
                }
                while m < previous.tokens.len()
                    invariant
                        from <= m <= previous.tokens@.len(),
                        0 <= from,
                        reused_suffix@.len() == m - from,
                        forall|q: int| 0 <= q < reused_suffix@.len() ==> is_shifted_copy(#[trigger] reused_suffix@[q], previous.tokens@[from + q], shift),
                    decreases previous.tokens@.len() - m,
                {
                    reused_suffix.push(shifted_token(&previous.tokens[m], shift));
                    m = m + 1;
                }
                next_id = previous.next_id;
                proof {
                    assert forall|i2: int| 0 <= i2 < cut as int implies !cuts_at(previous.tokens@, #[trigger] sc[i2], text@, tt) by {
                        assert(i2 < i);
                    }
                }
                break;
            } else {
                proof {
                    assert(!cuts_at(previous.tokens@, sc[i as int], text@, tt)) by {
                        if cuts_at(previous.tokens@, sc[i as int], text@, tt) {
                            let j = choose|j: int| 0 <= j < previous.tokens@.len() && #[trigger] sc_twin(previous.tokens@[j], sc[i as int], text@, tt);
                            assert(moved_to(previous.tokens@[j], tok, shift));
                        }
                    }
                }
            }
        }
        i = i + 1;
    }
    let ghost full_scan = scanned@;
    let ghost scanned_len_before_cut = scanned@.len();
    scanned.truncate(cut);

    let recomputed = scanned.len();
    let ghost mid = scanned@;
    tokens.append(&mut scanned);
    let reused = tokens.len().saturating_sub(recomputed).saturating_add(reused_suffix.len());
    let ghost suffix_seq = reused_suffix@;
    tokens.append(&mut reused_suffix);
    proof {
        assert(tokens@ =~= kept_prefix + mid + suffix_seq);
        assert forall|q: int| 0 <= q < previous.tokens@.len() - from implies is_shifted_copy(
            #[trigger] tokens@[kept_len + recomputed + q], previous.tokens@[from + q], shift) by {
            assert(tokens@[kept_len + recomputed + q] == suffix_seq[q]);
        }
        assert(tail_matches(tokens@, kept_len + recomputed, previous.tokens@, from, shift));
        assert(kept_len == kept_tokens(previous.tokens@, rescan_point(previous.tokens@, edit_start)).len());
        assert(shift == (new_end as isize).wrapping_sub(old_end as isize));
        assert(tail_matches(
            tokens@,
            kept_tokens(previous.tokens@, rescan_point(previous.tokens@, edit_start)).len() + recomputed,
            previous.tokens@,
            from,
            (new_end as isize).wrapping_sub(old_end as isize),
        ));
        assert forall|i: int| 0 <= i < kept_len implies tokens@[i] == kept_prefix[i] by {}
        assert forall|i: int| 0 <= i < recomputed implies #[trigger] tokens@[kept_len + i] == full_scan[i] by {
            assert(mid[i] == full_scan[i]);
        }
    }

    let mut max_id: u64 = 0;
    let mut k: usize = 0;
    while k < tokens.len()
        invariant
            k <= tokens@.len(),
            forall|j: int| 0 <= j < k ==> (#[trigger] tokens@[j]).id.0 <= max_id,
        decreases tokens@.len() - k,
    {
        if tokens[k].id.0 > max_id {
            max_id = tokens[k].id.0;
        }
        k = k + 1;
    }
    let bump = max_id.saturating_add(1);
    let next_id = if bump > next_id { bump } else { next_id };
    let total = tokens.len();
    let r = TokenStream {
        tokens,
        next_id,
        work: WorkMetrics {
            bytes_processed: bytes,
            allocations_hint: 0,
            items_reused: reused,
            items_recomputed: recomputed,
            items_invalidated: 0,
            items_total: total,
            hashing_nanos: DurationNanos(0),
        },
        edit: Some(edit),
    };
    proof {
        let t = (edit_start, old_end, new_end);
        let point = rescan_point(previous.tokens@, t.0);
        let kept = kept_tokens(previous.tokens@, point);
        let sc = rescanned(text@, point);
        assert(point == rescan_from);
        assert(kept.len() == kept_len);
        assert forall|i: int| 0 <= i < kept.len() implies same_token(#[trigger] r.tokens@[i], kept[i]) by {
            assert(r.tokens@[i] == kept_prefix[i]);
        }
        assert forall|i: int| 0 <= i < r.work.items_recomputed implies {
            let tok = #[trigger] r.tokens@[kept.len() + i];
            &&& tok.kind == sc[i].0
            &&& tok.start == sc[i].1
            &&& tok.end == sc[i].2
            &&& tok.lexeme@ == text@.subrange(sc[i].1, sc[i].2)
        } by {
            assert(r.tokens@[kept_len + i] == full_scan[i]);
        }
        assert(kept.len() + r.work.items_recomputed <= r.tokens@.len());
        assert(point > text@.len() ==> r.work.items_recomputed == 0);
        assert(r.work.items_recomputed <= sc.len());
        assert(tail_matches(r.tokens@, kept.len() + r.work.items_recomputed, previous.tokens@, from, (t.2 as isize).wrapping_sub(t.1 as isize)));
        assert(r.work.items_recomputed == cut);
        if !found {
            assert(cut == scanned_len_before_cut);
        }
        assert forall|i2: int| 0 <= i2 < r.work.items_recomputed implies !cuts_at(previous.tokens@, #[trigger] sc[i2], text@, t) by {}
        assert(reuse_from(previous.tokens@, sc, text@, t, r.work.items_recomputed as int, from));
        assert(r.work.items_reused == (if kept.len() + (previous.tokens@.len() - from) <= usize::MAX {
            (kept.len() + (previous.tokens@.len() - from)) as usize
        } else {
            usize::MAX
        }));
        assert(relexed(r, *previous, text@, t));
    }
    r
}

/// Relex `text` after `delta`, reusing what `previous` knew where it can. The
/// result always has the tokens of a full lex (kinds, texts and starts); when
/// the reusing relex would differ from the full one, the full one is returned.
pub fn lex_incremental(text: &str, previous: &TokenStream, delta: &Delta) -> (r: Result<TokenStream, Error>)
    requires
        is_ascii_chars(text@),
    ensures
        r matches Ok(ts) && keys_of_text(ts.tokens@, text@),
        span_of(delta@) is None ==> (r matches Ok(ts) && tokens_of_text(ts.tokens@, text@, 1)
            && ts.next_id == (1 + ts.tokens@.len()) % 0x1_0000_0000_0000_0000
            && ts.work == full_lex_work(text@.len(), ts.tokens@.len())
            && ts.edit is None),
        r matches Ok(ts) && relex_kept(ts, *previous, text@, delta@),
{
    let attempted = lex_attempt(text, previous, delta);
    let full = lex_full(text);
    proof {
        if let Some(t) = span_of(delta@) {
            if exists|a: TokenStream| #[trigger] relexed(a, *previous, text@, t) && keys_of_text(a.tokens@, text@) {
                let a = choose|a: TokenStream| #[trigger] relexed(a, *previous, text@, t) && keys_of_text(a.tokens@, text@);
                lemma_relexed_keys(attempted, a, *previous, text@, t);
                assert(same_token_keys(attempted.tokens@, full.tokens@));
            }
        }
    }
    if attempted.semantic_eq(&full) {
        Ok(attempted)
    } else {
        Ok(full)
    }
}

} // verus!
