use vstd::prelude::*;
use crate::lexer::{EditSpan, Token, TokenKind, TokenStream, clamp_shift, same_token, same_token_keys};
use crate::metrics::{DurationNanos, WorkMetrics};
use crate::range::ByteRange;
use crate::text::{append_decimal, append_str, decimal, owned};

verus! {

/// Identity of an AST node.
#[derive(Clone, Copy, Debug, PartialEq, Eq, Hash, Structural)]
pub struct AstId(pub u64);

impl Default for AstId {
    fn default() -> (a: AstId)
        ensures
            a.0 == 0,
    {
        AstId(0)
    }
}

#[derive(Debug)]
pub enum Expr {
    Ident { id: AstId, name: String, span: ByteRange },
    Number { id: AstId, value: i64, span: ByteRange },
    Binary { id: AstId, op: char, left: Box<Expr>, right: Box<Expr>, span: ByteRange },
}

#[derive(Debug)]
pub enum Stmt {
    Let { id: AstId, name: String, expr: Expr, span: ByteRange },
    Fn { id: AstId, name: String, body: Vec<Stmt>, span: ByteRange },
    Call { id: AstId, name: String, span: ByteRange },
}

/// An expression as a value: names as character sequences.
pub enum ExprModel {
    Ident { id: AstId, name: Seq<char>, span: ByteRange },
    Number { id: AstId, value: i64, span: ByteRange },
    Binary { id: AstId, op: char, left: Box<ExprModel>, right: Box<ExprModel>, span: ByteRange },
}

/// A statement as a value.
pub enum StmtModel {
    Let { id: AstId, name: Seq<char>, expr: ExprModel, span: ByteRange },
    Fn { id: AstId, name: Seq<char>, body: Seq<StmtModel>, span: ByteRange },
    Call { id: AstId, name: Seq<char>, span: ByteRange },
}

/// What two programs must share to be the same program: names, values,
/// operators and shape, without ids and spans.
pub enum ExprShape {
    Ident(Seq<char>),
    Number(i64),
    Binary(char, Box<ExprShape>, Box<ExprShape>),
}

pub enum StmtShape {
    Let(Seq<char>, ExprShape),
    Fn(Seq<char>, Seq<StmtShape>),
    Call(Seq<char>),
}

impl View for Expr {
    type V = ExprModel;

    open spec fn view(&self) -> ExprModel
        decreases self,
    {
        match self {
            Expr::Ident { id, name, span } => ExprModel::Ident { id: *id, name: name@, span: *span },
            Expr::Number { id, value, span } => ExprModel::Number { id: *id, value: *value, span: *span },
            Expr::Binary { id, op, left, right, span } => ExprModel::Binary {
                id: *id,
                op: *op,
                left: Box::new((**left)@),
                right: Box::new((**right)@),
                span: *span,
            },
        }
    }
}

/// The models of a sequence of statements.
pub open spec fn stmt_models(s: Seq<Stmt>) -> Seq<StmtModel>
    decreases s,
{
    if s.len() == 0 {
        Seq::empty()
    } else {
        seq![s[0]@] + stmt_models(s.drop_first())
    }
}

impl View for Stmt {
    type V = StmtModel;

    open spec fn view(&self) -> StmtModel
        decreases self,
    {
        match self {
            Stmt::Let { id, name, expr, span } => StmtModel::Let { id: *id, name: name@, expr: expr@, span: *span },
            Stmt::Fn { id, name, body, span } => StmtModel::Fn {
                id: *id,
                name: name@,
                body: stmt_models(body@),
                span: *span,
            },
            Stmt::Call { id, name, span } => StmtModel::Call { id: *id, name: name@, span: *span },
        }
    }
}

pub proof fn lemma_stmt_models(s: Seq<Stmt>)
    ensures
        stmt_models(s).len() == s.len(),
        forall|i: int| 0 <= i < s.len() ==> #[trigger] stmt_models(s)[i] == s[i]@,
    decreases s.len(),
{
    if s.len() > 0 {
        let rest = s.drop_first();
        lemma_stmt_models(rest);
        assert(stmt_models(s) == seq![s[0]@] + stmt_models(rest));
        assert forall|i: int| 0 <= i < s.len() implies #[trigger] stmt_models(s)[i] == s[i]@ by {
            if i > 0 {
                assert(rest[i - 1] == s[i]);
                assert(stmt_models(s)[i] == stmt_models(rest)[i - 1]);
            }
        }
    }
}

pub open spec fn expr_shape(e: ExprModel) -> ExprShape
    decreases e,
{
    match e {
        ExprModel::Ident { name, .. } => ExprShape::Ident(name),
        ExprModel::Number { value, .. } => ExprShape::Number(value),
        ExprModel::Binary { op, left, right, .. } => ExprShape::Binary(
            op,
            Box::new(expr_shape(*left)),
            Box::new(expr_shape(*right)),
        ),
    }
}

pub open spec fn stmt_shape(s: StmtModel) -> StmtShape
    decreases s,
{
    match s {
        StmtModel::Let { name, expr, .. } => StmtShape::Let(name, expr_shape(expr)),
        StmtModel::Fn { name, body, .. } => StmtShape::Fn(name, stmts_shape(body)),
        StmtModel::Call { name, .. } => StmtShape::Call(name),
    }
}

pub open spec fn stmts_shape(s: Seq<StmtModel>) -> Seq<StmtShape>
    decreases s,
{
    if s.len() == 0 {
        Seq::empty()
    } else {
        seq![stmt_shape(s[0])] + stmts_shape(s.drop_first())
    }
}

pub proof fn lemma_stmts_shape(s: Seq<StmtModel>)
    ensures
        stmts_shape(s).len() == s.len(),
        forall|i: int| 0 <= i < s.len() ==> #[trigger] stmts_shape(s)[i] == stmt_shape(s[i]),
    decreases s.len(),
{
    if s.len() > 0 {
        let rest = s.drop_first();
        lemma_stmts_shape(rest);
        assert(stmts_shape(s) == seq![stmt_shape(s[0])] + stmts_shape(rest));
        assert forall|i: int| 0 <= i < s.len() implies #[trigger] stmts_shape(s)[i] == stmt_shape(s[i]) by {
            if i > 0 {
                assert(rest[i - 1] == s[i]);
                assert(stmts_shape(s)[i] == stmts_shape(rest)[i - 1]);
            }
        }
    }
}

pub open spec fn expr_span(e: ExprModel) -> ByteRange {
    match e {
        ExprModel::Ident { span, .. } => span,
        ExprModel::Number { span, .. } => span,
        ExprModel::Binary { span, .. } => span,
    }
}

pub open spec fn stmt_span(s: StmtModel) -> ByteRange {
    match s {
        StmtModel::Let { span, .. } => span,
        StmtModel::Fn { span, .. } => span,
        StmtModel::Call { span, .. } => span,
    }
}

pub open spec fn stmt_id(s: StmtModel) -> AstId {
    match s {
        StmtModel::Let { id, .. } => id,
        StmtModel::Fn { id, .. } => id,
        StmtModel::Call { id, .. } => id,
    }
}

pub open spec fn expr_id(e: ExprModel) -> AstId {
    match e {
        ExprModel::Ident { id, .. } => id,
        ExprModel::Number { id, .. } => id,
        ExprModel::Binary { id, .. } => id,
    }
}

// ----- numbers -----

pub open spec fn is_dec(c: char) -> bool {
    '0' <= c <= '9'
}

pub open spec fn all_dec(s: Seq<char>) -> bool {
    forall|i: int| 0 <= i < s.len() ==> is_dec(#[trigger] s[i])
}

/// Value of a run of decimal digits.
pub open spec fn dec_value(s: Seq<char>) -> nat
    decreases s.len(),
{
    if s.len() == 0 {
        0
    } else {
        dec_value(s.drop_last()) * 10 + ((s.last() as int - 48) as nat)
    }
}

/// `i64::from_str`: an optional sign and one or more decimal digits whose
/// value fits.
pub open spec fn parse_i64(s: Seq<char>) -> Option<i64> {
    if s.len() > 0 && (s[0] == '-' || s[0] == '+') {
        let d = s.drop_first();
        let v: int = if s[0] == '-' { -dec_value(d) } else { dec_value(d) as int };
        if d.len() > 0 && all_dec(d) && i64::MIN <= v <= i64::MAX {
            Some(v as i64)
        } else {
            None
        }
    } else if s.len() > 0 && all_dec(s) && dec_value(s) <= i64::MAX {
        Some(dec_value(s) as i64)
    } else {
        None
    }
}

// ----- the parser as a function of the tokens -----

/// Where a parse stands: the next token, the next node id, errors so far.
pub struct ParseState {
    pub i: int,
    pub next: u64,
    pub errors: Seq<Seq<char>>,
}

pub open spec fn wrap_next(n: u64) -> u64 {
    ((n + 1) % 0x1_0000_0000_0000_0000) as u64
}

pub open spec fn with_error(st: ParseState, m: Seq<char>) -> ParseState {
    ParseState { errors: st.errors.push(m), ..st }
}

pub open spec fn advanced(st: ParseState) -> ParseState {
    ParseState { i: st.i + 1, ..st }
}

pub open spec fn allocated(st: ParseState) -> ParseState {
    ParseState { next: wrap_next(st.next), ..st }
}

/// Skip one token when there is one.
pub open spec fn skip(toks: Seq<Token>, st: ParseState) -> ParseState {
    if 0 <= st.i < toks.len() { advanced(st) } else { st }
}

pub open spec fn msg_unexpected(lexeme: Seq<char>, start: nat) -> Seq<char> {
    "unexpected token '"@ + lexeme + "' at "@ + decimal(start)
}

pub open spec fn msg_expected_expression(lexeme: Seq<char>) -> Seq<char> {
    "expected expression, got "@ + lexeme
}

pub open spec fn msg_expected_ident() -> Seq<char> {
    "expected identifier after let"@
}

pub open spec fn msg_expected_eq() -> Seq<char> {
    "expected '='"@
}

pub open spec fn msg_expected_semi() -> Seq<char> {
    "expected ';'"@
}

/// A primary expression: an identifier or a number.
pub open spec fn primary_s(toks: Seq<Token>, st: ParseState) -> (Option<ExprModel>, ParseState) {
    if !(0 <= st.i < toks.len()) {
        (None, st)
    } else {
        let t = toks[st.i];
        let st1 = advanced(st);
        match t.kind {
            TokenKind::Ident => (
                Some(ExprModel::Ident { id: AstId(st1.next), name: t.lexeme@, span: ByteRange { start: t.start, end: t.end } }),
                allocated(st1),
            ),
            TokenKind::Number => (
                Some(ExprModel::Number {
                    id: AstId(st1.next),
                    value: match parse_i64(t.lexeme@) { Some(v) => v, None => 0 },
                    span: ByteRange { start: t.start, end: t.end },
                }),
                allocated(st1),
            ),
            _ => (None, with_error(st1, msg_expected_expression(t.lexeme@))),
        }
    }
}

/// The `+`/`-` chain that continues after `left`, folded to the left.
pub open spec fn expr_rest_s(toks: Seq<Token>, left: ExprModel, st: ParseState) -> (Option<ExprModel>, ParseState)
    decreases toks.len() - st.i,
{
    if 0 <= st.i < toks.len() && (toks[st.i].kind == TokenKind::Plus || toks[st.i].kind == TokenKind::Minus) {
        let op = if toks[st.i].kind == TokenKind::Plus { '+' } else { '-' };
        let (r, st2) = primary_s(toks, advanced(st));
        match r {
            None => (None, st2),
            Some(right) => {
                let node = ExprModel::Binary {
                    id: AstId(st2.next),
                    op,
                    left: Box::new(left),
                    right: Box::new(right),
                    span: ByteRange { start: expr_span(left).start, end: expr_span(right).end },
                };
                expr_rest_s(toks, node, allocated(st2))
            },
        }
    } else {
        (Some(left), st)
    }
}

pub open spec fn expr_s(toks: Seq<Token>, st: ParseState) -> (Option<ExprModel>, ParseState) {
    let (l, st1) = primary_s(toks, st);
    match l {
        None => (None, st1),
        Some(left) => expr_rest_s(toks, left, st1),
    }
}

/// `let <ident> = <expr> ;`
pub open spec fn let_s(toks: Seq<Token>, st: ParseState) -> (Option<StmtModel>, ParseState) {
    if !(0 <= st.i < toks.len()) {
        (None, st)
    } else {
        let start = toks[st.i].start;
        let st1 = advanced(st);
        if !(st1.i < toks.len()) {
            (None, st1)
        } else {
            let nt = toks[st1.i];
            let st2 = advanced(st1);
            if nt.kind != TokenKind::Ident {
                (None, with_error(st2, msg_expected_ident()))
            } else if !(st2.i < toks.len()) {
                (None, st2)
            } else {
                let st3 = advanced(st2);
                if toks[st2.i].kind != TokenKind::Eq {
                    (None, with_error(st3, msg_expected_eq()))
                } else {
                    let (e, st4) = expr_s(toks, st3);
                    match e {
                        None => (None, st4),
                        Some(expr) => {
                            let (end, st5) = if 0 <= st4.i < toks.len() {
                                if toks[st4.i].kind == TokenKind::Semi {
                                    (toks[st4.i].end, advanced(st4))
                                } else {
                                    (toks[st4.i].end, with_error(advanced(st4), msg_expected_semi()))
                                }
                            } else {
                                (expr_span(expr).end, st4)
                            };
                            (
                                Some(StmtModel::Let { id: AstId(st5.next), name: nt.lexeme@, expr, span: ByteRange { start, end } }),
                                allocated(st5),
                            )
                        },
                    }
                }
            }
        }
    }
}

/// `<ident> ( ) ;` with the three tokens after the name taken as they come.
pub open spec fn call_s(toks: Seq<Token>, st: ParseState) -> (Option<StmtModel>, ParseState) {
    if !(0 <= st.i < toks.len()) {
        (None, st)
    } else {
        let nt = toks[st.i];
        let st2 = skip(toks, skip(toks, advanced(st)));
        let (end, st3) = if 0 <= st2.i < toks.len() { (toks[st2.i].end, advanced(st2)) } else { (nt.end, st2) };
        (
            Some(StmtModel::Call { id: AstId(st3.next), name: nt.lexeme@, span: ByteRange { start: nt.start, end } }),
            allocated(st3),
        )
    }
}

/// One statement, chosen by its first token.
pub open spec fn stmt_s(toks: Seq<Token>, st: ParseState) -> (Option<StmtModel>, ParseState)
    decreases toks.len() - st.i, 1nat,
{
    if !(0 <= st.i < toks.len()) {
        (None, st)
    } else {
        let t = toks[st.i];
        match t.kind {
            TokenKind::Let => let_s(toks, st),
            TokenKind::Fn => fn_s(toks, st),
            TokenKind::Ident => call_s(toks, st),
            _ => (None, advanced(with_error(st, msg_unexpected(t.lexeme@, t.start as nat)))),
        }
    }
}

/// `fn <ident> ( ) { <stmts> }` with the three tokens after the name taken as
/// they come.
pub open spec fn fn_s(toks: Seq<Token>, st: ParseState) -> (Option<StmtModel>, ParseState)
    decreases toks.len() - st.i, 0nat,
{
    if !(0 <= st.i < toks.len()) {
        (None, st)
    } else {
        let start = toks[st.i].start;
        let st1 = advanced(st);
        if !(st1.i < toks.len()) {
            (None, st1)
        } else {
            let nt = toks[st1.i];
            let st3 = skip(toks, skip(toks, skip(toks, advanced(st1))));
            let (body, st4) = stmts_s(toks, Some(TokenKind::RBrace), st3);
            let (end, st5) = if 0 <= st4.i < toks.len() {
                (toks[st4.i].end, advanced(st4))
            } else if body.len() > 0 {
                (stmt_span(body.last()).end, st4)
            } else {
                (start, st4)
            };
            (
                Some(StmtModel::Fn { id: AstId(st5.next), name: nt.lexeme@, body, span: ByteRange { start, end } }),
                allocated(st5),
            )
        }
    }
}

/// Statements up to the end of the tokens, a token of kind `until`, or the
/// first statement that does not parse.
pub open spec fn stmts_s(toks: Seq<Token>, until: Option<TokenKind>, st: ParseState) -> (Seq<StmtModel>, ParseState)
    decreases toks.len() - st.i, 2nat,
{
    if !(0 <= st.i < toks.len()) {
        (Seq::empty(), st)
    } else if until matches Some(k) && toks[st.i].kind == k {
        (Seq::empty(), st)
    } else {
        let (s, st1) = stmt_s(toks, st);
        match s {
            None => (Seq::empty(), st1),
            Some(x) => if st.i < st1.i <= toks.len() {
                let (rest, st2) = stmts_s(toks, until, st1);
                (seq![x] + rest, st2)
            } else {
                (seq![x], st1)
            },
        }
    }
}

pub open spec fn initial_state() -> ParseState {
    ParseState { i: 0, next: 1, errors: Seq::empty() }
}

/// The statements and final state of parsing all of `toks`.
pub open spec fn parsed(toks: Seq<Token>) -> (Seq<StmtModel>, ParseState) {
    stmts_s(toks, None, initial_state())
}


// ----- only kinds, texts and starts of tokens decide a program's shape -----

pub open spec fn opt_expr_shape(o: Option<ExprModel>) -> Option<ExprShape> {
    match o {
        Some(e) => Some(expr_shape(e)),
        None => None,
    }
}

pub open spec fn opt_stmt_shape(o: Option<StmtModel>) -> Option<StmtShape> {
    match o {
        Some(s) => Some(stmt_shape(s)),
        None => None,
    }
}

proof fn lemma_shape_cons(x: StmtModel, r: Seq<StmtModel>)
    ensures
        stmts_shape(seq![x] + r) == seq![stmt_shape(x)] + stmts_shape(r),
{
    let s = seq![x] + r;
    assert(s[0] == x);
    assert(s.drop_first() =~= r);
}

proof fn cong_primary(t1: Seq<Token>, t2: Seq<Token>, st: ParseState)
    requires
        same_token_keys(t1, t2),
    ensures
        primary_s(t1, st).1 == primary_s(t2, st).1,
        opt_expr_shape(primary_s(t1, st).0) == opt_expr_shape(primary_s(t2, st).0),
{
    if 0 <= st.i < t1.len() {
        assert(t1[st.i].kind == t2[st.i].kind);
    }
}

proof fn cong_rest(t1: Seq<Token>, t2: Seq<Token>, l1: ExprModel, l2: ExprModel, st: ParseState)
    requires
        same_token_keys(t1, t2),
        expr_shape(l1) == expr_shape(l2),
    ensures
        expr_rest_s(t1, l1, st).1 == expr_rest_s(t2, l2, st).1,
        opt_expr_shape(expr_rest_s(t1, l1, st).0) == opt_expr_shape(expr_rest_s(t2, l2, st).0),
    decreases t1.len() - st.i,
{
    if 0 <= st.i < t1.len() {
        assert(t1[st.i].kind == t2[st.i].kind);
        if t1[st.i].kind == TokenKind::Plus || t1[st.i].kind == TokenKind::Minus {
            cong_primary(t1, t2, advanced(st));
            let (r1, st2) = primary_s(t1, advanced(st));
            let (r2, _) = primary_s(t2, advanced(st));
            if r1 is Some {
                let op = if t1[st.i].kind == TokenKind::Plus { '+' } else { '-' };
                let right1 = r1.unwrap();
                let right2 = r2.unwrap();
                let n1 = ExprModel::Binary {
                    id: AstId(st2.next),
                    op,
                    left: Box::new(l1),
                    right: Box::new(right1),
                    span: ByteRange { start: expr_span(l1).start, end: expr_span(right1).end },
                };
                let n2 = ExprModel::Binary {
                    id: AstId(st2.next),
                    op,
                    left: Box::new(l2),
                    right: Box::new(right2),
                    span: ByteRange { start: expr_span(l2).start, end: expr_span(right2).end },
                };
                assert(expr_shape(n1) == expr_shape(n2));
                cong_rest(t1, t2, n1, n2, allocated(st2));
            }
        }
    }
}

proof fn cong_expr(t1: Seq<Token>, t2: Seq<Token>, st: ParseState)
    requires
        same_token_keys(t1, t2),
    ensures
        expr_s(t1, st).1 == expr_s(t2, st).1,
        opt_expr_shape(expr_s(t1, st).0) == opt_expr_shape(expr_s(t2, st).0),
{
    cong_primary(t1, t2, st);
    let (l1, st1) = primary_s(t1, st);
    let (l2, _) = primary_s(t2, st);
    if l1 is Some {
        cong_rest(t1, t2, l1.unwrap(), l2.unwrap(), st1);
    }
}

proof fn cong_let(t1: Seq<Token>, t2: Seq<Token>, st: ParseState)
    requires
        same_token_keys(t1, t2),
    ensures
        let_s(t1, st).1 == let_s(t2, st).1,
        opt_stmt_shape(let_s(t1, st).0) == opt_stmt_shape(let_s(t2, st).0),
{
    if 0 <= st.i < t1.len() && st.i + 1 < t1.len() {
        assert(t1[st.i + 1].kind == t2[st.i + 1].kind);
        if t1[st.i + 1].kind == TokenKind::Ident && st.i + 2 < t1.len() {
            assert(t1[st.i + 2].kind == t2[st.i + 2].kind);
            let st3 = advanced(advanced(advanced(st)));
            cong_expr(t1, t2, st3);
            let (e1, st4) = expr_s(t1, st3);
            if e1 is Some && 0 <= st4.i < t1.len() {
                assert(t1[st4.i].kind == t2[st4.i].kind);
            }
        }
    }
}

proof fn cong_call(t1: Seq<Token>, t2: Seq<Token>, st: ParseState)
    requires
        same_token_keys(t1, t2),
    ensures
        call_s(t1, st).1 == call_s(t2, st).1,
        opt_stmt_shape(call_s(t1, st).0) == opt_stmt_shape(call_s(t2, st).0),
{
    if 0 <= st.i < t1.len() {
        assert(t1[st.i].lexeme@ == t2[st.i].lexeme@);
    }
}

proof fn cong_stmt(t1: Seq<Token>, t2: Seq<Token>, st: ParseState)
    requires
        same_token_keys(t1, t2),
    ensures
        stmt_s(t1, st).1 == stmt_s(t2, st).1,
        opt_stmt_shape(stmt_s(t1, st).0) == opt_stmt_shape(stmt_s(t2, st).0),
    decreases t1.len() - st.i, 1nat,
{
    if 0 <= st.i < t1.len() {
        assert(t1[st.i].kind == t2[st.i].kind);
        match t1[st.i].kind {
            TokenKind::Let => cong_let(t1, t2, st),
            TokenKind::Fn => cong_fn(t1, t2, st),
            TokenKind::Ident => cong_call(t1, t2, st),
            _ => {},
        }
    }
}

proof fn cong_fn(t1: Seq<Token>, t2: Seq<Token>, st: ParseState)
    requires
        same_token_keys(t1, t2),
    ensures
        fn_s(t1, st).1 == fn_s(t2, st).1,
        opt_stmt_shape(fn_s(t1, st).0) == opt_stmt_shape(fn_s(t2, st).0),
    decreases t1.len() - st.i, 0nat,
{
    if 0 <= st.i < t1.len() && st.i + 1 < t1.len() {
        assert(t1[st.i + 1].lexeme@ == t2[st.i + 1].lexeme@);
        let st3 = skip(t1, skip(t1, skip(t1, advanced(advanced(st)))));
        assert(st3 == skip(t2, skip(t2, skip(t2, advanced(advanced(st))))));
        cong_stmts(t1, t2, Some(TokenKind::RBrace), st3);
    }
}

proof fn cong_stmts(t1: Seq<Token>, t2: Seq<Token>, until: Option<TokenKind>, st: ParseState)
    requires
        same_token_keys(t1, t2),
    ensures
        stmts_s(t1, until, st).1 == stmts_s(t2, until, st).1,
        stmts_shape(stmts_s(t1, until, st).0) == stmts_shape(stmts_s(t2, until, st).0),
    decreases t1.len() - st.i, 2nat,
{
    if 0 <= st.i < t1.len() {
        assert(t1[st.i].kind == t2[st.i].kind);
        if !(until matches Some(k) && t1[st.i].kind == k) {
            cong_stmt(t1, t2, st);
            let (s1, st1) = stmt_s(t1, st);
            let (s2, _) = stmt_s(t2, st);
            if s1 is Some && st.i < st1.i <= t1.len() {
                cong_stmts(t1, t2, until, st1);
                lemma_shape_cons(s1.unwrap(), stmts_s(t1, until, st1).0);
                lemma_shape_cons(s2.unwrap(), stmts_s(t2, until, st1).0);
            } else if s1 is Some {
                lemma_shape_cons(s1.unwrap(), Seq::empty());
                lemma_shape_cons(s2.unwrap(), Seq::empty());
                assert(seq![s1.unwrap()] =~= seq![s1.unwrap()] + Seq::<StmtModel>::empty());
                assert(seq![s2.unwrap()] =~= seq![s2.unwrap()] + Seq::<StmtModel>::empty());
            }
        }
    }
}

/// Parsing depends on the tokens' kinds, texts and starts alone: tokens that
/// agree on those give programs of the same shape with the same errors.
pub proof fn law_parse_respects_token_keys(t1: Seq<Token>, t2: Seq<Token>)
    requires
        same_token_keys(t1, t2),
    ensures
        stmts_shape(parsed(t1).0) == stmts_shape(parsed(t2).0),
        parsed(t1).1 == parsed(t2).1,
{
    cong_stmts(t1, t2, None, initial_state());
}


// ----- executable parser -----

/// The texts of a sequence of strings.
pub open spec fn texts(s: Seq<String>) -> Seq<Seq<char>> {
    s.map_values(|x: String| x@)
}

pub open spec fn opt_expr_view(o: Option<Expr>) -> Option<ExprModel> {
    match o {
        Some(e) => Some(e@),
        None => None,
    }
}

pub open spec fn opt_stmt_view(o: Option<Stmt>) -> Option<StmtModel> {
    match o {
        Some(s) => Some(s@),
        None => None,
    }
}

proof fn lemma_stmt_models_push(s: Seq<Stmt>, x: Stmt)
    ensures
        stmt_models(s.push(x)) == stmt_models(s).push(x@),
{
    lemma_stmt_models(s);
    lemma_stmt_models(s.push(x));
    assert(stmt_models(s.push(x)) =~= stmt_models(s).push(x@));
}

/// Value of the decimal digits of `s`, or `None` when a digit is missing or
/// the value does not fit.
fn parse_i64_str(s: &str) -> (r: Option<i64>)
    ensures
        r == parse_i64(s@),
{
    let n = s.unicode_len();
    if n == 0 {
        return None;
    }
    let c0 = s.get_char(0);
    let signed = c0 == '-' || c0 == '+';
    let from: usize = if signed { 1 } else { 0 };
    let ghost d = if signed { s@.drop_first() } else { s@ };
    if from == n {
        return None;
    }
    let mut acc: u64 = 0;
    let mut k: usize = from;
    let mut overflow = false;
    while k < n
        invariant
            from <= k <= n,
            n == s@.len(),
            n > 0,
            c0 == s@[0],
            signed == (c0 == '-' || c0 == '+'),
            d == (if signed { s@.drop_first() } else { s@ }),
            from == (if signed { 1int } else { 0int }),
            d == s@.subrange(from as int, n as int),
            all_dec(s@.subrange(from as int, k as int)),
            !overflow ==> acc == dec_value(s@.subrange(from as int, k as int)),
            overflow ==> dec_value(s@.subrange(from as int, k as int)) > u64::MAX,
        decreases n - k,
    {
        let c = s.get_char(k);
        if !('0' <= c && c <= '9') {
            proof {
                assert(d[k - from] == c);
                assert(!is_dec(d[k - from]));
                assert(!all_dec(d));
                if signed {
                    assert(s@[0] == '-' || s@[0] == '+');
                    assert(d == s@.drop_first());
                } else {
                    assert(!(s@[0] == '-' || s@[0] == '+'));
                    assert(d == s@);
                }
            }
            return None;
        }
        let dv = (c as u32 - 48) as u64;
        let ghost pre = s@.subrange(from as int, k as int);
        let ghost cur = s@.subrange(from as int, k + 1);
        proof {
            assert(cur.drop_last() =~= pre);
            assert(cur.last() == c);
            assert(dec_value(cur) == dec_value(pre) * 10 + dv);
            assert(all_dec(cur)) by {
                assert forall|i: int| 0 <= i < cur.len() implies is_dec(#[trigger] cur[i]) by {
                    if i < pre.len() {
                        assert(cur[i] == pre[i]);
                    }
                }
            }
        }
        if !overflow {
            match acc.checked_mul(10) {
                Some(m) => match m.checked_add(dv) {
                    Some(v) => {
                        acc = v;
                    },
                    None => {
                        overflow = true;
                    },
                },
                None => {
                    overflow = true;
                    proof {
                        assert(dec_value(pre) * 10 > u64::MAX);
                    }
                },
            }
        } else {
            proof {
                assert(dec_value(pre) * 10 + dv >= dec_value(pre)) by (nonlinear_arith)
                    requires dv >= 0, dec_value(pre) >= 0;
            }
        }
        k = k + 1;
    }
    proof {
        assert(s@.subrange(from as int, n as int) == d);
    }
    if overflow {
        return None;
    }
    if c0 == '-' {
        if acc <= 9223372036854775808 {
            if acc == 9223372036854775808 {
                Some(i64::MIN)
            } else {
                Some(-(acc as i64))
            }
        } else {
            None
        }
    } else if acc <= 9223372036854775807 {
        Some(acc as i64)
    } else {
        None
    }
}

impl Expr {
    pub fn id(&self) -> (r: AstId)
        ensures
            r == expr_id(self@),
    {
        match self {
            Expr::Ident { id, .. } => *id,
            Expr::Number { id, .. } => *id,
            Expr::Binary { id, .. } => *id,
        }
    }

    pub fn span(&self) -> (r: ByteRange)
        ensures
            r == expr_span(self@),
    {
        match self {
            Expr::Ident { span, .. } => *span,
            Expr::Number { span, .. } => *span,
            Expr::Binary { span, .. } => *span,
        }
    }
}

impl Stmt {
    pub fn id(&self) -> (r: AstId)
        ensures
            r == stmt_id(self@),
    {
        match self {
            Stmt::Let { id, .. } => *id,
            Stmt::Fn { id, .. } => *id,
            Stmt::Call { id, .. } => *id,
        }
    }

    pub fn span(&self) -> (r: ByteRange)
        ensures
            r == stmt_span(self@),
    {
        match self {
            Stmt::Let { span, .. } => *span,
            Stmt::Fn { span, .. } => *span,
            Stmt::Call { span, .. } => *span,
        }
    }

    pub fn name(&self) -> (r: &str)
        ensures
            r@ == stmt_name(self@),
    {
        match self {
            Stmt::Let { name, .. } => name.as_str(),
            Stmt::Fn { name, .. } => name.as_str(),
            Stmt::Call { name, .. } => name.as_str(),
        }
    }
}

pub open spec fn stmt_name(s: StmtModel) -> Seq<char> {
    match s {
        StmtModel::Let { name, .. } => name,
        StmtModel::Fn { name, .. } => name,
        StmtModel::Call { name, .. } => name,
    }
}

struct Parser {
    i: usize,
    next_id: u64,
    errors: Vec<String>,
}

impl Parser {
    spec fn state(&self) -> ParseState {
        ParseState { i: self.i as int, next: self.next_id, errors: texts(self.errors@) }
    }

    fn next_node_id(&mut self) -> (id: AstId)
        ensures
            id == AstId(old(self).next_id),
            final(self).state() == allocated(old(self).state()),
    {
        let id = AstId(self.next_id);
        self.next_id = self.next_id.wrapping_add(1);
        proof {
            assert(self.state() =~= allocated(old(self).state()));
        }
        id
    }

    fn error(&mut self, m: String)
        ensures
            final(self).state() == with_error(old(self).state(), m@),
    {
        self.errors.push(m);
        proof {
            assert(texts(self.errors@) =~= texts(old(self).errors@).push(m@));
            assert(self.state() =~= with_error(old(self).state(), m@));
        }
    }

    fn skip(&mut self, toks: &Vec<Token>)
        requires
            old(self).i <= toks@.len(),
        ensures
            final(self).state() == skip(toks@, old(self).state()),
            final(self).i <= toks@.len(),
    {
        if self.i < toks.len() {
            self.i = self.i + 1;
        }
    }

    fn parse_primary(&mut self, toks: &Vec<Token>) -> (r: Option<Expr>)
        requires
            old(self).i <= toks@.len(),
        ensures
            (opt_expr_view(r), final(self).state()) == primary_s(toks@, old(self).state()),
            old(self).i <= final(self).i <= toks@.len(),
    {
        if self.i >= toks.len() {
            return None;
        }
        let t = &toks[self.i];
        self.i = self.i + 1;
        match t.kind {
            TokenKind::Ident => {
                let id = self.next_node_id();
                Some(Expr::Ident { id, name: t.lexeme.clone(), span: ByteRange { start: t.start, end: t.end } })
            },
            TokenKind::Number => {
                let value = match parse_i64_str(t.lexeme.as_str()) {
                    Some(v) => v,
                    None => 0,
                };
                let id = self.next_node_id();
                Some(Expr::Number { id, value, span: ByteRange { start: t.start, end: t.end } })
            },
            _ => {
                let mut m = owned("expected expression, got ");
                append_str(&mut m, t.lexeme.as_str());
                self.error(m);
                None
            },
        }
    }

    fn parse_expr(&mut self, toks: &Vec<Token>) -> (r: Option<Expr>)
        requires
            old(self).i <= toks@.len(),
        ensures
            (opt_expr_view(r), final(self).state()) == expr_s(toks@, old(self).state()),
            old(self).i <= final(self).i <= toks@.len(),
    {
        let ghost st0 = self.state();
        let mut left = match self.parse_primary(toks) {
            Some(e) => e,
            None => return None,
        };
        while self.i < toks.len() && (toks[self.i].kind == TokenKind::Plus || toks[self.i].kind == TokenKind::Minus)
            invariant
                self.i <= toks@.len(),
                st0.i <= self.i,
                st0 == old(self).state(),
                expr_s(toks@, st0) == expr_rest_s(toks@, left@, self.state()),
            decreases toks@.len() - self.i,
        {
            let op = if toks[self.i].kind == TokenKind::Plus { '+' } else { '-' };
            self.i = self.i + 1;
            let right = match self.parse_primary(toks) {
                Some(e) => e,
                None => return None,
            };
            let span = ByteRange { start: left.span().start, end: right.span().end };
            let id = self.next_node_id();
            left = Expr::Binary { id, op, left: Box::new(left), right: Box::new(right), span };
        }
        Some(left)
    }

    fn parse_let(&mut self, toks: &Vec<Token>) -> (r: Option<Stmt>)
        requires
            old(self).i < toks@.len(),
        ensures
            (opt_stmt_view(r), final(self).state()) == let_s(toks@, old(self).state()),
            old(self).i < final(self).i <= toks@.len(),
    {
        assert(self.i < toks.len());
        let start = toks[self.i].start;
        self.i = self.i + 1;
        if self.i >= toks.len() {
            return None;
        }
        let nt = &toks[self.i];
        self.i = self.i + 1;
        if nt.kind != TokenKind::Ident {
            self.error(owned("expected identifier after let"));
            return None;
        }
        if self.i >= toks.len() {
            return None;
        }
        let eq_kind = toks[self.i].kind;
        self.i = self.i + 1;
        if eq_kind != TokenKind::Eq {
            self.error(owned("expected '='"));
            return None;
        }
        let expr = match self.parse_expr(toks) {
            Some(e) => e,
            None => return None,
        };
        let end = if self.i < toks.len() {
            let t = &toks[self.i];
            self.i = self.i + 1;
            if t.kind != TokenKind::Semi {
                self.error(owned("expected ';'"));
            }
            t.end
        } else {
            expr.span().end
        };
        let id = self.next_node_id();
        Some(Stmt::Let { id, name: nt.lexeme.clone(), expr, span: ByteRange { start, end } })
    }

    fn parse_call(&mut self, toks: &Vec<Token>) -> (r: Option<Stmt>)
        requires
            old(self).i < toks@.len(),
        ensures
            (opt_stmt_view(r), final(self).state()) == call_s(toks@, old(self).state()),
            old(self).i < final(self).i <= toks@.len(),
    {
        assert(self.i < toks.len());
        let nt = &toks[self.i];
        self.i = self.i + 1;
        self.skip(toks);
        self.skip(toks);
        let end = if self.i < toks.len() {
            let e = toks[self.i].end;
            self.i = self.i + 1;
            e
        } else {
            nt.end
        };
        let id = self.next_node_id();
        Some(Stmt::Call { id, name: nt.lexeme.clone(), span: ByteRange { start: nt.start, end } })
    }

    fn parse_stmt(&mut self, toks: &Vec<Token>) -> (r: Option<Stmt>)
        requires
            old(self).i < toks@.len(),
        ensures
            (opt_stmt_view(r), final(self).state()) == stmt_s(toks@, old(self).state()),
            old(self).i < final(self).i <= toks@.len(),
        decreases toks@.len() - old(self).i, 1nat,
    {
        assert(self.i < toks.len());
        let t = &toks[self.i];
        match t.kind {
            TokenKind::Let => self.parse_let(toks),
            TokenKind::Fn => self.parse_fn(toks),
            TokenKind::Ident => self.parse_call(toks),
            _ => {
                let mut m = owned("unexpected token '");
                append_str(&mut m, t.lexeme.as_str());
                append_str(&mut m, "' at ");
                append_decimal(&mut m, t.start as u128);
                proof {
                    assert(m@ =~= msg_unexpected(t.lexeme@, t.start as nat));
                }
                self.error(m);
                self.i = self.i + 1;
                None
            },
        }
    }

    fn parse_fn(&mut self, toks: &Vec<Token>) -> (r: Option<Stmt>)
        requires
            old(self).i < toks@.len(),
        ensures
            (opt_stmt_view(r), final(self).state()) == fn_s(toks@, old(self).state()),
            old(self).i < final(self).i <= toks@.len(),
        decreases toks@.len() - old(self).i, 0nat,
    {
        assert(self.i < toks.len());
        let start = toks[self.i].start;
        self.i = self.i + 1;
        if self.i >= toks.len() {
            return None;
        }
        let nt = &toks[self.i];
        self.i = self.i + 1;
        self.skip(toks);
        self.skip(toks);
        self.skip(toks);
        let body = self.parse_stmts_until(toks, Some(TokenKind::RBrace));
        let end = if self.i < toks.len() {
            let e = toks[self.i].end;
            self.i = self.i + 1;
            e
        } else if body.len() > 0 {
            proof {
                lemma_stmt_models(body@);
                assert(stmt_models(body@).last() == body@[body@.len() - 1]@);
            }
            body[body.len() - 1].span().end
        } else {
            start
        };
        let id = self.next_node_id();
        Some(Stmt::Fn { id, name: nt.lexeme.clone(), body, span: ByteRange { start, end } })
    }

    fn parse_stmts_until(&mut self, toks: &Vec<Token>, until: Option<TokenKind>) -> (r: Vec<Stmt>)
        requires
            old(self).i <= toks@.len(),
        ensures
            (stmt_models(r@), final(self).state()) == stmts_s(toks@, until, old(self).state()),
            old(self).i <= final(self).i <= toks@.len(),
        decreases toks@.len() - old(self).i, 2nat,
    {
        let ghost st0 = self.state();
        let mut stmts: Vec<Stmt> = Vec::new();
        let mut done = false;
        while !done && self.i < toks.len()
            invariant
                st0.i <= self.i <= toks@.len(),
                st0 == old(self).state(),
                !done ==> stmts_s(toks@, until, st0) == (
                    stmt_models(stmts@) + stmts_s(toks@, until, self.state()).0,
                    stmts_s(toks@, until, self.state()).1,
                ),
                done ==> stmts_s(toks@, until, st0) == (stmt_models(stmts@), self.state()),
            decreases toks@.len() - self.i, (if done { 0int } else { 1int }),
        {
            let stop = match until {
                Some(k) => toks[self.i].kind == k,
                None => false,
            };
            if stop {
                proof {
                    assert(stmt_models(stmts@) + Seq::<StmtModel>::empty() =~= stmt_models(stmts@));
                }
                done = true;
            } else {
                let ghost st = self.state();
                let ghost pre = stmts@;
                match self.parse_stmt(toks) {
                    Some(s) => {
                        stmts.push(s);
                        proof {
                            lemma_stmt_models_push(pre, s);
                            let rest = stmts_s(toks@, until, self.state());
                            assert(stmts_s(toks@, until, st) == (seq![s@] + rest.0, rest.1));
                            assert(stmt_models(pre) + (seq![s@] + rest.0) =~= stmt_models(stmts@) + rest.0);
                        }
                    },
                    None => {
                        proof {
                            assert(stmt_models(stmts@) + Seq::<StmtModel>::empty() =~= stmt_models(stmts@));
                        }
                        done = true;
                    },
                }
            }
        }
        proof {
            if !done {
                assert(stmt_models(stmts@) + Seq::<StmtModel>::empty() =~= stmt_models(stmts@));
            }
        }
        stmts
    }
}


// ----- node ids -----

/// Ids of an expression tree, the node before its operands.
pub open spec fn expr_ids(e: ExprModel) -> Seq<AstId>
    decreases e,
{
    match e {
        ExprModel::Binary { id, left, right, .. } => seq![id] + expr_ids(*left) + expr_ids(*right),
        _ => seq![expr_id(e)],
    }
}

/// Ids of a statement tree, the statement before its parts.
pub open spec fn stmt_ids(s: StmtModel) -> Seq<AstId>
    decreases s,
{
    match s {
        StmtModel::Let { id, expr, .. } => seq![id] + expr_ids(expr),
        StmtModel::Fn { id, body, .. } => seq![id] + stmts_ids(body),
        StmtModel::Call { id, .. } => seq![id],
    }
}

pub open spec fn stmts_ids(ss: Seq<StmtModel>) -> Seq<AstId>
    decreases ss,
{
    if ss.len() == 0 {
        Seq::empty()
    } else {
        stmt_ids(ss[0]) + stmts_ids(ss.drop_first())
    }
}

/// Ids of the top-level statements.
pub open spec fn top_ids(ss: Seq<StmtModel>) -> Seq<u64> {
    ss.map_values(|s: StmtModel| stmt_id(s).0)
}

proof fn lemma_stmts_ids_skip(ss: Seq<StmtModel>, k: int)
    requires
        0 <= k < ss.len(),
    ensures
        stmts_ids(ss.skip(k)) == stmt_ids(ss[k]) + stmts_ids(ss.skip(k + 1)),
{
    let t = ss.skip(k);
    assert(t[0] == ss[k]);
    assert(t.drop_first() =~= ss.skip(k + 1));
}

impl Expr {
    /// Push the ids of this tree, the node before its operands.
    pub fn walk_ids(&self, out: &mut Vec<AstId>)
        ensures
            final(out)@ == old(out)@ + expr_ids(self@),
        decreases self,
    {
        out.push(self.id());
        match self {
            Expr::Binary { left, right, .. } => {
                let ghost mid = out@;
                left.walk_ids(out);
                right.walk_ids(out);
                proof {
                    assert(old(out)@ + expr_ids(self@) =~= old(out)@ + seq![expr_id(self@)] + expr_ids((**left)@) + expr_ids((**right)@));
                }
            },
            _ => {
                assert(old(out)@ + expr_ids(self@) =~= old(out)@.push(expr_id(self@)));
            },
        }
    }
}

fn walk_body(body: &Vec<Stmt>, out: &mut Vec<AstId>)
    ensures
        final(out)@ == old(out)@ + stmts_ids(stmt_models(body@)),
    decreases body,
{
    let ghost ms = stmt_models(body@);
    proof {
        lemma_stmt_models(body@);
        assert(ms.skip(0) =~= ms);
    }
    let mut k: usize = 0;
    while k < body.len()
        invariant
            k <= body@.len(),
            ms == stmt_models(body@),
            ms.len() == body@.len(),
            forall|i: int| 0 <= i < body@.len() ==> #[trigger] ms[i] == body@[i]@,
            old(out)@ + stmts_ids(ms) == out@ + stmts_ids(ms.skip(k as int)),
        decreases body@.len() - k,
    {
        proof {
            assert(decreases_to!(body => body@));
            assert(decreases_to!(body@ => body@[k as int]));
            lemma_stmts_ids_skip(ms, k as int);
        }
        let ghost pre = out@;
        body[k].walk_ids(out);
        proof {
            assert(pre + (stmt_ids(ms[k as int]) + stmts_ids(ms.skip(k + 1))) =~= out@ + stmts_ids(ms.skip(k + 1)));
        }
        k = k + 1;
    }
    proof {
        assert(ms.skip(k as int) =~= Seq::<StmtModel>::empty());
        assert(out@ + Seq::<AstId>::empty() =~= out@);
    }
}

impl Stmt {
    /// Push the ids of this tree, the statement before its parts.
    pub fn walk_ids(&self, out: &mut Vec<AstId>)
        ensures
            final(out)@ == old(out)@ + stmt_ids(self@),
        decreases self,
    {
        out.push(self.id());
        let ghost mid = out@;
        match self {
            Stmt::Let { expr, .. } => {
                expr.walk_ids(out);
                assert(old(out)@ + stmt_ids(self@) =~= mid + expr_ids(expr@));
            },
            Stmt::Fn { body, .. } => {
                walk_body(body, out);
                assert(old(out)@ + stmt_ids(self@) =~= mid + stmts_ids(stmt_models(body@)));
            },
            Stmt::Call { .. } => {
                assert(old(out)@ + stmt_ids(self@) =~= mid);
            },
        }
    }
}

/// Number of nodes in a statement tree.
fn count_nodes_stmt(stmt: &Stmt) -> (n: usize)
    ensures
        n == stmt_ids(stmt@).len(),
{
    let mut ids: Vec<AstId> = Vec::new();
    stmt.walk_ids(&mut ids);
    assert(ids@ =~= stmt_ids(stmt@));
    ids.len()
}

/// Number of nodes in a list of statement trees.
fn count_nodes(stmts: &Vec<Stmt>) -> (n: usize)
    ensures
        n == stmts_ids(stmt_models(stmts@)).len(),
{
    let mut ids: Vec<AstId> = Vec::new();
    walk_body(stmts, &mut ids);
    assert(ids@ =~= stmts_ids(stmt_models(stmts@)));
    ids.len()
}

// ----- programs -----

/// A parsed program: its statements, the syntax errors met, the next free
/// node id, the work spent, and the statements that were parsed anew.
#[derive(Debug)]
pub struct Program {
    pub id: AstId,
    pub stmts: Vec<Stmt>,
    pub errors: Vec<String>,
    pub next_id: u64,
    pub work: WorkMetrics,
    pub dirty_stmt_ids: Vec<u64>,
}

/// The shape of a program's statements.
pub open spec fn shape_of(p: Program) -> Seq<StmtShape> {
    stmts_shape(stmt_models(p.stmts@))
}

/// Two programs with the same statements (names, values, operators, shape)
/// and the same errors.
pub open spec fn same_program(a: Program, b: Program) -> bool {
    shape_of(a) == shape_of(b) && texts(a.errors@) == texts(b.errors@)
}

/// Work counters of a full parse of `nodes` statement nodes.
pub open spec fn full_parse_work(nodes: nat, bytes: usize) -> WorkMetrics {
    let n: usize = if nodes < usize::MAX { (nodes + 1) as usize } else { usize::MAX };
    WorkMetrics {
        bytes_processed: bytes,
        allocations_hint: 0,
        items_reused: 0,
        items_recomputed: n,
        items_invalidated: 0,
        items_total: n,
        hashing_nanos: DurationNanos(0),
    }
}

fn expr_eq(a: &Expr, b: &Expr) -> (r: bool)
    ensures
        r == (expr_shape(a@) == expr_shape(b@)),
    decreases a,
{
    match a {
        Expr::Ident { name: n1, .. } => match b {
            Expr::Ident { name: n2, .. } => {
                assert(expr_shape(a@) == ExprShape::Ident(n1@));
                assert(expr_shape(b@) == ExprShape::Ident(n2@));
                *n1 == *n2
            },
            _ => {
                assert(!(expr_shape(b@) is Ident));
                false
            },
        },
        Expr::Number { value: v1, .. } => match b {
            Expr::Number { value: v2, .. } => *v1 == *v2,
            _ => false,
        },
        Expr::Binary { op: o1, left: l1, right: r1, .. } => match b {
            Expr::Binary { op: o2, left: l2, right: r2, .. } => {
                let same_op = *o1 == *o2;
                let same_left = expr_eq(l1, l2);
                let same_right = expr_eq(r1, r2);
                proof {
                    let s1 = expr_shape(a@);
                    let s2 = expr_shape(b@);
                    if s1 == s2 {
                        assert(s1->Binary_0 == s2->Binary_0);
                        assert(s1->Binary_1 == s2->Binary_1);
                        assert(s1->Binary_2 == s2->Binary_2);
                    }
                }
                same_op && same_left && same_right
            },
            _ => false,
        },
    }
}

fn stmt_eq(a: &Stmt, b: &Stmt) -> (r: bool)
    ensures
        r == (stmt_shape(a@) == stmt_shape(b@)),
    decreases a,
{
    match a {
        Stmt::Let { name: n1, expr: e1, .. } => match b {
            Stmt::Let { name: n2, expr: e2, .. } => {
                assert(stmt_shape(a@) == StmtShape::Let(n1@, expr_shape(e1@)));
                assert(stmt_shape(b@) == StmtShape::Let(n2@, expr_shape(e2@)));
                let same_name = *n1 == *n2;
                let same_expr = expr_eq(e1, e2);
                same_name && same_expr
            },
            _ => {
                assert(!(stmt_shape(b@) is Let));
                false
            },
        },
        Stmt::Fn { name: n1, body: b1, .. } => match b {
            Stmt::Fn { name: n2, body: b2, .. } => {
                let same_name = *n1 == *n2;
                let same_body = bodies_eq(b1, b2);
                same_name && same_body
            },
            _ => false,
        },
        Stmt::Call { name: n1, .. } => match b {
            Stmt::Call { name: n2, .. } => *n1 == *n2,
            _ => false,
        },
    }
}

fn bodies_eq(b1: &Vec<Stmt>, b2: &Vec<Stmt>) -> (r: bool)
    ensures
        r == (stmts_shape(stmt_models(b1@)) == stmts_shape(stmt_models(b2@))),
    decreases b1,
{
    proof {
        lemma_stmt_models(b1@);
        lemma_stmt_models(b2@);
        lemma_stmts_shape(stmt_models(b1@));
        lemma_stmts_shape(stmt_models(b2@));
    }
    if b1.len() != b2.len() {
        return false;
    }
    let mut k: usize = 0;
    while k < b1.len()
        invariant
            b1@.len() == b2@.len(),
            k <= b1@.len(),
            stmts_shape(stmt_models(b1@)).len() == b1@.len(),
            stmts_shape(stmt_models(b2@)).len() == b2@.len(),
            forall|i: int| 0 <= i < b1@.len() ==> #[trigger] stmts_shape(stmt_models(b1@))[i] == stmt_shape(b1@[i]@),
            forall|i: int| 0 <= i < b2@.len() ==> #[trigger] stmts_shape(stmt_models(b2@))[i] == stmt_shape(b2@[i]@),
            forall|i: int| 0 <= i < k ==> stmt_shape(#[trigger] b1@[i]@) == stmt_shape(b2@[i]@),
        decreases b1@.len() - k,
    {
        proof {
            assert(decreases_to!(b1 => b1@));
            assert(decreases_to!(b1@ => b1@[k as int]));
        }
        if !stmt_eq(&b1[k], &b2[k]) {
            proof {
                assert(stmts_shape(stmt_models(b1@))[k as int] != stmts_shape(stmt_models(b2@))[k as int]);
            }
            return false;
        }
        k = k + 1;
    }
    proof {
        assert(stmts_shape(stmt_models(b1@)) =~= stmts_shape(stmt_models(b2@)));
    }
    true
}

fn texts_eq(a: &Vec<String>, b: &Vec<String>) -> (r: bool)
    ensures
        r == (texts(a@) == texts(b@)),
{
    if a.len() != b.len() {
        proof {
            assert(texts(a@).len() != texts(b@).len());
        }
        return false;
    }
    let mut k: usize = 0;
    while k < a.len()
        invariant
            a@.len() == b@.len(),
            k <= a@.len(),
            forall|i: int| 0 <= i < k ==> (#[trigger] a@[i])@ == b@[i]@,
        decreases a@.len() - k,
    {
        if a[k] != b[k] {
            proof {
                assert(texts(a@)[k as int] != texts(b@)[k as int]);
            }
            return false;
        }
        k = k + 1;
    }
    assert(texts(a@) =~= texts(b@));
    true
}

impl Program {
    /// The program's own id followed by the ids of every statement tree.
    pub fn all_ids(&self) -> (r: Vec<AstId>)
        ensures
            r@ == seq![self.id] + stmts_ids(stmt_models(self.stmts@)),
    {
        let mut ids: Vec<AstId> = Vec::new();
        ids.push(self.id);
        walk_body(&self.stmts, &mut ids);
        ids
    }

    /// Same statements (names, values, operators, shape; not ids or spans)
    /// and the same errors.
    pub fn semantic_eq(&self, other: &Program) -> (r: bool)
        ensures
            r == same_program(*self, *other),
    {
        bodies_eq(&self.stmts, &other.stmts) && texts_eq(&self.errors, &other.errors)
    }
}

fn top_stmt_ids(stmts: &Vec<Stmt>) -> (r: Vec<u64>)
    ensures
        r@ == top_ids(stmt_models(stmts@)),
{
    proof {
        lemma_stmt_models(stmts@);
    }
    let mut r: Vec<u64> = Vec::new();
    let mut k: usize = 0;
    while k < stmts.len()
        invariant
            k <= stmts@.len(),
            stmt_models(stmts@).len() == stmts@.len(),
            forall|i: int| 0 <= i < stmts@.len() ==> #[trigger] stmt_models(stmts@)[i] == stmts@[i]@,
            r@ =~= top_ids(stmt_models(stmts@)).take(k as int),
        decreases stmts@.len() - k,
    {
        r.push(stmts[k].id().0);
        k = k + 1;
    }
    assert(top_ids(stmt_models(stmts@)).take(k as int) =~= top_ids(stmt_models(stmts@)));
    r
}

/// Parse a whole token stream.
pub fn parse_full(tokens: &TokenStream) -> (p: Program)
    ensures
        p.id == AstId(0),
        stmt_models(p.stmts@) == parsed(tokens.tokens@).0,
        texts(p.errors@) == parsed(tokens.tokens@).1.errors,
        p.next_id == parsed(tokens.tokens@).1.next,
        p.dirty_stmt_ids@ == top_ids(stmt_models(p.stmts@)),
        p.work == full_parse_work(stmts_ids(stmt_models(p.stmts@)).len(), tokens.work.bytes_processed),
{
    let mut p = Parser { i: 0, next_id: 1, errors: Vec::new() };
    proof {
        assert(texts(p.errors@) =~= Seq::<Seq<char>>::empty());
        assert(p.state() == initial_state());
    }
    let stmts = p.parse_stmts_until(&tokens.tokens, None);
    let n = count_nodes(&stmts);
    let n1 = n.saturating_add(1);
    let dirty_stmt_ids = top_stmt_ids(&stmts);
    Program {
        id: AstId(0),
        stmts,
        errors: p.errors,
        next_id: p.next_id,
        work: WorkMetrics {
            bytes_processed: tokens.work.bytes_processed,
            allocations_hint: 0,
            items_reused: 0,
            items_recomputed: n1,
            items_invalidated: 0,
            items_total: n1,
            hashing_nanos: DurationNanos(0),
        },
        dirty_stmt_ids,
    }
}


// ----- incremental parse -----

fn copy_expr(e: &Expr) -> (r: Expr)
    ensures
        r@ == e@,
    decreases e,
{
    match e {
        Expr::Ident { id, name, span } => Expr::Ident { id: *id, name: name.clone(), span: *span },
        Expr::Number { id, value, span } => Expr::Number { id: *id, value: *value, span: *span },
        Expr::Binary { id, op, left, right, span } => Expr::Binary {
            id: *id,
            op: *op,
            left: Box::new(copy_expr(left)),
            right: Box::new(copy_expr(right)),
            span: *span,
        },
    }
}

/// A copy of a statement tree.
pub fn copy_stmt(s: &Stmt) -> (r: Stmt)
    ensures
        r@ == s@,
    decreases s,
{
    match s {
        Stmt::Let { id, name, expr, span } => Stmt::Let { id: *id, name: name.clone(), expr: copy_expr(expr), span: *span },
        Stmt::Fn { id, name, body, span } => Stmt::Fn { id: *id, name: name.clone(), body: copy_body(body), span: *span },
        Stmt::Call { id, name, span } => Stmt::Call { id: *id, name: name.clone(), span: *span },
    }
}

fn copy_body(body: &Vec<Stmt>) -> (r: Vec<Stmt>)
    ensures
        stmt_models(r@) == stmt_models(body@),
    decreases body,
{
    proof {
        lemma_stmt_models(body@);
    }
    let mut r: Vec<Stmt> = Vec::new();
    let mut k: usize = 0;
    while k < body.len()
        invariant
            k <= body@.len(),
            r@.len() == k,
            forall|i: int| 0 <= i < k ==> (#[trigger] r@[i])@ == body@[i]@,
        decreases body@.len() - k,
    {
        proof {
            assert(decreases_to!(body => body@));
            assert(decreases_to!(body@ => body@[k as int]));
        }
        r.push(copy_stmt(&body[k]));
        k = k + 1;
    }
    proof {
        lemma_stmt_models(r@);
        assert(stmt_models(r@) =~= stmt_models(body@));
    }
    r
}

/// A range moved by `shift` bytes, each end clamped at 0.
pub open spec fn shift_span(r: ByteRange, shift: isize) -> ByteRange {
    ByteRange { start: clamp_shift(r.start, shift), end: clamp_shift(r.end, shift) }
}

/// An expression with every span moved by `shift` bytes.
pub open spec fn shifted_expr(e: ExprModel, shift: isize) -> ExprModel
    decreases e,
{
    match e {
        ExprModel::Ident { id, name, span } => ExprModel::Ident { id, name, span: shift_span(span, shift) },
        ExprModel::Number { id, value, span } => ExprModel::Number { id, value, span: shift_span(span, shift) },
        ExprModel::Binary { id, op, left, right, span } => ExprModel::Binary {
            id,
            op,
            left: Box::new(shifted_expr(*left, shift)),
            right: Box::new(shifted_expr(*right, shift)),
            span: shift_span(span, shift),
        },
    }
}

/// A statement with every span in it moved by `shift` bytes.
pub open spec fn shifted_stmt(s: StmtModel, shift: isize) -> StmtModel
    decreases s,
{
    match s {
        StmtModel::Let { id, name, expr, span } => StmtModel::Let {
            id,
            name,
            expr: shifted_expr(expr, shift),
            span: shift_span(span, shift),
        },
        StmtModel::Fn { id, name, body, span } => StmtModel::Fn {
            id,
            name,
            body: shifted_body(body, shift),
            span: shift_span(span, shift),
        },
        StmtModel::Call { id, name, span } => StmtModel::Call { id, name, span: shift_span(span, shift) },
    }
}

/// Statements with every span moved by `shift` bytes.
pub open spec fn shifted_body(b: Seq<StmtModel>, shift: isize) -> Seq<StmtModel>
    decreases b,
{
    if b.len() == 0 {
        Seq::empty()
    } else {
        seq![shifted_stmt(b[0], shift)] + shifted_body(b.drop_first(), shift)
    }
}

proof fn lemma_shifted_body(b: Seq<StmtModel>, shift: isize)
    ensures
        shifted_body(b, shift).len() == b.len(),
        forall|i: int| 0 <= i < b.len() ==> #[trigger] shifted_body(b, shift)[i] == shifted_stmt(b[i], shift),
    decreases b.len(),
{
    if b.len() > 0 {
        let rest = b.drop_first();
        lemma_shifted_body(rest, shift);
        assert forall|i: int| 0 <= i < b.len() implies #[trigger] shifted_body(b, shift)[i] == shifted_stmt(b[i], shift) by {
            if i > 0 {
                assert(rest[i - 1] == b[i]);
                assert(shifted_body(b, shift)[i] == shifted_body(rest, shift)[i - 1]);
            }
        }
    }
}

/// A range moved by `shift` bytes, clamped at 0.
fn shift_range(range: ByteRange, shift: isize) -> (r: ByteRange)
    ensures
        r == shift_span(range, shift),
{
    let s = (range.start as isize).wrapping_add(shift);
    let e = (range.end as isize).wrapping_add(shift);
    ByteRange { start: if s < 0 { 0 } else { s as usize }, end: if e < 0 { 0 } else { e as usize } }
}

/// An expression tree with every span moved by `shift` bytes.
fn shift_expr(e: &Expr, shift: isize) -> (r: Expr)
    ensures
        r@ == shifted_expr(e@, shift),
    decreases e,
{
    match e {
        Expr::Ident { id, name, span } => Expr::Ident { id: *id, name: name.clone(), span: shift_range(*span, shift) },
        Expr::Number { id, value, span } => Expr::Number { id: *id, value: *value, span: shift_range(*span, shift) },
        Expr::Binary { id, op, left, right, span } => Expr::Binary {
            id: *id,
            op: *op,
            left: Box::new(shift_expr(left, shift)),
            right: Box::new(shift_expr(right, shift)),
            span: shift_range(*span, shift),
        },
    }
}

/// A statement tree with every span moved by `shift` bytes.
fn shift_stmt(s: &Stmt, shift: isize) -> (r: Stmt)
    ensures
        r@ == shifted_stmt(s@, shift),
    decreases s,
{
    match s {
        Stmt::Let { id, name, expr, span } => Stmt::Let {
            id: *id,
            name: name.clone(),
            expr: shift_expr(expr, shift),
            span: shift_range(*span, shift),
        },
        Stmt::Fn { id, name, body, span } => Stmt::Fn {
            id: *id,
            name: name.clone(),
            body: shift_body(body, shift),
            span: shift_range(*span, shift),
        },
        Stmt::Call { id, name, span } => Stmt::Call { id: *id, name: name.clone(), span: shift_range(*span, shift) },
    }
}

/// Statements with every span moved by `shift` bytes.
fn shift_body(body: &Vec<Stmt>, shift: isize) -> (r: Vec<Stmt>)
    ensures
        stmt_models(r@) == shifted_body(stmt_models(body@), shift),
    decreases body,
{
    let mut r: Vec<Stmt> = Vec::new();
    let mut k: usize = 0;
    while k < body.len()
        invariant
            k <= body@.len(),
            r@.len() == k,
            forall|i: int| 0 <= i < k ==> #[trigger] r@[i]@ == shifted_stmt(body@[i]@, shift),
        decreases body@.len() - k,
    {
        proof {
            assert(decreases_to!(body => body@));
            assert(decreases_to!(body@ => body@[k as int]));
        }
        r.push(shift_stmt(&body[k], shift));
        k = k + 1;
    }
    proof {
        lemma_stmt_models(r@);
        lemma_stmt_models(body@);
        lemma_shifted_body(stmt_models(body@), shift);
        assert(stmt_models(r@) =~= shifted_body(stmt_models(body@), shift));
    }
    r
}

/// `p` is the full parse of `tokens`, as `parse_full` gives it.
pub open spec fn is_full_parse(p: Program, tokens: TokenStream) -> bool {
    &&& p.id == AstId(0)
    &&& stmt_models(p.stmts@) == parsed(tokens.tokens@).0
    &&& texts(p.errors@) == parsed(tokens.tokens@).1.errors
    &&& p.next_id == parsed(tokens.tokens@).1.next
    &&& p.dirty_stmt_ids@ == top_ids(stmt_models(p.stmts@))
    &&& p.work == full_parse_work(stmts_ids(stmt_models(p.stmts@)).len(), tokens.work.bytes_processed)
}

/// How far an edit moves what follows it.
pub open spec fn edit_shift(e: EditSpan) -> isize {
    (e.new_end as isize).wrapping_sub(e.old_end as isize)
}

/// The statements of `prev` that end before an edit: kept as they are.
pub open spec fn kept_before(prev: Seq<StmtModel>, e: EditSpan) -> Seq<StmtModel> {
    prev.filter(ends_before(e))
}

/// A statement ends before the edit.
pub open spec fn ends_before(e: EditSpan) -> spec_fn(StmtModel) -> bool {
    |x: StmtModel| stmt_span(x).end <= e.old_start
}

/// A statement does not end before the edit, and starts after it.
pub open spec fn starts_after(e: EditSpan) -> spec_fn(StmtModel) -> bool {
    |x: StmtModel| !(stmt_span(x).end <= e.old_start) && stmt_span(x).start >= e.old_end && stmt_span(x).start > e.old_start
}

/// A statement moved by `shift`.
pub open spec fn moved_by(shift: isize) -> spec_fn(StmtModel) -> StmtModel {
    |x: StmtModel| shifted_stmt(x, shift)
}

/// The statements of `prev` that start after an edit: kept, moved by
/// `shift`.
pub open spec fn kept_after(prev: Seq<StmtModel>, e: EditSpan, shift: isize) -> Seq<StmtModel> {
    prev.filter(starts_after(e)).map_values(moved_by(shift))
}

/// Where the middle of a reparse starts: after the last statement kept
/// before the edit (or at 0).
pub open spec fn middle_start(kb: Seq<StmtModel>) -> usize {
    if kb.len() > 0 { stmt_span(kb.last()).end } else { 0 }
}

/// Where the middle of a reparse ends: at the first statement kept after
/// the edit (or nowhere).
pub open spec fn middle_end(ka: Seq<StmtModel>) -> usize {
    if ka.len() > 0 { stmt_span(ka[0]).start } else { usize::MAX }
}

/// A token starts within `[lo, hi)`.
pub open spec fn starts_within(lo: usize, hi: usize) -> spec_fn(Token) -> bool {
    |t: Token| lo <= t.start && t.start < hi
}

/// The tokens of the middle of a reparse.
pub open spec fn middle_tokens(toks: Seq<Token>, kb: Seq<StmtModel>, ka: Seq<StmtModel>) -> Seq<Token> {
    toks.filter(starts_within(middle_start(kb), middle_end(ka)))
}

/// The parse of the middle tokens `mt`, numbering nodes from `next`.
pub open spec fn middle_result(mt: Seq<Token>, next: u64) -> (Seq<StmtModel>, ParseState) {
    stmts_s(mt, None, ParseState { i: 0, next, errors: Seq::empty() })
}

/// The middle parses cleanly: it is empty, or it parses to its end without
/// an error.
pub open spec fn clean_middle(mt: Seq<Token>, next: u64) -> bool {
    mt.len() == 0 || (middle_result(mt, next).1.errors.len() == 0 && middle_result(mt, next).1.i == mt.len())
}

/// The statements of the middle.
pub open spec fn middle_stmts(mt: Seq<Token>, next: u64) -> Seq<StmtModel> {
    if mt.len() == 0 { Seq::empty() } else { middle_result(mt, next).0 }
}

/// The node id after the middle.
pub open spec fn middle_next(mt: Seq<Token>, next: u64) -> u64 {
    if mt.len() == 0 { next } else { middle_result(mt, next).1.next }
}

/// Node counts of statements, summed in order, saturating.
pub open spec fn sat_nodes(ss: Seq<StmtModel>) -> usize
    decreases ss.len(),
{
    if ss.len() == 0 {
        0
    } else {
        let a = sat_nodes(ss.drop_last());
        let b = stmt_ids(ss.last()).len();
        if a + b <= usize::MAX { (a + b) as usize } else { usize::MAX }
    }
}

/// The reusing reparse of `tokens` after an edit, given `previous`: the
/// statements before the edit kept, those after it kept and moved, and the
/// middle parsed anew from the tokens that lie between them (parsing cleanly),
/// with the reuse counted.
pub open spec fn reparsed(r: Program, tokens: TokenStream, previous: Program) -> bool {
    let e = tokens.edit->Some_0;
    let pm = stmt_models(previous.stmts@);
    let kb = kept_before(pm, e);
    let ka = kept_after(pm, e, edit_shift(e));
    &&& tokens.edit is Some
    &&& previous.stmts@.len() > 0
    &&& r.id == previous.id
    &&& r.errors@.len() == 0
    &&& exists|mt: Seq<Token>| #[trigger] same_token_keys(mt, middle_tokens(tokens.tokens@, kb, ka))
        && clean_middle(mt, previous.next_id)
        && stmt_models(r.stmts@) == kb + middle_stmts(mt, previous.next_id) + ka
        && r.next_id == middle_next(mt, previous.next_id)
        && r.dirty_stmt_ids@ == top_ids(middle_stmts(mt, previous.next_id))
        && r.work.items_reused == sat_nodes(kb + ka)
        && r.work.items_recomputed == sat_nodes(middle_stmts(mt, previous.next_id))
    &&& r.work.items_total == (if sat_nodes(stmt_models(r.stmts@)) < usize::MAX {
        (sat_nodes(stmt_models(r.stmts@)) + 1) as usize
    } else {
        usize::MAX
    })
    &&& r.work.bytes_processed == 0
    &&& r.work.items_invalidated == 0
}

/// The middle of a reparse parses cleanly.
pub open spec fn middle_is_clean(tokens: TokenStream, previous: Program) -> bool {
    let e = tokens.edit->Some_0;
    let pm = stmt_models(previous.stmts@);
    clean_middle(middle_tokens(tokens.tokens@, kept_before(pm, e), kept_after(pm, e, edit_shift(e))), previous.next_id)
}

/// Cleanliness and the shape of the middle depend on the tokens' keys alone.
proof fn lemma_middle_keys(m1: Seq<Token>, m2: Seq<Token>, next: u64)
    requires
        same_token_keys(m1, m2),
    ensures
        clean_middle(m1, next) == clean_middle(m2, next),
        stmts_shape(middle_stmts(m1, next)) == stmts_shape(middle_stmts(m2, next)),
{
    cong_stmts(m1, m2, None, ParseState { i: 0, next, errors: Seq::empty() });
}

proof fn lemma_stmts_shape_concat(a: Seq<StmtModel>, b: Seq<StmtModel>)
    ensures
        stmts_shape(a + b) == stmts_shape(a) + stmts_shape(b),
{
    lemma_stmts_shape(a);
    lemma_stmts_shape(b);
    lemma_stmts_shape(a + b);
    assert forall|i: int| 0 <= i < (a + b).len() implies #[trigger] stmts_shape(a + b)[i] == (stmts_shape(a) + stmts_shape(b))[i] by {
        if i < a.len() {
            assert((a + b)[i] == a[i]);
        } else {
            assert((a + b)[i] == b[i - a.len()]);
        }
    }
    assert(stmts_shape(a + b) =~= stmts_shape(a) + stmts_shape(b));
}

/// Two reusing reparses of the same edit have programs of the same shape.
proof fn lemma_reparsed_shape(a: Program, b: Program, tokens: TokenStream, previous: Program)
    requires
        reparsed(a, tokens, previous),
        reparsed(b, tokens, previous),
    ensures
        shape_of(a) == shape_of(b),
        texts(a.errors@) == texts(b.errors@),
{
    let e = tokens.edit->Some_0;
    let pm = stmt_models(previous.stmts@);
    let kb = kept_before(pm, e);
    let ka = kept_after(pm, e, edit_shift(e));
    let mid = middle_tokens(tokens.tokens@, kb, ka);
    let n = previous.next_id;
    let ma = choose|mt: Seq<Token>| #[trigger] same_token_keys(mt, mid) && clean_middle(mt, n)
        && stmt_models(a.stmts@) == kb + middle_stmts(mt, n) + ka && a.next_id == middle_next(mt, n)
        && a.dirty_stmt_ids@ == top_ids(middle_stmts(mt, n)) && a.work.items_reused == sat_nodes(kb + ka)
        && a.work.items_recomputed == sat_nodes(middle_stmts(mt, n));
    let mb = choose|mt: Seq<Token>| #[trigger] same_token_keys(mt, mid) && clean_middle(mt, n)
        && stmt_models(b.stmts@) == kb + middle_stmts(mt, n) + ka && b.next_id == middle_next(mt, n)
        && b.dirty_stmt_ids@ == top_ids(middle_stmts(mt, n)) && b.work.items_reused == sat_nodes(kb + ka)
        && b.work.items_recomputed == sat_nodes(middle_stmts(mt, n));
    assert(same_token_keys(ma, mb)) by {
        assert forall|k: int| 0 <= k < ma.len() implies {
            &&& (#[trigger] ma[k]).kind == mb[k].kind
            &&& ma[k].lexeme@ == mb[k].lexeme@
            &&& ma[k].start == mb[k].start
        } by {
            assert(ma[k].kind == mid[k].kind);
            assert(mb[k].kind == mid[k].kind);
        }
    }
    lemma_middle_keys(ma, mb, n);
    lemma_stmts_shape_concat(kb, middle_stmts(ma, n));
    lemma_stmts_shape_concat(kb + middle_stmts(ma, n), ka);
    lemma_stmts_shape_concat(kb, middle_stmts(mb, n));
    lemma_stmts_shape_concat(kb + middle_stmts(mb, n), ka);
    assert(texts(a.errors@) =~= texts(b.errors@));
}

proof fn lemma_stmt_models_concat(a: Seq<Stmt>, b: Seq<Stmt>)
    ensures
        stmt_models(a + b) == stmt_models(a) + stmt_models(b),
{
    lemma_stmt_models(a);
    lemma_stmt_models(b);
    lemma_stmt_models(a + b);
    assert forall|i: int| 0 <= i < (a + b).len() implies #[trigger] stmt_models(a + b)[i] == (stmt_models(a) + stmt_models(b))[i] by {
        if i < a.len() {
            assert((a + b)[i] == a[i]);
        } else {
            assert((a + b)[i] == b[i - a.len()]);
        }
    }
    assert(stmt_models(a + b) =~= stmt_models(a) + stmt_models(b));
}

/// The reparse that reuses `previous`: statements wholly before the edit are
/// kept, those wholly after it are kept and moved, and only the tokens in
/// between are parsed; when they do not parse cleanly the whole stream is.
fn parse_attempt(tokens: &TokenStream, previous: &Program) -> (r: Program)
    ensures
        tokens.edit is None || previous.stmts@.len() == 0 ==> is_full_parse(r, *tokens),
        tokens.edit is Some && previous.stmts@.len() > 0 ==> if middle_is_clean(*tokens, *previous) {
            reparsed(r, *tokens, *previous)
        } else {
            is_full_parse(r, *tokens)
        },
{
    let edit = match tokens.edit {
        Some(e) => e,
        None => return parse_full(tokens),
    };
    if previous.stmts.len() == 0 {
        return parse_full(tokens);
    }
    let shift: isize = (edit.new_end as isize).wrapping_sub(edit.old_end as isize);
    let mut prefix: Vec<Stmt> = Vec::new();
    let mut suffix: Vec<Stmt> = Vec::new();
    let ghost pm = stmt_models(previous.stmts@);
    proof {
        lemma_stmt_models(previous.stmts@);
        assert(pm.take(0) =~= Seq::<StmtModel>::empty());
        assert(stmt_models(prefix@) =~= kept_before(pm.take(0), edit));
        assert(stmt_models(suffix@) =~= kept_after(pm.take(0), edit, shift));
    }
    let mut k: usize = 0;
    while k < previous.stmts.len()
        invariant
            k <= previous.stmts@.len(),
            pm == stmt_models(previous.stmts@),
            pm.len() == previous.stmts@.len(),
            forall|i: int| 0 <= i < previous.stmts@.len() ==> #[trigger] pm[i] == previous.stmts@[i]@,
            shift == edit_shift(edit),
            stmt_models(prefix@) == kept_before(pm.take(k as int), edit),
            stmt_models(suffix@) == kept_after(pm.take(k as int), edit, shift),
        decreases previous.stmts@.len() - k,
    {
        let ghost before_p = prefix@;
        let ghost before_s = suffix@;
        proof {
            assert(pm.take(k + 1).drop_last() =~= pm.take(k as int));
            assert(pm.take(k + 1).last() == pm[k as int]);
        }
        let span = previous.stmts[k].span();
        if span.end <= edit.old_start {
            let c = copy_stmt(&previous.stmts[k]);
            prefix.push(c);
            proof {
                lemma_stmt_models_push(before_p, c);
            }
        } else if span.start >= edit.old_end && span.start > edit.old_start {
            let c = shift_stmt(&previous.stmts[k], shift);
            suffix.push(c);
            proof {
                lemma_stmt_models_push(before_s, c);
            }
        }
        proof {
            let prev_f = pm.take(k as int).filter(starts_after(edit));
            let next_f = pm.take(k + 1).filter(starts_after(edit));
            assert(pm.take(k + 1) =~= pm.take(k as int).push(pm[k as int]));
            pm.take(k as int).lemma_filter_push(pm[k as int], starts_after(edit));
            pm.take(k as int).lemma_filter_push(pm[k as int], ends_before(edit));
            if starts_after(edit)(pm[k as int]) {
                assert(next_f.map_values(moved_by(shift)) =~= prev_f.map_values(moved_by(shift)).push(moved_by(shift)(pm[k as int])));
            }
        }
        k = k + 1;
    }
    proof {
        assert(pm.take(k as int) =~= pm);
    }
    let ghost kb = kept_before(pm, edit);
    let ghost ka = kept_after(pm, edit, shift);
    proof {
        lemma_stmt_models(prefix@);
        lemma_stmt_models(suffix@);
    }
    let mid_start: usize = if prefix.len() > 0 { prefix[prefix.len() - 1].span().end } else { 0 };
    let mid_end: usize = if suffix.len() > 0 { suffix[0].span().start } else { usize::MAX };
    proof {
        if prefix@.len() > 0 {
            assert(kb.last() == prefix@[prefix@.len() - 1]@);
        }
        if suffix@.len() > 0 {
            assert(ka[0] == suffix@[0]@);
        }
        assert(mid_start == middle_start(kb));
        assert(mid_end == middle_end(ka));
        assert(tokens.tokens@.take(0) =~= Seq::<Token>::empty());
    }
    let mut mid_tokens: Vec<Token> = Vec::new();
    let mut k: usize = 0;
    while k < tokens.tokens.len()
        invariant
            k <= tokens.tokens@.len(),
            same_token_keys(mid_tokens@, tokens.tokens@.take(k as int).filter(starts_within(mid_start, mid_end))),
            forall|i: int| 0 <= i < mid_tokens@.len() ==> same_token(#[trigger] mid_tokens@[i], tokens.tokens@.take(k as int).filter(starts_within(mid_start, mid_end))[i]),
        decreases tokens.tokens@.len() - k,
    {
        let ghost before = mid_tokens@;
        proof {
            assert(tokens.tokens@.take(k + 1) =~= tokens.tokens@.take(k as int).push(tokens.tokens@[k as int]));
            tokens.tokens@.take(k as int).lemma_filter_push(tokens.tokens@[k as int], starts_within(mid_start, mid_end));
        }
        let t = &tokens.tokens[k];
        if t.start >= mid_start && t.start < mid_end {
            mid_tokens.push(t.duplicate());
            proof {
                assert forall|i: int| 0 <= i < mid_tokens@.len() implies same_token(#[trigger] mid_tokens@[i], tokens.tokens@.take(k + 1).filter(starts_within(mid_start, mid_end))[i]) by {
                    if i < before.len() {
                        assert(mid_tokens@[i] == before[i]);
                    }
                }
            }
        }
        proof {
            assert forall|i: int| 0 <= i < mid_tokens@.len() implies {
                &&& (#[trigger] mid_tokens@[i]).kind == tokens.tokens@.take(k + 1).filter(starts_within(mid_start, mid_end))[i].kind
                &&& mid_tokens@[i].lexeme@ == tokens.tokens@.take(k + 1).filter(starts_within(mid_start, mid_end))[i].lexeme@
                &&& mid_tokens@[i].start == tokens.tokens@.take(k + 1).filter(starts_within(mid_start, mid_end))[i].start
            } by {
                assert(same_token(mid_tokens@[i], tokens.tokens@.take(k + 1).filter(starts_within(mid_start, mid_end))[i]));
            }
        }
        k = k + 1;
    }
    proof {
        assert(tokens.tokens@.take(k as int) =~= tokens.tokens@);
        assert(same_token_keys(mid_tokens@, middle_tokens(tokens.tokens@, kb, ka)));
        lemma_middle_keys(mid_tokens@, middle_tokens(tokens.tokens@, kb, ka), previous.next_id);
    }

    let mut next_id = previous.next_id;
    let mut errors: Vec<String> = Vec::new();
    let mut mid: Vec<Stmt> = Vec::new();
    if mid_tokens.len() > 0 {
        let mut p = Parser { i: 0, next_id, errors: Vec::new() };
        proof {
            assert(texts(p.errors@) =~= Seq::<Seq<char>>::empty());
            assert(p.state() == ParseState { i: 0, next: previous.next_id, errors: Seq::empty() });
        }
        mid = p.parse_stmts_until(&mid_tokens, None);
        if p.errors.len() > 0 || p.i != mid_tokens.len() {
            proof {
                assert(!clean_middle(mid_tokens@, previous.next_id));
            }
            return parse_full(tokens);
        }
        proof {
            assert(clean_middle(mid_tokens@, previous.next_id));
        }
        errors = p.errors;
        next_id = p.next_id;
    }
    proof {
        assert(stmt_models(mid@) == middle_stmts(mid_tokens@, previous.next_id));
        assert(next_id == middle_next(mid_tokens@, previous.next_id));
        assert(kb.take(0) =~= Seq::<StmtModel>::empty());
    }

    let mut reused: usize = 0;
    let mut k: usize = 0;
    while k < prefix.len()
        invariant
            k <= prefix@.len(),
            stmt_models(prefix@) == kb,
            kb.len() == prefix@.len(),
            forall|i: int| 0 <= i < prefix@.len() ==> #[trigger] kb[i] == prefix@[i]@,
            reused == sat_nodes(kb.take(k as int)),
        decreases prefix@.len() - k,
    {
        proof {
            assert(kb.take(k + 1).drop_last() =~= kb.take(k as int));
        }
        reused = reused.saturating_add(count_nodes_stmt(&prefix[k]));
        k = k + 1;
    }
    proof {
        assert(kb.take(k as int) =~= kb);
        assert(kb + ka.take(0) =~= kb);
    }
    let mut k: usize = 0;
    while k < suffix.len()
        invariant
            k <= suffix@.len(),
            stmt_models(suffix@) == ka,
            ka.len() == suffix@.len(),
            forall|i: int| 0 <= i < suffix@.len() ==> #[trigger] ka[i] == suffix@[i]@,
            reused == sat_nodes(kb + ka.take(k as int)),
        decreases suffix@.len() - k,
    {
        proof {
            assert((kb + ka.take(k + 1)).drop_last() =~= kb + ka.take(k as int));
        }
        reused = reused.saturating_add(count_nodes_stmt(&suffix[k]));
        k = k + 1;
    }
    proof {
        assert(ka.take(k as int) =~= ka);
        lemma_stmt_models(mid@);
        assert(stmt_models(mid@).take(0) =~= Seq::<StmtModel>::empty());
    }
    let mut recomputed: usize = 0;
    let mut k: usize = 0;
    while k < mid.len()
        invariant
            k <= mid@.len(),
            stmt_models(mid@).len() == mid@.len(),
            forall|i: int| 0 <= i < mid@.len() ==> #[trigger] stmt_models(mid@)[i] == mid@[i]@,
            recomputed == sat_nodes(stmt_models(mid@).take(k as int)),
        decreases mid@.len() - k,
    {
        proof {
            assert(stmt_models(mid@).take(k + 1).drop_last() =~= stmt_models(mid@).take(k as int));
        }
        recomputed = recomputed.saturating_add(count_nodes_stmt(&mid[k]));
        k = k + 1;
    }
    proof {
        assert(stmt_models(mid@).take(k as int) =~= stmt_models(mid@));
    }
    let dirty_stmt_ids = top_stmt_ids(&mid);
    let ghost mid_models = stmt_models(mid@);
    let ghost prefix_seq = prefix@;
    let ghost mid_seq = mid@;
    let ghost suffix_seq = suffix@;
    let mut stmts = prefix;
    stmts.append(&mut mid);
    stmts.append(&mut suffix);
    proof {
        lemma_stmt_models_concat(prefix_seq, mid_seq);
        lemma_stmt_models_concat(prefix_seq + mid_seq, suffix_seq);
        assert(stmts@ =~= prefix_seq + mid_seq + suffix_seq);
        assert(stmt_models(stmts@) == kept_before(pm, edit) + mid_models + kept_after(pm, edit, shift));
    }
    let mut total: usize = 0;
    let mut k: usize = 0;
    proof {
        lemma_stmt_models(stmts@);
        assert(stmt_models(stmts@).take(0) =~= Seq::<StmtModel>::empty());
    }
    while k < stmts.len()
        invariant
            k <= stmts@.len(),
            stmt_models(stmts@).len() == stmts@.len(),
            forall|i: int| 0 <= i < stmts@.len() ==> #[trigger] stmt_models(stmts@)[i] == stmts@[i]@,
            total == sat_nodes(stmt_models(stmts@).take(k as int)),
        decreases stmts@.len() - k,
    {
        proof {
            assert(stmt_models(stmts@).take(k + 1).drop_last() =~= stmt_models(stmts@).take(k as int));
        }
        total = total.saturating_add(count_nodes_stmt(&stmts[k]));
        k = k + 1;
    }
    proof {
        assert(stmt_models(stmts@).take(k as int) =~= stmt_models(stmts@));
    }
    let total = total.saturating_add(1);
    Program {
        id: previous.id,
        stmts,
        errors,
        next_id,
        work: WorkMetrics {
            bytes_processed: 0,
            allocations_hint: 0,
            items_reused: reused,
            items_recomputed: recomputed,
            items_invalidated: 0,
            items_total: total,
            hashing_nanos: DurationNanos(0),
        },
        dirty_stmt_ids,
    }
}

/// Reparse after an edit, reusing what `previous` knew where it can. The
/// result always has the statements and errors of a full parse of `tokens`;
/// when the reusing parse would differ, the full one is returned.
pub fn parse_incremental(tokens: &TokenStream, previous: &Program) -> (r: Result<Program, crate::error::Error>)
    ensures
        r matches Ok(p) && shape_of(p) == stmts_shape(parsed(tokens.tokens@).0)
            && texts(p.errors@) == parsed(tokens.tokens@).1.errors,
        tokens.edit is None || previous.stmts@.len() == 0 ==> (r matches Ok(p) && is_full_parse(p, *tokens)),
        (exists|a: Program| #[trigger] reparsed(a, *tokens, *previous) && shape_of(a) == stmts_shape(parsed(tokens.tokens@).0)
            && texts(a.errors@) == parsed(tokens.tokens@).1.errors) ==> (r matches Ok(p) && reparsed(p, *tokens, *previous)),
{
    let attempted = parse_attempt(tokens, previous);
    let full = parse_full(tokens);
    proof {
        if exists|a: Program| #[trigger] reparsed(a, *tokens, *previous) && shape_of(a) == stmts_shape(parsed(tokens.tokens@).0)
            && texts(a.errors@) == parsed(tokens.tokens@).1.errors {
            let a = choose|a: Program| #[trigger] reparsed(a, *tokens, *previous) && shape_of(a) == stmts_shape(parsed(tokens.tokens@).0)
                && texts(a.errors@) == parsed(tokens.tokens@).1.errors;
            let e = tokens.edit->Some_0;
            let pm = stmt_models(previous.stmts@);
            let kb = kept_before(pm, e);
            let ka = kept_after(pm, e, edit_shift(e));
            let mid = middle_tokens(tokens.tokens@, kb, ka);
            let n = previous.next_id;
            let mt = choose|mt: Seq<Token>| #[trigger] same_token_keys(mt, mid) && clean_middle(mt, n)
                && stmt_models(a.stmts@) == kb + middle_stmts(mt, n) + ka && a.next_id == middle_next(mt, n)
                && a.dirty_stmt_ids@ == top_ids(middle_stmts(mt, n)) && a.work.items_reused == sat_nodes(kb + ka)
                && a.work.items_recomputed == sat_nodes(middle_stmts(mt, n));
            lemma_middle_keys(mt, mid, n);
            assert(middle_is_clean(*tokens, *previous));
            lemma_reparsed_shape(attempted, a, *tokens, *previous);
            assert(same_program(attempted, full));
        }
    }
    if attempted.semantic_eq(&full) {
        Ok(attempted)
    } else {
        Ok(full)
    }
}

} // verus!
