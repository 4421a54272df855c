//! The license-expression model: a tree of requirements joined by `AND` and
//! `OR`, built from the postfix form that the SPDX parser produces.
use vstd::prelude::*;

verus! {

/// A license expression as a mathematical tree; a leaf is the text of one
/// requirement (`MIT`, `GPL-2.0 WITH Classpath-exception-2.0`).
pub enum Expr {
    Req(Seq<char>),
    And(Box<Expr>, Box<Expr>),
    Or(Box<Expr>, Box<Expr>),
}

/// One node of an expression in postfix order, as a mathematical value.
pub enum Token {
    Req(Seq<char>),
    And,
    Or,
}

/// A parsed license expression.
#[derive(Debug)]
pub enum LicenseExpr {
    Req(String),
    And(Box<LicenseExpr>, Box<LicenseExpr>),
    Or(Box<LicenseExpr>, Box<LicenseExpr>),
}

/// One node of an expression in postfix order.
#[derive(Debug)]
pub enum PostfixNode {
    Req(String),
    And,
    Or,
}

pub open spec fn expr_of(e: LicenseExpr) -> Expr
    decreases e,
{
    match e {
        LicenseExpr::Req(r) => Expr::Req(r@),
        LicenseExpr::And(a, b) => Expr::And(Box::new(expr_of(*a)), Box::new(expr_of(*b))),
        LicenseExpr::Or(a, b) => Expr::Or(Box::new(expr_of(*a)), Box::new(expr_of(*b))),
    }
}

impl View for LicenseExpr {
    type V = Expr;

    open spec fn view(&self) -> Expr {
        expr_of(*self)
    }
}

impl View for PostfixNode {
    type V = Token;

    open spec fn view(&self) -> Token {
        match self {
            PostfixNode::Req(r) => Token::Req(r@),
            PostfixNode::And => Token::And,
            PostfixNode::Or => Token::Or,
        }
    }
}

pub open spec fn tokens_of(nodes: Seq<PostfixNode>) -> Seq<Token> {
    nodes.map_values(|n: PostfixNode| n@)
}

pub open spec fn exprs_of(es: Seq<LicenseExpr>) -> Seq<Expr> {
    es.map_values(|e: LicenseExpr| e@)
}

pub open spec fn texts_of(v: Seq<String>) -> Seq<Seq<char>> {
    v.map_values(|s: String| s@)
}

/// Whether the expression holds when exactly the requirements in `sat` are
/// satisfied.
pub open spec fn eval(e: Expr, sat: Set<Seq<char>>) -> bool
    decreases e,
{
    match e {
        Expr::Req(r) => sat.contains(r),
        Expr::And(a, b) => eval(*a, sat) && eval(*b, sat),
        Expr::Or(a, b) => eval(*a, sat) || eval(*b, sat),
    }
}

/// The requirement leaves, depth first and left to right, duplicates
/// included.
pub open spec fn leaves(e: Expr) -> Seq<Seq<char>>
    decreases e,
{
    match e {
        Expr::Req(r) => seq![r],
        Expr::And(a, b) => leaves(*a) + leaves(*b),
        Expr::Or(a, b) => leaves(*a) + leaves(*b),
    }
}

/// The canonical text of an expression: each operator with its two operands
/// in parentheses, so that the text denotes the same tree whatever the
/// operators' precedence.
pub open spec fn render(e: Expr) -> Seq<char>
    decreases e,
{
    match e {
        Expr::Req(r) => r,
        Expr::And(a, b) => seq!['('] + render(*a) + seq![' ', 'A', 'N', 'D', ' '] + render(*b) + seq![')'],
        Expr::Or(a, b) => seq!['('] + render(*a) + seq![' ', 'O', 'R', ' '] + render(*b) + seq![')'],
    }
}

/// The operand stack after one postfix node; `None` when an operator lacks
/// its two operands.
pub open spec fn apply_token(stack: Seq<Expr>, t: Token) -> Option<Seq<Expr>> {
    let n = stack.len();
    match t {
        Token::Req(r) => Some(stack.push(Expr::Req(r))),
        Token::And => if n >= 2 {
            Some(stack.subrange(0, n - 2).push(Expr::And(Box::new(stack[n - 2]), Box::new(stack[n - 1]))))
        } else {
            None
        },
        Token::Or => if n >= 2 {
            Some(stack.subrange(0, n - 2).push(Expr::Or(Box::new(stack[n - 2]), Box::new(stack[n - 1]))))
        } else {
            None
        },
    }
}

/// The operand stack after all of `ts`, starting from an empty one.
pub open spec fn run_tokens(ts: Seq<Token>) -> Option<Seq<Expr>>
    decreases ts.len(),
{
    if ts.len() == 0 {
        Some(Seq::empty())
    } else {
        match run_tokens(ts.drop_last()) {
            Some(st) => apply_token(st, ts.last()),
            None => None,
        }
    }
}

/// The tree that a postfix sequence denotes: defined when it leaves exactly
/// one operand.
pub open spec fn tree_of(ts: Seq<Token>) -> Option<Expr> {
    match run_tokens(ts) {
        Some(st) => if st.len() == 1 {
            Some(st[0])
        } else {
            None
        },
        None => None,
    }
}

proof fn lemma_run_stays_none(ts: Seq<Token>, i: int)
    requires
        0 <= i <= ts.len(),
        run_tokens(ts.take(i)) is None,
    ensures
        run_tokens(ts) is None,
    decreases ts.len() - i,
{
    if i == ts.len() {
        assert(ts.take(i) =~= ts);
    } else {
        assert(ts.take(i + 1).drop_last() =~= ts.take(i));
        lemma_run_stays_none(ts, i + 1);
    }
}

/// The postfix form of an expression: operands first, then the operator.
pub open spec fn postfix(e: Expr) -> Seq<Token>
    decreases e,
{
    match e {
        Expr::Req(r) => seq![Token::Req(r)],
        Expr::And(a, b) => postfix(*a) + postfix(*b) + seq![Token::And],
        Expr::Or(a, b) => postfix(*a) + postfix(*b) + seq![Token::Or],
    }
}

/// The operand stack after `us`, starting from `st`.
pub open spec fn run_from(st: Option<Seq<Expr>>, us: Seq<Token>) -> Option<Seq<Expr>>
    decreases us.len(),
{
    if us.len() == 0 {
        st
    } else {
        match run_from(st, us.drop_last()) {
            Some(s) => apply_token(s, us.last()),
            None => None,
        }
    }
}

proof fn lemma_run_tokens_from_empty(ts: Seq<Token>)
    ensures
        run_tokens(ts) == run_from(Some(Seq::empty()), ts),
    decreases ts.len(),
{
    if ts.len() > 0 {
        lemma_run_tokens_from_empty(ts.drop_last());
    }
}

proof fn lemma_run_from_concat(st: Option<Seq<Expr>>, us: Seq<Token>, vs: Seq<Token>)
    ensures
        run_from(st, us + vs) == run_from(run_from(st, us), vs),
    decreases vs.len(),
{
    if vs.len() == 0 {
        assert(us + vs =~= us);
    } else {
        assert((us + vs).drop_last() =~= us + vs.drop_last());
        assert((us + vs).last() == vs.last());
        lemma_run_from_concat(st, us, vs.drop_last());
    }
}

proof fn lemma_run_from_postfix(st: Seq<Expr>, e: Expr)
    ensures
        run_from(Some(st), postfix(e)) == Some(st.push(e)),
    decreases e,
{
    match e {
        Expr::Req(r) => {
            assert(postfix(e).drop_last() =~= Seq::<Token>::empty());
        },
        Expr::And(a, b) => {
            let pa = postfix(*a);
            let pb = postfix(*b);
            assert(postfix(e).drop_last() =~= pa + pb);
            lemma_run_from_concat(Some(st), pa, pb);
            lemma_run_from_postfix(st, *a);
            lemma_run_from_postfix(st.push(*a), *b);
            let s2 = st.push(*a).push(*b);
            assert(s2.subrange(0, s2.len() - 2) =~= st);
        },
        Expr::Or(a, b) => {
            let pa = postfix(*a);
            let pb = postfix(*b);
            assert(postfix(e).drop_last() =~= pa + pb);
            lemma_run_from_concat(Some(st), pa, pb);
            lemma_run_from_postfix(st, *a);
            lemma_run_from_postfix(st.push(*a), *b);
            let s2 = st.push(*a).push(*b);
            assert(s2.subrange(0, s2.len() - 2) =~= st);
        },
    }
}

/// Building the tree from an expression's postfix form gives the expression
/// back.
pub proof fn lemma_postfix_round_trip(e: Expr)
    ensures
        tree_of(postfix(e)) == Some(e),
{
    lemma_run_tokens_from_empty(postfix(e));
    lemma_run_from_postfix(Seq::empty(), e);
    assert(Seq::<Expr>::empty().push(e)[0] == e);
}

/// Builds the tree that the postfix sequence `nodes` denotes.
pub fn from_postfix(nodes: &Vec<PostfixNode>) -> (r: Option<LicenseExpr>)
    ensures
        match r {
            Some(e) => tree_of(tokens_of(nodes@)) == Some(e@),
            None => tree_of(tokens_of(nodes@)) is None,
        },
{
    let ghost ts = tokens_of(nodes@);
    let mut stack: Vec<LicenseExpr> = Vec::new();
    let mut i: usize = 0;
    while i < nodes.len()
        invariant
            0 <= i <= nodes.len(),
            ts == tokens_of(nodes@),
            run_tokens(ts.take(i as int)) == Some(exprs_of(stack@)),
        decreases nodes.len() - i,
    {
        proof {
            assert(ts.take(i + 1).drop_last() =~= ts.take(i as int));
            assert(ts.take(i + 1).last() == nodes@[i as int]@);
        }
        let ghost before = exprs_of(stack@);
        match &nodes[i] {
            PostfixNode::Req(s) => {
                stack.push(LicenseExpr::Req(s.clone()));
                assert(exprs_of(stack@) =~= before.push(Expr::Req(s@)));
            },
            PostfixNode::And => {
                if stack.len() < 2 {
                    proof {
                        lemma_run_stays_none(ts, i + 1);
                    }
                    return None;
                }
                let b = stack.pop().unwrap();
                let a = stack.pop().unwrap();
                stack.push(LicenseExpr::And(Box::new(a), Box::new(b)));
                let ghost n = before.len();
                assert(exprs_of(stack@) =~= before.subrange(0, n - 2).push(
                    Expr::And(Box::new(before[n - 2]), Box::new(before[n - 1])),
                ));
            },
            PostfixNode::Or => {
                if stack.len() < 2 {
                    proof {
                        lemma_run_stays_none(ts, i + 1);
                    }
                    return None;
                }
                let b = stack.pop().unwrap();
                let a = stack.pop().unwrap();
                stack.push(LicenseExpr::Or(Box::new(a), Box::new(b)));
                let ghost n = before.len();
                assert(exprs_of(stack@) =~= before.subrange(0, n - 2).push(
                    Expr::Or(Box::new(before[n - 2]), Box::new(before[n - 1])),
                ));
            },
        }
        i = i + 1;
    }
    assert(ts.take(i as int) =~= ts);
    if stack.len() == 1 {
        let e = stack.pop().unwrap();
        Some(e)
    } else {
        None
    }
}

/// Why an expression or a package's licensing could not be resolved.
#[derive(Debug)]
pub enum LicenseError {
    /// The text is not a well-formed license expression.
    MalformedExpression { expression: String },
    /// No combination of accepted requirements satisfies the expression.
    UnsatisfiableLicense,
    /// The reference corpus of license texts could not be loaded.
    CorpusUnavailable,
    /// A collaborator handed over data that breaks an assumed invariant.
    InternalInconsistency,
}

#[verifier::external_type_specification]
#[verifier::external_body]
pub struct ExParseError(spdx::ParseError);

/// The postfix nodes that the SPDX parser yields for `text`, or `None` when it
/// rejects the text.
pub uninterp spec fn spdx_postfix(text: Seq<char>) -> Option<Seq<Token>>;

/// Relies on spdx::Expression::parse (strict mode) and Expression::iter: the
/// parsed expression's nodes in postfix order, each requirement written as
/// LicenseReq's Display writes it (`MIT`, `GPL-2.0 WITH Classpath-exception-2.0`).
#[verifier::external_body]
fn spdx_parse(text: &str) -> (r: Result<Vec<PostfixNode>, spdx::ParseError>)
    ensures
        match r {
            Ok(nodes) => spdx_postfix(text@) == Some(tokens_of(nodes@)),
            Err(_) => spdx_postfix(text@) is None,
        },
{
    let expr = spdx::Expression::parse(text)?;
    Ok(expr.iter().map(|node| match node {
        spdx::expression::ExprNode::Req(req) => PostfixNode::Req(req.req.to_string()),
        spdx::expression::ExprNode::Op(spdx::expression::Operator::And) => PostfixNode::And,
        spdx::expression::ExprNode::Op(spdx::expression::Operator::Or) => PostfixNode::Or,
    }).collect())
}

/// The tree that `text` denotes, when the SPDX parser accepts it.
pub open spec fn parsed(text: Seq<char>) -> Option<Expr> {
    match spdx_postfix(text) {
        Some(ts) => tree_of(ts),
        None => None,
    }
}

/// Parses a license expression; `AND` binds tighter than `OR`.
pub fn parse(text: &str) -> (r: Result<LicenseExpr, LicenseError>)
    ensures
        match r {
            Ok(e) => parsed(text@) == Some(e@),
            Err(err) => parsed(text@) is None && (match err {
                LicenseError::MalformedExpression { expression } => expression@ == text@,
                _ => false,
            }),
        },
{
    match spdx_parse(text) {
        Ok(nodes) => match from_postfix(&nodes) {
            Some(e) => Ok(e),
            None => Err(LicenseError::MalformedExpression { expression: text.to_owned() }),
        },
        Err(_) => Err(LicenseError::MalformedExpression { expression: text.to_owned() }),
    }
}

/// Whether `v` holds the text `s`.
pub fn contains_text(v: &Vec<String>, s: &String) -> (r: bool)
    ensures
        r == texts_of(v@).contains(s@),
{
    let mut i: usize = 0;
    while i < v.len()
        invariant
            0 <= i <= v.len(),
            forall|j: int| 0 <= j < i ==> v@[j]@ != s@,
        decreases v.len() - i,
    {
        if v[i] == *s {
            assert(texts_of(v@)[i as int] == s@);
            return true;
        }
        i = i + 1;
    }
    assert(!texts_of(v@).contains(s@));
    false
}

impl LicenseExpr {
    fn write_text(&self, out: &mut String)
        ensures
            final(out)@ == old(out)@ + render(self@),
        decreases self,
    {
        match self {
            LicenseExpr::Req(r) => out.append(r.as_str()),
            LicenseExpr::And(a, b) => {
                proof {
                    reveal_strlit("(");
                    reveal_strlit(" AND ");
                    reveal_strlit(")");
                }
                out.append("(");
                a.write_text(out);
                out.append(" AND ");
                b.write_text(out);
                out.append(")");
                assert(out@ =~= old(out)@ + render(self@));
            },
            LicenseExpr::Or(a, b) => {
                proof {
                    reveal_strlit("(");
                    reveal_strlit(" OR ");
                    reveal_strlit(")");
                }
                out.append("(");
                a.write_text(out);
                out.append(" OR ");
                b.write_text(out);
                out.append(")");
                assert(out@ =~= old(out)@ + render(self@));
            },
        }
    }

    /// The canonical text of the expression.
    pub fn to_text(&self) -> (r: String)
        ensures
            r@ == render(self@),
    {
        let mut out = String::new();
        self.write_text(&mut out);
        assert(out@ =~= render(self@));
        out
    }

    /// The requirement leaves, depth first and left to right, duplicates
    /// included; each call gives a fresh sequence.
    pub fn requirements(&self) -> (r: Vec<String>)
        ensures
            texts_of(r@) == leaves(self@),
        decreases self,
    {
        match self {
            LicenseExpr::Req(s) => {
                let v = vec![s.clone()];
                assert(texts_of(v@) =~= seq![s@]);
                v
            },
            LicenseExpr::And(a, b) | LicenseExpr::Or(a, b) => {
                let mut x = a.requirements();
                let mut y = b.requirements();
                let ghost (x0, y0) = (x@, y@);
                x.append(&mut y);
                assert(texts_of(x@) =~= texts_of(x0) + texts_of(y0));
                x
            },
        }
    }

    /// Whether the expression holds when exactly the requirements in `sat`
    /// are satisfied.
    pub fn satisfied_by(&self, sat: &Vec<String>) -> (r: bool)
        ensures
            r == eval(self@, texts_of(sat@).to_set()),
        decreases self,
    {
        match self {
            LicenseExpr::Req(s) => {
                let b = contains_text(sat, s);
                b
            },
            LicenseExpr::And(a, b) => a.satisfied_by(sat) && b.satisfied_by(sat),
            LicenseExpr::Or(a, b) => a.satisfied_by(sat) || b.satisfied_by(sat),
        }
    }
}

} // verus!
