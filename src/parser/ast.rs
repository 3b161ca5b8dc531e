//! The abstract syntax tree, together with its mathematical model.
use vstd::prelude::*;
use vstd::string::StringExecFns;

use crate::lexer::Kind;

verus! {

/// Literals are representations of the language's primitive types.
#[derive(Debug, PartialEq)]
pub enum Literal {
    /// `Integer` literal value
    Integer(usize),
    /// `Double` literal, kept as its source text (digits, a point and an
    /// optional exponent), from which the caller takes the value it needs
    Double(String),
    /// `String` literal value, without its quotes
    String(String),
}

/// Abstract syntax tree based on expressions as a central language concept.
#[derive(Debug, PartialEq)]
pub enum Expr {
    /// Literal value, such as `Integer`, `Double` or `String`
    Literal(Literal),
    /// Identifier, storing its name.
    Identifier(String),
    /// Function call with its name and the arguments that were passed to it.
    FunctionCall { name: String, args: Vec<Expr> },
    /// Unary prefix operators
    PrefixOperator { op: Kind, expr: Box<Expr> },
    /// Binary operators
    InfixOperator { op: Kind, lhs: Box<Expr>, rhs: Box<Expr> },
    /// Unary postfix operators
    PostfixOperator { op: Kind, expr: Box<Expr> },
}

/// Statements, built around expressions.
#[derive(Debug, PartialEq)]
pub enum Stmt {
    /// `let var = value;`
    Let { var: String, value: Box<Expr> },
    /// `var = value;`
    Assignment { var: String, value: Box<Expr> },
    /// `if (cond) { body } else ...`
    If { cond: Box<Expr>, body: Vec<Stmt>, else_stmt: Option<Box<Stmt>> },
    /// `{ stmts }`
    Block { stmts: Vec<Stmt> },
}

/// What a literal stands for.
pub enum LiteralModel {
    Integer(nat),
    Double(Seq<char>),
    String(Seq<char>),
}

/// What an expression stands for.
pub enum ExprModel {
    Literal(LiteralModel),
    Identifier(Seq<char>),
    FunctionCall { name: Seq<char>, args: Seq<ExprModel> },
    PrefixOperator { op: Kind, expr: Box<ExprModel> },
    InfixOperator { op: Kind, lhs: Box<ExprModel>, rhs: Box<ExprModel> },
    PostfixOperator { op: Kind, expr: Box<ExprModel> },
}

/// What a statement stands for.
pub enum StmtModel {
    Let { var: Seq<char>, value: ExprModel },
    Assignment { var: Seq<char>, value: ExprModel },
    If { cond: ExprModel, body: Seq<StmtModel>, else_stmt: Option<Box<StmtModel>> },
    Block { stmts: Seq<StmtModel> },
}

impl Literal {
    pub open spec fn model(&self) -> LiteralModel {
        match self {
            Literal::Integer(v) => LiteralModel::Integer(*v as nat),
            Literal::Double(text) => LiteralModel::Double(text@),
            Literal::String(text) => LiteralModel::String(text@),
        }
    }
}

impl Expr {
    pub open spec fn model(&self) -> ExprModel
        decreases self, 0nat,
    {
        match self {
            Expr::Literal(value) => ExprModel::Literal(value.model()),
            Expr::Identifier(name) => ExprModel::Identifier(name@),
            Expr::FunctionCall { name, args } => ExprModel::FunctionCall {
                name: name@,
                args: models(args@, 0),
            },
            Expr::PrefixOperator { op, expr } => ExprModel::PrefixOperator {
                op: *op,
                expr: Box::new(expr.model()),
            },
            Expr::InfixOperator { op, lhs, rhs } => ExprModel::InfixOperator {
                op: *op,
                lhs: Box::new(lhs.model()),
                rhs: Box::new(rhs.model()),
            },
            Expr::PostfixOperator { op, expr } => ExprModel::PostfixOperator {
                op: *op,
                expr: Box::new(expr.model()),
            },
        }
    }
}

impl Stmt {
    pub open spec fn model(&self) -> StmtModel
        decreases self, 0nat,
    {
        match self {
            Stmt::Let { var, value } => StmtModel::Let { var: var@, value: value.model() },
            Stmt::Assignment { var, value } => StmtModel::Assignment {
                var: var@,
                value: value.model(),
            },
            Stmt::If { cond, body, else_stmt } => StmtModel::If {
                cond: cond.model(),
                body: stmt_models(body@, 0),
                else_stmt: match else_stmt {
                    Some(s) => Some(Box::new(s.model())),
                    None => None,
                },
            },
            Stmt::Block { stmts } => StmtModel::Block { stmts: stmt_models(stmts@, 0) },
        }
    }
}

/// The models of `stmts` from position `i` on.
pub open spec fn stmt_models(stmts: Seq<Stmt>, i: nat) -> Seq<StmtModel>
    decreases stmts, stmts.len() - i,
{
    if i >= stmts.len() {
        seq![]
    } else {
        seq![stmts[i as int].model()] + stmt_models(stmts, i + 1)
    }
}

/// The models of `exprs` from position `i` on.
pub open spec fn models(exprs: Seq<Expr>, i: nat) -> Seq<ExprModel>
    decreases exprs, exprs.len() - i,
{
    if i >= exprs.len() {
        seq![]
    } else {
        seq![exprs[i as int].model()] + models(exprs, i + 1)
    }
}

/// The character of the decimal digit `d`.
pub open spec fn digit_char(d: nat) -> char {
    if d == 0 {
        '0'
    } else if d == 1 {
        '1'
    } else if d == 2 {
        '2'
    } else if d == 3 {
        '3'
    } else if d == 4 {
        '4'
    } else if d == 5 {
        '5'
    } else if d == 6 {
        '6'
    } else if d == 7 {
        '7'
    } else if d == 8 {
        '8'
    } else {
        '9'
    }
}

/// The decimal notation of `n`.
pub open spec fn decimal(n: nat) -> Seq<char>
    decreases n,
{
    if n < 10 {
        seq![digit_char(n)]
    } else {
        decimal(n / 10).push(digit_char(n % 10))
    }
}

/// How a literal is written out: an integer in decimal, a floating-point
/// literal as its text, a string between quotes.
pub open spec fn literal_text(l: LiteralModel) -> Seq<char> {
    match l {
        LiteralModel::Integer(v) => decimal(v),
        LiteralModel::Double(text) => text,
        LiteralModel::String(text) => seq!['"'] + text + seq!['"'],
    }
}

/// How an expression is written out: every operator application in
/// parentheses, with its operator between spaces, and a call as its name
/// followed by its arguments, each ended by a comma, in parentheses.
pub open spec fn expr_text(e: ExprModel) -> Seq<char>
    decreases e, 0nat,
{
    match e {
        ExprModel::Literal(l) => literal_text(l),
        ExprModel::Identifier(name) => name,
        ExprModel::FunctionCall { name, args } => name + seq!['('] + args_text(args, 0) + seq![')'],
        ExprModel::PrefixOperator { op, expr } => seq!['('] + op.label() + seq![' '] + expr_text(*expr)
            + seq![')'],
        ExprModel::InfixOperator { op, lhs, rhs } => seq!['('] + expr_text(*lhs) + seq![' ']
            + op.label() + seq![' '] + expr_text(*rhs) + seq![')'],
        ExprModel::PostfixOperator { op, expr } => seq!['('] + expr_text(*expr) + seq![' ']
            + op.label() + seq![')'],
    }
}

/// The arguments of a call from position `i` on, each followed by a comma.
pub open spec fn args_text(args: Seq<ExprModel>, i: nat) -> Seq<char>
    decreases args, args.len() - i,
{
    if i >= args.len() {
        seq![]
    } else {
        expr_text(args[i as int]) + seq![','] + args_text(args, i + 1)
    }
}

/// The models of a list of expressions are those of its items.
proof fn lemma_models_index(exprs: Seq<Expr>, i: nat)
    requires
        i <= exprs.len(),
    ensures
        models(exprs, i).len() == exprs.len() - i,
        forall|k: int| 0 <= k < exprs.len() - i ==> #[trigger] models(exprs, i)[k] == exprs[i + k].model(),
    decreases exprs.len() - i,
{
    if i < exprs.len() {
        lemma_models_index(exprs, i + 1);
        assert forall|k: int| 0 <= k < exprs.len() - i implies #[trigger] models(exprs, i)[k]
            == exprs[i + k].model() by {
            if k > 0 {
                assert(models(exprs, i)[k] == models(exprs, i + 1)[k - 1]);
            }
        }
    }
}

/// The text of a decimal digit.
fn digit_str(d: usize) -> (r: &'static str)
    requires
        d < 10,
    ensures
        r@ == seq![digit_char(d as nat)],
{
    proof {
            reveal_strlit("0");
            reveal_strlit("1");
            reveal_strlit("2");
            reveal_strlit("3");
            reveal_strlit("4");
            reveal_strlit("5");
            reveal_strlit("6");
            reveal_strlit("7");
            reveal_strlit("8");
            reveal_strlit("9");
    }
    match d {
        0 => "0",
        1 => "1",
        2 => "2",
        3 => "3",
        4 => "4",
        5 => "5",
        6 => "6",
        7 => "7",
        8 => "8",
        _ => "9",
    }
}

/// Appends the decimal notation of `n` to `out`.
fn append_decimal(out: &mut String, n: usize)
    ensures
        final(out)@ == old(out)@ + decimal(n as nat),
    decreases n,
{
    if n >= 10 {
        append_decimal(out, n / 10);
    }
    out.append(digit_str(n % 10));
    proof {
        if n >= 10 {
            assert(old(out)@ + decimal((n / 10) as nat) + seq![digit_char((n % 10) as nat)] =~= old(
                out,
            )@ + decimal(n as nat));
        } else {
            assert(old(out)@ + seq![digit_char((n % 10) as nat)] =~= old(out)@ + decimal(n as nat));
        }
    }
}

impl Literal {
    /// Returns the literal as it is written out.
    pub fn to_string(&self) -> (r: String)
        ensures
            r@ == literal_text(self.model()),
    {
        let mut out = String::new();
        self.write_to(&mut out);
        proof {
            assert(out@ =~= literal_text(self.model()));
        }
        out
    }

    fn write_to(&self, out: &mut String)
        ensures
            final(out)@ == old(out)@ + literal_text(self.model()),
    {
        proof {
            reveal_strlit("\"");
        }
        match self {
            Literal::Integer(value) => append_decimal(out, *value),
            Literal::Double(text) => out.append(text.as_str()),
            Literal::String(text) => {
                out.append("\"");
                out.append(text.as_str());
                out.append("\"");
                proof {
                    assert(final(out)@ =~= old(out)@ + literal_text(self.model()));
                }
            },
        }
    }
}

impl Expr {
    /// Returns the expression as it is written out.
    pub fn to_string(&self) -> (r: String)
        ensures
            r@ == expr_text(self.model()),
    {
        let mut out = String::new();
        self.write_to(&mut out);
        proof {
            assert(out@ =~= expr_text(self.model()));
        }
        out
    }

    fn write_to(&self, out: &mut String)
        ensures
            final(out)@ == old(out)@ + expr_text(self.model()),
        decreases self,
    {
        proof {
            reveal_strlit("(");
            reveal_strlit(")");
            reveal_strlit(" ");
            reveal_strlit(",");
        }
        let ghost start = out@;
        match self {
            Expr::Literal(value) => value.write_to(out),
            Expr::Identifier(name) => out.append(name.as_str()),
            Expr::FunctionCall { name, args } => {
                out.append(name.as_str());
                out.append("(");
                let ghost ms = models(args@, 0);
                proof {
                    lemma_models_index(args@, 0);
                }
                let ghost base = out@;
                proof {
                    assert forall|k: int| 0 <= k < args@.len() implies decreases_to!(self => args@[k]) by {
                        vstd::std_specs::vec::axiom_vec_index_decreases(*args, k);
                    }
                }
                let mut i: usize = 0;
                while i < args.len()
                    invariant
                        ms == models(args@, 0),
                        ms.len() == args@.len(),
                        forall|k: int| 0 <= k < args@.len() ==> #[trigger] ms[k] == args@[k].model(),
                        i <= args@.len(),
                        out@ + args_text(ms, i as nat) == base + args_text(ms, 0),
                        forall|k: int| 0 <= k < args@.len() ==> decreases_to!(self => args@[k]),
                    decreases args@.len() - i,
                {
                    proof {
                        reveal_strlit(",");
                    }
                    let ghost before = out@;
                    args[i].write_to(out);
                    out.append(",");
                    proof {
                        assert(ms[i as int] == args@[i as int].model());
                        assert(out@ + args_text(ms, (i + 1) as nat) =~= before + args_text(ms, i as nat));
                    }
                    i = i + 1;
                }
                out.append(")");
                proof {
                    assert(args_text(ms, i as nat) =~= Seq::<char>::empty());
                    assert(final(out)@ =~= start + expr_text(self.model()));
                }
            },
            Expr::PrefixOperator { op, expr } => {
                out.append("(");
                out.append(op.to_string().as_str());
                out.append(" ");
                expr.write_to(out);
                out.append(")");
                proof {
                    assert(final(out)@ =~= start + expr_text(self.model()));
                }
            },
            Expr::InfixOperator { op, lhs, rhs } => {
                out.append("(");
                lhs.write_to(out);
                out.append(" ");
                out.append(op.to_string().as_str());
                out.append(" ");
                rhs.write_to(out);
                out.append(")");
                proof {
                    assert(final(out)@ =~= start + expr_text(self.model()));
                }
            },
            Expr::PostfixOperator { op, expr } => {
                out.append("(");
                expr.write_to(out);
                out.append(" ");
                out.append(op.to_string().as_str());
                out.append(")");
                proof {
                    assert(final(out)@ =~= start + expr_text(self.model()));
                }
            },
        }
    }
}

} // verus!
