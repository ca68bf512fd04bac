//! The syntax tree: statements and expressions as closed sum types, owned
//! exclusively by their parent down from the `Program` root.
//!
//! Each node keeps the token that introduced it, answers its originating
//! literal text through the `Node` trait, and renders itself back to a
//! canonical textual form that makes operator nesting explicit through
//! parenthesization, for example `(a + (b * c))`.

use crate::token::Token;
use crate::token::TokenModel;
use vstd::prelude::*;
use vstd::string::*;

verus! {

// ---------------------------------------------------------------------
// Mathematical models of the nodes: the same trees over `Seq<char>`.
// ---------------------------------------------------------------------
/// Model of an identifier: its token and its name.
pub struct IdentModel {
    pub token: TokenModel,
    pub value: Seq<char>,
}

/// Model of an expression tree.
pub enum ExprModel {
    Ident(IdentModel),
    Int { token: TokenModel, value: i64 },
    Bool { token: TokenModel, value: bool },
    Prefix { token: TokenModel, operator: Seq<char>, right: Box<ExprModel> },
    Infix { token: TokenModel, operator: Seq<char>, left: Box<ExprModel>, right: Box<ExprModel> },
    If {
        token: TokenModel,
        condition: Box<ExprModel>,
        consequence: BlockModel,
        alternative: Option<BlockModel>,
    },
    Function { token: TokenModel, parameters: Seq<IdentModel>, body: BlockModel },
    Call { token: TokenModel, callee: Box<ExprModel>, arguments: Seq<ExprModel> },
}

/// Model of a brace-delimited block of statements.
pub struct BlockModel {
    pub token: TokenModel,
    pub statements: Seq<StmtModel>,
}

/// Model of a statement.
pub enum StmtModel {
    Let { token: TokenModel, name: IdentModel, value: ExprModel },
    Return { token: TokenModel, value: ExprModel },
    Expr { token: TokenModel, value: ExprModel },
}

/// Model of a whole program: its statements in order.
pub struct ProgramModel {
    pub statements: Seq<StmtModel>,
}

// ---------------------------------------------------------------------
// The executable nodes.
// ---------------------------------------------------------------------
/// A name appearing in the source.
pub struct Identifier {
    pub token: Token,
    pub value: String,
}

/// An integer literal; its numeric value is the decimal reading of the
/// token's digits where that fits in an `i64`, and zero otherwise (overflow
/// checking is a stated non-goal of the tokenizer's integer rule).
pub struct IntegerLiteral {
    pub token: Token,
    pub value: i64,
}

/// A `true` or `false` literal.
pub struct BooleanLiteral {
    pub token: Token,
    pub value: bool,
}

/// A unary operator applied in front of an operand.
pub struct PrefixExpression {
    pub token: Token,
    pub operator: String,
    pub right: Box<Expression>,
}

/// A binary operator between two operands.
pub struct InfixExpression {
    pub token: Token,
    pub operator: String,
    pub left: Box<Expression>,
    pub right: Box<Expression>,
}

/// `if (condition) { consequence }` with an optional `else { alternative }`.
pub struct IfExpression {
    pub token: Token,
    pub condition: Box<Expression>,
    pub consequence: BlockStatement,
    pub alternative: Option<BlockStatement>,
}

/// `fn (parameters) { body }`.
pub struct FunctionLiteral {
    pub token: Token,
    pub parameters: Vec<Identifier>,
    pub body: BlockStatement,
}

/// A callee applied to an argument list.
pub struct CallExpression {
    pub token: Token,
    pub callee: Box<Expression>,
    pub arguments: Vec<Expression>,
}

/// An expression: one of the closed set of variants. Consumers match
/// exhaustively; there is no open-ended dispatch.
pub enum Expression {
    Ident(Identifier),
    Int(IntegerLiteral),
    Bool(BooleanLiteral),
    Prefix(PrefixExpression),
    Infix(InfixExpression),
    If(IfExpression),
    Function(FunctionLiteral),
    Call(CallExpression),
}

/// A brace-delimited sequence of statements.
pub struct BlockStatement {
    pub token: Token,
    pub statements: Vec<Statement>,
}

/// `let name = value;` — the name is always present: a let-statement
/// without one is not constructible, parse failure discards the partial
/// statement instead.
pub struct LetStatement {
    pub token: Token,
    pub name: Identifier,
    pub value: Expression,
}

/// `return value;`.
pub struct ReturnStatement {
    pub token: Token,
    pub return_value: Expression,
}

/// A bare expression in statement position.
pub struct ExpressionStatement {
    pub token: Token,
    pub expression: Expression,
}

/// A statement: one of the closed set of variants.
pub enum Statement {
    Let(LetStatement),
    Return(ReturnStatement),
    Expr(ExpressionStatement),
}

/// The root of the tree; owns every node beneath it.
pub struct Program {
    pub statements: Vec<Statement>,
}

// ---------------------------------------------------------------------
// From executable nodes to their models.
// ---------------------------------------------------------------------
impl Identifier {
    pub open spec fn model(&self) -> IdentModel {
        IdentModel { token: self.token@, value: self.value@ }
    }
}

/// Models of a sequence of identifiers, in order.
pub open spec fn ident_seq_model(ps: Seq<Identifier>) -> Seq<IdentModel>
    decreases ps,
{
    if ps.len() == 0 {
        Seq::empty()
    } else {
        ident_seq_model(ps.drop_last()).push(ps.last().model())
    }
}

/// Models of a sequence of expressions, in order.
pub open spec fn expr_seq_model(es: Seq<Expression>) -> Seq<ExprModel>
    decreases es,
{
    if es.len() == 0 {
        Seq::empty()
    } else {
        expr_seq_model(es.drop_last()).push(es.last().model())
    }
}

/// Models of a sequence of statements, in order.
pub open spec fn stmt_seq_model(ss: Seq<Statement>) -> Seq<StmtModel>
    decreases ss,
{
    if ss.len() == 0 {
        Seq::empty()
    } else {
        stmt_seq_model(ss.drop_last()).push(ss.last().model())
    }
}

impl Expression {
    pub open spec fn model(&self) -> ExprModel
        decreases self,
    {
        match self {
            Expression::Ident(i) => ExprModel::Ident(i.model()),
            Expression::Int(x) => ExprModel::Int { token: x.token@, value: x.value },
            Expression::Bool(b) => ExprModel::Bool { token: b.token@, value: b.value },
            Expression::Prefix(p) => ExprModel::Prefix {
                token: p.token@,
                operator: p.operator@,
                right: Box::new((*p.right).model()),
            },
            Expression::Infix(x) => ExprModel::Infix {
                token: x.token@,
                operator: x.operator@,
                left: Box::new((*x.left).model()),
                right: Box::new((*x.right).model()),
            },
            Expression::If(x) => ExprModel::If {
                token: x.token@,
                condition: Box::new((*x.condition).model()),
                consequence: x.consequence.model(),
                alternative: match &x.alternative {
                    Some(b) => Some(b.model()),
                    None => None,
                },
            },
            Expression::Function(f) => ExprModel::Function {
                token: f.token@,
                parameters: ident_seq_model(f.parameters@),
                body: f.body.model(),
            },
            Expression::Call(c) => ExprModel::Call {
                token: c.token@,
                callee: Box::new((*c.callee).model()),
                arguments: expr_seq_model(c.arguments@),
            },
        }
    }
}

impl BlockStatement {
    pub open spec fn model(&self) -> BlockModel
        decreases self,
    {
        BlockModel { token: self.token@, statements: stmt_seq_model(self.statements@) }
    }
}

impl LetStatement {
    pub open spec fn model(&self) -> StmtModel
        decreases self,
    {
        StmtModel::Let { token: self.token@, name: self.name.model(), value: self.value.model() }
    }
}

impl ReturnStatement {
    pub open spec fn model(&self) -> StmtModel
        decreases self,
    {
        StmtModel::Return { token: self.token@, value: self.return_value.model() }
    }
}

impl ExpressionStatement {
    pub open spec fn model(&self) -> StmtModel
        decreases self,
    {
        StmtModel::Expr { token: self.token@, value: self.expression.model() }
    }
}

impl Statement {
    pub open spec fn model(&self) -> StmtModel
        decreases self,
    {
        match self {
            Statement::Let(l) => l.model(),
            Statement::Return(r) => r.model(),
            Statement::Expr(e) => e.model(),
        }
    }
}

impl Program {
    pub open spec fn model(&self) -> ProgramModel {
        ProgramModel { statements: stmt_seq_model(self.statements@) }
    }
}

// ---------------------------------------------------------------------
// Canonical rendering, first as a mathematical function on models.
// ---------------------------------------------------------------------
/// The canonical text of an expression. Prefix and infix nodes are always
/// parenthesized, so the rendering exhibits the nesting the parser chose.
pub open spec fn render_expr(e: ExprModel) -> Seq<char>
    decreases e,
{
    match e {
        ExprModel::Ident(i) => i.value,
        ExprModel::Int { token, .. } => token.literal,
        ExprModel::Bool { token, .. } => token.literal,
        ExprModel::Prefix { operator, right, .. } => "("@ + operator + render_expr(*right) + ")"@,
        ExprModel::Infix { operator, left, right, .. } => "("@ + render_expr(*left) + " "@
            + operator + " "@ + render_expr(*right) + ")"@,
        ExprModel::If { condition, consequence, alternative, .. } => {
            let head = "if"@ + render_expr(*condition) + " "@ + render_block(consequence);
            match alternative {
                Some(a) => head + "else "@ + render_block(a),
                None => head,
            }
        },
        ExprModel::Function { token, parameters, body } => token.literal + "("@ + render_params(
            parameters,
        ) + ") "@ + render_block(body),
        ExprModel::Call { callee, arguments, .. } => render_expr(*callee) + "("@ + render_args(
            arguments,
        ) + ")"@,
    }
}

/// Parameter names joined by a comma and a space.
pub open spec fn render_params(ps: Seq<IdentModel>) -> Seq<char>
    decreases ps,
{
    if ps.len() == 0 {
        Seq::empty()
    } else if ps.len() == 1 {
        ps.last().value
    } else {
        render_params(ps.drop_last()) + ", "@ + ps.last().value
    }
}

/// Argument renderings joined by a comma and a space.
pub open spec fn render_args(es: Seq<ExprModel>) -> Seq<char>
    decreases es,
{
    if es.len() == 0 {
        Seq::empty()
    } else if es.len() == 1 {
        render_expr(es.last())
    } else {
        render_args(es.drop_last()) + ", "@ + render_expr(es.last())
    }
}

/// The canonical text of a statement.
pub open spec fn render_stmt(s: StmtModel) -> Seq<char>
    decreases s,
{
    match s {
        StmtModel::Let { token, name, value } => token.literal + " "@ + name.value + " = "@
            + render_expr(value) + ";"@,
        StmtModel::Return { token, value } => token.literal + " "@ + render_expr(value) + ";"@,
        StmtModel::Expr { value, .. } => render_expr(value),
    }
}

/// The canonical text of a sequence of statements: their renderings
/// concatenated.
pub open spec fn render_stmts(ss: Seq<StmtModel>) -> Seq<char>
    decreases ss,
{
    if ss.len() == 0 {
        Seq::empty()
    } else {
        render_stmts(ss.drop_last()) + render_stmt(ss.last())
    }
}

/// The canonical text of a block: its statements' renderings concatenated.
pub open spec fn render_block(b: BlockModel) -> Seq<char>
    decreases b,
{
    render_stmts(b.statements)
}

/// The canonical text of a program.
pub open spec fn render_program(p: ProgramModel) -> Seq<char> {
    render_stmts(p.statements)
}

/// The literal text of the token a statement was introduced by.
pub open spec fn stmt_literal(s: StmtModel) -> Seq<char> {
    match s {
        StmtModel::Let { token, .. } => token.literal,
        StmtModel::Return { token, .. } => token.literal,
        StmtModel::Expr { token, .. } => token.literal,
    }
}

/// The literal text of the token an expression was introduced by.
pub open spec fn expr_literal(e: ExprModel) -> Seq<char> {
    match e {
        ExprModel::Ident(i) => i.token.literal,
        ExprModel::Int { token, .. } => token.literal,
        ExprModel::Bool { token, .. } => token.literal,
        ExprModel::Prefix { token, .. } => token.literal,
        ExprModel::Infix { token, .. } => token.literal,
        ExprModel::If { token, .. } => token.literal,
        ExprModel::Function { token, .. } => token.literal,
        ExprModel::Call { token, .. } => token.literal,
    }
}

// ---------------------------------------------------------------------
// The `Node` trait: every node names the token literal it came from.
// ---------------------------------------------------------------------
/// Behaviour common to every node: producing its originating token's
/// literal text.
pub trait Node {
    /// The literal text this node answers, as a sequence of characters.
    spec fn literal_model(&self) -> Seq<char>;

    /// The literal text of the token that introduced this node; for a
    /// program, the first statement's, or empty when there is none.
    fn token_literal(&self) -> (s: String)
        ensures
            s@ == self.literal_model(),
    ;
}

impl Node for Identifier {
    open spec fn literal_model(&self) -> Seq<char> {
        self.token@.literal
    }

    fn token_literal(&self) -> (s: String) {
        self.token.literal.clone()
    }
}

impl Node for IntegerLiteral {
    open spec fn literal_model(&self) -> Seq<char> {
        self.token@.literal
    }

    fn token_literal(&self) -> (s: String) {
        self.token.literal.clone()
    }
}

impl Node for BooleanLiteral {
    open spec fn literal_model(&self) -> Seq<char> {
        self.token@.literal
    }

    fn token_literal(&self) -> (s: String) {
        self.token.literal.clone()
    }
}

impl Node for PrefixExpression {
    open spec fn literal_model(&self) -> Seq<char> {
        self.token@.literal
    }

    fn token_literal(&self) -> (s: String) {
        self.token.literal.clone()
    }
}

impl Node for InfixExpression {
    open spec fn literal_model(&self) -> Seq<char> {
        self.token@.literal
    }

    fn token_literal(&self) -> (s: String) {
        self.token.literal.clone()
    }
}

impl Node for IfExpression {
    open spec fn literal_model(&self) -> Seq<char> {
        self.token@.literal
    }

    fn token_literal(&self) -> (s: String) {
        self.token.literal.clone()
    }
}

impl Node for FunctionLiteral {
    open spec fn literal_model(&self) -> Seq<char> {
        self.token@.literal
    }

    fn token_literal(&self) -> (s: String) {
        self.token.literal.clone()
    }
}

impl Node for CallExpression {
    open spec fn literal_model(&self) -> Seq<char> {
        self.token@.literal
    }

    fn token_literal(&self) -> (s: String) {
        self.token.literal.clone()
    }
}

impl Node for BlockStatement {
    open spec fn literal_model(&self) -> Seq<char> {
        self.token@.literal
    }

    fn token_literal(&self) -> (s: String) {
        self.token.literal.clone()
    }
}

impl Node for Expression {
    open spec fn literal_model(&self) -> Seq<char> {
        expr_literal(self.model())
    }

    fn token_literal(&self) -> (s: String) {
        match self {
            Expression::Ident(i) => i.token.literal.clone(),
            Expression::Int(x) => x.token.literal.clone(),
            Expression::Bool(b) => b.token.literal.clone(),
            Expression::Prefix(p) => p.token.literal.clone(),
            Expression::Infix(x) => x.token.literal.clone(),
            Expression::If(x) => x.token.literal.clone(),
            Expression::Function(f) => f.token.literal.clone(),
            Expression::Call(c) => c.token.literal.clone(),
        }
    }
}

impl Node for LetStatement {
    open spec fn literal_model(&self) -> Seq<char> {
        self.token@.literal
    }

    fn token_literal(&self) -> (s: String) {
        self.token.literal.clone()
    }
}

impl Node for ReturnStatement {
    open spec fn literal_model(&self) -> Seq<char> {
        self.token@.literal
    }

    fn token_literal(&self) -> (s: String) {
        self.token.literal.clone()
    }
}

impl Node for ExpressionStatement {
    open spec fn literal_model(&self) -> Seq<char> {
        self.token@.literal
    }

    fn token_literal(&self) -> (s: String) {
        self.token.literal.clone()
    }
}

impl Node for Statement {
    open spec fn literal_model(&self) -> Seq<char> {
        stmt_literal(self.model())
    }

    #[verifier::rlimit(100)]
    fn token_literal(&self) -> (s: String) {
        match self {
            Statement::Let(l) => l.token.literal.clone(),
            Statement::Return(r) => r.token.literal.clone(),
            Statement::Expr(e) => e.token.literal.clone(),
        }
    }
}

impl Node for Program {
    open spec fn literal_model(&self) -> Seq<char> {
        if self.model().statements.len() > 0 {
            stmt_literal(self.model().statements[0])
        } else {
            Seq::empty()
        }
    }

    #[verifier::rlimit(50)]
    fn token_literal(&self) -> (s: String) {
        if self.statements.len() > 0 {
            proof {
                lemma_stmt_seq_model_len(self.statements@);
                lemma_stmt_seq_model_index(self.statements@, 0);
            }
            self.statements[0].token_literal()
        } else {
            String::new()
        }
    }
}

pub proof fn lemma_stmt_seq_model_len(ss: Seq<Statement>)
    ensures
        stmt_seq_model(ss).len() == ss.len(),
    decreases ss,
{
    if ss.len() > 0 {
        lemma_stmt_seq_model_len(ss.drop_last());
    }
}

pub proof fn lemma_stmt_seq_model_index(ss: Seq<Statement>, i: int)
    requires
        0 <= i < ss.len(),
    ensures
        stmt_seq_model(ss).len() == ss.len(),
        stmt_seq_model(ss)[i] == ss[i].model(),
    decreases ss,
{
    lemma_stmt_seq_model_len(ss);
    if i == ss.len() - 1 {
    } else {
        lemma_stmt_seq_model_index(ss.drop_last(), i);
    }
}

pub proof fn lemma_ident_seq_model_index(ps: Seq<Identifier>, i: int)
    requires
        0 <= i < ps.len(),
    ensures
        ident_seq_model(ps).len() == ps.len(),
        ident_seq_model(ps)[i] == ps[i].model(),
    decreases ps,
{
    if ps.len() > 0 && i < ps.len() - 1 {
        lemma_ident_seq_model_index(ps.drop_last(), i);
    }
    lemma_ident_seq_model_len(ps);
}

pub proof fn lemma_ident_seq_model_len(ps: Seq<Identifier>)
    ensures
        ident_seq_model(ps).len() == ps.len(),
    decreases ps,
{
    if ps.len() > 0 {
        lemma_ident_seq_model_len(ps.drop_last());
    }
}

pub proof fn lemma_expr_seq_model_len(es: Seq<Expression>)
    ensures
        expr_seq_model(es).len() == es.len(),
    decreases es,
{
    if es.len() > 0 {
        lemma_expr_seq_model_len(es.drop_last());
    }
}

pub proof fn lemma_expr_seq_model_index(es: Seq<Expression>, i: int)
    requires
        0 <= i < es.len(),
    ensures
        expr_seq_model(es).len() == es.len(),
        expr_seq_model(es)[i] == es[i].model(),
    decreases es,
{
    lemma_expr_seq_model_len(es);
    if i == es.len() - 1 {
    } else {
        lemma_expr_seq_model_index(es.drop_last(), i);
    }
}

// ---------------------------------------------------------------------
// Executable rendering, proved equal to the mathematical one.
// ---------------------------------------------------------------------
impl Expression {
    /// Renders this expression to its canonical text.
    #[verifier::rlimit(100)]
    #[verifier::loop_isolation(false)]
    pub fn render(&self) -> (s: String)
        ensures
            s@ == render_expr(self.model()),
        decreases *self,
    {
        match self {
            Expression::Ident(i) => i.value.clone(),
            Expression::Int(x) => x.token.literal.clone(),
            Expression::Bool(b) => b.token.literal.clone(),
            Expression::Prefix(p) => {
                let mut out = String::new();
                out.append("(");
                out.append(p.operator.as_str());
                let r = p.right.render();
                out.append(r.as_str());
                out.append(")");
                proof {
                    assert(out@ =~= render_expr(self.model()));
                }
                out
            },
            Expression::Infix(x) => {
                let mut out = String::new();
                out.append("(");
                let l = x.left.render();
                out.append(l.as_str());
                out.append(" ");
                out.append(x.operator.as_str());
                out.append(" ");
                let r = x.right.render();
                out.append(r.as_str());
                out.append(")");
                proof {
                    assert(out@ =~= render_expr(self.model()));
                }
                out
            },
            Expression::If(x) => {
                let mut out = String::new();
                out.append("if");
                let c = x.condition.render();
                out.append(c.as_str());
                out.append(" ");
                let cons = x.consequence.render();
                out.append(cons.as_str());
                match &x.alternative {
                    Some(a) => {
                        out.append("else ");
                        let alt = a.render();
                        out.append(alt.as_str());
                    },
                    None => {},
                }
                proof {
                    assert(out@ =~= render_expr(self.model()));
                }
                out
            },
            Expression::Function(f) => {
                let mut out = f.token.literal.clone();
                out.append("(");
                let ghost ms = ident_seq_model(f.parameters@);
                proof {
                    assert(ms.take(0) =~= Seq::<IdentModel>::empty());
                    assert(out@ =~= f.token@.literal + "("@ + render_params(ms.take(0)));
                }
                let mut i: usize = 0;
                let n = f.parameters.len();
                while i < n
                    invariant
                        i <= n,
                        n == f.parameters@.len(),
                        ms == ident_seq_model(f.parameters@),
                        out@ == f.token@.literal + "("@ + render_params(ms.take(i as int)),
                    decreases n - i,
                {
                    if i > 0 {
                        out.append(", ");
                    }
                    out.append(f.parameters[i].value.as_str());
                    proof {
                        lemma_ident_seq_model_index(f.parameters@, i as int);
                        assert(ms.take(i as int + 1).drop_last() =~= ms.take(i as int));
                        assert(ms.take(i as int + 1).last() == ms[i as int]);
                        assert(out@ =~= f.token@.literal + "("@ + render_params(
                            ms.take(i as int + 1),
                        ));
                    }
                    i = i + 1;
                }
                out.append(") ");
                let b = f.body.render();
                out.append(b.as_str());
                proof {
                    lemma_ident_seq_model_len(f.parameters@);
                    assert(ms.take(n as int) =~= ms);
                    assert(render_params(ms.take(n as int)) == render_params(ms));
                    assert(out@ == f.token@.literal + "("@ + render_params(ms) + ") "@
                        + render_block(f.body.model()));
                    assert(out@ == render_expr(self.model()));
                }
                out
            },
            Expression::Call(c) => {
                let mut out = c.callee.render();
                out.append("(");
                let ghost ms = expr_seq_model(c.arguments@);
                proof {
                    assert(ms.take(0) =~= Seq::<ExprModel>::empty());
                    assert(out@ =~= render_expr((*c.callee).model()) + "("@ + render_args(
                        ms.take(0),
                    ));
                }
                let mut i: usize = 0;
                let n = c.arguments.len();
                while i < n
                    invariant
                        i <= n,
                        n == c.arguments@.len(),
                        ms == expr_seq_model(c.arguments@),
                        out@ == render_expr((*c.callee).model()) + "("@ + render_args(
                            ms.take(i as int),
                        ),
                    decreases n - i,
                {
                    if i > 0 {
                        out.append(", ");
                    }
                    proof {
                        assert(decreases_to!(*self => c.arguments));
                        assert(decreases_to!(c.arguments => c.arguments@));
                        assert(decreases_to!(c.arguments@ => c.arguments@[i as int]));
                    }
                    let a = c.arguments[i].render();
                    out.append(a.as_str());
                    proof {
                        lemma_expr_seq_model_index(c.arguments@, i as int);
                        assert(ms.take(i as int + 1).drop_last() =~= ms.take(i as int));
                        assert(ms.take(i as int + 1).last() == ms[i as int]);
                        assert(out@ =~= render_expr((*c.callee).model()) + "("@ + render_args(
                            ms.take(i as int + 1),
                        ));
                    }
                    i = i + 1;
                }
                out.append(")");
                proof {
                    lemma_expr_seq_model_len(c.arguments@);
                    assert(ms.take(n as int) =~= ms);
                    assert(render_args(ms.take(n as int)) == render_args(ms));
                    assert(out@ == render_expr((*c.callee).model()) + "("@ + render_args(ms)
                        + ")"@);
                    assert(out@ == render_expr(self.model()));
                }
                out
            },
        }
    }
}

impl BlockStatement {
    /// Renders this block to its canonical text: its statements'
    /// renderings concatenated.
    #[verifier::rlimit(100)]
    #[verifier::loop_isolation(false)]
    pub fn render(&self) -> (s: String)
        ensures
            s@ == render_block(self.model()),
        decreases *self,
    {
        let mut out = String::new();
        let ghost ms = stmt_seq_model(self.statements@);
        proof {
            assert(ms.take(0) =~= Seq::<StmtModel>::empty());
        }
        let mut i: usize = 0;
        let n = self.statements.len();
        while i < n
            invariant
                i <= n,
                n == self.statements@.len(),
                ms == stmt_seq_model(self.statements@),
                out@ == render_stmts(ms.take(i as int)),
            decreases n - i,
        {
            proof {
                assert(decreases_to!(*self => self.statements));
                assert(decreases_to!(self.statements => self.statements@));
                assert(decreases_to!(self.statements@ => self.statements@[i as int]));
            }
            let r = self.statements[i].render();
            out.append(r.as_str());
            proof {
                lemma_stmt_seq_model_index(self.statements@, i as int);
                assert(ms.take(i as int + 1).drop_last() =~= ms.take(i as int));
                assert(ms.take(i as int + 1).last() == ms[i as int]);
                assert(render_stmts(ms.take(i as int + 1)) == render_stmts(ms.take(i as int))
                    + render_stmt(ms[i as int]));
                assert(out@ == render_stmts(ms.take(i as int + 1)));
            }
            i = i + 1;
        }
        proof {
            lemma_stmt_seq_model_len(self.statements@);
            assert(ms.take(n as int) =~= ms);
            assert(render_stmts(ms.take(n as int)) == render_stmts(ms));
        }
        out
    }
}

impl Statement {
    /// Renders this statement to its canonical text.
    #[verifier::rlimit(100)]
    pub fn render(&self) -> (s: String)
        ensures
            s@ == render_stmt(self.model()),
        decreases *self,
    {
        match self {
            Statement::Let(l) => {
                let mut out = l.token.literal.clone();
                out.append(" ");
                out.append(l.name.value.as_str());
                out.append(" = ");
                let v = l.value.render();
                out.append(v.as_str());
                out.append(";");
                proof {
                    assert(out@ =~= render_stmt(self.model()));
                }
                out
            },
            Statement::Return(r) => {
                let mut out = r.token.literal.clone();
                out.append(" ");
                let v = r.return_value.render();
                out.append(v.as_str());
                out.append(";");
                proof {
                    assert(out@ =~= render_stmt(self.model()));
                }
                out
            },
            Statement::Expr(e) => e.expression.render(),
        }
    }
}

impl Program {
    /// Renders the whole program: its statements' renderings concatenated.
    #[verifier::rlimit(100)]
    #[verifier::loop_isolation(false)]
    pub fn render(&self) -> (s: String)
        ensures
            s@ == render_program(self.model()),
    {
        let mut out = String::new();
        let ghost ms = stmt_seq_model(self.statements@);
        proof {
            assert(ms.take(0) =~= Seq::<StmtModel>::empty());
        }
        let mut i: usize = 0;
        let n = self.statements.len();
        while i < n
            invariant
                i <= n,
                n == self.statements@.len(),
                ms == stmt_seq_model(self.statements@),
                out@ == render_stmts(ms.take(i as int)),
            decreases n - i,
        {
            let r = self.statements[i].render();
            out.append(r.as_str());
            proof {
                lemma_stmt_seq_model_index(self.statements@, i as int);
                assert(ms.take(i as int + 1).drop_last() =~= ms.take(i as int));
                assert(ms.take(i as int + 1).last() == ms[i as int]);
                assert(render_stmts(ms.take(i as int + 1)) == render_stmts(ms.take(i as int))
                    + render_stmt(ms[i as int]));
                assert(out@ == render_stmts(ms.take(i as int + 1)));
            }
            i = i + 1;
        }
        proof {
            lemma_stmt_seq_model_len(self.statements@);
            assert(ms.take(n as int) =~= ms);
            assert(render_stmts(ms.take(n as int)) == render_stmts(ms));
        }
        out
    }
}

} // verus!
