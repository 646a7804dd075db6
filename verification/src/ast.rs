//! Abstract syntax of programs, with a mathematical view of each node.
use vstd::prelude::*;

verus! {

broadcast use vstd::std_specs::vec::group_vec_axioms, vstd::seq::group_seq_axioms;

/// A name in the source.
#[derive(Debug)]
pub struct Identifier {
    pub value: String,
}

/// A statement.
#[derive(Debug)]
pub enum Statement {
    Let(LetStatement),
    Return(ReturnStatement),
    Expression(Expression),
    Block(BlockStatement),
}

/// `let <name> = <value>;`
#[derive(Debug)]
pub struct LetStatement {
    pub name: Identifier,
    pub value: Expression,
}

/// `return <value>;`, the value being optional.
#[derive(Debug)]
pub struct ReturnStatement {
    pub value: Option<Expression>,
}

/// A braced sequence of statements.
#[derive(Debug)]
pub struct BlockStatement {
    pub statements: Vec<Statement>,
}

/// An expression.
#[derive(Debug)]
pub enum Expression {
    Identifier(Identifier),
    IntegerLiteral(i64),
    StringLiteral(String),
    Boolean(bool),
    Prefix { operator: String, right: Box<Expression> },
    Infix { operator: String, left: Box<Expression>, right: Box<Expression> },
    If { condition: Box<Expression>, consequence: BlockStatement, alternative: Option<BlockStatement> },
    Function { parameters: Vec<Identifier>, body: BlockStatement },
    Call { function: Box<Expression>, arguments: Vec<Expression> },
    Array(Vec<Expression>),
    Index { left: Box<Expression>, index: Box<Expression> },
    Hash(Vec<(Expression, Expression)>),
}

/// A whole program: its top-level statements.
#[derive(Debug)]
pub struct Program {
    pub statements: Vec<Statement>,
}

/// The mathematical form of an expression.
pub enum SExpr {
    Ident(Seq<char>),
    Int(i64),
    Str(Seq<char>),
    Bool(bool),
    Prefix(Seq<char>, Box<SExpr>),
    Infix(Seq<char>, Box<SExpr>, Box<SExpr>),
    If(Box<SExpr>, Seq<SStmt>, Option<Seq<SStmt>>),
    Function(Seq<Seq<char>>, Seq<SStmt>),
    Call(Box<SExpr>, Seq<SExpr>),
    Array(Seq<SExpr>),
    Index(Box<SExpr>, Box<SExpr>),
    Hash(Seq<(SExpr, SExpr)>),
}

/// The mathematical form of a statement; a block is a sequence of statements.
pub enum SStmt {
    Let(Seq<char>, SExpr),
    Return(Option<SExpr>),
    Expr(SExpr),
    Block(Seq<SStmt>),
}

/// The view of an expression.
pub open spec fn expr_view(e: &Expression) -> SExpr
    decreases e,
{
    match e {
        Expression::Identifier(id) => SExpr::Ident(id.value@),
        Expression::IntegerLiteral(n) => SExpr::Int(*n),
        Expression::StringLiteral(s) => SExpr::Str(s@),
        Expression::Boolean(b) => SExpr::Bool(*b),
        Expression::Prefix { operator, right } => SExpr::Prefix(operator@, Box::new(expr_view(&**right))),
        Expression::Infix { operator, left, right } => SExpr::Infix(
            operator@,
            Box::new(expr_view(&**left)),
            Box::new(expr_view(&**right)),
        ),
        Expression::If { condition, consequence, alternative } => SExpr::If(
            Box::new(expr_view(&**condition)),
            stmts_view(consequence.statements@),
            match alternative {
                Some(alt) => Some(stmts_view(alt.statements@)),
                None => None,
            },
        ),
        Expression::Function { parameters, body } => SExpr::Function(
            idents_view(parameters@),
            stmts_view(body.statements@),
        ),
        Expression::Call { function, arguments } => SExpr::Call(
            Box::new(expr_view(&**function)),
            exprs_view(arguments@),
        ),
        Expression::Array(els) => SExpr::Array(exprs_view(els@)),
        Expression::Index { left, index } => SExpr::Index(
            Box::new(expr_view(&**left)),
            Box::new(expr_view(&**index)),
        ),
        Expression::Hash(pairs) => SExpr::Hash(pairs_view(pairs@)),
    }
}

/// The views of a sequence of expressions.
pub open spec fn exprs_view(v: Seq<Expression>) -> Seq<SExpr>
    decreases v,
{
    if v.len() == 0 {
        Seq::empty()
    } else {
        exprs_view(v.drop_last()).push(expr_view(&v.last()))
    }
}

/// The views of the entries of a hash literal.
pub open spec fn pairs_view(v: Seq<(Expression, Expression)>) -> Seq<(SExpr, SExpr)>
    decreases v,
{
    if v.len() == 0 {
        Seq::empty()
    } else {
        pairs_view(v.drop_last()).push((expr_view(&v.last().0), expr_view(&v.last().1)))
    }
}

/// The view of a statement.
pub open spec fn stmt_view(s: &Statement) -> SStmt
    decreases s,
{
    match s {
        Statement::Let(ls) => SStmt::Let(ls.name.value@, expr_view(&ls.value)),
        Statement::Return(rs) => match &rs.value {
            Some(e) => SStmt::Return(Some(expr_view(e))),
            None => SStmt::Return(None),
        },
        Statement::Expression(e) => SStmt::Expr(expr_view(e)),
        Statement::Block(b) => SStmt::Block(stmts_view(b.statements@)),
    }
}

/// The views of a sequence of statements.
pub open spec fn stmts_view(v: Seq<Statement>) -> Seq<SStmt>
    decreases v,
{
    if v.len() == 0 {
        Seq::empty()
    } else {
        stmts_view(v.drop_last()).push(stmt_view(&v.last()))
    }
}

/// The names of a parameter list.
pub open spec fn idents_view(v: Seq<Identifier>) -> Seq<Seq<char>> {
    Seq::new(v.len(), |i: int| v[i].value@)
}

impl View for Identifier {
    type V = Seq<char>;

    open spec fn view(&self) -> Seq<char> {
        self.value@
    }
}

impl View for BlockStatement {
    type V = Seq<SStmt>;

    open spec fn view(&self) -> Seq<SStmt> {
        stmts_view(self.statements@)
    }
}

impl View for Program {
    type V = Seq<SStmt>;

    open spec fn view(&self) -> Seq<SStmt> {
        stmts_view(self.statements@)
    }
}

impl View for Statement {
    type V = SStmt;

    open spec fn view(&self) -> SStmt {
        stmt_view(self)
    }
}

impl View for Expression {
    type V = SExpr;

    open spec fn view(&self) -> SExpr {
        expr_view(self)
    }
}

/// Element-wise form of `exprs_view`.
pub proof fn lemma_exprs_view(v: Seq<Expression>)
    ensures
        exprs_view(v).len() == v.len(),
        forall|i: int| 0 <= i < v.len() ==> #[trigger] exprs_view(v)[i] == v[i]@,
    decreases v.len(),
{
    if v.len() > 0 {
        lemma_exprs_view(v.drop_last());
    }
}

/// Element-wise form of `stmts_view`.
pub proof fn lemma_stmts_view(v: Seq<Statement>)
    ensures
        stmts_view(v).len() == v.len(),
        forall|i: int| 0 <= i < v.len() ==> #[trigger] stmts_view(v)[i] == v[i]@,
    decreases v.len(),
{
    if v.len() > 0 {
        lemma_stmts_view(v.drop_last());
    }
}

/// Element-wise form of `pairs_view`.
pub proof fn lemma_pairs_view(v: Seq<(Expression, Expression)>)
    ensures
        pairs_view(v).len() == v.len(),
        forall|i: int|
            0 <= i < v.len() ==> #[trigger] pairs_view(v)[i] == (v[i].0@, v[i].1@),
    decreases v.len(),
{
    if v.len() > 0 {
        lemma_pairs_view(v.drop_last());
    }
}


/// `parts` joined with `sep` between neighbours.
pub open spec fn join(parts: Seq<Seq<char>>, sep: Seq<char>) -> Seq<char>
    decreases parts.len(),
{
    if parts.len() == 0 {
        Seq::empty()
    } else if parts.len() == 1 {
        parts[0]
    } else {
        join(parts.drop_last(), sep) + sep + parts.last()
    }
}

/// Joining one more part.
pub proof fn lemma_join_push(parts: Seq<Seq<char>>, sep: Seq<char>, p: Seq<char>)
    ensures
        join(parts.push(p), sep) == if parts.len() == 0 {
            p
        } else {
            join(parts, sep) + sep + p
        },
{
    assert(parts.push(p).drop_last() =~= parts);
}

/// The source text of an expression, fully parenthesised.
pub open spec fn expr_text(e: SExpr) -> Seq<char>
    decreases e,
{
    match e {
        SExpr::Ident(name) => name,
        SExpr::Int(n) => crate::text::int_text(n as int),
        SExpr::Str(s) => s,
        SExpr::Bool(b) => crate::text::bool_text(b),
        SExpr::Prefix(op, right) => "("@ + op + expr_text(*right) + ")"@,
        SExpr::Infix(op, left, right) => "("@ + expr_text(*left) + " "@ + op + " "@ + expr_text(
            *right,
        ) + ")"@,
        SExpr::If(cond, cons, alt) => "if"@ + expr_text(*cond) + " "@ + stmts_text(cons) + match alt {
            Some(a) => "else "@ + stmts_text(a),
            None => Seq::empty(),
        },
        SExpr::Function(params, body) => "fn("@ + join(params, ","@) + ") "@ + stmts_text(body),
        SExpr::Call(f, args) => expr_text(*f) + "("@ + join(exprs_texts(args), ", "@) + ")"@,
        SExpr::Array(els) => "["@ + join(exprs_texts(els), ", "@) + "]"@,
        SExpr::Index(left, index) => "("@ + expr_text(*left) + "["@ + expr_text(*index) + "])"@,
        SExpr::Hash(pairs) => "{"@ + join(pairs_texts(pairs), ", "@) + "}"@,
    }
}

/// The texts of a sequence of expressions.
pub open spec fn exprs_texts(es: Seq<SExpr>) -> Seq<Seq<char>>
    decreases es,
{
    if es.len() == 0 {
        Seq::empty()
    } else {
        exprs_texts(es.drop_last()).push(expr_text(es.last()))
    }
}

/// The texts `key:value` of hash literal entries.
pub open spec fn pairs_texts(ps: Seq<(SExpr, SExpr)>) -> Seq<Seq<char>>
    decreases ps,
{
    if ps.len() == 0 {
        Seq::empty()
    } else {
        pairs_texts(ps.drop_last()).push(
            expr_text(ps.last().0) + ":"@ + expr_text(ps.last().1),
        )
    }
}

/// The text of a statement.
pub open spec fn stmt_text(s: SStmt) -> Seq<char>
    decreases s,
{
    match s {
        SStmt::Let(name, value) => "let "@ + name + " = "@ + expr_text(value) + ";"@,
        SStmt::Return(v) => match v {
            Some(e) => "return "@ + expr_text(e) + ";"@,
            None => "return ;"@,
        },
        SStmt::Expr(e) => expr_text(e),
        SStmt::Block(b) => stmts_text(b),
    }
}

/// The texts of a statement sequence, one after the other.
pub open spec fn stmts_text(ss: Seq<SStmt>) -> Seq<char>
    decreases ss,
{
    if ss.len() == 0 {
        Seq::empty()
    } else {
        stmts_text(ss.drop_last()) + stmt_text(ss.last())
    }
}



impl Identifier {
    /// A copy of this identifier.
    pub fn copy(&self) -> (r: Identifier)
        ensures
            r@ == self@,
    {
        Identifier { value: self.value.clone() }
    }
}

/// Copies of the identifiers in `v`.
pub fn copy_identifiers(v: &Vec<Identifier>) -> (r: Vec<Identifier>)
    ensures
        idents_view(r@) == idents_view(v@),
{
    let mut r: Vec<Identifier> = Vec::new();
    for i in 0..v.len()
        invariant
            r@.len() == i,
            forall|j: int| 0 <= j < i ==> #[trigger] r@[j]@ == v@[j]@,
    {
        r.push(v[i].copy());
    }
    assert forall|j: int| 0 <= j < v@.len() implies #[trigger] idents_view(r@)[j] == idents_view(v@)[j] by {
        assert(r@[j]@ == v@[j]@);
    }
    assert(idents_view(r@) =~= idents_view(v@));
    r
}

/// Copies of the expressions in `v`.
pub fn copy_expressions(v: &Vec<Expression>) -> (r: Vec<Expression>)
    ensures
        exprs_view(r@) == exprs_view(v@),
    decreases v,
{
    let mut r: Vec<Expression> = Vec::new();
    for i in 0..v.len()
        invariant
            r@.len() == i,
            forall|j: int| 0 <= j < i ==> #[trigger] r@[j]@ == v@[j]@,
    {
        assert(decreases_to!(v => v@[i as int]));
        r.push(v[i].copy());
    }
    proof {
        lemma_exprs_view(r@);
        lemma_exprs_view(v@);
    }
    assert(exprs_view(r@) =~= exprs_view(v@));
    r
}

/// Copies of the statements in `v`.
pub fn copy_statements(v: &Vec<Statement>) -> (r: Vec<Statement>)
    ensures
        stmts_view(r@) == stmts_view(v@),
    decreases v,
{
    let mut r: Vec<Statement> = Vec::new();
    for i in 0..v.len()
        invariant
            r@.len() == i,
            forall|j: int| 0 <= j < i ==> #[trigger] r@[j]@ == v@[j]@,
    {
        assert(decreases_to!(v => v@[i as int]));
        r.push(v[i].copy());
    }
    proof {
        lemma_stmts_view(r@);
        lemma_stmts_view(v@);
    }
    assert(stmts_view(r@) =~= stmts_view(v@));
    r
}

/// Copies of the entries of a hash literal.
pub fn copy_pairs(v: &Vec<(Expression, Expression)>) -> (r: Vec<(Expression, Expression)>)
    ensures
        pairs_view(r@) == pairs_view(v@),
    decreases v,
{
    let mut r: Vec<(Expression, Expression)> = Vec::new();
    for i in 0..v.len()
        invariant
            r@.len() == i,
            forall|j: int|
                0 <= j < i ==> (#[trigger] r@[j]).0@ == v@[j].0@ && r@[j].1@ == v@[j].1@,
    {
        assert(decreases_to!(v => v@[i as int]));
        assert(decreases_to!(v@[i as int] => v@[i as int].0));
        assert(decreases_to!(v@[i as int] => v@[i as int].1));
        let k = v[i].0.copy();
        let e = v[i].1.copy();
        r.push((k, e));
    }
    proof {
        lemma_pairs_view(r@);
        lemma_pairs_view(v@);
    }
    assert(pairs_view(r@) =~= pairs_view(v@));
    r
}

impl BlockStatement {
    /// A copy of this block.
    pub fn copy(&self) -> (r: BlockStatement)
        ensures
            r@ == self@,
        decreases self,
    {
        let statements = copy_statements(&self.statements);
        BlockStatement { statements }
    }
}

impl Statement {
    /// A copy of this statement.
    pub fn copy(&self) -> (r: Statement)
        ensures
            r@ == self@,
        decreases self,
    {
        match self {
            Statement::Let(ls) => Statement::Let(
                LetStatement { name: ls.name.copy(), value: ls.value.copy() },
            ),
            Statement::Return(rs) => match &rs.value {
                Some(e) => Statement::Return(ReturnStatement { value: Some(e.copy()) }),
                None => Statement::Return(ReturnStatement { value: None }),
            },
            Statement::Expression(e) => Statement::Expression(e.copy()),
            Statement::Block(b) => {
                let statements = copy_statements(&b.statements);
                let r = Statement::Block(BlockStatement { statements });

                r
            },
        }
    }
}

impl Expression {
    /// A copy of this expression.
    pub fn copy(&self) -> (r: Expression)
        ensures
            r@ == self@,
        decreases self,
    {
        match self {
            Expression::Identifier(id) => Expression::Identifier(id.copy()),
            Expression::IntegerLiteral(n) => Expression::IntegerLiteral(*n),
            Expression::StringLiteral(s) => Expression::StringLiteral(s.clone()),
            Expression::Boolean(b) => Expression::Boolean(*b),
            Expression::Prefix { operator, right } => Expression::Prefix {
                operator: operator.clone(),
                right: Box::new((**right).copy()),
            },
            Expression::Infix { operator, left, right } => Expression::Infix {
                operator: operator.clone(),
                left: Box::new((**left).copy()),
                right: Box::new((**right).copy()),
            },
            Expression::If { condition, consequence, alternative } => {
                let c = (**condition).copy();
                let cons = copy_statements(&consequence.statements);
                let alt = match alternative {
                    Some(a) => Some(BlockStatement { statements: copy_statements(&a.statements) }),
                    None => None,
                };
                let r = Expression::If {
                    condition: Box::new(c),
                    consequence: BlockStatement { statements: cons },
                    alternative: alt,
                };
                proof {

                }
                r
            },
            Expression::Function { parameters, body } => {
                let ps = copy_identifiers(parameters);
                let bs = copy_statements(&body.statements);
                let r = Expression::Function {
                    parameters: ps,
                    body: BlockStatement { statements: bs },
                };
                proof {

                }
                r
            },
            Expression::Call { function, arguments } => {
                let f = (**function).copy();
                let args = copy_expressions(arguments);
                let r = Expression::Call { function: Box::new(f), arguments: args };
                proof {

                }
                r
            },
            Expression::Array(els) => {
                let es = copy_expressions(els);
                let r = Expression::Array(es);
                proof {

                }
                r
            },
            Expression::Index { left, index } => Expression::Index {
                left: Box::new((**left).copy()),
                index: Box::new((**index).copy()),
            },
            Expression::Hash(pairs) => {
                let ps = copy_pairs(pairs);
                let r = Expression::Hash(ps);
                proof {

                }
                r
            },
        }
    }
}




proof fn lemma_exprs_text_step(v: Seq<Expression>, i: int)
    requires
        0 <= i < v.len(),
    ensures
        exprs_texts(exprs_view(v.take(i + 1))) == exprs_texts(exprs_view(v.take(i))).push(
            expr_text(v[i]@),
        ),
{
    assert(v.take(i + 1).drop_last() =~= v.take(i));
    assert(exprs_view(v.take(i + 1)).drop_last() =~= exprs_view(v.take(i)));
}

proof fn lemma_pairs_text_step(v: Seq<(Expression, Expression)>, i: int)
    requires
        0 <= i < v.len(),
    ensures
        pairs_texts(pairs_view(v.take(i + 1))) == pairs_texts(pairs_view(v.take(i))).push(
            expr_text(v[i].0@) + ":"@ + expr_text(v[i].1@),
        ),
{
    assert(v.take(i + 1).drop_last() =~= v.take(i));
    assert(pairs_view(v.take(i + 1)).drop_last() =~= pairs_view(v.take(i)));
}

proof fn lemma_stmts_text_step(v: Seq<Statement>, i: int)
    requires
        0 <= i < v.len(),
    ensures
        stmts_text(stmts_view(v.take(i + 1))) == stmts_text(stmts_view(v.take(i))) + stmt_text(
            v[i]@,
        ),
{
    assert(v.take(i + 1).drop_last() =~= v.take(i));
    assert(stmts_view(v.take(i + 1)).drop_last() =~= stmts_view(v.take(i)));
}

/// Appends the names in `v`, separated by `sep`.
pub fn write_idents(v: &Vec<Identifier>, sep: &str, out: &mut String)
    ensures
        final(out)@ == old(out)@ + join(idents_view(v@), sep@),
{
    let ghost start = out@;
    for i in 0..v.len()
        invariant
            out@ == start + join(idents_view(v@.take(i as int)), sep@),
    {
        proof {
            lemma_join_push(idents_view(v@.take(i as int)), sep@, v@[i as int].value@);
            assert(idents_view(v@.take(i as int)).push(v@[i as int].value@) =~= idents_view(
                v@.take(i as int + 1),
            ));
        }
        if i > 0 {
            crate::text::push_str(out, sep);
        }
        crate::text::push_str(out, v[i].value.as_str());
        assert(out@ =~= start + join(idents_view(v@.take(i as int + 1)), sep@));
    }
    assert(v@.take(v@.len() as int) =~= v@);
}

/// Appends the texts of the expressions in `v`, separated by `sep`.
fn write_exprs(v: &Vec<Expression>, sep: &str, out: &mut String)
    ensures
        final(out)@ == old(out)@ + join(exprs_texts(exprs_view(v@)), sep@),
    decreases v,
{
    let ghost start = out@;
    for i in 0..v.len()
        invariant
            out@ == start + join(exprs_texts(exprs_view(v@.take(i as int))), sep@),
    {
        proof {
            lemma_exprs_text_step(v@, i as int);
            lemma_join_push(exprs_texts(exprs_view(v@.take(i as int))), sep@, expr_text(v@[i as int]@));
            lemma_exprs_view(v@.take(i as int));
        }
        if i > 0 {
            crate::text::push_str(out, sep);
        }
        assert(decreases_to!(v => v@[i as int]));
        write_expr(&v[i], out);
        assert(out@ =~= start + join(exprs_texts(exprs_view(v@.take(i as int + 1))), sep@));
    }
    assert(v@.take(v@.len() as int) =~= v@);
}

/// Appends the texts `key:value` of hash literal entries, separated by `, `.
fn write_pairs(v: &Vec<(Expression, Expression)>, out: &mut String)
    ensures
        final(out)@ == old(out)@ + join(pairs_texts(pairs_view(v@)), ", "@),
    decreases v,
{
    let ghost start = out@;
    for i in 0..v.len()
        invariant
            out@ == start + join(pairs_texts(pairs_view(v@.take(i as int))), ", "@),
    {
        let ghost item = expr_text(v@[i as int].0@) + ":"@ + expr_text(v@[i as int].1@);
        proof {
            lemma_pairs_text_step(v@, i as int);
            lemma_join_push(pairs_texts(pairs_view(v@.take(i as int))), ", "@, item);
        }
        if i > 0 {
            crate::text::push_str(out, ", ");
        }
        assert(decreases_to!(v => v@[i as int]));
        assert(decreases_to!(v@[i as int] => v@[i as int].0));
        assert(decreases_to!(v@[i as int] => v@[i as int].1));
        write_expr(&v[i].0, out);
        crate::text::push_str(out, ":");
        write_expr(&v[i].1, out);
        assert(out@ =~= start + join(pairs_texts(pairs_view(v@.take(i as int + 1))), ", "@));
    }
    assert(v@.take(v@.len() as int) =~= v@);
}

/// Appends the texts of the statements in `v`, one after the other.
pub fn write_stmts(v: &Vec<Statement>, out: &mut String)
    ensures
        final(out)@ == old(out)@ + stmts_text(stmts_view(v@)),
    decreases v,
{
    let ghost start = out@;
    assert(stmts_view(v@.take(0)) =~= Seq::<SStmt>::empty());
    for i in 0..v.len()
        invariant
            out@ == start + stmts_text(stmts_view(v@.take(i as int))),
    {
        proof {
            lemma_stmts_text_step(v@, i as int);
        }
        assert(decreases_to!(v => v@[i as int]));
        write_stmt(&v[i], out);
        assert(out@ =~= start + stmts_text(stmts_view(v@.take(i as int + 1))));
    }
    assert(v@.take(v@.len() as int) =~= v@);
}

/// Appends the text of a statement.
pub fn write_stmt(s: &Statement, out: &mut String)
    ensures
        final(out)@ == old(out)@ + stmt_text(s@),
    decreases s,
{
    let ghost start = out@;
    match s {
        Statement::Let(ls) => {
            crate::text::push_str(out, "let ");
            crate::text::push_str(out, ls.name.value.as_str());
            crate::text::push_str(out, " = ");
            write_expr(&ls.value, out);
            crate::text::push_str(out, ";");
        },
        Statement::Return(rs) => match &rs.value {
            Some(e) => {
                crate::text::push_str(out, "return ");
                write_expr(e, out);
                crate::text::push_str(out, ";");
            },
            None => {
                crate::text::push_str(out, "return ;");
            },
        },
        Statement::Expression(e) => {
            write_expr(e, out);
        },
        Statement::Block(b) => {
            write_stmts(&b.statements, out);
        },
    }
    assert(out@ =~= start + stmt_text(s@));
}

/// Appends the text of an expression.
pub fn write_expr(e: &Expression, out: &mut String)
    ensures
        final(out)@ == old(out)@ + expr_text(e@),
    decreases e,
{
    let ghost start = out@;
    match e {
        Expression::Identifier(id) => {
            crate::text::push_str(out, id.value.as_str());
        },
        Expression::IntegerLiteral(n) => {
            crate::text::push_int(out, *n);
        },
        Expression::StringLiteral(s) => {
            crate::text::push_str(out, s.as_str());
        },
        Expression::Boolean(b) => {
            if *b {
                crate::text::push_str(out, "true");
            } else {
                crate::text::push_str(out, "false");
            }
        },
        Expression::Prefix { operator, right } => {
            crate::text::push_str(out, "(");
            crate::text::push_str(out, operator.as_str());
            write_expr(right, out);
            crate::text::push_str(out, ")");
        },
        Expression::Infix { operator, left, right } => {
            crate::text::push_str(out, "(");
            write_expr(left, out);
            crate::text::push_str(out, " ");
            crate::text::push_str(out, operator.as_str());
            crate::text::push_str(out, " ");
            write_expr(right, out);
            crate::text::push_str(out, ")");
        },
        Expression::If { condition, consequence, alternative } => {
            crate::text::push_str(out, "if");
            write_expr(condition, out);
            crate::text::push_str(out, " ");
            write_stmts(&consequence.statements, out);
            match alternative {
                Some(alt) => {
                    crate::text::push_str(out, "else ");
                    write_stmts(&alt.statements, out);
                },
                None => {},
            }
        },
        Expression::Function { parameters, body } => {
            crate::text::push_str(out, "fn(");
            write_idents(parameters, ",", out);
            crate::text::push_str(out, ") ");
            write_stmts(&body.statements, out);
        },
        Expression::Call { function, arguments } => {
            write_expr(function, out);
            crate::text::push_str(out, "(");
            write_exprs(arguments, ", ", out);
            crate::text::push_str(out, ")");
        },
        Expression::Array(els) => {
            crate::text::push_str(out, "[");
            write_exprs(els, ", ", out);
            crate::text::push_str(out, "]");
        },
        Expression::Index { left, index } => {
            crate::text::push_str(out, "(");
            write_expr(left, out);
            crate::text::push_str(out, "[");
            write_expr(index, out);
            crate::text::push_str(out, "])");
        },
        Expression::Hash(pairs) => {
            crate::text::push_str(out, "{");
            write_pairs(pairs, out);
            crate::text::push_str(out, "}");
        },
    }
    assert(out@ =~= start + expr_text(e@));
}

impl Program {
    /// The source text of the program: its statements one after the other.
    pub fn to_text(&self) -> (r: String)
        ensures
            r@ == stmts_text(self@),
    {
        let mut r = String::new();
        write_stmts(&self.statements, &mut r);
        assert(r@ =~= stmts_text(self@));
        r
    }
}

impl BlockStatement {
    /// The source text of the block: its statements one after the other.
    pub fn to_text(&self) -> (r: String)
        ensures
            r@ == stmts_text(self@),
    {
        let mut r = String::new();
        write_stmts(&self.statements, &mut r);
        assert(r@ =~= stmts_text(self@));
        r
    }
}

impl Statement {
    /// The source text of the statement.
    pub fn to_text(&self) -> (r: String)
        ensures
            r@ == stmt_text(self@),
    {
        let mut r = String::new();
        write_stmt(self, &mut r);
        assert(r@ =~= stmt_text(self@));
        r
    }
}

impl Expression {
    /// The source text of the expression, fully parenthesised.
    pub fn to_text(&self) -> (r: String)
        ensures
            r@ == expr_text(self@),
    {
        let mut r = String::new();
        write_expr(self, &mut r);
        assert(r@ =~= expr_text(self@));
        r
    }
}

} // verus!
