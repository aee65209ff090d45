//! The tree-walking evaluator: runtime values, the variable environment, and
//! direct evaluation of the syntax tree.
//!
//! Arithmetic wraps on overflow; division is truncating, rejects a zero
//! divisor, and wraps on the one overflowing quotient.  The evaluator limits
//! the depth of nested function calls, reporting an error instead of
//! exhausting the machine's stack.

use crate::parser::{
    expr_view, exprs_view, stmt_view, stmts_view, strings_view, ExprView, Expression, Operator,
    Prefix, Statement, StmtView,
};
use vstd::prelude::*;

verus! {

/// A runtime value.
#[derive(Debug, PartialEq)]
pub enum Object {
    Null,
    Int(i64),
    Boolean(bool),
    String(String),
    Return(Box<Object>),
    Function { parameters: Vec<String>, body: Vec<Statement> },
}

/// The mathematical value of an `Object`.
pub enum ObjView {
    Null,
    Int(i64),
    Boolean(bool),
    String(Seq<char>),
    Return(Box<ObjView>),
    Function { parameters: Seq<Seq<char>>, body: Seq<StmtView> },
}

pub open spec fn obj_view(o: Object) -> ObjView
    decreases o,
{
    match o {
        Object::Null => ObjView::Null,
        Object::Int(v) => ObjView::Int(v),
        Object::Boolean(b) => ObjView::Boolean(b),
        Object::String(s) => ObjView::String(s@),
        Object::Return(b) => ObjView::Return(Box::new(obj_view(*b))),
        Object::Function { parameters, body } => ObjView::Function {
            parameters: strings_view(parameters@),
            body: stmts_view(body@),
        },
    }
}

/// The error the evaluator reports instead of continuing.
#[derive(Debug, PartialEq, Eq, Structural, Clone, Copy)]
pub enum EvalError {
    TypeMismatch,
    DivisionByZero,
    UndefinedVariable,
    NotAFunction,
    ArgCountMismatch,
    CallDepthExceeded,
}

/// The name-to-value mapping of an environment: later entries shadow
/// earlier ones.
spec fn store_map(s: Seq<(String, Object)>) -> Map<Seq<char>, ObjView>
    decreases s.len(),
{
    if s.len() == 0 {
        Map::empty()
    } else {
        store_map(s.drop_last()).insert(s.last().0@, obj_view(s.last().1))
    }
}

/// The variable environment: maps names to the runtime values last bound to
/// them.
pub struct Environment {
    store: Vec<(String, Object)>,
}

impl View for Environment {
    type V = Map<Seq<char>, ObjView>;

    closed spec fn view(&self) -> Map<Seq<char>, ObjView> {
        store_map(self.store@)
    }
}

/// In a store whose entries at or after position `i` all miss `k` except a
/// hit at `i` itself, the map resolves `k` to the entry at `i`.
proof fn lemma_store_map_found(s: Seq<(String, Object)>, i: int, k: Seq<char>)
    requires
        0 <= i < s.len(),
        s[i].0@ == k,
        forall|j: int| i < j < s.len() ==> #[trigger] s[j].0@ != k,
    ensures
        store_map(s).contains_key(k),
        store_map(s)[k] == obj_view(s[i].1),
    decreases s.len(),
{
    if i + 1 == s.len() {
    } else {
        lemma_store_map_found(s.drop_last(), i, k);
    }
}

/// A name no entry carries is absent from the map.
proof fn lemma_store_map_absent(s: Seq<(String, Object)>, k: Seq<char>)
    requires
        forall|j: int| 0 <= j < s.len() ==> #[trigger] s[j].0@ != k,
    ensures
        !store_map(s).contains_key(k),
    decreases s.len(),
{
    if s.len() > 0 {
        lemma_store_map_absent(s.drop_last(), k);
    }
}

/// A deep copy of a runtime value, with the same mathematical value.
pub(crate) fn duplicate(o: &Object) -> (r: Object)
    ensures
        obj_view(r) == obj_view(*o),
    decreases o,
{
    match o {
        Object::Null => Object::Null,
        Object::Int(v) => Object::Int(*v),
        Object::Boolean(b) => Object::Boolean(*b),
        Object::String(s) => Object::String(s.clone()),
        Object::Return(b) => Object::Return(Box::new(duplicate(&**b))),
        Object::Function { parameters, body } => {
            let r = Object::Function {
                parameters: duplicate_strings(parameters),
                body: duplicate_statements(body),
            };
            proof {
                assert(obj_view(r) == obj_view(*o));
            }
            r
        },
    }
}

/// A deep copy of a name list, with the same views.
fn duplicate_strings(v: &Vec<String>) -> (r: Vec<String>)
    ensures
        strings_view(r@) == strings_view(v@),
{
    let mut r: Vec<String> = Vec::new();
    let mut i: usize = 0;
    while i < v.len()
        invariant
            i <= v.len(),
            r@.len() == i,
            forall|j: int| 0 <= j < i ==> #[trigger] r@[j]@ == v@[j]@,
        decreases v.len() - i,
    {
        r.push(v[i].clone());
        i += 1;
    }
    proof {
        assert(strings_view(r@) =~= strings_view(v@));
    }
    r
}

/// A deep copy of a statement list, with the same views.
fn duplicate_statements(v: &Vec<Statement>) -> (r: Vec<Statement>)
    ensures
        stmts_view(r@) == stmts_view(v@),
    decreases v,
{
    let mut r: Vec<Statement> = Vec::new();
    let mut i: usize = 0;
    while i < v.len()
        invariant
            i <= v.len(),
            r@.len() == i,
            forall|j: int| 0 <= j < i ==> #[trigger] stmt_view(r@[j]) == stmt_view(v@[j]),
        decreases v.len() - i,
    {
        let s = duplicate_statement(&v[i]);
        r.push(s);
        i += 1;
    }
    proof {
        crate::parser::lemma_stmts_view_len(r@);
        crate::parser::lemma_stmts_view_len(v@);
        lemma_stmts_view_pointwise(r@, v@);
    }
    r
}

/// Statement sequences with pointwise equal views have equal views.
proof fn lemma_stmts_view_pointwise(a: Seq<Statement>, b: Seq<Statement>)
    requires
        a.len() == b.len(),
        forall|j: int| 0 <= j < a.len() ==> #[trigger] stmt_view(a[j]) == stmt_view(b[j]),
    ensures
        stmts_view(a) == stmts_view(b),
    decreases a.len(),
{
    if a.len() > 0 {
        lemma_stmts_view_pointwise(
            a.subrange(1, a.len() as int),
            b.subrange(1, b.len() as int),
        );
        assert(forall|j: int|
            0 <= j < a.len() - 1 ==> #[trigger] stmt_view(a.subrange(1, a.len() as int)[j])
                == stmt_view(b.subrange(1, b.len() as int)[j]));
        assert(stmt_view(a[0]) == stmt_view(b[0]));
        assert(stmts_view(a) == seq![stmt_view(a[0])] + stmts_view(a.subrange(1, a.len() as int)));
        assert(stmts_view(b) == seq![stmt_view(b[0])] + stmts_view(b.subrange(1, b.len() as int)));
        assert(stmts_view(a) =~= stmts_view(b));
    } else {
        assert(stmts_view(a) =~= stmts_view(b));
    }
}

/// Expression sequences with pointwise equal views have equal views.
proof fn lemma_exprs_view_pointwise(a: Seq<Expression>, b: Seq<Expression>)
    requires
        a.len() == b.len(),
        forall|j: int| 0 <= j < a.len() ==> #[trigger] expr_view(a[j]) == expr_view(b[j]),
    ensures
        exprs_view(a) == exprs_view(b),
    decreases a.len(),
{
    if a.len() > 0 {
        lemma_exprs_view_pointwise(
            a.subrange(1, a.len() as int),
            b.subrange(1, b.len() as int),
        );
        assert(forall|j: int|
            0 <= j < a.len() - 1 ==> #[trigger] expr_view(a.subrange(1, a.len() as int)[j])
                == expr_view(b.subrange(1, b.len() as int)[j]));
        assert(expr_view(a[0]) == expr_view(b[0]));
        assert(exprs_view(a) == seq![expr_view(a[0])] + exprs_view(a.subrange(1, a.len() as int)));
        assert(exprs_view(b) == seq![expr_view(b[0])] + exprs_view(b.subrange(1, b.len() as int)));
        assert(exprs_view(a) =~= exprs_view(b));
    } else {
        assert(exprs_view(a) =~= exprs_view(b));
    }
}

/// A deep copy of a statement, with the same view.
fn duplicate_statement(s: &Statement) -> (r: Statement)
    ensures
        stmt_view(r) == stmt_view(*s),
    decreases s,
{
    match s {
        Statement::Let { name, value } => Statement::Let {
            name: name.clone(),
            value: duplicate_expression(value),
        },
        Statement::Return { value } => Statement::Return { value: duplicate_expression(value) },
        Statement::ExpressionStatement(e) => Statement::ExpressionStatement(
            duplicate_expression(e),
        ),
    }
}

/// A deep copy of an expression list, with the same views.
fn duplicate_expressions(v: &Vec<Expression>) -> (r: Vec<Expression>)
    ensures
        exprs_view(r@) == exprs_view(v@),
    decreases v,
{
    let mut r: Vec<Expression> = Vec::new();
    let mut i: usize = 0;
    while i < v.len()
        invariant
            i <= v.len(),
            r@.len() == i,
            forall|j: int| 0 <= j < i ==> #[trigger] expr_view(r@[j]) == expr_view(v@[j]),
        decreases v.len() - i,
    {
        let e = duplicate_expression(&v[i]);
        r.push(e);
        i += 1;
    }
    proof {
        lemma_exprs_view_pointwise(r@, v@);
    }
    r
}

/// A deep copy of an expression, with the same view.
fn duplicate_expression(e: &Expression) -> (r: Expression)
    ensures
        expr_view(r) == expr_view(*e),
    decreases e,
{
    match e {
        Expression::Int(v) => Expression::Int(*v),
        Expression::Boolean(b) => Expression::Boolean(*b),
        Expression::Ident(s) => Expression::Ident(s.clone()),
        Expression::String(s) => Expression::String(s.clone()),
        Expression::Infix { left, op, right } => {
            let r = Expression::Infix {
                left: Box::new(duplicate_expression(&**left)),
                op: *op,
                right: Box::new(duplicate_expression(&**right)),
            };
            proof {
                assert(expr_view(r) == expr_view(*e));
            }
            r
        },
        Expression::Prefix { prefix, value } => {
            let r = Expression::Prefix {
                prefix: *prefix,
                value: Box::new(duplicate_expression(&**value)),
            };
            proof {
                assert(expr_view(r) == expr_view(*e));
            }
            r
        },
        Expression::If { condition, consequence, alternative } => {
            let r = Expression::If {
                condition: Box::new(duplicate_expression(&**condition)),
                consequence: duplicate_statements(consequence),
                alternative: duplicate_statements(alternative),
            };
            proof {
                assert(expr_view(r) == expr_view(*e));
            }
            r
        },
        Expression::FnLiteral { parameters, body } => {
            let r = Expression::FnLiteral {
                parameters: duplicate_strings(parameters),
                body: duplicate_statements(body),
            };
            proof {
                assert(expr_view(r) == expr_view(*e));
            }
            r
        },
        Expression::FnCall { function, args } => {
            let r = Expression::FnCall {
                function: Box::new(duplicate_expression(&**function)),
                args: duplicate_expressions(args),
            };
            proof {
                assert(expr_view(r) == expr_view(*e));
            }
            r
        },
    }
}

impl Environment {
    /// An empty environment.
    pub fn new() -> (r: Environment)
        ensures
            r@ == Map::<Seq<char>, ObjView>::empty(),
    {
        Environment { store: Vec::new() }
    }

    /// The value last bound to `key`, or `None` when the name is unbound.
    pub fn get(&self, key: &str) -> (r: Option<Object>)
        ensures
            match r {
                Some(v) => self@.contains_key(key@) && obj_view(v) == self@[key@],
                None => !self@.contains_key(key@),
            },
    {
        let owned = key.to_owned();
        let mut i = self.store.len();
        while i > 0
            invariant
                i <= self.store.len(),
                owned@ == key@,
                forall|j: int| i <= j < self.store@.len() ==> #[trigger] self.store@[j].0@ != key@,
            decreases i,
        {
            i -= 1;
            if self.store[i].0 == owned {
                proof {
                    lemma_store_map_found(self.store@, i as int, key@);
                }
                return Some(duplicate(&self.store[i].1));
            }
        }
        proof {
            lemma_store_map_absent(self.store@, key@);
        }
        None
    }

    /// Bind `value` to `key`, shadowing any earlier binding.
    pub fn set(&mut self, key: String, value: Object)
        ensures
            final(self)@ == old(self)@.insert(key@, obj_view(value)),
    {
        let ghost old_entries = self.store@;
        self.store.push((key, value));
        proof {
            assert(self.store@.drop_last() =~= old_entries);
        }
    }
}

/// The height of an expression view: a measure that strictly shrinks from
/// any form to its parts.
pub open spec fn expr_height(e: ExprView) -> nat
    decreases e,
{
    match e {
        ExprView::Int(_) => 1,
        ExprView::Boolean(_) => 1,
        ExprView::Ident(_) => 1,
        ExprView::String(_) => 1,
        ExprView::Infix { left, op, right } => 1 + expr_height(*left) + expr_height(*right),
        ExprView::Prefix { prefix, value } => 1 + expr_height(*value),
        ExprView::If { condition, consequence, alternative } => 1 + expr_height(*condition)
            + stmts_height(consequence) + stmts_height(alternative),
        ExprView::FnLiteral { parameters, body } => 1 + stmts_height(body),
        ExprView::FnCall { function, args } => 1 + expr_height(*function) + exprs_height(args),
    }
}

/// The height of a statement view.
pub open spec fn stmt_height(s: StmtView) -> nat
    decreases s,
{
    match s {
        StmtView::Let { name, value } => 1 + expr_height(value),
        StmtView::Return { value } => 1 + expr_height(value),
        StmtView::ExpressionStatement(e) => 1 + expr_height(e),
    }
}

/// The height of a statement sequence.
pub open spec fn stmts_height(v: Seq<StmtView>) -> nat
    decreases v,
{
    if v.len() == 0 {
        0
    } else {
        1 + stmt_height(v[0]) + stmts_height(v.subrange(1, v.len() as int))
    }
}

/// The height of an expression sequence.
pub open spec fn exprs_height(v: Seq<ExprView>) -> nat
    decreases v,
{
    if v.len() == 0 {
        0
    } else {
        1 + expr_height(v[0]) + exprs_height(v.subrange(1, v.len() as int))
    }
}

/// The quotient of truncating division, wrapping on the one overflowing
/// case.
pub open spec fn wrap_div(l: i64, r: i64) -> i64
    recommends
        r != 0,
{
    match l.checked_div(r) {
        Some(q) => q,
        None => i64::MIN,
    }
}

/// What an infix operator yields on two evaluated operands.
pub open spec fn eval_infix_spec(op: Operator, l: ObjView, r: ObjView) -> Result<
    ObjView,
    EvalError,
> {
    match op {
        Operator::PLUS => match (l, r) {
            (ObjView::Int(a), ObjView::Int(b)) => Ok(ObjView::Int(a.wrapping_add(b))),
            _ => Err(EvalError::TypeMismatch),
        },
        Operator::MINUS => match (l, r) {
            (ObjView::Int(a), ObjView::Int(b)) => Ok(ObjView::Int(a.wrapping_sub(b))),
            _ => Err(EvalError::TypeMismatch),
        },
        Operator::MULTIPLY => match (l, r) {
            (ObjView::Int(a), ObjView::Int(b)) => Ok(ObjView::Int(a.wrapping_mul(b))),
            _ => Err(EvalError::TypeMismatch),
        },
        Operator::DIVIDE => match (l, r) {
            (ObjView::Int(a), ObjView::Int(b)) => if b == 0 {
                Err(EvalError::DivisionByZero)
            } else {
                Ok(ObjView::Int(wrap_div(a, b)))
            },
            _ => Err(EvalError::TypeMismatch),
        },
        Operator::EQUAL => match (l, r) {
            (ObjView::Int(a), ObjView::Int(b)) => Ok(ObjView::Boolean(a == b)),
            (ObjView::Boolean(a), ObjView::Boolean(b)) => Ok(ObjView::Boolean(a == b)),
            _ => Err(EvalError::TypeMismatch),
        },
        Operator::NEQUAL => match (l, r) {
            (ObjView::Int(a), ObjView::Int(b)) => Ok(ObjView::Boolean(a != b)),
            (ObjView::Boolean(a), ObjView::Boolean(b)) => Ok(ObjView::Boolean(a != b)),
            _ => Err(EvalError::TypeMismatch),
        },
        Operator::GREATER => match (l, r) {
            (ObjView::Int(a), ObjView::Int(b)) => Ok(ObjView::Boolean(a > b)),
            _ => Err(EvalError::TypeMismatch),
        },
        Operator::LESS => match (l, r) {
            (ObjView::Int(a), ObjView::Int(b)) => Ok(ObjView::Boolean(a < b)),
            _ => Err(EvalError::TypeMismatch),
        },
    }
}

/// What evaluating a statement sequence yields: the value of the last
/// statement, or the first `Return` wrapper, together with the environment
/// after it.
pub open spec fn eval_stmts_spec(
    stmts: Seq<StmtView>,
    env: Map<Seq<char>, ObjView>,
    fuel: nat,
) -> Result<(ObjView, Map<Seq<char>, ObjView>), EvalError>
    decreases fuel, stmts_height(stmts), 2int,
{
    if stmts.len() == 0 {
        Ok((ObjView::Null, env))
    } else {
        match eval_stmt_spec(stmts[0], env, fuel) {
            Err(e) => Err(e),
            Ok((v, env2)) => if v is Return || stmts.len() == 1 {
                Ok((v, env2))
            } else {
                eval_stmts_spec(stmts.subrange(1, stmts.len() as int), env2, fuel)
            },
        }
    }
}

/// What evaluating one statement yields.
pub open spec fn eval_stmt_spec(s: StmtView, env: Map<Seq<char>, ObjView>, fuel: nat) -> Result<
    (ObjView, Map<Seq<char>, ObjView>),
    EvalError,
>
    decreases fuel, stmt_height(s), 1int,
{
    match s {
        StmtView::ExpressionStatement(e) => eval_expr_spec(e, env, fuel),
        StmtView::Return { value } => match eval_expr_spec(value, env, fuel) {
            Ok((v, env2)) => Ok((ObjView::Return(Box::new(v)), env2)),
            Err(e) => Err(e),
        },
        StmtView::Let { name, value } => match eval_expr_spec(value, env, fuel) {
            Ok((v, env2)) => Ok((v, env2.insert(name, v))),
            Err(e) => Err(e),
        },
    }
}

/// What evaluating a program yields: as `eval_stmts_spec`, with a final
/// `Return` wrapper unwrapped.
pub open spec fn eval_spec(
    stmts: Seq<StmtView>,
    env: Map<Seq<char>, ObjView>,
    fuel: nat,
) -> Result<(ObjView, Map<Seq<char>, ObjView>), EvalError>
    decreases fuel, stmts_height(stmts), 3int,
{
    match eval_stmts_spec(stmts, env, fuel) {
        Ok((v, env2)) => match v {
            ObjView::Return(inner) => Ok((*inner, env2)),
            _ => Ok((v, env2)),
        },
        Err(e) => Err(e),
    }
}

/// What evaluating a call's arguments yields: each argument evaluated in
/// order against the caller's environment, each bound to the matching
/// parameter in the callee's fresh environment.
pub open spec fn eval_call_args_spec(
    params: Seq<Seq<char>>,
    args: Seq<ExprView>,
    env: Map<Seq<char>, ObjView>,
    fenv: Map<Seq<char>, ObjView>,
    fuel: nat,
) -> Result<(Map<Seq<char>, ObjView>, Map<Seq<char>, ObjView>), EvalError>
    recommends
        params.len() == args.len(),
    decreases fuel, exprs_height(args), 1int,
{
    if args.len() == 0 || params.len() == 0 {
        Ok((fenv, env))
    } else {
        match eval_expr_spec(args[0], env, fuel) {
            Ok((v, env2)) => eval_call_args_spec(
                params.subrange(1, params.len() as int),
                args.subrange(1, args.len() as int),
                env2,
                fenv.insert(params[0], v),
                fuel,
            ),
            Err(e) => Err(e),
        }
    }
}

/// What evaluating one expression yields, together with the environment
/// after it.  Function calls consume one unit of call depth.
pub open spec fn eval_expr_spec(e: ExprView, env: Map<Seq<char>, ObjView>, fuel: nat) -> Result<
    (ObjView, Map<Seq<char>, ObjView>),
    EvalError,
>
    decreases fuel, expr_height(e), 0int,
{
    match e {
        ExprView::Int(v) => Ok((ObjView::Int(v), env)),
        ExprView::Boolean(b) => Ok((ObjView::Boolean(b), env)),
        ExprView::String(sv) => Ok((ObjView::String(sv), env)),
        ExprView::Ident(name) => if env.contains_key(name) {
            Ok((env[name], env))
        } else {
            Err(EvalError::UndefinedVariable)
        },
        ExprView::Prefix { prefix, value } => match eval_expr_spec(*value, env, fuel) {
            Ok((v, env2)) => match prefix {
                Prefix::BANG => match v {
                    ObjView::Boolean(b) => Ok((ObjView::Boolean(!b), env2)),
                    _ => Err(EvalError::TypeMismatch),
                },
                Prefix::MINUS => match v {
                    ObjView::Int(i) => Ok((ObjView::Int((0 as i64).wrapping_sub(i)), env2)),
                    _ => Err(EvalError::TypeMismatch),
                },
            },
            Err(er) => Err(er),
        },
        ExprView::Infix { left, op, right } => match eval_expr_spec(*left, env, fuel) {
            Ok((lv, env1)) => match eval_expr_spec(*right, env1, fuel) {
                Ok((rv, env2)) => match eval_infix_spec(op, lv, rv) {
                    Ok(v) => Ok((v, env2)),
                    Err(er) => Err(er),
                },
                Err(er) => Err(er),
            },
            Err(er) => Err(er),
        },
        ExprView::If { condition, consequence, alternative } => match eval_expr_spec(
            *condition,
            env,
            fuel,
        ) {
            Ok((cv, env1)) => match cv {
                ObjView::Boolean(true) => eval_stmts_spec(consequence, env1, fuel),
                ObjView::Boolean(false) => if alternative.len() == 0 {
                    Ok((ObjView::Null, env1))
                } else {
                    eval_stmts_spec(alternative, env1, fuel)
                },
                _ => Err(EvalError::TypeMismatch),
            },
            Err(er) => Err(er),
        },
        ExprView::FnLiteral { parameters, body } => Ok(
            (ObjView::Function { parameters, body }, env),
        ),
        ExprView::FnCall { function, args } => {
            let target: Result<(Seq<Seq<char>>, Seq<StmtView>), EvalError> = match *function {
                ExprView::Ident(name) => if env.contains_key(name) {
                    match env[name] {
                        ObjView::Function { parameters, body } => Ok((parameters, body)),
                        _ => Err(EvalError::NotAFunction),
                    }
                } else {
                    Err(EvalError::NotAFunction)
                },
                ExprView::FnLiteral { parameters, body } => Ok((parameters, body)),
                _ => Err(EvalError::NotAFunction),
            };
            match target {
                Err(er) => Err(er),
                Ok((parameters, body)) => if parameters.len() != args.len() {
                    Err(EvalError::ArgCountMismatch)
                } else if fuel == 0 {
                    Err(EvalError::CallDepthExceeded)
                } else {
                    match eval_call_args_spec(parameters, args, env, Map::empty(), fuel) {
                        Ok((fenv, env2)) => match eval_spec(body, fenv, (fuel - 1) as nat) {
                            Ok((v, _)) => Ok((v, env2)),
                            Err(er) => Err(er),
                        },
                        Err(er) => Err(er),
                    }
                },
            }
        },
    }
}

/// Whether an executable evaluation result and final environment agree
/// with a specification-level one.
pub open spec fn eval_result_matches(
    sp: Result<(ObjView, Map<Seq<char>, ObjView>), EvalError>,
    r: Result<Object, EvalError>,
    env_after: Map<Seq<char>, ObjView>,
) -> bool {
    match (sp, r) {
        (Ok(p), Ok(o)) => obj_view(o) == p.0 && env_after == p.1,
        (Err(a), Err(b)) => a == b,
        _ => false,
    }
}

/// The deepest nesting of function calls the evaluator will enter before
/// reporting an error instead of exhausting the machine's stack.
pub const EVAL_DEPTH_LIMIT: u64 = 1000;

/// Evaluate a statement block: the value of its last statement, or the
/// first `Return` wrapper, left wrapped.
pub fn eval_block(ast: Vec<Statement>, env: &mut Environment) -> (r: Result<Object, EvalError>)
    ensures
        eval_result_matches(
            eval_stmts_spec(stmts_view(ast@), old(env)@, EVAL_DEPTH_LIMIT as nat),
            r,
            final(env)@,
        ),
{
    eval_block_with_fuel(ast, env, EVAL_DEPTH_LIMIT)
}

/// Evaluate a program: as `eval_block`, with a final `Return` wrapper
/// unwrapped.
pub fn eval(ast: Vec<Statement>, env: &mut Environment) -> (r: Result<Object, EvalError>)
    ensures
        eval_result_matches(
            eval_spec(stmts_view(ast@), old(env)@, EVAL_DEPTH_LIMIT as nat),
            r,
            final(env)@,
        ),
{
    eval_with_fuel(ast, env, EVAL_DEPTH_LIMIT)
}

/// As `eval`, at an explicit call-depth budget.
fn eval_with_fuel(ast: Vec<Statement>, env: &mut Environment, fuel: u64) -> (r: Result<
    Object,
    EvalError,
>)
    ensures
        eval_result_matches(eval_spec(stmts_view(ast@), old(env)@, fuel as nat), r, final(env)@),
    decreases fuel, stmts_height(stmts_view(ast@)), 3int,
{
    let result = match eval_block_with_fuel(ast, env, fuel) {
        Ok(v) => v,
        Err(e) => {
            return Err(e);
        },
    };
    let is_ret = match &result {
        Object::Return(_) => true,
        _ => false,
    };
    proof {
        assert(is_ret == obj_view(result) is Return);
    }
    match result {
        Object::Return(val) => Ok(*val),
        other => Ok(other),
    }
}

/// As `eval_block`, at an explicit call-depth budget.
fn eval_block_with_fuel(ast: Vec<Statement>, env: &mut Environment, fuel: u64) -> (r: Result<
    Object,
    EvalError,
>)
    ensures
        eval_result_matches(
            eval_stmts_spec(stmts_view(ast@), old(env)@, fuel as nat),
            r,
            final(env)@,
        ),
    decreases fuel, stmts_height(stmts_view(ast@)), 2int,
{
    let mut ast = ast;
    if ast.len() == 0 {
        return Ok(Object::Null);
    }
    let ghost pre_ast = ast@;
    let stmt = ast.remove(0);
    proof {
        assert(ast@ =~= pre_ast.subrange(1, pre_ast.len() as int));
        crate::parser::lemma_stmts_view_tail(pre_ast);
        assert(stmts_view(pre_ast) == seq![stmt_view(stmt)] + stmts_view(ast@));
        assert(stmts_view(pre_ast).subrange(1, stmts_view(pre_ast).len() as int) =~= stmts_view(
            ast@,
        ));
        assert(stmts_height(stmts_view(pre_ast)) == 1 + stmt_height(stmt_view(stmt))
            + stmts_height(stmts_view(ast@)));
    }
    let value = match eval_statement(stmt, env, fuel) {
        Ok(v) => v,
        Err(e) => {
            return Err(e);
        },
    };
    let is_ret = match &value {
        Object::Return(_) => true,
        _ => false,
    };
    proof {
        assert(is_ret == obj_view(value) is Return);
    }
    if is_ret || ast.len() == 0 {
        return Ok(value);
    }
    eval_block_with_fuel(ast, env, fuel)
}

/// Evaluate one statement: an expression statement's value, a return
/// statement's wrapped value, or a binding's value after binding it.
fn eval_statement(stmt: Statement, env: &mut Environment, fuel: u64) -> (r: Result<
    Object,
    EvalError,
>)
    ensures
        eval_result_matches(
            eval_stmt_spec(stmt_view(stmt), old(env)@, fuel as nat),
            r,
            final(env)@,
        ),
    decreases fuel, stmt_height(stmt_view(stmt)), 1int,
{
    match stmt {
        Statement::ExpressionStatement(exp) => eval_expression(exp, env, fuel),
        Statement::Return { value } => match eval_expression(value, env, fuel) {
            Ok(v) => Ok(Object::Return(Box::new(v))),
            Err(e) => Err(e),
        },
        Statement::Let { name, value } => match eval_expression(value, env, fuel) {
            Ok(v) => {
                let dup = duplicate(&v);
                env.set(name, dup);
                Ok(v)
            },
            Err(e) => Err(e),
        },
    }
}

/// Evaluate a call's arguments in order against the caller's environment,
/// binding each to the matching parameter in the callee's environment.
fn eval_call_args(
    parameters: Vec<String>,
    args: Vec<Expression>,
    env: &mut Environment,
    func_env: &mut Environment,
    fuel: u64,
) -> (r: Result<(), EvalError>)
    ensures
        ({
            let sp = eval_call_args_spec(
                strings_view(parameters@),
                exprs_view(args@),
                old(env)@,
                old(func_env)@,
                fuel as nat,
            );
            match (sp, r) {
                (Ok(p), Ok(u)) => final(func_env)@ == p.0 && final(env)@ == p.1,
                (Err(a), Err(b)) => a == b,
                _ => false,
            }
        }),
    decreases fuel, exprs_height(exprs_view(args@)), 1int,
{
    let mut parameters = parameters;
    let mut args = args;
    if args.len() == 0 || parameters.len() == 0 {
        return Ok(());
    }
    let ghost pre_params = parameters@;
    let ghost pre_args = args@;
    let par = parameters.remove(0);
    let arg = args.remove(0);
    proof {
        assert(args@ =~= pre_args.subrange(1, pre_args.len() as int));
        assert(parameters@ =~= pre_params.subrange(1, pre_params.len() as int));
        crate::parser::lemma_exprs_view_tail(pre_args);
        assert(exprs_view(pre_args) == seq![expr_view(arg)] + exprs_view(args@));
        assert(exprs_view(pre_args).subrange(1, exprs_view(pre_args).len() as int) =~= exprs_view(
            args@,
        ));
        assert(exprs_height(exprs_view(pre_args)) == 1 + expr_height(expr_view(arg))
            + exprs_height(exprs_view(args@)));
        assert(strings_view(pre_params).subrange(1, strings_view(pre_params).len() as int)
            =~= strings_view(parameters@));
        assert(strings_view(pre_params)[0] == par@);
    }
    let v = match eval_expression(arg, env, fuel) {
        Ok(v) => v,
        Err(e) => {
            return Err(e);
        },
    };
    func_env.set(par, v);
    eval_call_args(parameters, args, env, func_env, fuel)
}

/// Apply an infix operator to two evaluated operands.
fn apply_infix(op: Operator, l: Object, r: Object) -> (res: Result<Object, EvalError>)
    ensures
        match (eval_infix_spec(op, obj_view(l), obj_view(r)), res) {
            (Ok(v), Ok(o)) => obj_view(o) == v,
            (Err(a), Err(b)) => a == b,
            _ => false,
        },
{
    match op {
        Operator::PLUS => match (l, r) {
            (Object::Int(a), Object::Int(b)) => Ok(Object::Int(a.wrapping_add(b))),
            _ => Err(EvalError::TypeMismatch),
        },
        Operator::MINUS => match (l, r) {
            (Object::Int(a), Object::Int(b)) => Ok(Object::Int(a.wrapping_sub(b))),
            _ => Err(EvalError::TypeMismatch),
        },
        Operator::MULTIPLY => match (l, r) {
            (Object::Int(a), Object::Int(b)) => Ok(Object::Int(a.wrapping_mul(b))),
            _ => Err(EvalError::TypeMismatch),
        },
        Operator::DIVIDE => match (l, r) {
            (Object::Int(a), Object::Int(b)) => if b == 0 {
                Err(EvalError::DivisionByZero)
            } else {
                match a.checked_div(b) {
                    Some(q) => Ok(Object::Int(q)),
                    None => Ok(Object::Int(i64::MIN)),
                }
            },
            _ => Err(EvalError::TypeMismatch),
        },
        Operator::EQUAL => match (l, r) {
            (Object::Int(a), Object::Int(b)) => Ok(Object::Boolean(a == b)),
            (Object::Boolean(a), Object::Boolean(b)) => Ok(Object::Boolean(a == b)),
            _ => Err(EvalError::TypeMismatch),
        },
        Operator::NEQUAL => match (l, r) {
            (Object::Int(a), Object::Int(b)) => Ok(Object::Boolean(a != b)),
            (Object::Boolean(a), Object::Boolean(b)) => Ok(Object::Boolean(a != b)),
            _ => Err(EvalError::TypeMismatch),
        },
        Operator::GREATER => match (l, r) {
            (Object::Int(a), Object::Int(b)) => Ok(Object::Boolean(a > b)),
            _ => Err(EvalError::TypeMismatch),
        },
        Operator::LESS => match (l, r) {
            (Object::Int(a), Object::Int(b)) => Ok(Object::Boolean(a < b)),
            _ => Err(EvalError::TypeMismatch),
        },
    }
}

/// Evaluate one expression against the environment.
#[verifier::rlimit(60)]
fn eval_expression(exp: Expression, env: &mut Environment, fuel: u64) -> (r: Result<
    Object,
    EvalError,
>)
    ensures
        eval_result_matches(
            eval_expr_spec(expr_view(exp), old(env)@, fuel as nat),
            r,
            final(env)@,
        ),
    decreases fuel, expr_height(expr_view(exp)), 0int,
{
    let ghost e0 = expr_view(exp);
    match exp {
        Expression::Int(val) => Ok(Object::Int(val)),
        Expression::Boolean(val) => Ok(Object::Boolean(val)),
        Expression::String(val) => Ok(Object::String(val)),
        Expression::Ident(name) => match env.get(name.as_str()) {
            Some(v) => Ok(v),
            None => Err(EvalError::UndefinedVariable),
        },
        Expression::Prefix { prefix, value } => {
            let v = match eval_expression(*value, env, fuel) {
                Ok(v) => v,
                Err(e) => {
                    return Err(e);
                },
            };
            match prefix {
                Prefix::BANG => match v {
                    Object::Boolean(b) => Ok(Object::Boolean(!b)),
                    _ => Err(EvalError::TypeMismatch),
                },
                Prefix::MINUS => match v {
                    Object::Int(i) => Ok(Object::Int((0 as i64).wrapping_sub(i))),
                    _ => Err(EvalError::TypeMismatch),
                },
            }
        },
        Expression::Infix { left, op, right } => {
            let lv = match eval_expression(*left, env, fuel) {
                Ok(v) => v,
                Err(e) => {
                    return Err(e);
                },
            };
            let rv = match eval_expression(*right, env, fuel) {
                Ok(v) => v,
                Err(e) => {
                    return Err(e);
                },
            };
            apply_infix(op, lv, rv)
        },
        Expression::If { condition, consequence, alternative } => {
            let cv = match eval_expression(*condition, env, fuel) {
                Ok(v) => v,
                Err(e) => {
                    return Err(e);
                },
            };
            match cv {
                Object::Boolean(true) => eval_block_with_fuel(consequence, env, fuel),
                Object::Boolean(false) => {
                    if alternative.len() == 0 {
                        proof {
                            assert(stmts_view(alternative@).len() == 0);
                        }
                        Ok(Object::Null)
                    } else {
                        eval_block_with_fuel(alternative, env, fuel)
                    }
                },
                _ => Err(EvalError::TypeMismatch),
            }
        },
        Expression::FnLiteral { parameters, body } => Ok(
            Object::Function { parameters, body },
        ),
        Expression::FnCall { function, args } => {
            let (parameters, body): (Vec<String>, Vec<Statement>) = match *function {
                Expression::Ident(name) => match env.get(name.as_str()) {
                    Some(o) => {
                        let ghost ov = obj_view(o);
                        match o {
                            Object::Function { parameters, body } => (parameters, body),
                            _ => {
                                proof {
                                    assert(env@.contains_key(name@));
                                    assert(env@[name@] == ov);
                                    assert(!(ov is Function));
                                    assert(expr_view(*function) == ExprView::Ident(name@));
                                }
                                return Err(EvalError::NotAFunction);
                            },
                        }
                    },
                    None => {
                        proof {
                            assert(!env@.contains_key(name@));
                            assert(expr_view(*function) == ExprView::Ident(name@));
                        }
                        return Err(EvalError::NotAFunction);
                    },
                },
                Expression::FnLiteral { parameters, body } => (parameters, body),
                _ => {
                    return Err(EvalError::NotAFunction);
                },
            };
            proof {
                crate::parser::lemma_exprs_view_len(args@);
            }
            if parameters.len() != args.len() {
                return Err(EvalError::ArgCountMismatch);
            }
            if fuel == 0 {
                return Err(EvalError::CallDepthExceeded);
            }
            let mut func_env = Environment::new();
            match eval_call_args(parameters, args, env, &mut func_env, fuel) {
                Ok(_) => {},
                Err(e) => {
                    return Err(e);
                },
            }
            let res = eval_with_fuel(body, &mut func_env, fuel - 1);
            match res {
                Ok(v) => Ok(v),
                Err(e) => Err(e),
            }
        },
    }
}


/// The views of a sequence of runtime values.
pub open spec fn objs_view(v: Seq<Object>) -> Seq<ObjView>
    decreases v,
{
    if v.len() == 0 {
        Seq::empty()
    } else {
        seq![obj_view(v[0])] + objs_view(v.subrange(1, v.len() as int))
    }
}

/// A value sequence and its views have the same length.
pub proof fn lemma_objs_view_len(v: Seq<Object>)
    ensures
        objs_view(v).len() == v.len(),
    decreases v.len(),
{
    if v.len() > 0 {
        lemma_objs_view_len(v.subrange(1, v.len() as int));
    }
}

/// The view of each element of a value sequence.
pub proof fn lemma_objs_view_index(v: Seq<Object>, i: int)
    requires
        0 <= i < v.len(),
    ensures
        objs_view(v).len() == v.len(),
        objs_view(v)[i] == obj_view(v[i]),
    decreases v.len(),
{
    lemma_objs_view_len(v);
    if i > 0 {
        lemma_objs_view_index(v.subrange(1, v.len() as int), i - 1);
    }
}

/// Taking the views of a value sequence commutes with appending one.
pub proof fn lemma_objs_view_push(v: Seq<Object>, o: Object)
    ensures
        objs_view(v.push(o)) == objs_view(v).push(obj_view(o)),
    decreases v.len(),
{
    if v.len() == 0 {
        assert(v.push(o).subrange(1, v.push(o).len() as int) =~= Seq::<Object>::empty());
        assert(objs_view(Seq::<Object>::empty()) =~= Seq::<ObjView>::empty());
        assert(objs_view(v) =~= Seq::<ObjView>::empty());
        assert(objs_view(v.push(o)) =~= objs_view(v).push(obj_view(o)));
    } else {
        let w = v.push(o);
        assert(w.subrange(1, w.len() as int) =~= v.subrange(1, v.len() as int).push(o));
        lemma_objs_view_push(v.subrange(1, v.len() as int), o);
        assert(objs_view(w) == seq![obj_view(w[0])] + objs_view(w.subrange(1, w.len() as int)));
        assert(objs_view(v) == seq![obj_view(v[0])] + objs_view(v.subrange(1, v.len() as int)));
        assert(w[0] == v[0]);
        assert(seq![obj_view(v[0])] + objs_view(v.subrange(1, v.len() as int)).push(obj_view(o))
            =~= objs_view(v).push(obj_view(o)));
        assert(objs_view(v.push(o)) =~= objs_view(v).push(obj_view(o)));
    }
}

} // verus!
