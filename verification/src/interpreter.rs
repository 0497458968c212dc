//! The interpreter: it runs a program's declarations in order and answers
//! the value of `x0`.
//!
//! A program may run forever, so every run is given a number of steps: each
//! round of a while loop and each procedure call takes one. `exec_stmt`
//! states what a statement does with a given number of steps, and the
//! executable `Interpreter` does exactly that.
use crate::environment::{var_value, EnvView, Environment};
use crate::error::{Error, ErrorView};
use crate::grammar::{
    Decl, DeclView, Expr, ExprView, InfixOperator, LitView, Literal, OpView, Program, Stmt,
    StmtView,
};
use crate::lexer::PosView;
use crate::natural::Natural;
use vstd::prelude::*;

verus! {

/// The value of a literal.
pub open spec fn eval_lit(env: EnvView, l: LitView) -> nat {
    match l {
        LitView::Number { content, .. } => content,
        LitView::Identifier { content, .. } => var_value(env, content),
    }
}

/// The value of an expression; a difference below zero is zero.
pub open spec fn eval_expr(env: EnvView, e: ExprView) -> nat {
    match e {
        ExprView::Literal(l) => eval_lit(env, l),
        ExprView::BinaryOp { left, operator, right } => {
            let a = eval_lit(env, left);
            let b = eval_lit(env, right);
            match operator {
                OpView::Plus(_) => a + b,
                OpView::Minus(_) => if b > a {
                    0
                } else {
                    (a - b) as nat
                },
            }
        },
    }
}

/// How a run ends: with the environment and the steps left, or with an error.
pub enum Outcome {
    Done(EnvView, nat),
    Failed(ErrorView),
}

/// The environment after an assignment.
pub open spec fn assigned(env: EnvView, name: Seq<char>, value: nat) -> EnvView {
    EnvView { vars: env.vars.insert(name, value), ..env }
}

/// What running a statement in `env` with `fuel` steps gives.
pub open spec fn exec_stmt(env: EnvView, s: StmtView, fuel: nat) -> Outcome
    decreases fuel, s,
{
    match s {
        StmtView::VarAssignment { name, expr } => Outcome::Done(
            assigned(env, name, eval_expr(env, expr)),
            fuel,
        ),
        StmtView::Block(stmts) => exec_stmts(env, stmts, fuel),
        StmtView::While { name, statement } => if var_value(env, name) == 0 {
            Outcome::Done(env, fuel)
        } else if fuel == 0 {
            Outcome::Failed(ErrorView::StepLimit)
        } else {
            match exec_stmt(env, *statement, (fuel - 1) as nat) {
                Outcome::Done(env2, fuel2) => if fuel2 < fuel {
                    exec_stmt(env2, s, fuel2)
                } else {
                    Outcome::Failed(ErrorView::StepLimit)
                },
                Outcome::Failed(e) => Outcome::Failed(e),
            }
        },
        StmtView::Procedure(name) => if !env.procs.dom().contains(name) {
            Outcome::Failed(ErrorView::UndefinedProcedure(name))
        } else if fuel == 0 {
            Outcome::Failed(ErrorView::StepLimit)
        } else {
            exec_stmt(env, env.procs[name], (fuel - 1) as nat)
        },
    }
}

/// What running statements one after the other gives.
pub open spec fn exec_stmts(env: EnvView, stmts: Seq<StmtView>, fuel: nat) -> Outcome
    decreases fuel, stmts,
{
    if stmts.len() == 0 {
        Outcome::Done(env, fuel)
    } else {
        match exec_stmt(env, stmts[0], fuel) {
            Outcome::Done(env2, fuel2) => if fuel2 <= fuel {
                exec_stmts(env2, stmts.drop_first(), fuel2)
            } else {
                Outcome::Failed(ErrorView::StepLimit)
            },
            Outcome::Failed(e) => Outcome::Failed(e),
        }
    }
}

/// A run never ends with more steps than it started with.
pub proof fn lemma_steps_spent(env: EnvView, s: StmtView, fuel: nat)
    ensures
        exec_stmt(env, s, fuel) matches Outcome::Done(_, fuel2) ==> fuel2 <= fuel,
    decreases fuel, s,
{
    match s {
        StmtView::VarAssignment { .. } => {},
        StmtView::Block(stmts) => {
            lemma_steps_spent_stmts(env, stmts, fuel);
        },
        StmtView::While { name, statement } => {
            if var_value(env, name) != 0 && fuel > 0 {
                lemma_steps_spent(env, *statement, (fuel - 1) as nat);
                if let Outcome::Done(env2, fuel2) = exec_stmt(env, *statement, (fuel - 1) as nat) {
                    lemma_steps_spent(env2, s, fuel2);
                }
            }
        },
        StmtView::Procedure(name) => {
            if env.procs.dom().contains(name) && fuel > 0 {
                lemma_steps_spent(env, env.procs[name], (fuel - 1) as nat);
            }
        },
    }
}

/// A run of statements never ends with more steps than it started with.
pub proof fn lemma_steps_spent_stmts(env: EnvView, stmts: Seq<StmtView>, fuel: nat)
    ensures
        exec_stmts(env, stmts, fuel) matches Outcome::Done(_, fuel2) ==> fuel2 <= fuel,
    decreases fuel, stmts,
{
    if stmts.len() > 0 {
        lemma_steps_spent(env, stmts[0], fuel);
        if let Outcome::Done(env2, fuel2) = exec_stmt(env, stmts[0], fuel) {
            lemma_steps_spent_stmts(env2, stmts.drop_first(), fuel2);
        }
    }
}

/// An outcome with `extra` more steps left.
pub open spec fn with_extra(o: Outcome, extra: nat) -> Outcome {
    match o {
        Outcome::Done(env, fuel) => Outcome::Done(env, fuel + extra),
        Outcome::Failed(e) => Outcome::Failed(e),
    }
}

/// Whether a run stopped because it ran out of steps.
pub open spec fn out_of_steps(o: Outcome) -> bool {
    o matches Outcome::Failed(e) && e is StepLimit
}

/// More steps change nothing in a run that did not run out of them: it ends
/// the same way, with as many more steps left.
pub proof fn lemma_more_steps(env: EnvView, s: StmtView, fuel: nat, extra: nat)
    ensures
        !out_of_steps(exec_stmt(env, s, fuel)) ==> exec_stmt(env, s, fuel + extra) == with_extra(
            exec_stmt(env, s, fuel),
            extra,
        ),
    decreases fuel, s,
{
    match s {
        StmtView::VarAssignment { .. } => {},
        StmtView::Block(stmts) => {
            lemma_more_steps_stmts(env, stmts, fuel, extra);
        },
        StmtView::While { name, statement } => {
            if var_value(env, name) != 0 && fuel > 0 {
                let body = *statement;
                lemma_more_steps(env, body, (fuel - 1) as nat, extra);
                lemma_steps_spent(env, body, (fuel - 1) as nat);
                assert((fuel + extra - 1) as nat == (fuel - 1) as nat + extra);
                if let Outcome::Done(env2, fuel2) = exec_stmt(env, body, (fuel - 1) as nat) {
                    lemma_more_steps(env2, s, fuel2, extra);
                }
            }
        },
        StmtView::Procedure(name) => {
            if env.procs.dom().contains(name) && fuel > 0 {
                lemma_more_steps(env, env.procs[name], (fuel - 1) as nat, extra);
                assert((fuel + extra - 1) as nat == (fuel - 1) as nat + extra);
            }
        },
    }
}

/// More steps change nothing in a run of statements that did not run out of them.
pub proof fn lemma_more_steps_stmts(env: EnvView, stmts: Seq<StmtView>, fuel: nat, extra: nat)
    ensures
        !out_of_steps(exec_stmts(env, stmts, fuel)) ==> exec_stmts(env, stmts, fuel + extra)
            == with_extra(exec_stmts(env, stmts, fuel), extra),
    decreases fuel, stmts,
{
    if stmts.len() > 0 {
        lemma_more_steps(env, stmts[0], fuel, extra);
        lemma_steps_spent(env, stmts[0], fuel);
        if let Outcome::Done(env2, fuel2) = exec_stmt(env, stmts[0], fuel) {
            lemma_more_steps_stmts(env2, stmts.drop_first(), fuel2, extra);
        }
    }
}

/// The value of a literal: a number is worth itself; a variable is worth
/// the value stored under its name, or 0 where none is.
pub proof fn lemma_literal_value(env: EnvView, l: LitView)
    ensures
        l matches LitView::Number { content, .. } ==> eval_lit(env, l) == content,
        l matches LitView::Identifier { content, .. } ==> eval_lit(env, l) == if env.vars.dom().contains(
            content,
        ) {
            env.vars[content]
        } else {
            0
        },
{
}

/// The arithmetic of expressions, whatever the kinds of the operands: a
/// single literal is worth its value; a sum is the sum of the values of its
/// operands; a difference is the difference of their values where the
/// right one is not the larger, and 0 where it is.
pub proof fn lemma_expression_value(env: EnvView, left: LitView, right: LitView, p: PosView)
    ensures
        eval_expr(env, ExprView::Literal(left)) == eval_lit(env, left),
        eval_expr(env, ExprView::BinaryOp { left, operator: OpView::Plus(p), right }) == eval_lit(
            env,
            left,
        ) + eval_lit(env, right),
        eval_lit(env, right) <= eval_lit(env, left) ==> eval_expr(
            env,
            ExprView::BinaryOp { left, operator: OpView::Minus(p), right },
        ) + eval_lit(env, right) == eval_lit(env, left),
        eval_lit(env, right) > eval_lit(env, left) ==> eval_expr(
            env,
            ExprView::BinaryOp { left, operator: OpView::Minus(p), right },
        ) == 0,
{
}

/// An assignment stores under its name the value that its expression has
/// before it (also where the name occurs in the expression), leaves every
/// other variable and every procedure as they were, and takes no step.
pub proof fn lemma_assignment(env: EnvView, name: Seq<char>, expr: ExprView, fuel: nat)
    ensures
        exec_stmt(env, StmtView::VarAssignment { name, expr }, fuel) == Outcome::Done(
            EnvView { vars: env.vars.insert(name, eval_expr(env, expr)), procs: env.procs },
            fuel,
        ),
        exec_stmt(env, StmtView::VarAssignment { name, expr }, fuel) matches Outcome::Done(env2, _)
            && var_value(env2, name) == eval_expr(env, expr) && (forall|other: Seq<char>|
            other != name ==> var_value(env2, other) == var_value(env, other)),
{
}

/// A block of two statements runs the first, then the second from where
/// the first left off; an error of the first ends it.
pub proof fn lemma_block_of_two(env: EnvView, a: StmtView, b: StmtView, fuel: nat)
    ensures
        exec_stmt(env, StmtView::Block(seq![a, b]), fuel) == match exec_stmt(env, a, fuel) {
            Outcome::Done(env2, fuel2) => exec_stmt(env2, b, fuel2),
            Outcome::Failed(e) => Outcome::Failed(e),
        },
{
    let two = seq![a, b];
    assert(two[0] == a);
    assert(two.drop_first() == seq![b]);
    assert(seq![b][0] == b);
    assert(seq![b].drop_first() == Seq::<StmtView>::empty());
    lemma_steps_spent(env, a, fuel);
    assert(exec_stmt(env, StmtView::Block(two), fuel) == exec_stmts(env, two, fuel));
    if let Outcome::Done(env2, fuel2) = exec_stmt(env, a, fuel) {
        lemma_steps_spent(env2, b, fuel2);
        assert(exec_stmts(env, two, fuel) == exec_stmts(env2, seq![b], fuel2));
        if let Outcome::Done(env3, fuel3) = exec_stmt(env2, b, fuel2) {
            assert(exec_stmts(env2, seq![b], fuel2) == exec_stmts(
                env3,
                Seq::<StmtView>::empty(),
                fuel3,
            ));
        }
    }
}

/// A while loop whose variable is 0 does nothing; otherwise, with no step
/// left it fails, and with steps left it runs its body with one step fewer
/// and then runs again from where the body left off.
pub proof fn lemma_while_round(env: EnvView, name: Seq<char>, body: StmtView, fuel: nat)
    ensures
        var_value(env, name) == 0 ==> exec_stmt(
            env,
            StmtView::While { name, statement: Box::new(body) },
            fuel,
        ) == Outcome::Done(env, fuel),
        var_value(env, name) != 0 && fuel == 0 ==> exec_stmt(
            env,
            StmtView::While { name, statement: Box::new(body) },
            fuel,
        ) == Outcome::Failed(ErrorView::StepLimit),
        var_value(env, name) != 0 ==> exec_stmt(
            env,
            StmtView::While { name, statement: Box::new(body) },
            fuel + 1,
        ) == match exec_stmt(env, body, fuel) {
            Outcome::Done(env2, fuel2) => exec_stmt(
                env2,
                StmtView::While { name, statement: Box::new(body) },
                fuel2,
            ),
            Outcome::Failed(e) => Outcome::Failed(e),
        },
{
    lemma_steps_spent(env, body, fuel);
}

/// An empty block does nothing.
pub proof fn lemma_empty_block_runs(env: EnvView, fuel: nat)
    ensures
        exec_stmt(env, StmtView::Block(Seq::empty()), fuel) == Outcome::Done(env, fuel),
{
    assert(exec_stmt(env, StmtView::Block(Seq::empty()), fuel) == exec_stmts(
        env,
        Seq::empty(),
        fuel,
    ));
}

/// A while loop that ends leaves its variable at zero.
pub proof fn lemma_while_ends_at_zero(
    env: EnvView,
    name: Seq<char>,
    body: StmtView,
    fuel: nat,
)
    ensures
        exec_stmt(env, StmtView::While { name, statement: Box::new(body) }, fuel) matches Outcome::Done(
            env2,
            _,
        ) ==> var_value(env2, name) == 0,
    decreases fuel,
{
    let s = StmtView::While { name, statement: Box::new(body) };
    if var_value(env, name) != 0 && fuel > 0 {
        lemma_steps_spent(env, body, (fuel - 1) as nat);
        if let Outcome::Done(env2, fuel2) = exec_stmt(env, body, (fuel - 1) as nat) {
            lemma_while_ends_at_zero(env2, name, body, fuel2);
        }
    }
}

/// Calling a declared procedure runs its body with one step fewer; calling
/// one that is not declared fails.
pub proof fn lemma_call(env: EnvView, name: Seq<char>, fuel: nat)
    ensures
        env.procs.dom().contains(name) ==> exec_stmt(env, StmtView::Procedure(name), fuel + 1)
            == exec_stmt(env, env.procs[name], fuel),
        !env.procs.dom().contains(name) ==> exec_stmt(env, StmtView::Procedure(name), fuel)
            == Outcome::Failed(ErrorView::UndefinedProcedure(name)),
{
}

/// What running declarations one after the other gives: a statement runs,
/// a procedure is declared.
pub open spec fn exec_decls(env: EnvView, decls: Seq<DeclView>, fuel: nat) -> Outcome
    decreases decls.len(),
{
    if decls.len() == 0 {
        Outcome::Done(env, fuel)
    } else {
        match decls[0] {
            DeclView::Statement(s) => match exec_stmt(env, s, fuel) {
                Outcome::Done(env2, fuel2) => exec_decls(env2, decls.drop_first(), fuel2),
                Outcome::Failed(e) => Outcome::Failed(e),
            },
            DeclView::Procedure { name, statement } => exec_decls(
                EnvView { procs: env.procs.insert(name, statement), ..env },
                decls.drop_first(),
                fuel,
            ),
        }
    }
}

/// Declarations run in order: a procedure declaration stores the procedure
/// under its name (replacing an earlier one) and takes no step; a statement
/// runs, and the rest runs from where it left off; an error ends the run.
pub proof fn lemma_declarations_run(
    env: EnvView,
    d: DeclView,
    rest: Seq<DeclView>,
    fuel: nat,
)
    ensures
        d matches DeclView::Procedure { name, statement } ==> exec_decls(env, seq![d] + rest, fuel)
            == exec_decls(
            EnvView { vars: env.vars, procs: env.procs.insert(name, statement) },
            rest,
            fuel,
        ),
        d matches DeclView::Statement(s) ==> exec_decls(env, seq![d] + rest, fuel) == match exec_stmt(
            env,
            s,
            fuel,
        ) {
            Outcome::Done(env2, fuel2) => exec_decls(env2, rest, fuel2),
            Outcome::Failed(e) => Outcome::Failed(e),
        },
{
    assert((seq![d] + rest)[0] == d);
    assert((seq![d] + rest).drop_first() == rest);
}

/// A program answers the value of `x0` at the end of its run, 0 where `x0`
/// was never given one, or the error that stopped the run.
pub proof fn lemma_program_answer(env: EnvView, decls: Seq<DeclView>, fuel: nat)
    ensures
        exec_decls(env, decls, fuel) matches Outcome::Done(env2, _) ==> run_program(env, decls, fuel)
            == Ok::<nat, ErrorView>(
            if env2.vars.dom().contains("x0"@) {
                env2.vars["x0"@]
            } else {
                0
            },
        ),
        exec_decls(env, decls, fuel) matches Outcome::Failed(e) ==> run_program(env, decls, fuel)
            == Err::<nat, ErrorView>(e),
{
}

/// What a program answers: the value of `x0` once all declarations have run.
pub open spec fn run_program(env: EnvView, decls: Seq<DeclView>, fuel: nat) -> Result<
    nat,
    ErrorView,
> {
    match exec_decls(env, decls, fuel) {
        Outcome::Done(env2, _) => Ok(var_value(env2, "x0"@)),
        Outcome::Failed(e) => Err(e),
    }
}

/// More steps change nothing in a run of declarations that did not run out of them.
pub proof fn lemma_more_steps_decls(env: EnvView, decls: Seq<DeclView>, fuel: nat, extra: nat)
    ensures
        !out_of_steps(exec_decls(env, decls, fuel)) ==> exec_decls(env, decls, fuel + extra)
            == with_extra(exec_decls(env, decls, fuel), extra),
    decreases decls.len(),
{
    if decls.len() > 0 {
        match decls[0] {
            DeclView::Statement(s) => {
                lemma_more_steps(env, s, fuel, extra);
                if let Outcome::Done(env2, fuel2) = exec_stmt(env, s, fuel) {
                    lemma_more_steps_decls(env2, decls.drop_first(), fuel2, extra);
                }
            },
            DeclView::Procedure { name, statement } => {
                lemma_more_steps_decls(
                    EnvView { procs: env.procs.insert(name, statement), ..env },
                    decls.drop_first(),
                    fuel,
                    extra,
                );
            },
        }
    }
}

/// A program that answers within some number of steps answers the same with
/// any larger number of steps.
pub proof fn lemma_program_more_steps(env: EnvView, decls: Seq<DeclView>, fuel: nat, more: nat)
    requires
        fuel <= more,
        !(run_program(env, decls, fuel) matches Err(e) && e is StepLimit),
    ensures
        run_program(env, decls, more) == run_program(env, decls, fuel),
{
    lemma_more_steps_decls(env, decls, fuel, (more - fuel) as nat);
}

/// The interpreter: the global scope of the program it runs.
pub struct Interpreter<'a> {
    pub env: Environment<'a>,
}

impl<'a> Interpreter<'a> {
    fn literal(&self, literal: &Literal) -> (r: Natural)
        ensures
            r@ == eval_lit(self.env@, literal@),
    {
        match literal {
            Literal::Number { content, .. } => content.duplicate(),
            Literal::Identifier { content, .. } => self.env.retrieve_var(content.as_str()),
        }
    }

    fn binary_operation(&self, left: &Literal, operator: &InfixOperator, right: &Literal) -> (r:
        Natural)
        ensures
            r@ == eval_expr(
                self.env@,
                ExprView::BinaryOp { left: left@, operator: operator@, right: right@ },
            ),
    {
        let left = self.literal(left);
        let right = self.literal(right);
        match operator {
            InfixOperator::Plus(_) => left.add(&right),
            InfixOperator::Minus(_) => left.saturating_sub(&right),
        }
    }

    fn expression(&self, expression: &Expr) -> (r: Natural)
        ensures
            r@ == eval_expr(self.env@, expression@),
    {
        match expression {
            Expr::Literal(literal) => self.literal(literal),
            Expr::BinaryOp { left, operator, right } => self.binary_operation(
                left,
                operator,
                right,
            ),
        }
    }

    #[verifier::loop_isolation(false)]
    fn statement(&mut self, stmt: &'a Stmt, fuel: u64) -> (r: Result<u64, Error>)
        ensures
            match exec_stmt(old(self).env@, stmt@, fuel as nat) {
                Outcome::Done(env2, fuel2) => r matches Ok(f) && f == fuel2 && final(self).env@
                    == env2,
                Outcome::Failed(e) => r matches Err(err) && err@ == e,
            },
        decreases fuel, stmt,
    {
        match stmt {
            Stmt::VarAssignment { name, expr } => {
                let value = self.expression(expr);
                self.env.assign_var(name.as_str(), value);
                Ok(fuel)
            },
            Stmt::Block(stmts) => {
                let ghost views = crate::grammar::stmts_view(stmts@);
                proof {
                    crate::grammar::lemma_stmts_view(stmts@);
                    assert(views.skip(0) == views);
                }
                let mut f = fuel;
                let mut i: usize = 0;
                while i < stmts.len()
                    invariant
                                    i <= stmts.len(),
                        f <= fuel,
                        views == crate::grammar::stmts_view(stmts@),
                        views.len() == stmts@.len(),
                        forall|k: int| 0 <= k < stmts@.len() ==> (#[trigger] views[k])
                            == crate::grammar::stmt_view(stmts@[k]),
                        exec_stmts(self.env@, views.skip(i as int), f as nat) == exec_stmts(
                            old(self).env@,
                            views,
                            fuel as nat,
                        ),
                    decreases stmts.len() - i,
                {
                    let ghost env0 = self.env@;
                    proof {
                        lemma_steps_spent(env0, views[i as int], f as nat);
                        assert(views.skip(i as int)[0] == views[i as int]);
                        assert(views.skip(i as int).drop_first() == views.skip(i + 1));
                    }
                    match self.statement(&stmts[i], f) {
                        Ok(f2) => {
                            f = f2;
                        },
                        Err(e) => {
                            return Err(e);
                        },
                    }
                    i = i + 1;
                }
                proof {
                    assert(views.skip(i as int) == Seq::<StmtView>::empty());
                }
                Ok(f)
            },
            Stmt::While { name, statement } => {
                let mut f = fuel;
                loop
                    invariant
                                    f <= fuel,
                        exec_stmt(self.env@, stmt@, f as nat) == exec_stmt(
                            old(self).env@,
                            stmt@,
                            fuel as nat,
                        ),
                    decreases f,
                {
                    let current = self.env.retrieve_var(name.as_str());
                    if current.is_zero() {
                        return Ok(f);
                    }
                    if f == 0 {
                        return Err(Error::StepLimit);
                    }
                    let ghost env0 = self.env@;
                    proof {
                        lemma_steps_spent(env0, (**statement)@, (f - 1) as nat);
                    }
                    match self.statement(&**statement, f - 1) {
                        Ok(f2) => {
                            f = f2;
                        },
                        Err(e) => {
                            return Err(e);
                        },
                    }
                }
            },
            Stmt::Procedure(name) => {
                match self.env.retrieve_proc(name.as_str()) {
                    None => Err(Error::UndefinedProcedure(name.clone())),
                    Some(body) => {
                        if fuel == 0 {
                            return Err(Error::StepLimit);
                        }
                        self.statement(body, fuel - 1)
                    },
                }
            },
        }
    }

    /// Runs the declarations of `program` in order with at most `fuel` steps,
    /// leaves the environment they end with, and answers the value of `x0`.
    #[verifier::loop_isolation(false)]
    pub fn program(&mut self, program: &'a Program, fuel: u64) -> (r: Result<Natural, Error>)
        ensures
            match exec_decls(old(self).env@, program@, fuel as nat) {
                Outcome::Done(env2, _) => final(self).env@ == env2 && (r matches Ok(v) && v@
                    == var_value(env2, "x0"@)),
                Outcome::Failed(e) => r matches Err(err) && err@ == e,
            },
            run_program(old(self).env@, program@, fuel as nat) matches Ok(n) ==> (r matches Ok(v)
                && v@ == n),
    {
        match program {
            Program::Declarations(decls) => {
                let ghost views = program@;
                proof {
                    assert(views.skip(0) == views);
                }
                let mut f = fuel;
                let mut i: usize = 0;
                while i < decls.len()
                    invariant
                                    i <= decls.len(),
                        views == crate::grammar::decls_view(decls@),
                        exec_decls(self.env@, views.skip(i as int), f as nat) == exec_decls(
                            old(self).env@,
                            views,
                            fuel as nat,
                        ),
                    decreases decls.len() - i,
                {
                    proof {
                        assert(views.skip(i as int)[0] == decls@[i as int]@);
                        assert(views.skip(i as int).drop_first() == views.skip(i + 1));
                    }
                    match &decls[i] {
                        Decl::Statement(s) => {
                            match self.statement(s, f) {
                                Ok(f2) => {
                                    f = f2;
                                },
                                Err(e) => {
                                    return Err(e);
                                },
                            }
                        },
                        Decl::Procedure { name, statement } => {
                            self.env.assign_proc(name.as_str(), &**statement);
                        },
                    }
                    i = i + 1;
                }
                proof {
                    assert(views.skip(i as int) == Seq::<DeclView>::empty());
                }
                Ok(self.env.retrieve_var("x0"))
            },
        }
    }
}

} // verus!
