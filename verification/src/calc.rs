//! The composite calculator's evaluator: a post-order walk of an
//! expression tree that hands every interior node to the worker for
//! its operator.
//!
//! Because each dispatch suspends on I/O, the walk is expressed as a
//! resumable session over an explicit work stack: `run` works until it
//! needs a worker, `resume` feeds the worker's answer back in. The
//! runtime performs the calls; the session's contracts pin the result
//! to the mathematical evaluation of the tree whenever the answers
//! follow the workers' wire contract.

use vstd::prelude::*;

use crate::expression::{
    children_model, lemma_children_model, lemma_nodes_size_two, node_size, ExpressionTreeNode,
    ExprModel, Operator,
};
use crate::svc_mat::op_result;
use crate::wire::SvcError;

verus! {

/// The evaluator's own failures, as the calculator reports them.
#[derive(Debug)]
pub enum MathError {
    /// A binary operator with other than two operands.
    InvalidOperandCount { operator: Operator, got: usize },
    /// No client was supplied for the operator of an interior node.
    ClientNotSupplied { operator: Operator },
}

/// Everything an evaluation can fail with.
#[derive(Debug)]
pub enum EvalError {
    /// The tree or the configuration was unusable.
    Math(MathError),
    /// A worker answered with an error status, such as the div
    /// worker rejecting a zero divisor.
    Status(SvcError),
    /// A worker could not be reached at all.
    Transport,
}

/// Which of the four per-operator clients are present.
#[derive(Clone, Copy, PartialEq, Eq, Structural, Debug)]
pub struct ClientSet {
    pub add: bool,
    pub sub: bool,
    pub mul: bool,
    pub div: bool,
}

/// The set with every worker client wired.
pub open spec fn full_clients() -> ClientSet {
    ClientSet { add: true, sub: true, mul: true, div: true }
}

impl ClientSet {
    pub open spec fn spec_has(self, op: Operator) -> bool {
        match op {
            Operator::Add => self.add,
            Operator::Sub => self.sub,
            Operator::Mul => self.mul,
            Operator::Div => self.div,
        }
    }

    /// Whether the client for `op` is present.
    pub fn has(&self, op: Operator) -> (b: bool)
        ensures
            b == self.spec_has(op),
    {
        match op {
            Operator::Add => self.add,
            Operator::Sub => self.sub,
            Operator::Mul => self.mul,
            Operator::Div => self.div,
        }
    }

    /// The set with every worker client wired.
    pub fn all() -> (c: ClientSet)
        ensures
            c == full_clients(),
    {
        ClientSet { add: true, sub: true, mul: true, div: true }
    }
}

/// What evaluating a tree yields: a leaf is its literal; an interior
/// node needs exactly two operands and a present client, evaluates its
/// children left first, and answers what its worker answers. Worker
/// error statuses are passed through as evaluation failures.
pub open spec fn eval_model(m: ExprModel, c: ClientSet) -> Result<i64, EvalError>
    decreases m,
{
    match m {
        ExprModel::Val(v) => Ok(v),
        ExprModel::Op(op, children) => {
            if children.len() != 2 {
                Err(
                    EvalError::Math(
                        MathError::InvalidOperandCount {
                            operator: op,
                            got: children.len() as usize,
                        },
                    ),
                )
            } else if !c.spec_has(op) {
                Err(EvalError::Math(MathError::ClientNotSupplied { operator: op }))
            } else {
                match eval_model(children[0], c) {
                    Err(e) => Err(e),
                    Ok(a) => match eval_model(children[1], c) {
                        Err(e) => Err(e),
                        Ok(b) => match op_result(op, a, b) {
                            Ok(v) => Ok(v),
                            Err(e) => Err(EvalError::Status(e)),
                        },
                    },
                }
            }
        },
    }
}

/// One unit of pending work: a subtree still to evaluate, or an
/// operator waiting for its two operands.
#[derive(Debug)]
pub enum EvalTask {
    EvalNode(ExpressionTreeNode),
    Apply(Operator),
}

/// How much work a task stands for; an `Apply` is one dispatch, a
/// subtree twice its node count.
pub open spec fn task_weight(t: EvalTask) -> nat {
    match t {
        EvalTask::EvalNode(n) => 2 * node_size(n),
        EvalTask::Apply(_) => 1,
    }
}

/// The work left on a task stack.
pub open spec fn stack_weight(ts: Seq<EvalTask>) -> nat
    decreases ts.len(),
{
    if ts.len() == 0 {
        0
    } else {
        task_weight(ts.last()) + stack_weight(ts.drop_last())
    }
}

/// Pushing a task adds exactly its weight.
pub proof fn lemma_stack_weight_push(ts: Seq<EvalTask>, t: EvalTask)
    ensures
        stack_weight(ts.push(t)) == stack_weight(ts) + task_weight(t),
{
    assert(ts.push(t).drop_last() =~= ts);
    assert(ts.push(t).last() == t);
}

/// Whether a task stack together with `nvals` available operand
/// values runs to exactly one final value: every `Apply` finds its
/// two operands and exactly one result remains.
pub open spec fn stack_ok(ts: Seq<EvalTask>, nvals: int) -> bool
    decreases ts.len(),
{
    if ts.len() == 0 {
        nvals == 1
    } else {
        match ts.last() {
            EvalTask::EvalNode(_) => stack_ok(ts.drop_last(), nvals + 1),
            EvalTask::Apply(_) => nvals >= 2 && stack_ok(ts.drop_last(), nvals - 1),
        }
    }
}

/// What running the work stack yields, processing the top task first,
/// assuming every dispatched operator answers per its wire contract.
pub open spec fn run_model(tasks: Seq<EvalTask>, values: Seq<i64>, c: ClientSet) -> Result<
    i64,
    EvalError,
>
    decreases stack_weight(tasks),
    via run_model_decreases
{
    if tasks.len() == 0 {
        if values.len() >= 1 {
            Ok(values.last())
        } else {
            // never reached from a stack satisfying `stack_ok`
            arbitrary()
        }
    } else {
        match tasks.last() {
            EvalTask::EvalNode(n) => match n {
                ExpressionTreeNode::Val(v) => run_model(tasks.drop_last(), values.push(v), c),
                ExpressionTreeNode::Expr(e) => {
                    if e.children@.len() != 2 {
                        Err(
                            EvalError::Math(
                                MathError::InvalidOperandCount {
                                    operator: e.operator,
                                    got: e.children@.len() as usize,
                                },
                            ),
                        )
                    } else if !c.spec_has(e.operator) {
                        Err(EvalError::Math(MathError::ClientNotSupplied { operator: e.operator }))
                    } else {
                        run_model(
                            tasks.drop_last().push(EvalTask::Apply(e.operator)).push(
                                EvalTask::EvalNode(e.children@[1]),
                            ).push(EvalTask::EvalNode(e.children@[0])),
                            values,
                            c,
                        )
                    }
                },
            },
            EvalTask::Apply(op) => {
                if values.len() < 2 {
                    // never reached from a stack satisfying `stack_ok`
                    arbitrary()
                } else {
                    match op_result(op, values[values.len() - 2], values[values.len() - 1]) {
                        Ok(v) => run_model(
                            tasks.drop_last(),
                            values.drop_last().drop_last().push(v),
                            c,
                        ),
                        Err(e) => Err(EvalError::Status(e)),
                    }
                }
            },
        }
    }
}

#[via_fn]
proof fn run_model_decreases(tasks: Seq<EvalTask>, values: Seq<i64>, c: ClientSet) {
    if tasks.len() != 0 {
        match tasks.last() {
            EvalTask::EvalNode(n) => match n {
                ExpressionTreeNode::Val(_) => {},
                ExpressionTreeNode::Expr(e) => {
                    if e.children@.len() == 2 && c.spec_has(e.operator) {
                        let base = tasks.drop_last();
                        let t1 = base.push(EvalTask::Apply(e.operator));
                        let t2 = t1.push(EvalTask::EvalNode(e.children@[1]));
                        let t3 = t2.push(EvalTask::EvalNode(e.children@[0]));
                        lemma_stack_weight_push(base, EvalTask::Apply(e.operator));
                        lemma_stack_weight_push(t1, EvalTask::EvalNode(e.children@[1]));
                        lemma_stack_weight_push(t2, EvalTask::EvalNode(e.children@[0]));
                        lemma_nodes_size_two(e.children@);
                        assert(task_weight(tasks.last()) == 2 + 2 * node_size(e.children@[0]) + 2
                            * node_size(e.children@[1]));
                        assert(stack_weight(t3) < stack_weight(tasks));
                    }
                },
            },
            EvalTask::Apply(_) => {},
        }
    }
}

/// Evaluating a subtree on top of the stack first yields its value
/// (or fails the whole run with its error) and then continues with
/// that value on the operand stack: the work stack computes the
/// post-order evaluation.
pub proof fn lemma_run_model_node(
    ts: Seq<EvalTask>,
    vs: Seq<i64>,
    n: ExpressionTreeNode,
    c: ClientSet,
)
    ensures
        run_model(ts.push(EvalTask::EvalNode(n)), vs, c) == (match eval_model(n.model(), c) {
            Ok(v) => run_model(ts, vs.push(v), c),
            Err(e) => Err::<i64, EvalError>(e),
        }),
    decreases node_size(n),
{
    let tasks = ts.push(EvalTask::EvalNode(n));
    assert(tasks.last() == EvalTask::EvalNode(n));
    assert(tasks.drop_last() =~= ts);
    match n {
        ExpressionTreeNode::Val(_) => {},
        ExpressionTreeNode::Expr(e) => {
            let cs = e.children@;
            lemma_children_model(cs);
            if cs.len() == 2 && c.spec_has(e.operator) {
                lemma_nodes_size_two(cs);
                let c0 = cs[0];
                let c1 = cs[1];
                let t1 = ts.push(EvalTask::Apply(e.operator));
                let t2 = t1.push(EvalTask::EvalNode(c1));
                assert(run_model(tasks, vs, c) == run_model(t2.push(EvalTask::EvalNode(c0)), vs, c));
                lemma_run_model_node(t2, vs, c0, c);
                match eval_model(c0.model(), c) {
                    Err(_) => {},
                    Ok(a) => {
                        lemma_run_model_node(t1, vs.push(a), c1, c);
                        match eval_model(c1.model(), c) {
                            Err(_) => {},
                            Ok(b) => {
                                let vs2 = vs.push(a).push(b);
                                assert(t1.last() == EvalTask::Apply(e.operator));
                                assert(t1.drop_last() =~= ts);
                                assert(vs2[vs2.len() - 2] == a && vs2[vs2.len() - 1] == b);
                                match op_result(e.operator, a, b) {
                                    Ok(v) => {
                                        assert(vs2.drop_last().drop_last() =~= vs);
                                    },
                                    Err(_) => {},
                                }
                            },
                        }
                    },
                }
            }
        },
    }
}

/// One resumable evaluation: the work stack, the operand values
/// computed so far, and the dispatch the session is waiting on, if
/// any. `run` works until a worker is needed; `resume` hands the
/// worker's answer back.
#[derive(Debug)]
pub struct EvalSession {
    clients: ClientSet,
    tasks: Vec<EvalTask>,
    values: Vec<i64>,
    pending: Option<(Operator, i64, i64)>,
    finished: bool,
}

/// What `run` and `resume` report: a dispatch the runtime must
/// perform, the final result, or a failure.
#[derive(Debug)]
pub enum EvalStep {
    NeedRpc { operator: Operator, num1: i64, num2: i64 },
    Done { result: i64 },
    Failed { error: EvalError },
}

impl EvalSession {
    /// The client set the session was started with.
    pub closed spec fn clients(self) -> ClientSet {
        self.clients
    }

    /// Whether the session has answered `Done` or `Failed`.
    pub closed spec fn is_finished(self) -> bool {
        self.finished
    }

    /// The dispatch the session is waiting on.
    pub closed spec fn pending_op(self) -> Option<(Operator, i64, i64)> {
        self.pending
    }

    /// How much work is left; each answer to `run` or `resume` that
    /// asks for another dispatch strictly lowers it.
    pub closed spec fn work(self) -> nat {
        stack_weight(self.tasks@)
    }

    /// The session's meaning: the result it will reach provided every
    /// dispatch it asks for is answered per the worker's wire
    /// contract.
    pub closed spec fn model(self) -> Result<i64, EvalError> {
        match self.pending {
            None => run_model(self.tasks@, self.values@, self.clients),
            Some(p) => match op_result(p.0, p.1, p.2) {
                Ok(v) => run_model(self.tasks@, self.values@.push(v), self.clients),
                Err(e) => Err(EvalError::Status(e)),
            },
        }
    }

    /// The session's meaning after an arbitrary answer `v` to the
    /// dispatch it is waiting on.
    pub closed spec fn resumed_model(self, v: i64) -> Result<i64, EvalError> {
        run_model(self.tasks@, self.values@.push(v), self.clients)
    }

    /// A live session's stacks are balanced: every pending operator
    /// finds its two operands and exactly one result remains.
    pub closed spec fn wf(self) -> bool {
        !self.finished ==> match self.pending {
            None => stack_ok(self.tasks@, self.values@.len() as int),
            Some(_) => stack_ok(self.tasks@, self.values@.len() as int + 1),
        }
    }

    /// Begins evaluating `expr` with the given clients present.
    pub fn start(expr: ExpressionTreeNode, clients: ClientSet) -> (s: EvalSession)
        ensures
            s.wf(),
            !s.is_finished(),
            s.pending_op() is None,
            s.clients() == clients,
            s.model() == eval_model(expr.model(), clients),
    {
        proof {
            lemma_run_model_node(Seq::empty(), Seq::empty(), expr, clients);
        }
        let ghost m = expr.model();
        let mut tasks: Vec<EvalTask> = Vec::new();
        tasks.push(EvalTask::EvalNode(expr));
        let s = EvalSession {
            clients,
            tasks,
            values: Vec::new(),
            pending: None,
            finished: false,
        };
        proof {
            assert(s.tasks@ =~= Seq::<EvalTask>::empty().push(s.tasks@[0]));
            assert(s.tasks@.drop_last() =~= Seq::<EvalTask>::empty());
            assert(s.tasks@.last() == s.tasks@[0]);
            assert(stack_ok(Seq::<EvalTask>::empty(), 1));
            match eval_model(m, clients) {
                Ok(v) => {
                    assert(run_model(Seq::empty(), Seq::<i64>::empty().push(v), clients) == Ok::<
                        i64,
                        EvalError,
                    >(v));
                },
                Err(_) => {},
            }
            assert(stack_ok(s.tasks@, 0));
        }
        s
    }

    /// Works through the stack until the next dispatch, the final
    /// result, or a failure. The session's meaning is preserved: a
    /// `Done` or `Failed` answer is exactly what the meaning was, and
    /// a `NeedRpc` answer records the dispatch and leaves the meaning
    /// unchanged.
    pub fn run(&mut self) -> (step: EvalStep)
        requires
            old(self).wf(),
            !old(self).is_finished(),
            old(self).pending_op() is None,
        ensures
            final(self).wf(),
            final(self).clients() == old(self).clients(),
            final(self).work() <= old(self).work(),
            match step {
                EvalStep::Done { result } => final(self).is_finished() && old(self).model()
                    == Ok::<i64, EvalError>(result),
                EvalStep::Failed { error } => final(self).is_finished() && old(self).model()
                    == Err::<i64, EvalError>(error),
                EvalStep::NeedRpc { operator, num1, num2 } => {
                    &&& !final(self).is_finished()
                    &&& final(self).pending_op() == Some((operator, num1, num2))
                    &&& final(self).model() == old(self).model()
                    &&& final(self).work() < old(self).work()
                },
            },
    {
        let ghost m0 = old(self).model();
        loop
            invariant
                self.clients == old(self).clients,
                self.pending is None,
                !self.finished,
                stack_ok(self.tasks@, self.values@.len() as int),
                run_model(self.tasks@, self.values@, self.clients) == m0,
                m0 == old(self).model(),
                stack_weight(self.tasks@) <= stack_weight(old(self).tasks@),
            decreases stack_weight(self.tasks@),
        {
            let ghost t0 = self.tasks@;
            let ghost v0 = self.values@;
            match self.tasks.pop() {
                None => {
                    let v = self.values[self.values.len() - 1];
                    self.finished = true;
                    return EvalStep::Done { result: v };
                },
                Some(EvalTask::EvalNode(node)) => {
                    proof {
                        assert(self.tasks@ =~= t0.drop_last());
                    }
                    match node {
                        ExpressionTreeNode::Val(v) => {
                            self.values.push(v);
                            proof {
                                assert(stack_ok(t0.drop_last(), v0.len() as int + 1));
                            }
                        },
                        ExpressionTreeNode::Expr(e) => {
                            let cnt = e.children.len();
                            if e.operator.is_binary() && cnt != 2 {
                                self.finished = true;
                                return EvalStep::Failed {
                                    error: EvalError::Math(
                                        MathError::InvalidOperandCount {
                                            operator: e.operator,
                                            got: cnt,
                                        },
                                    ),
                                };
                            }
                            if !self.clients.has(e.operator) {
                                self.finished = true;
                                return EvalStep::Failed {
                                    error: EvalError::Math(
                                        MathError::ClientNotSupplied { operator: e.operator },
                                    ),
                                };
                            }
                            let op = e.operator;
                            let mut children = e.children;
                            let c1 = children.pop().unwrap();
                            let c0 = children.pop().unwrap();
                            let ghost base = self.tasks@;
                            self.tasks.push(EvalTask::Apply(op));
                            self.tasks.push(EvalTask::EvalNode(c1));
                            self.tasks.push(EvalTask::EvalNode(c0));
                            proof {
                                lemma_stack_weight_push(base, EvalTask::Apply(op));
                                lemma_stack_weight_push(
                                    base.push(EvalTask::Apply(op)),
                                    EvalTask::EvalNode(c1),
                                );
                                lemma_stack_weight_push(
                                    base.push(EvalTask::Apply(op)).push(EvalTask::EvalNode(c1)),
                                    EvalTask::EvalNode(c0),
                                );
                                lemma_stack_weight_push(t0.drop_last(), t0.last());
                                assert(t0.drop_last().push(t0.last()) =~= t0);
                                lemma_nodes_size_two(e.children@);
                                let t1 = base.push(EvalTask::Apply(op));
                                let t2 = t1.push(EvalTask::EvalNode(c1));
                                let t3 = t2.push(EvalTask::EvalNode(c0));
                                assert(self.tasks@ =~= t3);
                                let n = v0.len() as int;
                                assert(stack_ok(base, n + 1));
                                assert(t1.drop_last() =~= base);
                                assert(stack_ok(t1, n + 2));
                                assert(t2.drop_last() =~= t1);
                                assert(stack_ok(t2, n + 1));
                                assert(t3.drop_last() =~= t2);
                                assert(stack_ok(t3, n));
                            }
                        },
                    }
                },
                Some(EvalTask::Apply(op)) => {
                    proof {
                        assert(self.tasks@ =~= t0.drop_last());
                    }
                    let b = self.values.pop().unwrap();
                    let a = self.values.pop().unwrap();
                    proof {
                        assert(self.values@ =~= v0.drop_last().drop_last());
                        lemma_stack_weight_push(t0.drop_last(), t0.last());
                        assert(t0.drop_last().push(t0.last()) =~= t0);
                    }
                    self.pending = Some((op, a, b));
                    return EvalStep::NeedRpc { operator: op, num1: a, num2: b };
                },
            }
        }
    }

    /// Feeds the answer to the dispatch back in and keeps working. An
    /// error answer fails the evaluation with that error; a value
    /// answer continues as if the worker had answered it. When the
    /// answer is exactly what the dispatched worker's contract gives
    /// for the recorded operands, the session's meaning is preserved.
    pub fn resume(&mut self, reply: Result<i64, EvalError>) -> (step: EvalStep)
        requires
            old(self).wf(),
            !old(self).is_finished(),
            old(self).pending_op() is Some,
        ensures
            final(self).wf(),
            final(self).clients() == old(self).clients(),
            final(self).work() <= old(self).work(),
            match step {
                EvalStep::Done { result } => final(self).is_finished() && (reply matches Ok(v)
                    && old(self).resumed_model(v) == Ok::<i64, EvalError>(result)),
                EvalStep::Failed { error } => final(self).is_finished() && match reply {
                    Ok(v) => old(self).resumed_model(v) == Err::<i64, EvalError>(error),
                    Err(e) => error == e,
                },
                EvalStep::NeedRpc { operator, num1, num2 } => {
                    &&& !final(self).is_finished()
                    &&& final(self).pending_op() == Some((operator, num1, num2))
                    &&& (reply matches Ok(v) && final(self).model() == old(self).resumed_model(v))
                    &&& final(self).work() < old(self).work()
                },
            },
            ({
                let p = old(self).pending_op()->0;
                let conforming: Result<i64, EvalError> = match op_result(p.0, p.1, p.2) {
                    Ok(v) => Ok(v),
                    Err(e) => Err(EvalError::Status(e)),
                };
                reply == conforming ==> match step {
                    EvalStep::Done { result } => old(self).model() == Ok::<i64, EvalError>(result),
                    EvalStep::Failed { error } => old(self).model() == Err::<i64, EvalError>(
                        error,
                    ),
                    EvalStep::NeedRpc { operator, num1, num2 } => final(self).model() == old(
                        self,
                    ).model(),
                }
            }),
    {
        match reply {
            Ok(v) => {
                self.pending = None;
                self.values.push(v);
                self.run()
            },
            Err(e) => {
                self.pending = None;
                self.finished = true;
                EvalStep::Failed { error: e }
            },
        }
    }
}

/// The configuration bundle of per-operator worker clients: each slot
/// is absent or a handle of the runtime's choosing. The library reads
/// only which slots are present; the runtime owns the handles and
/// their locking.
pub struct MathOpClients<C> {
    pub add: Option<C>,
    pub sub: Option<C>,
    pub mul: Option<C>,
    pub div: Option<C>,
}

impl<C> MathOpClients<C> {
    /// Which slots are present.
    pub open spec fn mask(self) -> ClientSet {
        ClientSet {
            add: self.add is Some,
            sub: self.sub is Some,
            mul: self.mul is Some,
            div: self.div is Some,
        }
    }

    /// Which slots are present.
    pub fn client_set(&self) -> (c: ClientSet)
        ensures
            c == self.mask(),
    {
        ClientSet {
            add: self.add.is_some(),
            sub: self.sub.is_some(),
            mul: self.mul.is_some(),
            div: self.div.is_some(),
        }
    }

    /// The handle for `op`, if one was supplied.
    pub fn client_for(&self, op: Operator) -> (r: Option<&C>)
        ensures
            (r is Some) == self.mask().spec_has(op),
    {
        match op {
            Operator::Add => self.add.as_ref(),
            Operator::Sub => self.sub.as_ref(),
            Operator::Mul => self.mul.as_ref(),
            Operator::Div => self.div.as_ref(),
        }
    }
}

impl<C> Default for MathOpClients<C> {
    /// The bundle with no client supplied.
    fn default() -> (r: MathOpClients<C>)
        ensures
            r.add is None,
            r.sub is None,
            r.mul is None,
            r.div is None,
    {
        MathOpClients { add: None, sub: None, mul: None, div: None }
    }
}

/// The evaluator: holds the client bundle and starts sessions against
/// it.
pub struct Evaluator<C> {
    pub clients: MathOpClients<C>,
}

impl<C> Evaluator<C> {
    pub fn new(clients: MathOpClients<C>) -> (r: Evaluator<C>)
        ensures
            r.clients == clients,
    {
        Evaluator { clients }
    }

    /// Begins evaluating a math expression against this evaluator's
    /// clients. The runtime drives the returned session, performing
    /// each dispatch it asks for on the matching client.
    pub fn eval(&self, expr: ExpressionTreeNode) -> (s: EvalSession)
        ensures
            s.wf(),
            !s.is_finished(),
            s.pending_op() is None,
            s.clients() == self.clients.mask(),
            s.model() == eval_model(expr.model(), self.clients.mask()),
    {
        EvalSession::start(expr, self.clients.client_set())
    }
}

impl<C> Default for Evaluator<C> {
    /// An evaluator with no client supplied.
    fn default() -> (r: Evaluator<C>)
        ensures
            r.clients.add is None,
            r.clients.sub is None,
            r.clients.mul is None,
            r.clients.div is None,
    {
        Evaluator { clients: MathOpClients::default() }
    }
}

/// The calculator service: parses, then evaluates.
pub struct CalcImpl<C> {
    pub evaluator: Evaluator<C>,
}

impl<C> CalcImpl<C> {
    pub fn new(clients: MathOpClients<C>) -> (r: CalcImpl<C>)
        ensures
            r.evaluator.clients == clients,
    {
        CalcImpl { evaluator: Evaluator::new(clients) }
    }
}

/// Evaluates a tree by answering every dispatch with the worker
/// computed in process: with the full client set and workers that
/// follow their wire contract, the session reaches exactly the
/// mathematical evaluation of the tree.
pub fn eval_with_local_workers(expr: ExpressionTreeNode) -> (r: Result<i64, EvalError>)
    ensures
        r == eval_model(expr.model(), full_clients()),
{
    let ghost m = expr.model();
    let mut session = EvalSession::start(expr, ClientSet::all());
    let mut step = session.run();
    loop
        invariant
            session.wf(),
            session.clients() == full_clients(),
            m == expr.model(),
            match step {
                EvalStep::Done { result } => session.is_finished() && Ok::<i64, EvalError>(result)
                    == eval_model(m, full_clients()),
                EvalStep::Failed { error } => session.is_finished() && Err::<i64, EvalError>(error)
                    == eval_model(m, full_clients()),
                EvalStep::NeedRpc { operator, num1, num2 } => {
                    &&& !session.is_finished()
                    &&& session.pending_op() == Some((operator, num1, num2))
                    &&& session.model() == eval_model(m, full_clients())
                },
            },
        decreases session.work(), (if session.is_finished() { 0int } else { 1int }),
    {
        match step {
            EvalStep::Done { result } => {
                return Ok(result);
            },
            EvalStep::Failed { error } => {
                return Err(error);
            },
            EvalStep::NeedRpc { operator, num1, num2 } => {
                let req = crate::wire::BinaryOpRequest { num1, num2 };
                let answer = match operator {
                    Operator::Add => (crate::svc_mat::AddImpl {  }).add(req),
                    Operator::Sub => (crate::svc_mat::SubImpl {  }).sub(req),
                    Operator::Mul => (crate::svc_mat::MulImpl {  }).mul(req),
                    Operator::Div => (crate::svc_mat::DivImpl {  }).div(req),
                };
                let reply = match answer {
                    Ok(resp) => Ok(resp.result),
                    Err(e) => Err(EvalError::Status(e)),
                };
                step = session.resume(reply);
            },
        }
    }
}

/// The calculator's `Evaluate` handler with the four workers computed
/// in process: an unparseable expression answers result 0; a parsed
/// tree is evaluated, and any evaluation failure is wrapped as an
/// internal status.
pub fn evaluate_local(expression: &str) -> (r: Result<crate::wire::MathResponse, SvcError>)
    ensures
        match crate::parse::parse_spec(expression@) {
            None => r matches Ok(resp) && resp.result == 0,
            Some(m) => match eval_model(m, full_clients()) {
                Ok(v) => r matches Ok(resp) && resp.result == v,
                Err(_) => r matches Err(SvcError::Internal),
            },
        },
{
    match crate::parse::parse(expression) {
        None => Ok(crate::wire::MathResponse { result: 0 }),
        Some(node) => match eval_with_local_workers(node) {
            Ok(v) => Ok(crate::wire::MathResponse { result: v }),
            Err(_) => Err(SvcError::Internal),
        },
    }
}

} // verus!
