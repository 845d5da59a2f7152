use dist_rust_buted::calc::{
    eval_with_local_workers, evaluate_local, ClientSet, EvalError, EvalSession, EvalStep,
    Evaluator, MathError, MathOpClients,
};
use dist_rust_buted::expression::{Expression, ExpressionTreeNode, Operator};
use dist_rust_buted::parse::parse;
use dist_rust_buted::svc_mat::{AddImpl, DivImpl, MulImpl, SubImpl};
use dist_rust_buted::wire::{BinaryOpRequest, SvcError};

#[test]
fn evaluate_plus_1_5() {
    let resp = evaluate_local("+ 1 5").unwrap();
    assert_eq!(resp.result, 6);
}

#[test]
fn evaluate_nested_both_positions() {
    let resp = evaluate_local("+ * 2 3 - 10 4").unwrap();
    assert_eq!(resp.result, 12);
}

#[test]
fn evaluate_empty_is_zero() {
    let resp = evaluate_local("").unwrap();
    assert_eq!(resp.result, 0);
}

#[test]
fn evaluate_malformed_is_zero() {
    let resp = evaluate_local("+ 1").unwrap();
    assert_eq!(resp.result, 0);
}

#[test]
fn evaluate_div_by_zero_is_internal() {
    let r = evaluate_local("/ 1 0");
    assert!(matches!(r, Err(SvcError::Internal)));
}

#[test]
fn eval_div_by_zero_propagates_invalid_argument() {
    let tree = parse("/ 1 0").unwrap();
    let r = eval_with_local_workers(tree);
    assert!(matches!(
        r,
        Err(EvalError::Status(SvcError::InvalidArgument))
    ));
}

#[test]
fn evaluate_truncates_toward_zero() {
    assert_eq!(evaluate_local("/ -7 2").unwrap().result, -3);
    assert_eq!(evaluate_local("/ 7 -2").unwrap().result, -3);
    assert_eq!(evaluate_local("/ -7 -2").unwrap().result, 3);
}

#[test]
fn evaluate_overflow_is_internal() {
    let r = evaluate_local("+ 9223372036854775807 1");
    assert!(matches!(r, Err(SvcError::Internal)));
}

// Driving the session by hand stands in for the runtime: an add
// client that answers num1 + num2.
#[test]
fn session_add_client_round_trip() {
    let tree = parse("+ 1 5").unwrap();
    let mut session = EvalSession::start(
        tree,
        ClientSet {
            add: true,
            sub: false,
            mul: false,
            div: false,
        },
    );
    let step = session.run();
    let (op, a, b) = match step {
        EvalStep::NeedRpc {
            operator,
            num1,
            num2,
        } => (operator, num1, num2),
        _ => panic!("expected a dispatch"),
    };
    assert!(matches!(op, Operator::Add));
    assert_eq!((a, b), (1, 5));
    let step = session.resume(Ok(a + b));
    match step {
        EvalStep::Done { result } => assert_eq!(result, 6),
        _ => panic!("expected completion"),
    }
}

#[test]
fn session_left_child_dispatched_first() {
    let tree = parse("+ * 2 3 - 10 4").unwrap();
    let mut session = EvalSession::start(tree, ClientSet::all());
    match session.run() {
        EvalStep::NeedRpc {
            operator,
            num1,
            num2,
        } => {
            assert!(matches!(operator, Operator::Mul));
            assert_eq!((num1, num2), (2, 3));
        }
        _ => panic!("expected the left child's dispatch first"),
    }
}

#[test]
fn session_transport_failure_fails_evaluation() {
    let tree = parse("+ 1 5").unwrap();
    let mut session = EvalSession::start(tree, ClientSet::all());
    match session.run() {
        EvalStep::NeedRpc { .. } => {}
        _ => panic!("expected a dispatch"),
    }
    match session.resume(Err(EvalError::Transport)) {
        EvalStep::Failed {
            error: EvalError::Transport,
        } => {}
        _ => panic!("expected the transport failure to surface"),
    }
}

#[test]
fn client_not_supplied() {
    let tree = parse("+ 1 5").unwrap();
    let clients: MathOpClients<()> = MathOpClients::default();
    let evaluator = Evaluator::new(clients);
    let mut session = evaluator.eval(tree);
    match session.run() {
        EvalStep::Failed {
            error: EvalError::Math(MathError::ClientNotSupplied { operator }),
        } => assert!(matches!(operator, Operator::Add)),
        _ => panic!("expected a missing-client failure"),
    }
}

#[test]
fn invalid_operand_count() {
    let tree = ExpressionTreeNode::Expr(Expression {
        operator: Operator::Add,
        children: vec![ExpressionTreeNode::Val(1)],
    });
    let mut session = EvalSession::start(tree, ClientSet::all());
    match session.run() {
        EvalStep::Failed {
            error: EvalError::Math(MathError::InvalidOperandCount { operator, got }),
        } => {
            assert!(matches!(operator, Operator::Add));
            assert_eq!(got, 1);
        }
        _ => panic!("expected an arity failure"),
    }
}

#[test]
fn workers_compute_their_operation() {
    let add = AddImpl {};
    assert_eq!(add.add(BinaryOpRequest { num1: 2, num2: 3 }).unwrap().result, 5);
    let sub = SubImpl {};
    assert_eq!(
        sub.sub(BinaryOpRequest { num1: 2, num2: 3 }).unwrap().result,
        -1
    );
    let mul = MulImpl {};
    assert_eq!(
        mul.mul(BinaryOpRequest { num1: -4, num2: 3 }).unwrap().result,
        -12
    );
    let div = DivImpl {};
    assert_eq!(
        div.div(BinaryOpRequest { num1: 10, num2: 3 }).unwrap().result,
        3
    );
}

#[test]
fn div_worker_rejects_zero() {
    let div = DivImpl {};
    let r = div.div(BinaryOpRequest { num1: 1, num2: 0 });
    assert!(matches!(r, Err(SvcError::InvalidArgument)));
}

#[test]
fn workers_report_overflow_as_internal() {
    let add = AddImpl {};
    assert!(matches!(
        add.add(BinaryOpRequest {
            num1: i64::MAX,
            num2: 1
        }),
        Err(SvcError::Internal)
    ));
    let sub = SubImpl {};
    assert!(matches!(
        sub.sub(BinaryOpRequest {
            num1: i64::MIN,
            num2: 1
        }),
        Err(SvcError::Internal)
    ));
    let mul = MulImpl {};
    assert!(matches!(
        mul.mul(BinaryOpRequest {
            num1: i64::MAX,
            num2: 2
        }),
        Err(SvcError::Internal)
    ));
    let div = DivImpl {};
    assert!(matches!(
        div.div(BinaryOpRequest {
            num1: i64::MIN,
            num2: -1
        }),
        Err(SvcError::Internal)
    ));
}

#[test]
fn div_worker_extreme_quotients() {
    let div = DivImpl {};
    assert_eq!(
        div.div(BinaryOpRequest {
            num1: i64::MIN,
            num2: 1
        })
        .unwrap()
        .result,
        i64::MIN
    );
    assert_eq!(
        div.div(BinaryOpRequest {
            num1: i64::MAX,
            num2: -1
        })
        .unwrap()
        .result,
        -i64::MAX
    );
}
