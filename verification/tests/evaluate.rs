use acd::ast::Expr::{Arg, BinOp, Call, Delay, If, Value};
use acd::ast::{Expr, File, Op};
use acd::common::{Error, HasId, Identifier};
use acd::exec::{apply_op, evaluate, file_to_read};
use acd::file::{Fs, MockFs};

fn program(expression: Expr) -> File {
    File { imports: vec![], expression }
}

fn bin(op: Op, l: Expr, r: Expr) -> Expr {
    BinOp(op, Box::new(l), Box::new(r))
}

fn run_one(expression: Expr, args: &[i64]) -> Result<i64, Error> {
    let iden = Identifier::of("main");
    let mut fs = MockFs::new(vec![(iden.clone(), program(expression))]);
    evaluate(&mut fs, iden, args)
}

#[test]
fn single_file() -> Result<(), Error> {
    let file = File {
        imports: vec![],
        expression: BinOp(
            Op::Add,
            Box::new(BinOp(Op::Mul, Box::new(Value(4)), Box::new(Value(4)))),
            Box::new(BinOp(Op::Mul, Box::new(Value(3)), Box::new(Value(3)))),
        ),
    };
    let file_iden = Identifier::of("test");
    let mut fs = MockFs::new(vec![(file_iden.clone(), file)]);
    let res = evaluate(&mut fs, file_iden, &[])?;
    assert_eq!(res, 25);
    Ok(())
}

#[test]
fn multi_file_calls() {
    // The files of the two-file example, each under the name its calls use:
    // "square" squares its argument (and lists an import, which evaluation
    // does not need); "main" adds the squares of 4 and 3.
    let file1 = File {
        imports: vec![Identifier::of("square")],
        expression: bin(Op::Mul, Arg(0), Arg(0)),
    };
    let file2 = File {
        imports: vec![],
        expression: bin(
            Op::Add,
            Call(Identifier::of("square"), vec![Value(4)]),
            Call(Identifier::of("square"), vec![Value(3)]),
        ),
    };
    let mut fs = MockFs::new(vec![
        (Identifier::of("square"), file1),
        (Identifier::of("main"), file2),
    ]);
    // "square" is called twice but read from the file system once.
    assert_eq!(evaluate(&mut fs, Identifier::of("main"), &[]), Ok(25));
}

#[test]
fn files_with_imports_are_evaluated() {
    let file = File { imports: vec![Identifier::of("lib")], expression: Value(3) };
    let mut fs = MockFs::new(vec![(Identifier::of("main"), file)]);
    assert_eq!(evaluate(&mut fs, Identifier::of("main"), &[]), Ok(3));
}

#[test]
fn a_call_that_repeats_itself_is_a_cycle() {
    let looping = program(Call(Identifier::of("loop"), vec![]));
    let mut fs = MockFs::new(vec![(Identifier::of("loop"), looping)]);
    assert_eq!(evaluate(&mut fs, Identifier::of("loop"), &[]), Err(Error::Cycle(Identifier::of("loop"))));
    // Two files that call each other with the same arguments.
    let ping = program(Call(Identifier::of("pong"), vec![Arg(0)]));
    let pong = program(Call(Identifier::of("ping"), vec![Arg(0)]));
    let mut fs = MockFs::new(vec![(Identifier::of("ping"), ping), (Identifier::of("pong"), pong)]);
    assert_eq!(evaluate(&mut fs, Identifier::of("ping"), &[1]), Err(Error::Cycle(Identifier::of("ping"))));
}

#[test]
fn what_to_read_next() {
    let looked = vec![Identifier::of("a")];
    assert_eq!(file_to_read(&Err(Error::FileNotFound(Identifier::of("b"))), &looked), Some(Identifier::of("b")));
    assert_eq!(file_to_read(&Err(Error::FileNotFound(Identifier::of("a"))), &looked), None);
    assert_eq!(file_to_read(&Ok(3), &looked), None);
    assert_eq!(file_to_read(&Err(Error::NoSuchArg(Identifier::of("b"), 0)), &looked), None);
}

#[test]
fn unneeded_files_stay_unread() {
    let mut fs = MockFs::new(vec![
        (Identifier::of("main"), program(If(Box::new(Value(1)), Box::new(Value(7)), Box::new(Call(Identifier::of("other"), vec![]))))),
        (Identifier::of("other"), program(Value(5))),
    ]);
    assert_eq!(evaluate(&mut fs, Identifier::of("main"), &[]), Ok(7));
    // "other" was never needed, so it can still be read.
    assert_eq!(fs.read(&Identifier::of("other")).map(|f| matches!(f.expression, Value(5))), Ok(true));
}

#[test]
fn missing_file() {
    let mut fs = MockFs::new(vec![]);
    assert_eq!(
        evaluate(&mut fs, Identifier::of("nowhere"), &[]),
        Err(Error::FileNotFound(Identifier::of("nowhere")))
    );
}

#[test]
fn missing_callee() {
    let r = run_one(bin(Op::Add, Value(1), Call(Identifier::of("gone"), vec![])), &[]);
    assert_eq!(r, Err(Error::FileNotFound(Identifier::of("gone"))));
}

#[test]
fn divide_by_zero() {
    assert_eq!(
        run_one(bin(Op::Div, Value(9), Value(0)), &[]),
        Err(Error::DivideByZero(Identifier::of("main"), 9))
    );
}

#[test]
fn missing_argument() {
    assert_eq!(run_one(Arg(1), &[4]), Err(Error::NoSuchArg(Identifier::of("main"), 1)));
    assert_eq!(run_one(Arg(0), &[4]), Ok(4));
}

#[test]
fn first_error_wins() {
    // The left operand is evaluated first.
    let r = run_one(bin(Op::Add, bin(Op::Div, Value(1), Value(0)), Arg(3)), &[]);
    assert_eq!(r, Err(Error::DivideByZero(Identifier::of("main"), 1)));
    let r = run_one(bin(Op::Add, Arg(3), bin(Op::Div, Value(1), Value(0))), &[]);
    assert_eq!(r, Err(Error::NoSuchArg(Identifier::of("main"), 3)));
}

#[test]
fn errors_in_branches_not_taken_do_not_matter() {
    let failing = bin(Op::Div, Value(1), Value(0));
    assert_eq!(run_one(If(Box::new(Value(0)), Box::new(failing), Box::new(Value(3))), &[]), Ok(3));
    let failing = bin(Op::Div, Value(1), Value(0));
    assert_eq!(run_one(If(Box::new(Value(2)), Box::new(Value(4)), Box::new(failing)), &[]), Ok(4));
}

#[test]
fn delay_keeps_the_value() {
    assert_eq!(run_one(Delay(Box::new(bin(Op::Sub, Value(10), Value(3))), 1), &[]), Ok(7));
}

#[test]
fn arguments_are_passed_in_order() {
    let sub = program(bin(Op::Sub, Arg(0), Arg(1)));
    let main = program(Call(Identifier::of("sub"), vec![Value(10), Arg(0)]));
    let mut fs = MockFs::new(vec![(Identifier::of("main"), main), (Identifier::of("sub"), sub)]);
    assert_eq!(evaluate(&mut fs, Identifier::of("main"), &[3]), Ok(7));
}

#[test]
fn errors_name_the_file_they_happen_in() {
    let inner = program(bin(Op::Div, Arg(0), Value(0)));
    let main = program(Call(Identifier::of("inner"), vec![Value(6)]));
    let mut fs = MockFs::new(vec![(Identifier::of("main"), main), (Identifier::of("inner"), inner)]);
    assert_eq!(
        evaluate(&mut fs, Identifier::of("main"), &[]),
        Err(Error::DivideByZero(Identifier::of("inner"), 6))
    );
}

#[test]
fn recursion_through_calls() {
    // fact(n) = if n < 1 then 1 else n * fact(n - 1)
    let fact = program(If(
        Box::new(bin(Op::Lt, Arg(0), Value(1))),
        Box::new(Value(1)),
        Box::new(bin(Op::Mul, Arg(0), Call(Identifier::of("fact"), vec![bin(Op::Sub, Arg(0), Value(1))]))),
    ));
    let mut fs = MockFs::new(vec![(Identifier::of("fact"), fact)]);
    assert_eq!(evaluate(&mut fs, Identifier::of("fact"), &[5]), Ok(120));
}

#[test]
fn saturating_arithmetic() {
    let f = Identifier::of("f");
    assert_eq!(apply_op(Op::Add, i64::MAX, 1, &f), Ok(i64::MAX));
    assert_eq!(apply_op(Op::Add, i64::MIN, -1, &f), Ok(i64::MIN));
    assert_eq!(apply_op(Op::Add, 2, 3, &f), Ok(5));
    assert_eq!(apply_op(Op::Sub, i64::MIN, 1, &f), Ok(i64::MIN));
    assert_eq!(apply_op(Op::Sub, i64::MAX, -1, &f), Ok(i64::MAX));
    assert_eq!(apply_op(Op::Sub, 2, 3, &f), Ok(-1));
    assert_eq!(apply_op(Op::Mul, i64::MAX, 2, &f), Ok(i64::MAX));
    assert_eq!(apply_op(Op::Mul, i64::MAX, -2, &f), Ok(i64::MIN));
    assert_eq!(apply_op(Op::Mul, -4, -5, &f), Ok(20));
    assert_eq!(apply_op(Op::Div, i64::MIN, -1, &f), Ok(i64::MAX));
    assert_eq!(apply_op(Op::Div, -7, 2, &f), Ok(-3));
    assert_eq!(apply_op(Op::Div, 7, -2, &f), Ok(-3));
    assert_eq!(apply_op(Op::Div, 7, 0, &f), Err(Error::DivideByZero(Identifier::of("f"), 7)));
}

#[test]
fn comparisons_and_logic() {
    let f = Identifier::of("f");
    assert_eq!(apply_op(Op::Min, 3, -2, &f), Ok(-2));
    assert_eq!(apply_op(Op::Max, 3, -2, &f), Ok(3));
    assert_eq!(apply_op(Op::Lt, 3, -2, &f), Ok(0));
    assert_eq!(apply_op(Op::Gt, 3, -2, &f), Ok(1));
    assert_eq!(apply_op(Op::Eq, 3, 3, &f), Ok(1));
    assert_eq!(apply_op(Op::Eq, 3, 4, &f), Ok(0));
    assert_eq!(apply_op(Op::And, 3, 0, &f), Ok(0));
    assert_eq!(apply_op(Op::And, 3, -1, &f), Ok(1));
    assert_eq!(apply_op(Op::Or, 0, 0, &f), Ok(0));
    assert_eq!(apply_op(Op::Or, 0, 5, &f), Ok(1));
}

#[test]
fn commutative_operators() {
    let f = Identifier::of("f");
    for op in [Op::Add, Op::Mul, Op::Min, Op::Max, Op::Eq, Op::And, Op::Or] {
        assert_eq!(apply_op(op, 6, -9, &f), apply_op(op, -9, 6, &f));
        assert_eq!(apply_op(op, i64::MAX, 3, &f), apply_op(op, 3, i64::MAX, &f));
    }
    assert_ne!(apply_op(Op::Sub, 6, -9, &f), apply_op(Op::Sub, -9, 6, &f));
}

#[test]
fn evaluation_keeps_the_file_system_id() {
    let mut fs = MockFs::new(vec![
        (Identifier::of("main"), program(Call(Identifier::of("one"), vec![]))),
        (Identifier::of("one"), program(Value(1))),
    ]);
    let before = fs.id();
    assert_eq!(evaluate(&mut fs, Identifier::of("main"), &[]), Ok(1));
    assert!(std::sync::Arc::ptr_eq(&before, &fs.id()));
    assert_eq!(fs.count(), 2);
}

#[test]
fn distinct_calls_finish() {
    // Each call of "down" passes a smaller argument, so no call repeats one
    // under way and the run ends at the base case.
    let down = program(If(
        Box::new(Arg(0)),
        Box::new(Call(Identifier::of("down"), vec![bin(Op::Sub, Arg(0), Value(1))])),
        Box::new(Value(7)),
    ));
    let mut fs = MockFs::new(vec![(Identifier::of("down"), down)]);
    assert_eq!(evaluate(&mut fs, Identifier::of("down"), &[5]), Ok(7));
}
