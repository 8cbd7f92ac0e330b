use vstd::prelude::*;
use crate::ast::{Expr, Op};
use crate::common::{Error, Identifier};
use crate::cache::MAX_SLOTS;
use crate::engine::{Core, FsState};
use crate::file::{law_mock_id, MockFs};
use crate::common::HasId;

verus! {

/// `x` saturated to the range of `i64`.
pub open spec fn clamp(x: int) -> i64 {
    if x > i64::MAX {
        i64::MAX
    } else if x < i64::MIN {
        i64::MIN
    } else {
        x as i64
    }
}

/// Integer division that rounds toward zero, as `/` does on `i64`.
pub open spec fn trunc_div(x: int, d: int) -> int {
    if x == 0 {
        0
    } else if x > 0 && d > 0 {
        x / d
    } else if x < 0 && d < 0 {
        (x * -1) / (d * -1)
    } else if x < 0 {
        ((x * -1) / d) * -1
    } else {
        (x / (d * -1)) * -1
    }
}

/// The value of a binary operation in a file named `file`: arithmetic
/// saturates at the bounds of `i64`, comparisons and logic give 1 or 0, and
/// dividing by zero is an error.
pub open spec fn apply(op: Op, l: i64, r: i64, file: Identifier) -> Result<i64, Error> {
    match op {
        Op::Add => Ok(clamp(l + r)),
        Op::Sub => Ok(clamp(l - r)),
        Op::Mul => Ok(clamp(l * r)),
        Op::Div => if r == 0 {
            Err(Error::DivideByZero(file, l))
        } else {
            Ok(clamp(trunc_div(l as int, r as int)))
        },
        Op::Min => Ok(if l <= r { l } else { r }),
        Op::Max => Ok(if l >= r { l } else { r }),
        Op::Lt => Ok(if l < r { 1 } else { 0 }),
        Op::Gt => Ok(if l > r { 1 } else { 0 }),
        Op::Eq => Ok(if l == r { 1 } else { 0 }),
        Op::And => Ok(if l != 0 && r != 0 { 1 } else { 0 }),
        Op::Or => Ok(if l != 0 || r != 0 { 1 } else { 0 }),
    }
}

/// What evaluating `e` in the file `file`, called with `args`, gives when the
/// files are those of `fs` and calls may nest `fuel` deep: `None` when the
/// calls nest deeper, or when a file that is needed was already read (the
/// cases in which evaluation does not finish normally); `active` are the
/// calls under way.
/// Operands are evaluated left to right and the first error is the result;
/// an `If` evaluates only the branch it takes. A `Delay` has the value of the
/// expression it wraps; the wait it asks for is timing only and is not part
/// of the value.
pub open spec fn eval_expr(fs: FsState, fuel: nat, active: Frames, file: Identifier, args: Seq<i64>, e: Expr) -> Option<Result<i64, Error>>
    decreases fuel, 1int, e,
{
    match e {
        Expr::Value(n) => Some(Ok(n)),
        Expr::BinOp(op, l, r) => match eval_expr(fs, fuel, active, file, args, *l) {
            Some(Ok(lv)) => match eval_expr(fs, fuel, active, file, args, *r) {
                Some(Ok(rv)) => Some(apply(op, lv, rv, file)),
                other => other,
            },
            other => other,
        },
        Expr::If(c, yes, no) => match eval_expr(fs, fuel, active, file, args, *c) {
            Some(Ok(cv)) => if cv != 0 {
                eval_expr(fs, fuel, active, file, args, *yes)
            } else {
                eval_expr(fs, fuel, active, file, args, *no)
            },
            other => other,
        },
        Expr::Arg(ix) => if (ix as int) < args.len() {
            Some(Ok(args[ix as int]))
        } else {
            Some(Err(Error::NoSuchArg(file, ix)))
        },
        Expr::Call(callee, arg_exprs) => match eval_args(fs, fuel, active, file, args, arg_exprs@) {
            Some(Ok(vals)) => run(fs, fuel, active, callee, vals),
            Some(Err(x)) => Some(Err(x)),
            None => None,
        },
        Expr::Delay(inner, _) => eval_expr(fs, fuel, active, file, args, *inner),
    }
}

/// The values of the expressions `es`, evaluated left to right, or the
/// first error.
pub open spec fn eval_args(fs: FsState, fuel: nat, active: Frames, file: Identifier, args: Seq<i64>, es: Seq<Expr>) -> Option<Result<Seq<i64>, Error>>
    decreases fuel, 1int, es,
{
    if es.len() == 0 {
        Some(Ok(Seq::empty()))
    } else {
        match eval_args(fs, fuel, active, file, args, es.drop_last()) {
            Some(Ok(vals)) => match eval_expr(fs, fuel, active, file, args, es.last()) {
                Some(Ok(v)) => Some(Ok(vals.push(v))),
                Some(Err(x)) => Some(Err(x)),
                None => None,
            },
            other => other,
        }
    }
}

/// The calls under way: the name of each file being run, with its arguments.
pub type Frames = Seq<(Seq<char>, Seq<i64>)>;

/// What running the file named `iden` with `args` gives while the calls of
/// `active` are under way: a call that repeats one of them would never end,
/// and is reported as a cycle; otherwise the file must exist, and its
/// expression (whatever it imports) is evaluated with the calls in it nesting
/// at most `fuel - 1` deep.
pub open spec fn run(fs: FsState, fuel: nat, active: Frames, iden: Identifier, args: Seq<i64>) -> Option<Result<i64, Error>>
    decreases fuel, 0int, Expr::Value(0),
{
    if fuel == 0 {
        None
    } else if active.contains((iden@, args)) {
        Some(Err(Error::Cycle(iden)))
    } else if !fs.contains_key(iden@) {
        Some(Err(Error::FileNotFound(iden)))
    } else {
        match fs[iden@] {
            Some(f) => eval_expr(fs, (fuel - 1) as nat, active.push((iden@, args)), iden, args, f.expression),
            None => None,
        }
    }
}

/// The names of the files that evaluating `e` reads: those of the calls that
/// are run and whose file is there, in the branches that are evaluated.
pub open spec fn reads_expr(fs: FsState, fuel: nat, active: Frames, file: Identifier, args: Seq<i64>, e: Expr) -> Set<Seq<char>>
    decreases fuel, 1int, e,
{
    match e {
        Expr::Value(_) => Set::empty(),
        Expr::BinOp(_, l, r) => reads_expr(fs, fuel, active, file, args, *l).union(
            if eval_expr(fs, fuel, active, file, args, *l) matches Some(Ok(_)) {
                reads_expr(fs, fuel, active, file, args, *r)
            } else {
                Set::empty()
            },
        ),
        Expr::If(c, yes, no) => reads_expr(fs, fuel, active, file, args, *c).union(
            match eval_expr(fs, fuel, active, file, args, *c) {
                Some(Ok(cv)) => if cv != 0 {
                    reads_expr(fs, fuel, active, file, args, *yes)
                } else {
                    reads_expr(fs, fuel, active, file, args, *no)
                },
                _ => Set::empty(),
            },
        ),
        Expr::Arg(_) => Set::empty(),
        Expr::Call(callee, arg_exprs) => reads_args(fs, fuel, active, file, args, arg_exprs@).union(
            match eval_args(fs, fuel, active, file, args, arg_exprs@) {
                Some(Ok(vals)) => reads_run(fs, fuel, active, callee, vals),
                _ => Set::empty(),
            },
        ),
        Expr::Delay(inner, _) => reads_expr(fs, fuel, active, file, args, *inner),
    }
}

/// The names of the files that evaluating the expressions `es` reads.
pub open spec fn reads_args(fs: FsState, fuel: nat, active: Frames, file: Identifier, args: Seq<i64>, es: Seq<Expr>) -> Set<Seq<char>>
    decreases fuel, 1int, es,
{
    if es.len() == 0 {
        Set::empty()
    } else {
        reads_args(fs, fuel, active, file, args, es.drop_last()).union(
            if eval_args(fs, fuel, active, file, args, es.drop_last()) matches Some(Ok(_)) {
                reads_expr(fs, fuel, active, file, args, es.last())
            } else {
                Set::empty()
            },
        )
    }
}

/// The names of the files that running the file named `iden` reads: its own,
/// when it is there and the call is no cycle, and those its expression reads.
pub open spec fn reads_run(fs: FsState, fuel: nat, active: Frames, iden: Identifier, args: Seq<i64>) -> Set<Seq<char>>
    decreases fuel, 0int, Expr::Value(0),
{
    if fuel == 0 || active.contains((iden@, args)) || !fs.contains_key(iden@) {
        Set::empty()
    } else {
        match fs[iden@] {
            Some(f) => set![iden@].union(reads_expr(fs, (fuel - 1) as nat, active.push((iden@, args)), iden, args, f.expression)),
            None => Set::empty(),
        }
    }
}

/// The state of `fs` after the files named in `names` have been read.
pub open spec fn after_reads(fs: FsState, names: Set<Seq<char>>) -> FsState {
    Map::new(
        |k: Seq<char>| fs.contains_key(k),
        |k: Seq<char>| if names.contains(k) { None } else { fs[k] },
    )
}

/// Running the file finishes: its calls nest only finitely deep, and it
/// needs no file that was already read.
pub open spec fn finishes(fs: FsState, iden: Identifier, args: Seq<i64>) -> bool {
    exists|fuel: nat| #[trigger] run(fs, fuel, Seq::empty(), iden, args) is Some
}

/// The names of the files that running the file reads, when it finishes.
pub open spec fn reads(fs: FsState, iden: Identifier, args: Seq<i64>) -> Set<Seq<char>> {
    reads_run(fs, choose|fuel: nat| #[trigger] run(fs, fuel, Seq::empty(), iden, args) is Some, Seq::empty(), iden, args)
}

/// What running the file gives, when it finishes.
pub open spec fn outcome(fs: FsState, iden: Identifier, args: Seq<i64>) -> Result<i64, Error> {
    run(fs, choose|fuel: nat| #[trigger] run(fs, fuel, Seq::empty(), iden, args) is Some, Seq::empty(), iden, args).unwrap()
}

/// Allowing calls to nest deeper changes nothing about an evaluation that
/// finishes.
pub proof fn lemma_eval_fuel(fs: FsState, f1: nat, f2: nat, active: Frames, file: Identifier, args: Seq<i64>, e: Expr)
    requires
        eval_expr(fs, f1, active, file, args, e) is Some,
        f1 <= f2,
    ensures
        eval_expr(fs, f2, active, file, args, e) == eval_expr(fs, f1, active, file, args, e),
        reads_expr(fs, f2, active, file, args, e) == reads_expr(fs, f1, active, file, args, e),
    decreases f1, 1int, e,
{
    match e {
        Expr::Value(_) => {},
        Expr::BinOp(op, l, r) => {
            lemma_eval_fuel(fs, f1, f2, active, file, args, *l);
            if eval_expr(fs, f1, active, file, args, *l) matches Some(Ok(_)) {
                lemma_eval_fuel(fs, f1, f2, active, file, args, *r);
            }
        },
        Expr::If(c, yes, no) => {
            lemma_eval_fuel(fs, f1, f2, active, file, args, *c);
            if let Some(Ok(cv)) = eval_expr(fs, f1, active, file, args, *c) {
                if cv != 0 {
                    lemma_eval_fuel(fs, f1, f2, active, file, args, *yes);
                } else {
                    lemma_eval_fuel(fs, f1, f2, active, file, args, *no);
                }
            }
        },
        Expr::Arg(_) => {},
        Expr::Call(callee, arg_exprs) => {
            lemma_args_fuel(fs, f1, f2, active, file, args, arg_exprs@);
            if let Some(Ok(vals)) = eval_args(fs, f1, active, file, args, arg_exprs@) {
                lemma_run_fuel(fs, f1, f2, active, callee, vals);
            }
        },
        Expr::Delay(inner, _) => {
            lemma_eval_fuel(fs, f1, f2, active, file, args, *inner);
        },
    }
}

/// Allowing calls to nest deeper changes nothing about the evaluation of a
/// list of expressions that finishes.
pub proof fn lemma_args_fuel(fs: FsState, f1: nat, f2: nat, active: Frames, file: Identifier, args: Seq<i64>, es: Seq<Expr>)
    requires
        eval_args(fs, f1, active, file, args, es) is Some,
        f1 <= f2,
    ensures
        eval_args(fs, f2, active, file, args, es) == eval_args(fs, f1, active, file, args, es),
        reads_args(fs, f2, active, file, args, es) == reads_args(fs, f1, active, file, args, es),
    decreases f1, 1int, es,
{
    if es.len() > 0 {
        lemma_args_fuel(fs, f1, f2, active, file, args, es.drop_last());
        if eval_args(fs, f1, active, file, args, es.drop_last()) matches Some(Ok(_)) {
            lemma_eval_fuel(fs, f1, f2, active, file, args, es.last());
        }
    }
}

/// Allowing calls to nest deeper changes nothing about a run that finishes.
pub proof fn lemma_run_fuel(fs: FsState, f1: nat, f2: nat, active: Frames, iden: Identifier, args: Seq<i64>)
    requires
        run(fs, f1, active, iden, args) is Some,
        f1 <= f2,
    ensures
        run(fs, f2, active, iden, args) == run(fs, f1, active, iden, args),
        reads_run(fs, f2, active, iden, args) == reads_run(fs, f1, active, iden, args),
    decreases f1, 0int, Expr::Value(0),
{
    if !active.contains((iden@, args)) && fs.contains_key(iden@) {
        if let Some(f) = fs[iden@] {
            lemma_eval_fuel(fs, (f1 - 1) as nat, (f2 - 1) as nat, active.push((iden@, args)), iden, args, f.expression);
        }
    }
}

/// A run that finishes within some depth gives the outcome, and reads the
/// files of `reads`.
pub proof fn lemma_outcome(fs: FsState, fuel: nat, iden: Identifier, args: Seq<i64>)
    requires
        run(fs, fuel, Seq::empty(), iden, args) is Some,
    ensures
        finishes(fs, iden, args),
        outcome(fs, iden, args) == run(fs, fuel, Seq::empty(), iden, args).unwrap(),
        reads(fs, iden, args) == reads_run(fs, fuel, Seq::empty(), iden, args),
{
    let f = choose|f: nat| #[trigger] run(fs, f, Seq::empty(), iden, args) is Some;
    if f <= fuel {
        lemma_run_fuel(fs, f, fuel, Seq::empty(), iden, args);
    } else {
        lemma_run_fuel(fs, fuel, f, Seq::empty(), iden, args);
    }
}

/// An `If` has the value of the branch its condition selects (the first for
/// any value but 0), whatever the other branch would give, errors included.
pub proof fn law_if_selects_branch(fs: FsState, fuel: nat, active: Frames, file: Identifier, args: Seq<i64>, c: Box<Expr>, yes: Box<Expr>, no: Box<Expr>, cv: i64)
    requires
        eval_expr(fs, fuel, active, file, args, *c) == Some(Ok::<i64, Error>(cv)),
    ensures
        eval_expr(fs, fuel, active, file, args, Expr::If(c, yes, no)) == if cv != 0 {
            eval_expr(fs, fuel, active, file, args, *yes)
        } else {
            eval_expr(fs, fuel, active, file, args, *no)
        },
{
}

/// Delaying an expression does not change its value.
pub proof fn law_delay_keeps_value(fs: FsState, fuel: nat, active: Frames, file: Identifier, args: Seq<i64>, e: Box<Expr>, ms: u32)
    ensures
        eval_expr(fs, fuel, active, file, args, Expr::Delay(e, ms)) == eval_expr(fs, fuel, active, file, args, *e),
{
}

/// A call has the value of running the called file on the values of the
/// arguments, in order, with the call added to those under way.
pub proof fn law_call_is_run(fs: FsState, fuel: nat, active: Frames, file: Identifier, args: Seq<i64>, callee: Identifier, arg_exprs: Vec<Expr>, vals: Seq<i64>)
    requires
        eval_expr(fs, fuel, active, file, args, Expr::Call(callee, arg_exprs)) is Some,
        eval_args(fs, fuel, active, file, args, arg_exprs@) == Some(Ok::<Seq<i64>, Error>(vals)),
    ensures
        eval_expr(fs, fuel, active, file, args, Expr::Call(callee, arg_exprs)) == run(fs, fuel, active, callee, vals),
{
}

/// A binary operation whose operands both have values has the value of the
/// operation on them (see `law_saturation`, `law_division` and
/// `law_comparisons` for what that is).
pub proof fn law_binop_of_values(fs: FsState, fuel: nat, active: Frames, file: Identifier, args: Seq<i64>, op: Op, l: Box<Expr>, r: Box<Expr>, a: i64, b: i64)
    requires
        eval_expr(fs, fuel, active, file, args, *l) == Some(Ok::<i64, Error>(a)),
        eval_expr(fs, fuel, active, file, args, *r) == Some(Ok::<i64, Error>(b)),
    ensures
        eval_expr(fs, fuel, active, file, args, Expr::BinOp(op, l, r)) == Some(apply(op, a, b, file)),
{
}

/// The first error wins: when an operand fails, a binary operation, an `If`
/// on it and a call with it as first argument fail with the same error, and
/// nothing after it is evaluated or read.
pub proof fn law_first_error(fs: FsState, fuel: nat, active: Frames, file: Identifier, args: Seq<i64>, first: Expr, x: Error, op: Op, r: Box<Expr>, yes: Box<Expr>, no: Box<Expr>, callee: Identifier, arg_exprs: Vec<Expr>)
    requires
        eval_expr(fs, fuel, active, file, args, first) == Some(Err::<i64, Error>(x)),
        arg_exprs@.len() >= 1,
        arg_exprs@[0] == first,
    ensures
        eval_expr(fs, fuel, active, file, args, Expr::BinOp(op, Box::new(first), r)) == Some(Err::<i64, Error>(x)),
        reads_expr(fs, fuel, active, file, args, Expr::BinOp(op, Box::new(first), r)) == reads_expr(fs, fuel, active, file, args, first),
        eval_expr(fs, fuel, active, file, args, Expr::If(Box::new(first), yes, no)) == Some(Err::<i64, Error>(x)),
        reads_expr(fs, fuel, active, file, args, Expr::If(Box::new(first), yes, no)) == reads_expr(fs, fuel, active, file, args, first),
        eval_expr(fs, fuel, active, file, args, Expr::Call(callee, arg_exprs)) == Some(Err::<i64, Error>(x)),
        reads_expr(fs, fuel, active, file, args, Expr::Call(callee, arg_exprs)) == reads_expr(fs, fuel, active, file, args, first),
{
    let es = arg_exprs@;
    assert(es.take(1).drop_last() =~= Seq::<Expr>::empty());
    assert(es.take(1).last() == first);
    reveal_with_fuel(eval_args, 2);
    reveal_with_fuel(reads_args, 2);
    assert(eval_args(fs, fuel, active, file, args, es.take(1)) == Some(Err::<Seq<i64>, Error>(x)));
    lemma_args_take_err(fs, fuel, active, file, args, es, 1, x);
    lemma_reads_take_err(fs, fuel, active, file, args, es, 1, x);
    assert(reads_expr(fs, fuel, active, file, args, Expr::BinOp(op, Box::new(first), r)) =~= reads_expr(fs, fuel, active, file, args, first));
    assert(reads_expr(fs, fuel, active, file, args, Expr::If(Box::new(first), yes, no)) =~= reads_expr(fs, fuel, active, file, args, first));
    assert(reads_args(fs, fuel, active, file, args, es.take(1)) =~= reads_expr(fs, fuel, active, file, args, first));
    assert(reads_expr(fs, fuel, active, file, args, Expr::Call(callee, arg_exprs)) =~= reads_expr(fs, fuel, active, file, args, first));
}

/// A literal has its own value, whatever the file, the arguments and the
/// files around it.
pub proof fn law_value(fs: FsState, fuel: nat, active: Frames, file: Identifier, args: Seq<i64>, n: i64)
    ensures
        eval_expr(fs, fuel, active, file, args, Expr::Value(n)) == Some(Ok::<i64, Error>(n)),
{
}

/// `Arg(ix)` is the argument at place `ix` of those the file was run with;
/// when there are not that many, it fails with `NoSuchArg` naming the file
/// and the place.
pub proof fn law_arg(fs: FsState, fuel: nat, active: Frames, file: Identifier, args: Seq<i64>, ix: u32)
    ensures
        (ix as int) < args.len() ==> eval_expr(fs, fuel, active, file, args, Expr::Arg(ix)) == Some(Ok::<i64, Error>(args[ix as int])),
        (ix as int) >= args.len() ==> eval_expr(fs, fuel, active, file, args, Expr::Arg(ix)) == Some(Err::<i64, Error>(Error::NoSuchArg(file, ix))),
{
}

/// When the left operand of a binary operation has a value and the right one
/// fails, the operation fails with the right operand's error, whatever the
/// operator.
pub proof fn law_right_error(fs: FsState, fuel: nat, active: Frames, file: Identifier, args: Seq<i64>, op: Op, l: Box<Expr>, r: Box<Expr>, a: i64, x: Error)
    requires
        eval_expr(fs, fuel, active, file, args, *l) == Some(Ok::<i64, Error>(a)),
        eval_expr(fs, fuel, active, file, args, *r) == Some(Err::<i64, Error>(x)),
    ensures
        eval_expr(fs, fuel, active, file, args, Expr::BinOp(op, l, r)) == Some(Err::<i64, Error>(x)),
{
}

/// The first `n` argument expressions evaluate, in order, to the first `n`
/// of `vals`.
proof fn lemma_args_values(fs: FsState, fuel: nat, active: Frames, file: Identifier, args: Seq<i64>, es: Seq<Expr>, vals: Seq<i64>, n: int)
    requires
        0 <= n <= es.len(),
        n <= vals.len(),
        forall|j: int| 0 <= j < n ==> #[trigger] eval_expr(fs, fuel, active, file, args, es[j]) == Some(Ok::<i64, Error>(vals[j])),
    ensures
        eval_args(fs, fuel, active, file, args, es.take(n)) == Some(Ok::<Seq<i64>, Error>(vals.take(n))),
    decreases n,
{
    if n > 0 {
        lemma_args_values(fs, fuel, active, file, args, es, vals, n - 1);
        assert(es.take(n).drop_last() =~= es.take(n - 1));
        assert(es.take(n).last() == es[n - 1]);
        assert(eval_expr(fs, fuel, active, file, args, es[n - 1]) == Some(Ok::<i64, Error>(vals[n - 1])));
        assert(vals.take(n - 1).push(vals[n - 1]) =~= vals.take(n));
    } else {
        assert(es.take(0) =~= Seq::<Expr>::empty());
        assert(vals.take(0) =~= Seq::<i64>::empty());
    }
}

/// A call whose argument expressions all have values runs the called file on
/// those values: the value of the `k`-th expression is the `k`-th argument,
/// for every `k`, and there are as many arguments as expressions.
pub proof fn law_call_values(fs: FsState, fuel: nat, active: Frames, file: Identifier, args: Seq<i64>, callee: Identifier, arg_exprs: Vec<Expr>, vals: Seq<i64>)
    requires
        vals.len() == arg_exprs@.len(),
        forall|k: int| 0 <= k < vals.len() ==> #[trigger] eval_expr(fs, fuel, active, file, args, arg_exprs@[k]) == Some(Ok::<i64, Error>(vals[k])),
    ensures
        eval_expr(fs, fuel, active, file, args, Expr::Call(callee, arg_exprs)) == run(fs, fuel, active, callee, vals),
{
    let es = arg_exprs@;
    lemma_args_values(fs, fuel, active, file, args, es, vals, es.len() as int);
    assert(es.take(es.len() as int) =~= es);
    assert(vals.take(vals.len() as int) =~= vals);
}

/// A call fails with the error of the first of its argument expressions that
/// fails, at whatever place it stands; the called file is not run, and the
/// arguments after it are not evaluated.
pub proof fn law_call_arg_error(fs: FsState, fuel: nat, active: Frames, file: Identifier, args: Seq<i64>, callee: Identifier, arg_exprs: Vec<Expr>, k: int, x: Error)
    requires
        0 <= k < arg_exprs@.len(),
        forall|j: int| 0 <= j < k ==> #[trigger] eval_expr(fs, fuel, active, file, args, arg_exprs@[j]) matches Some(Ok(_)),
        eval_expr(fs, fuel, active, file, args, arg_exprs@[k]) == Some(Err::<i64, Error>(x)),
    ensures
        eval_expr(fs, fuel, active, file, args, Expr::Call(callee, arg_exprs)) == Some(Err::<i64, Error>(x)),
        reads_expr(fs, fuel, active, file, args, Expr::Call(callee, arg_exprs)) == reads_args(fs, fuel, active, file, args, arg_exprs@.take(k + 1)),
{
    let es = arg_exprs@;
    let vals = Seq::new(k as nat, |j: int| match eval_expr(fs, fuel, active, file, args, es[j]) {
        Some(Ok(v)) => v,
        _ => 0i64,
    });
    assert forall|j: int| 0 <= j < k implies #[trigger] eval_expr(fs, fuel, active, file, args, es[j]) == Some(Ok::<i64, Error>(vals[j])) by {
        assert(eval_expr(fs, fuel, active, file, args, es[j]) matches Some(Ok(_)));
    }
    lemma_args_values(fs, fuel, active, file, args, es, vals, k);
    assert(es.take(k + 1).drop_last() =~= es.take(k));
    assert(es.take(k + 1).last() == es[k]);
    assert(eval_args(fs, fuel, active, file, args, es.take(k + 1)) == Some(Err::<Seq<i64>, Error>(x)));
    lemma_args_take_err(fs, fuel, active, file, args, es, k + 1, x);
    lemma_reads_take_err(fs, fuel, active, file, args, es, k + 1, x);
    assert(reads_expr(fs, fuel, active, file, args, Expr::Call(callee, arg_exprs)) =~= reads_args(fs, fuel, active, file, args, es.take(k + 1)));
}

/// Running a file that is not there fails with `FileNotFound`, reading
/// nothing; running a file that is there evaluates its expression on exactly
/// the given arguments, with errors naming that file; running a call that
/// repeats one under way fails with `Cycle`.
pub proof fn law_run(fs: FsState, fuel: nat, active: Frames, iden: Identifier, args: Seq<i64>)
    requires
        fuel > 0,
    ensures
        active.contains((iden@, args)) ==> run(fs, fuel, active, iden, args) == Some(Err::<i64, Error>(Error::Cycle(iden))),
        !active.contains((iden@, args)) && !fs.contains_key(iden@) ==> {
            &&& run(fs, fuel, active, iden, args) == Some(Err::<i64, Error>(Error::FileNotFound(iden)))
            &&& reads_run(fs, fuel, active, iden, args) == Set::<Seq<char>>::empty()
        },
        !active.contains((iden@, args)) && fs.contains_key(iden@) && fs[iden@] is Some ==>
            run(fs, fuel, active, iden, args) == eval_expr(fs, (fuel - 1) as nat, active.push((iden@, args)), iden, args, fs[iden@].unwrap().expression),
{
}

/// Evaluating a file that is not there gives `FileNotFound` and reads
/// nothing.
pub proof fn law_outcome_absent(fs: FsState, iden: Identifier, args: Seq<i64>)
    requires
        !fs.contains_key(iden@),
    ensures
        finishes(fs, iden, args),
        outcome(fs, iden, args) == Err::<i64, Error>(Error::FileNotFound(iden)),
        reads(fs, iden, args) == Set::<Seq<char>>::empty(),
{
    assert(run(fs, 1, Seq::empty(), iden, args) is Some);
    lemma_outcome(fs, 1, iden, args);
}

/// The comparisons and the logical operators give 1 or 0; minimum and maximum
/// give one of their operands.
pub proof fn law_comparisons(l: i64, r: i64, file: Identifier)
    ensures
        apply(Op::Lt, l, r, file) == Ok::<i64, Error>(if l < r { 1 } else { 0 }),
        apply(Op::Gt, l, r, file) == Ok::<i64, Error>(if l > r { 1 } else { 0 }),
        apply(Op::Eq, l, r, file) == Ok::<i64, Error>(if l == r { 1 } else { 0 }),
        apply(Op::And, l, r, file) == Ok::<i64, Error>(if l != 0 && r != 0 { 1 } else { 0 }),
        apply(Op::Or, l, r, file) == Ok::<i64, Error>(if l != 0 || r != 0 { 1 } else { 0 }),
        apply(Op::Min, l, r, file) == Ok::<i64, Error>(if l <= r { l } else { r }),
        apply(Op::Max, l, r, file) == Ok::<i64, Error>(if l >= r { l } else { r }),
{
}

/// The sign of an integer.
pub open spec fn sign(x: int) -> int {
    if x > 0 { 1 } else if x < 0 { -1 } else { 0 }
}

/// The size of an integer.
pub open spec fn magnitude(x: int) -> int {
    if x < 0 { -x } else { x }
}

/// Division by a divisor other than 0 rounds toward zero, as `/` does on
/// `i64`, and the one quotient that does not fit, `i64::MIN / -1`, saturates
/// to `i64::MAX`.
pub proof fn law_division(l: i64, r: i64, file: Identifier)
    requires
        r != 0,
    ensures
        apply(Op::Div, l, r, file) == Ok::<i64, Error>(
            if l == i64::MIN && r == -1 {
                i64::MAX
            } else {
                (sign(l as int) * sign(r as int) * (magnitude(l as int) / magnitude(r as int))) as i64
            },
        ),
{
    let x = l as int;
    let d = r as int;
    let q = magnitude(x) / magnitude(d);
    let t = sign(x) * sign(d) * q;
    if x == 0 {
        assert(q == 0);
        assert(t == 0) by (nonlinear_arith) requires q == 0, t == sign(x) * sign(d) * q;
    } else if x > 0 && d > 0 {
        assert(q == x / d);
        assert(q <= x) by (nonlinear_arith) requires x > 0, d >= 1, q == x / d;
        assert(t == q) by (nonlinear_arith) requires sign(x) == 1 && sign(d) == 1, t == sign(x) * sign(d) * q;
        assert(trunc_div(x, d) == t);
    } else if x < 0 && d < 0 {
        assert(q == (x * -1) / (d * -1));
        assert(t == q) by (nonlinear_arith) requires sign(x) == -1 && sign(d) == -1, t == sign(x) * sign(d) * q;
        assert(trunc_div(x, d) == t);
        if d == -1 {
            assert(q == x * -1) by (nonlinear_arith) requires q == (x * -1) / (d * -1), d == -1;
        } else {
            assert(q <= (x * -1) / 2) by (nonlinear_arith) requires x * -1 > 0, d * -1 >= 2, q == (x * -1) / (d * -1);
        }
    } else if x < 0 {
        assert(d >= 1);
        assert(q == (x * -1) / d);
        assert(0 <= q <= x * -1) by (nonlinear_arith) requires x * -1 > 0, d >= 1, q == (x * -1) / d;
        assert(t == q * -1) by (nonlinear_arith) requires sign(x) == -1 && sign(d) == 1, t == sign(x) * sign(d) * q;
        assert(trunc_div(x, d) == t);
    } else {
        assert(d <= -1);
        assert(q == x / (d * -1));
        assert(0 <= q <= x) by (nonlinear_arith) requires x > 0, d * -1 >= 1, q == x / (d * -1);
        assert(t == q * -1) by (nonlinear_arith) requires sign(x) == 1 && sign(d) == -1, t == sign(x) * sign(d) * q;
        assert(trunc_div(x, d) == t);
    }
}

/// Addition, multiplication, minimum, maximum, equality, `And` and `Or` do
/// not depend on the order of their operands.
pub proof fn law_commutative(op: Op, l: i64, r: i64, file: Identifier)
    requires
        op is Add || op is Mul || op is Min || op is Max || op is Eq || op is And || op is Or,
    ensures
        apply(op, l, r, file) == apply(op, r, l, file),
{
    if op is Mul {
        assert(l * r == r * l) by (nonlinear_arith);
    }
}

/// Addition, subtraction and multiplication never fail: their value is the
/// exact one when it fits in an `i64`, and the nearest bound otherwise.
pub proof fn law_saturation(op: Op, l: i64, r: i64, file: Identifier)
    requires
        op is Add || op is Sub || op is Mul,
    ensures
        ({
            let exact: int = if op is Add { l + r } else if op is Sub { l - r } else { l * r };
            &&& i64::MIN <= exact <= i64::MAX ==> apply(op, l, r, file) == Ok::<i64, Error>(exact as i64)
            &&& exact > i64::MAX ==> apply(op, l, r, file) == Ok::<i64, Error>(i64::MAX)
            &&& exact < i64::MIN ==> apply(op, l, r, file) == Ok::<i64, Error>(i64::MIN)
        }),
{
}

/// Division fails exactly when the divisor is 0, and then names the file and
/// the dividend.
pub proof fn law_division_fails_only_on_zero(l: i64, r: i64, file: Identifier)
    ensures
        apply(Op::Div, l, r, file) is Err <==> r == 0,
        r == 0 ==> apply(Op::Div, l, r, file) == Err::<i64, Error>(Error::DivideByZero(file, l)),
{
}

proof fn lemma_args_take_some(fs: FsState, fuel: nat, active: Frames, file: Identifier, args: Seq<i64>, es: Seq<Expr>, j: int)
    requires
        eval_args(fs, fuel, active, file, args, es) is Some,
        0 <= j <= es.len(),
    ensures
        eval_args(fs, fuel, active, file, args, es.take(j)) is Some,
    decreases es.len(),
{
    if j < es.len() {
        assert(es.drop_last().take(j) =~= es.take(j));
        lemma_args_take_some(fs, fuel, active, file, args, es.drop_last(), j);
    } else {
        assert(es.take(j) =~= es);
    }
}

proof fn lemma_reads_take_err(fs: FsState, fuel: nat, active: Frames, file: Identifier, args: Seq<i64>, es: Seq<Expr>, j: int, x: Error)
    requires
        eval_args(fs, fuel, active, file, args, es.take(j)) == Some(Err::<Seq<i64>, Error>(x)),
        0 <= j <= es.len(),
    ensures
        reads_args(fs, fuel, active, file, args, es) == reads_args(fs, fuel, active, file, args, es.take(j)),
    decreases es.len(),
{
    if j < es.len() {
        assert(es.drop_last().take(j) =~= es.take(j));
        lemma_args_take_err(fs, fuel, active, file, args, es.drop_last(), j, x);
        lemma_reads_take_err(fs, fuel, active, file, args, es.drop_last(), j, x);
        assert(reads_args(fs, fuel, active, file, args, es) =~= reads_args(fs, fuel, active, file, args, es.take(j)));
    } else {
        assert(es.take(j) =~= es);
    }
}

proof fn lemma_args_take_err(fs: FsState, fuel: nat, active: Frames, file: Identifier, args: Seq<i64>, es: Seq<Expr>, j: int, x: Error)
    requires
        eval_args(fs, fuel, active, file, args, es.take(j)) == Some(Err::<Seq<i64>, Error>(x)),
        0 <= j <= es.len(),
    ensures
        eval_args(fs, fuel, active, file, args, es) == Some(Err::<Seq<i64>, Error>(x)),
    decreases es.len(),
{
    if j < es.len() {
        assert(es.drop_last().take(j) =~= es.take(j));
        lemma_args_take_err(fs, fuel, active, file, args, es.drop_last(), j, x);
    } else {
        assert(es.take(j) =~= es);
    }
}

/// The value of `op` on `l` and `r` in the file named `file`.
pub fn apply_op(op: Op, l: i64, r: i64, file: &Identifier) -> (res: Result<i64, Error>)
    ensures
        res == apply(op, l, r, *file),
{
    match op {
        Op::Add => Ok(match l.checked_add(r) {
            Some(v) => v,
            None => if r > 0 { i64::MAX } else { i64::MIN },
        }),
        Op::Sub => Ok(match l.checked_sub(r) {
            Some(v) => v,
            None => if r < 0 { i64::MAX } else { i64::MIN },
        }),
        Op::Mul => Ok(match l.checked_mul(r) {
            Some(v) => v,
            None => {
                proof {
                    if l > 0 && r > 0 || l < 0 && r < 0 {
                        assert(l * r > 0) by (nonlinear_arith)
                            requires l > 0 && r > 0 || l < 0 && r < 0;
                    } else {
                        assert(l * r <= 0) by (nonlinear_arith)
                            requires !(l > 0 && r > 0 || l < 0 && r < 0);
                    }
                }
                if (l > 0) == (r > 0) { i64::MAX } else { i64::MIN }
            },
        }),
        Op::Div => if r == 0 {
            Err(Error::DivideByZero(file.clone(), l))
        } else {
            Ok(match l.checked_div(r) {
                Some(v) => v,
                None => {
                    proof { lemma_trunc_div_lower(l as int, r as int); }
                    i64::MAX
                },
            })
        },
        Op::Min => Ok(if l <= r { l } else { r }),
        Op::Max => Ok(if l >= r { l } else { r }),
        Op::Lt => Ok(if l < r { 1 } else { 0 }),
        Op::Gt => Ok(if l > r { 1 } else { 0 }),
        Op::Eq => Ok(if l == r { 1 } else { 0 }),
        Op::And => Ok(if l != 0 && r != 0 { 1 } else { 0 }),
        Op::Or => Ok(if l != 0 || r != 0 { 1 } else { 0 }),
    }
}

/// A quotient rounded toward zero is never below `i64::MIN` when its operands
/// are `i64`s.
proof fn lemma_trunc_div_lower(x: int, d: int)
    requires
        i64::MIN <= x <= i64::MAX,
        i64::MIN <= d <= i64::MAX,
        d != 0,
    ensures
        trunc_div(x, d) >= i64::MIN,
{
    if x < 0 && d > 0 {
        assert((x * -1) / d <= x * -1) by (nonlinear_arith)
            requires x * -1 > 0, d >= 1;
    } else if x > 0 && d < 0 {
        assert(x / (d * -1) <= x) by (nonlinear_arith)
            requires x > 0, d * -1 >= 1;
    } else if x > 0 && d > 0 {
        assert(x / d >= 0) by (nonlinear_arith)
            requires x > 0, d > 0;
    } else if x < 0 && d < 0 {
        assert((x * -1) / (d * -1) >= 0) by (nonlinear_arith)
            requires x * -1 > 0, d * -1 > 0;
    }
}

/// The calls under way that a stack of frames holds.
pub open spec fn frames(stack: Seq<(Identifier, Vec<i64>)>) -> Frames {
    stack.map_values(|f: (Identifier, Vec<i64>)| (f.0@, f.1@))
}

/// Whether the stack holds a frame of the file named `iden` with `args`.
fn on_stack(stack: &Vec<(Identifier, Vec<i64>)>, iden: &Identifier, args: &[i64]) -> (b: bool)
    ensures
        b == frames(stack@).contains((iden@, args@)),
{
    let mut i: usize = 0;
    while i < stack.len()
        invariant
            i <= stack@.len(),
            forall|j: int| 0 <= j < i ==> frames(stack@)[j] != (iden@, args@),
        decreases stack@.len() - i,
    {
        if stack[i].0.value == iden.value && same_values(&stack[i].1, args) {
            assert(frames(stack@)[i as int] == (iden@, args@));
            return true;
        }
        i += 1;
    }
    false
}

/// Whether two lists of values are equal.
fn same_values(a: &Vec<i64>, b: &[i64]) -> (r: bool)
    ensures
        r == (a@ == b@),
{
    if a.len() != b.len() {
        return false;
    }
    let mut i: usize = 0;
    while i < a.len()
        invariant
            i <= a@.len(),
            a@.len() == b@.len(),
            forall|j: int| 0 <= j < i ==> a@[j] == b@[j],
        decreases a@.len() - i,
    {
        if a[i] != b[i] {
            return false;
        }
        i += 1;
    }
    assert(a@ =~= b@);
    true
}

/// A copy of the values.
fn copy_values(a: &[i64]) -> (r: Vec<i64>)
    ensures
        r@ == a@,
{
    let mut r: Vec<i64> = Vec::new();
    let mut i: usize = 0;
    while i < a.len()
        invariant
            i <= a@.len(),
            r@ == a@.take(i as int),
        decreases a@.len() - i,
    {
        r.push(a[i]);
        i += 1;
        assert(r@ =~= a@.take(i as int));
    }
    assert(a@.take(i as int) =~= a@);
    r
}

/// Evaluates `e` in the file named `file`, called with `args`, reading the
/// files it calls through `core`, while the calls of `stack` are under way.
fn eval(
    core: &mut Core,
    stack: &mut Vec<(Identifier, Vec<i64>)>,
    Ghost(fuel): Ghost<nat>,
    file: &Identifier,
    args: &[i64],
    e: &Expr,
) -> (r: Result<i64, Error>)
    requires
        old(core).wf(),
        eval_expr(old(core).source(), fuel, frames(old(stack)@), *file, args@, *e) is Some,
    ensures
        final(core).wf(),
        final(core).source() == old(core).source(),
        final(stack)@ == old(stack)@,
        final(core).fs_uid() == old(core).fs_uid(),
        Some(r) == eval_expr(old(core).source(), fuel, frames(old(stack)@), *file, args@, *e),
        final(core).taken() == old(core).taken().union(reads_expr(old(core).source(), fuel, frames(old(stack)@), *file, args@, *e)),
    decreases fuel, 1int, *e,
{
    let ghost src = core.source();
    let ghost act = frames(stack@);
    match e {
        Expr::Value(n) => Ok(*n),
        Expr::BinOp(op, l, r) => {
            let lv = eval(core, stack, Ghost(fuel), file, args, l)?;
            let rv = eval(core, stack, Ghost(fuel), file, args, r)?;
            apply_op(*op, lv, rv, file)
        },
        Expr::If(c, yes, no) => {
            let cv = eval(core, stack, Ghost(fuel), file, args, c)?;
            if cv != 0 {
                eval(core, stack, Ghost(fuel), file, args, yes)
            } else {
                eval(core, stack, Ghost(fuel), file, args, no)
            }
        },
        Expr::Arg(ix) => {
            let i = *ix as usize;
            if i < args.len() {
                Ok(args[i])
            } else {
                Err(Error::NoSuchArg(file.clone(), *ix))
            }
        },
        Expr::Call(callee, arg_exprs) => {
            let mut vals: Vec<i64> = Vec::new();
            let mut i: usize = 0;
            while i < arg_exprs.len()
                invariant
                    core.wf(),
                    core.source() == src,
                    old(core).source() == src,
                    core.fs_uid() == old(core).fs_uid(),
                    frames(stack@) == act,
                    frames(old(stack)@) == act,
                    stack@ == old(stack)@,
                    i <= arg_exprs@.len(),
                    *e == Expr::Call(*callee, *arg_exprs),
                    eval_args(src, fuel, act, *file, args@, arg_exprs@) is Some,
                    eval_args(src, fuel, act, *file, args@, arg_exprs@.take(i as int)) == Some(Ok::<Seq<i64>, Error>(vals@)),
                    core.taken() == old(core).taken().union(reads_args(src, fuel, act, *file, args@, arg_exprs@.take(i as int))),
                decreases arg_exprs@.len() - i,
            {
                proof {
                    lemma_args_take_some(src, fuel, act, *file, args@, arg_exprs@, i + 1);
                    assert(arg_exprs@.take(i + 1).drop_last() =~= arg_exprs@.take(i as int));
                }
                let v = match eval(core, stack, Ghost(fuel), file, args, &arg_exprs[i]) {
                    Ok(v) => v,
                    Err(x) => {
                        proof {
                            lemma_args_take_err(src, fuel, act, *file, args@, arg_exprs@, i + 1, x);
                            lemma_reads_take_err(src, fuel, act, *file, args@, arg_exprs@, i + 1, x);
                        }
                        return Err(x);
                    },
                };
                vals.push(v);
                i += 1;
            }
            assert(arg_exprs@.take(i as int) =~= arg_exprs@);
            call(core, stack, Ghost(fuel), callee, vals.as_slice())
        },
        // The wait itself is left to the caller: it changes no value.
        Expr::Delay(inner, _) => eval(core, stack, Ghost(fuel), file, args, inner),
    }
}

/// Runs the file named `iden` with `args`, reading it through `core`, while
/// the calls of `stack` are under way.
fn call(core: &mut Core, stack: &mut Vec<(Identifier, Vec<i64>)>, Ghost(fuel): Ghost<nat>, iden: &Identifier, args: &[i64]) -> (r: Result<i64, Error>)
    requires
        old(core).wf(),
        run(old(core).source(), fuel, frames(old(stack)@), *iden, args@) is Some,
    ensures
        final(core).wf(),
        final(core).source() == old(core).source(),
        final(stack)@ == old(stack)@,
        final(core).fs_uid() == old(core).fs_uid(),
        Some(r) == run(old(core).source(), fuel, frames(old(stack)@), *iden, args@),
        final(core).taken() == old(core).taken().union(reads_run(old(core).source(), fuel, frames(old(stack)@), *iden, args@)),
    decreases fuel, 0int, Expr::Value(0),
{
    if on_stack(stack, iden, args) {
        return Err(Error::Cycle(iden.clone()));
    }
    let file = core.read(iden)?;
    stack.push((iden.clone(), copy_values(args)));
    assert(frames(stack@) =~= frames(old(stack)@).push((iden@, args@)));
    let r = eval(core, stack, Ghost((fuel - 1) as nat), iden, args, &file.expression);
    stack.pop();
    assert(stack@ =~= old(stack)@);
    r
}

/// The names of identifiers.
pub open spec fn names(idens: Seq<Identifier>) -> Seq<Seq<char>> {
    idens.map_values(|i: Identifier| i@)
}

/// The missing file that `result` names, unless it was looked for already.
pub open spec fn pending(result: Result<i64, Error>, looked_for: Seq<Identifier>) -> Option<Identifier> {
    match result {
        Err(Error::FileNotFound(g)) => if names(looked_for).contains(g@) { None } else { Some(g) },
        _ => None,
    }
}

/// What to read next when files are read on demand: an evaluation over the
/// files read so far that gave `result` stopped at a missing file; unless it
/// was already looked for, that file is the one to read before evaluating
/// again. `None` means that `result` is final.
pub fn file_to_read(result: &Result<i64, Error>, looked_for: &Vec<Identifier>) -> (r: Option<Identifier>)
    ensures
        r == pending(*result, looked_for@),
{
    match result {
        Err(Error::FileNotFound(g)) => {
            let mut i: usize = 0;
            while i < looked_for.len()
                invariant
                    i <= looked_for@.len(),
                    *result == Err::<i64, Error>(Error::FileNotFound(*g)),
                    forall|j: int| 0 <= j < i ==> names(looked_for@)[j] != g@,
                decreases looked_for@.len() - i,
            {
                if looked_for[i].value == g.value {
                    assert(names(looked_for@)[i as int] == g@);
                    assert(names(looked_for@).contains(g@));
                    return None;
                }
                i += 1;
            }
            assert(!names(looked_for@).contains(g@));
            Some(g.clone())
        },
        _ => None,
    }
}

/// Evaluates the file named `iden` with the arguments `args`, reading the
/// files that it calls from `fs`. Every file is read at most once, however
/// often it is called; the files that were read are taken out of `fs`. A call
/// that repeats, with the same arguments, a call still under way ends the
/// evaluation with `Error::Cycle`. A `Delay` gives the value of what it
/// wraps at once: no wait is performed here.
pub fn evaluate(fs: &mut MockFs, iden: Identifier, args: &[i64]) -> (r: Result<i64, Error>)
    requires
        old(fs)@.dom().len() < MAX_SLOTS,
        finishes(old(fs)@, iden, args@),
    ensures
        r == outcome(old(fs)@, iden, args@),
        final(fs)@ == after_reads(old(fs)@, reads(old(fs)@, iden, args@)),
        final(fs).uid() == old(fs).uid(),
        final(fs).listed() == old(fs).listed(),
{
    let ghost start = fs@;
    let ghost fuel = choose|fuel: nat| #[trigger] run(start, fuel, Seq::empty(), iden, args@) is Some;
    let mut mine = MockFs::new(Vec::new());
    std::mem::swap(fs, &mut mine);
    let mut core = Core::new(mine);
    let mut stack: Vec<(Identifier, Vec<i64>)> = Vec::new();
    assert(frames(stack@) =~= Seq::empty());
    let r = call(&mut core, &mut stack, Ghost(fuel), &iden, args);
    proof {
        core.lemma_fs_state();
        assert(core.fs_state() =~= after_reads(start, reads(start, iden, args@)));
    }
    let mut back = core.into_fs();
    std::mem::swap(fs, &mut back);
    proof { law_mock_id(*fs, *old(fs)); }
    r
}

} // verus!
