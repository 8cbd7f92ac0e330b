use vstd::prelude::*;
use crate::ast::Expr;
use crate::common::Identifier;
use crate::engine::FsState;
use crate::exec::{eval_args, eval_expr, finishes, run, Frames};

verus! {

/// The most arguments that a call in `e` is given.
pub open spec fn width(e: Expr) -> nat
    decreases e,
{
    match e {
        Expr::Value(_) => 0,
        Expr::BinOp(_, l, r) => wider(width(*l), width(*r)),
        Expr::If(c, yes, no) => wider(width(*c), wider(width(*yes), width(*no))),
        Expr::Arg(_) => 0,
        Expr::Call(_, arg_exprs) => wider(arg_exprs@.len(), widths(arg_exprs@)),
        Expr::Delay(inner, _) => width(*inner),
    }
}

/// The most arguments that a call in one of `es` is given.
pub open spec fn widths(es: Seq<Expr>) -> nat
    decreases es,
{
    if es.len() == 0 {
        0
    } else {
        wider(widths(es.drop_last()), width(es.last()))
    }
}

/// The larger of two numbers.
pub open spec fn wider(a: nat, b: nat) -> nat {
    if a >= b { a } else { b }
}

/// Every name of `fs` still holds its file: nothing has been read yet.
pub open spec fn unread(fs: FsState) -> bool {
    forall|k: Seq<char>| #[trigger] fs.contains_key(k) ==> fs[k] is Some
}

/// Every value of type `i64`.
spec fn all_i64() -> Set<i64> {
    Set::new(|x: i64| true)
}

/// The lists of `i64` values of length `n`.
spec fn lists_of(n: nat) -> Set<Seq<i64>> {
    Set::new(|s: Seq<i64>| s.len() == n)
}

/// The lists of `i64` values of length at most `n`.
spec fn lists_up_to(n: nat) -> Set<Seq<i64>> {
    Set::new(|s: Seq<i64>| s.len() <= n)
}

/// The calls that can be under way while files of `fs` run whose calls take
/// at most `l` arguments each: a name of `fs` with a list of at most `l`
/// values.
spec fn frames_within(fs: FsState, l: nat) -> Set<(Seq<char>, Seq<i64>)> {
    Set::new(|p: (Seq<char>, Seq<i64>)| fs.contains_key(p.0) && p.1.len() <= l)
}

proof fn lemma_all_i64_finite()
    ensures
        all_i64().finite(),
{
    let range = vstd::set_lib::set_int_range(i64::MIN as int, i64::MAX as int + 1);
    vstd::set_lib::lemma_int_range(i64::MIN as int, i64::MAX as int + 1);
    let f = |i: int| i as i64;
    range.lemma_map_finite(f);
    assert forall|x: i64| all_i64().contains(x) implies #[trigger] range.map(f).contains(x) by {
        assert(range.contains(x as int));
        assert(f(x as int) == x);
    }
    assert(all_i64().subset_of(range.map(f)));
    vstd::set_lib::lemma_set_subset_finite(range.map(f), all_i64());
}

proof fn lemma_lists_of_finite(n: nat)
    ensures
        lists_of(n).finite(),
    decreases n,
{
    if n == 0 {
        assert forall|s: Seq<i64>| #[trigger] lists_of(0).contains(s) implies s == Seq::<i64>::empty() by {
            assert(s =~= Seq::<i64>::empty());
        }
        assert(lists_of(0) =~= set![Seq::<i64>::empty()]);
    } else {
        lemma_lists_of_finite((n - 1) as nat);
        lemma_all_i64_finite();
        let shorter = lists_of((n - 1) as nat);
        let grow = |s: Seq<i64>| all_i64().map(|x: i64| s.push(x));
        let back = |t: Seq<i64>| t.drop_last();
        assert forall|s: Seq<i64>| shorter.contains(s) implies #[trigger] grow(s).finite() by {
            all_i64().lemma_map_finite(|x: i64| s.push(x));
        }
        shorter.lemma_map_flatten_by_finite(grow, back);
        let longer = shorter.map_flatten_by(grow, back);
        assert forall|t: Seq<i64>| lists_of(n).contains(t) implies #[trigger] longer.contains(t) by {
            assert(t.drop_last().push(t.last()) =~= t);
            assert(all_i64().contains(t.last()));
            assert(grow(t.drop_last()).contains(t));
        }
        assert(lists_of(n).subset_of(longer));
        vstd::set_lib::lemma_set_subset_finite(longer, lists_of(n));
    }
}

proof fn lemma_lists_up_to_finite(n: nat)
    ensures
        lists_up_to(n).finite(),
    decreases n,
{
    lemma_lists_of_finite(n);
    if n == 0 {
        assert(lists_up_to(0) =~= lists_of(0));
    } else {
        lemma_lists_up_to_finite((n - 1) as nat);
        assert(lists_up_to(n) =~= lists_up_to((n - 1) as nat) + lists_of(n));
    }
}

proof fn lemma_frames_within_finite(fs: FsState, l: nat)
    requires
        fs.dom().finite(),
    ensures
        frames_within(fs, l).finite(),
{
    lemma_lists_up_to_finite(l);
    let pair = |k: Seq<char>| lists_up_to(l).map(|v: Seq<i64>| (k, v));
    let name = |p: (Seq<char>, Seq<i64>)| p.0;
    assert forall|k: Seq<char>| fs.dom().contains(k) implies #[trigger] pair(k).finite() by {
        lists_up_to(l).lemma_map_finite(|v: Seq<i64>| (k, v));
    }
    fs.dom().lemma_map_flatten_by_finite(pair, name);
    let all = fs.dom().map_flatten_by(pair, name);
    assert forall|p: (Seq<char>, Seq<i64>)| frames_within(fs, l).contains(p) implies #[trigger] all.contains(p) by {
        assert(lists_up_to(l).contains(p.1));
        assert(pair(p.0).contains(p));
    }
    assert(frames_within(fs, l).subset_of(all));
    vstd::set_lib::lemma_set_subset_finite(all, frames_within(fs, l));
}

/// Some number bounds how many arguments the calls of each of the files
/// named in `names` take.
proof fn lemma_width_bound(fs: FsState, names: Set<Seq<char>>) -> (l: nat)
    requires
        names.finite(),
        forall|k: Seq<char>| #[trigger] names.contains(k) ==> fs.contains_key(k) && fs[k] is Some,
    ensures
        forall|k: Seq<char>| #[trigger] names.contains(k) ==> width(fs[k].unwrap().expression) <= l,
    decreases names.len(),
{
    if names.len() == 0 {
        assert forall|k: Seq<char>| #[trigger] names.contains(k) implies width(fs[k].unwrap().expression) <= 0 by {
            vstd::set::axiom_set_contains_len(names, k);
        }
        0
    } else {
        let k0 = names.choose();
        let rest = lemma_width_bound(fs, names.remove(k0));
        let l = wider(rest, width(fs[k0].unwrap().expression));
        assert forall|k: Seq<char>| #[trigger] names.contains(k) implies width(fs[k].unwrap().expression) <= l by {
            if k != k0 {
                assert(names.remove(k0).contains(k));
            }
        }
        l
    }
}

/// The conditions under which running finishes: the calls under way are
/// distinct calls of `space`, and every call that can start is in `space`.
spec fn bounded(fs: FsState, l: nat, space: Set<(Seq<char>, Seq<i64>)>, active: Frames) -> bool {
    &&& unread(fs)
    &&& space.finite()
    &&& frames_within(fs, l).subset_of(space)
    &&& forall|k: Seq<char>| #[trigger] fs.contains_key(k) ==> width(fs[k].unwrap().expression) <= l
    &&& active.no_duplicates()
    &&& forall|i: int| 0 <= i < active.len() ==> space.contains(#[trigger] active[i])
}

/// Distinct calls of `space` number at most as many as `space` holds.
proof fn lemma_active_len(fs: FsState, l: nat, space: Set<(Seq<char>, Seq<i64>)>, active: Frames)
    requires
        bounded(fs, l, space, active),
    ensures
        active.len() <= space.len(),
{
    active.unique_seq_to_set();
    assert forall|p: (Seq<char>, Seq<i64>)| active.to_set().contains(p) implies space.contains(p) by {
        let i = choose|i: int| 0 <= i < active.len() && active[i] == p;
        assert(space.contains(active[i]));
    }
    vstd::set_lib::lemma_len_subset(active.to_set(), space);
}

proof fn lemma_run_some(fs: FsState, l: nat, space: Set<(Seq<char>, Seq<i64>)>, fuel: nat, active: Frames, iden: Identifier, args: Seq<i64>)
    requires
        bounded(fs, l, space, active),
        fs.contains_key(iden@) ==> space.contains((iden@, args)),
        fuel + active.len() > space.len(),
    ensures
        run(fs, fuel, active, iden, args) is Some,
    decreases fuel, 0int, Expr::Value(0),
{
    lemma_active_len(fs, l, space, active);
    if !active.contains((iden@, args)) && fs.contains_key(iden@) {
        let pushed = active.push((iden@, args));
        assert forall|i: int, j: int| 0 <= i < pushed.len() && 0 <= j < pushed.len() && i != j implies pushed[i] != pushed[j] by {
            if i < active.len() && j < active.len() {
            } else if i < active.len() {
                assert(active.contains(active[i]));
            } else {
                assert(active.contains(active[j]));
            }
        }
        assert forall|i: int| 0 <= i < pushed.len() implies space.contains(#[trigger] pushed[i]) by {
            if i < active.len() {
                assert(space.contains(active[i]));
            }
        }
        let f = fs[iden@].unwrap();
        lemma_eval_some(fs, l, space, (fuel - 1) as nat, pushed, iden, args, f.expression);
    }
}

proof fn lemma_eval_some(fs: FsState, l: nat, space: Set<(Seq<char>, Seq<i64>)>, fuel: nat, active: Frames, file: Identifier, args: Seq<i64>, e: Expr)
    requires
        bounded(fs, l, space, active),
        fuel + active.len() > space.len(),
        width(e) <= l,
    ensures
        eval_expr(fs, fuel, active, file, args, e) is Some,
    decreases fuel, 1int, e,
{
    match e {
        Expr::Value(_) => {},
        Expr::BinOp(_, lhs, rhs) => {
            lemma_eval_some(fs, l, space, fuel, active, file, args, *lhs);
            lemma_eval_some(fs, l, space, fuel, active, file, args, *rhs);
        },
        Expr::If(c, yes, no) => {
            lemma_eval_some(fs, l, space, fuel, active, file, args, *c);
            lemma_eval_some(fs, l, space, fuel, active, file, args, *yes);
            lemma_eval_some(fs, l, space, fuel, active, file, args, *no);
        },
        Expr::Arg(_) => {},
        Expr::Call(callee, arg_exprs) => {
            lemma_args_some(fs, l, space, fuel, active, file, args, arg_exprs@);
            if let Some(Ok(vals)) = eval_args(fs, fuel, active, file, args, arg_exprs@) {
                if fs.contains_key(callee@) {
                    assert(frames_within(fs, l).contains((callee@, vals)));
                }
                lemma_run_some(fs, l, space, fuel, active, callee, vals);
            }
        },
        Expr::Delay(inner, _) => {
            lemma_eval_some(fs, l, space, fuel, active, file, args, *inner);
        },
    }
}

proof fn lemma_args_some(fs: FsState, l: nat, space: Set<(Seq<char>, Seq<i64>)>, fuel: nat, active: Frames, file: Identifier, args: Seq<i64>, es: Seq<Expr>)
    requires
        bounded(fs, l, space, active),
        fuel + active.len() > space.len(),
        widths(es) <= l,
    ensures
        eval_args(fs, fuel, active, file, args, es) is Some,
        eval_args(fs, fuel, active, file, args, es) matches Some(Ok(vals)) ==> vals.len() == es.len(),
    decreases fuel, 1int, es,
{
    if es.len() > 0 {
        lemma_args_some(fs, l, space, fuel, active, file, args, es.drop_last());
        lemma_eval_some(fs, l, space, fuel, active, file, args, es.last());
    }
}

/// Running a file of a file system from which nothing has been read yet
/// finishes: a call that repeats one under way is a cycle, so calls cannot
/// nest deeper than the number of distinct calls, which is finite.
pub proof fn law_unread_finishes(fs: FsState, iden: Identifier, args: Seq<i64>)
    requires
        fs.dom().finite(),
        unread(fs),
    ensures
        finishes(fs, iden, args),
{
    let l = lemma_width_bound(fs, fs.dom());
    lemma_frames_within_finite(fs, l);
    let space = frames_within(fs, l).insert((iden@, args));
    let fuel = space.len() + 1;
    lemma_run_some(fs, l, space, fuel, Seq::empty(), iden, args);
    assert(run(fs, fuel, Seq::empty(), iden, args) is Some);
}

} // verus!
