use vstd::prelude::*;

use crate::ast::Identifier;
use crate::eval::{expr_value, operand_value, range_value, split, tier, min_tier, last_of, first_of};
use crate::expression::{dedup, expr_deps, operands_shape_ok, shape_ok, Expression, ExpressionPart};
use crate::parser::{operands_wf, pair_wf, pairs_wf, Pair, Pairs};
use crate::value::{arith_spec, combine_spec, BinOp, ExpValue};

verus! {

/// Removing repetitions keeps each element once and no other element.
pub proof fn dedup_keeps_each_once<T>(s: Seq<T>)
    ensures
        dedup(s).no_duplicates(),
        forall|x: T| dedup(s).contains(x) <==> s.contains(x),
    decreases s.len(),
{
    if s.len() > 0 {
        let d = dedup(s.drop_last());
        dedup_keeps_each_once(s.drop_last());
        assert forall|x: T| s.contains(x) <==> s.drop_last().contains(x) || x == s.last() by {
            if s.contains(x) {
                let i = choose|i: int| 0 <= i < s.len() && s[i] == x;
                if i < s.len() - 1 {
                    assert(s.drop_last()[i] == x);
                }
            }
            if s.drop_last().contains(x) {
                let i = choose|i: int| 0 <= i < s.drop_last().len() && s.drop_last()[i] == x;
                assert(s[i] == x);
            }
            if x == s.last() {
                assert(s[s.len() - 1] == x);
            }
        }
        if !d.contains(s.last()) {
            assert forall|x: T| d.push(s.last()).contains(x) <==> d.contains(x) || x == s.last() by {
                if d.push(s.last()).contains(x) {
                    let i = choose|i: int| 0 <= i < d.push(s.last()).len() && d.push(s.last())[i] == x;
                    if i < d.len() {
                        assert(d[i] == x);
                    }
                }
                if d.contains(x) {
                    let i = choose|i: int| 0 <= i < d.len() && d[i] == x;
                    assert(d.push(s.last())[i] == x);
                }
                if x == s.last() {
                    assert(d.push(s.last())[d.len() as int] == x);
                }
            }
        }
    }
}

/// The dependency list of an expression names each name the expression
/// reads exactly once, and nothing else.
pub proof fn dependencies_are_unique(e: Expression)
    ensures
        dedup(expr_deps(e)).no_duplicates(),
        forall|n: Seq<char>| dedup(expr_deps(e)).contains(n) <==> expr_deps(e).contains(n),
{
    dedup_keeps_each_once(expr_deps(e));
}

/// An `Error` on either side of any operator gives `Error`.
pub proof fn error_poisons<N, A: Fn(BinOp, N, N) -> N>(arith: A, op: BinOp, v: ExpValue<N>)
    ensures
        combine_spec(arith, op, ExpValue::Error, v) == ExpValue::<N>::Error,
        combine_spec(arith, op, v, ExpValue::Error) == ExpValue::<N>::Error,
{
}

/// An identifier missing from the table evaluates to `Error`, and so does
/// an expression `x op y` whose left operand is such an identifier, whatever
/// `y` is.
pub proof fn unbound_identifier_gives_error<N, L: Fn(&String) -> N, A: Fn(BinOp, N, N) -> N>(
    e: Expression,
    table: Map<Seq<char>, ExpValue<N>>,
    number: L,
    arith: A,
    id: Identifier,
)
    requires
        !table.contains_key(id.name@),
        e.parts@.len() == 2,
        e.operators@.len() == 1,
        e.parts@[0] == ExpressionPart::Identifier(id),
    ensures
        operand_value(ExpressionPart::Identifier(id), table, number, arith) == ExpValue::<N>::Error,
        expr_value(e, table, number, arith) == ExpValue::<N>::Error,
{
    assert(split(e.operators@, 0, 1) == 0) by {
        reveal_with_fuel(last_of, 2);
        reveal_with_fuel(first_of, 2);
    }
    assert(range_value(e.parts@, e.operators@, 0, 0, table, number, arith) == ExpValue::<N>::Error);
}

/// Evaluating one expression against one table twice gives one result:
/// the value depends on the expression, the table and the arithmetic alone.
pub proof fn evaluation_is_repeatable<N, L: Fn(&String) -> N, A: Fn(BinOp, N, N) -> N>(
    e: Expression,
    table: Map<Seq<char>, ExpValue<N>>,
    number: L,
    arith: A,
    r1: ExpValue<N>,
    r2: ExpValue<N>,
)
    requires
        r1 == expr_value(e, table, number, arith),
        r2 == expr_value(e, table, number, arith),
    ensures
        r1 == r2,
{
}

/// Operands joined by operators of one left-associative tier divide at the
/// last operator.
proof fn lemma_split_flat(ops: Seq<BinOp>, hi: int, t: int)
    requires
        0 < hi <= ops.len(),
        t < 4,
        forall|j: int| 0 <= j < hi ==> tier(#[trigger] ops[j]) == t,
    ensures
        min_tier(ops, 0, hi) == t,
        split(ops, 0, hi) == hi - 1,
    decreases hi,
{
    if hi > 1 {
        lemma_split_flat(ops, hi - 1, t);
    }
}

/// `x op (y op z)` equals `(x op y) op z` for all numbers.
pub open spec fn associative<N, A: Fn(BinOp, N, N) -> N>(arith: A, op: BinOp) -> bool {
    forall|x: N, y: N, z: N|
        #[trigger] arith_spec(arith, op, x, arith_spec(arith, op, y, z)) == arith_spec(
            arith,
            op,
            arith_spec(arith, op, x, y),
            z,
        )
}

/// `x op y` equals `y op x` for all numbers.
pub open spec fn commutative<N, A: Fn(BinOp, N, N) -> N>(arith: A, op: BinOp) -> bool {
    forall|x: N, y: N| #[trigger] arith_spec(arith, op, x, y) == arith_spec(arith, op, y, x)
}

/// Regrouping: `a op (b op c)` and `(a op b) op c` have one value, for `+`
/// and `*`, wherever the arithmetic itself is associative. Where an operand
/// is no number both are `Error`.
pub proof fn regrouping_keeps_value<N, L: Fn(&String) -> N, A: Fn(BinOp, N, N) -> N>(
    e1: Expression,
    e2: Expression,
    g1: Expression,
    g2: Expression,
    a: Identifier,
    b: Identifier,
    c: Identifier,
    op: BinOp,
    table: Map<Seq<char>, ExpValue<N>>,
    number: L,
    arith: A,
)
    requires
        op == BinOp::Add || op == BinOp::Multiply,
        associative(arith, op),
        e1.parts@ == seq![ExpressionPart::Identifier(a), ExpressionPart::Group(g1)],
        e1.operators@ == seq![op],
        g1.parts@ == seq![ExpressionPart::Identifier(b), ExpressionPart::Identifier(c)],
        g1.operators@ == seq![op],
        e2.parts@ == seq![ExpressionPart::Group(g2), ExpressionPart::Identifier(c)],
        e2.operators@ == seq![op],
        g2.parts@ == seq![ExpressionPart::Identifier(a), ExpressionPart::Identifier(b)],
        g2.operators@ == seq![op],
    ensures
        expr_value(e1, table, number, arith) == expr_value(e2, table, number, arith),
{
    let t = tier(op);
    lemma_split_flat(e1.operators@, 1, t);
    lemma_split_flat(g1.operators@, 1, t);
    lemma_split_flat(e2.operators@, 1, t);
    lemma_split_flat(g2.operators@, 1, t);
    let va = operand_value(ExpressionPart::Identifier(a), table, number, arith);
    let vb = operand_value(ExpressionPart::Identifier(b), table, number, arith);
    let vc = operand_value(ExpressionPart::Identifier(c), table, number, arith);
    assert(range_value(e1.parts@, e1.operators@, 0, 0, table, number, arith) == va);
    assert(range_value(g1.parts@, g1.operators@, 0, 0, table, number, arith) == vb);
    assert(range_value(g1.parts@, g1.operators@, 1, 1, table, number, arith) == vc);
    assert(range_value(g2.parts@, g2.operators@, 0, 0, table, number, arith) == va);
    assert(range_value(g2.parts@, g2.operators@, 1, 1, table, number, arith) == vb);
    assert(range_value(e2.parts@, e2.operators@, 1, 1, table, number, arith) == vc);
    let bc = combine_spec(arith, op, vb, vc);
    let ab = combine_spec(arith, op, va, vb);
    assert(range_value(g1.parts@, g1.operators@, 0, 1, table, number, arith) == bc);
    assert(operand_value(ExpressionPart::Group(g1), table, number, arith) == bc);
    assert(range_value(e1.parts@, e1.operators@, 1, 1, table, number, arith) == bc);
    assert(range_value(g2.parts@, g2.operators@, 0, 1, table, number, arith) == ab);
    assert(operand_value(ExpressionPart::Group(g2), table, number, arith) == ab);
    assert(range_value(e2.parts@, e2.operators@, 0, 0, table, number, arith) == ab);
    assert(expr_value(e1, table, number, arith) == combine_spec(arith, op, va, bc));
    assert(expr_value(e2, table, number, arith) == combine_spec(arith, op, ab, vc));
    if let (ExpValue::Number(x), ExpValue::Number(y), ExpValue::Number(z)) = (va, vb, vc) {
        assert(arith_spec(arith, op, x, arith_spec(arith, op, y, z)) == arith_spec(
            arith,
            op,
            arith_spec(arith, op, x, y),
            z,
        ));
    }
}

/// Reordering a sum: `a + b + c + d` and `d + c + a + b` have one value
/// wherever the arithmetic's addition is commutative and associative.
/// Where an operand is no number both are `Error`.
pub proof fn reordered_sum_keeps_value<N, L: Fn(&String) -> N, A: Fn(BinOp, N, N) -> N>(
    e1: Expression,
    e2: Expression,
    a: Identifier,
    b: Identifier,
    c: Identifier,
    d: Identifier,
    table: Map<Seq<char>, ExpValue<N>>,
    number: L,
    arith: A,
)
    requires
        associative(arith, BinOp::Add),
        commutative(arith, BinOp::Add),
        e1.parts@ == seq![
            ExpressionPart::Identifier(a),
            ExpressionPart::Identifier(b),
            ExpressionPart::Identifier(c),
            ExpressionPart::Identifier(d),
        ],
        e2.parts@ == seq![
            ExpressionPart::Identifier(d),
            ExpressionPart::Identifier(c),
            ExpressionPart::Identifier(a),
            ExpressionPart::Identifier(b),
        ],
        e1.operators@ == seq![BinOp::Add, BinOp::Add, BinOp::Add],
        e2.operators@ == seq![BinOp::Add, BinOp::Add, BinOp::Add],
    ensures
        expr_value(e1, table, number, arith) == expr_value(e2, table, number, arith),
{
    let ops = e1.operators@;
    lemma_split_flat(ops, 3, 1);
    lemma_split_flat(ops, 2, 1);
    lemma_split_flat(ops, 1, 1);
    let va = operand_value(ExpressionPart::Identifier(a), table, number, arith);
    let vb = operand_value(ExpressionPart::Identifier(b), table, number, arith);
    let vc = operand_value(ExpressionPart::Identifier(c), table, number, arith);
    let vd = operand_value(ExpressionPart::Identifier(d), table, number, arith);
    let p1 = e1.parts@;
    let p2 = e2.parts@;
    let add = BinOp::Add;
    assert(range_value(p1, ops, 0, 0, table, number, arith) == va);
    assert(range_value(p1, ops, 1, 1, table, number, arith) == vb);
    assert(range_value(p1, ops, 2, 2, table, number, arith) == vc);
    assert(range_value(p1, ops, 3, 3, table, number, arith) == vd);
    assert(range_value(p2, ops, 0, 0, table, number, arith) == vd);
    assert(range_value(p2, ops, 1, 1, table, number, arith) == vc);
    assert(range_value(p2, ops, 2, 2, table, number, arith) == va);
    assert(range_value(p2, ops, 3, 3, table, number, arith) == vb);
    let l1 = combine_spec(arith, add, va, vb);
    let l2 = combine_spec(arith, add, l1, vc);
    let r1 = combine_spec(arith, add, vd, vc);
    let r2 = combine_spec(arith, add, r1, va);
    assert(range_value(p1, ops, 0, 1, table, number, arith) == l1);
    assert(range_value(p1, ops, 0, 2, table, number, arith) == l2);
    assert(range_value(p2, ops, 0, 1, table, number, arith) == r1);
    assert(range_value(p2, ops, 0, 2, table, number, arith) == r2);
    assert(expr_value(e1, table, number, arith) == combine_spec(arith, add, l2, vd));
    assert(expr_value(e2, table, number, arith) == combine_spec(arith, add, r2, vb));
    if let (ExpValue::Number(x), ExpValue::Number(y), ExpValue::Number(z), ExpValue::Number(w)) = (
        va,
        vb,
        vc,
        vd,
    ) {
        let f = |p: N, q: N| arith_spec(arith, add, p, q);
        // ((w + z) + x) + y == (w + z) + (x + y)
        assert(f(f(f(w, z), x), y) == f(f(w, z), f(x, y)));
        // == (x + y) + (w + z)
        assert(f(f(w, z), f(x, y)) == f(f(x, y), f(w, z)));
        // == (x + y) + (z + w)
        assert(f(w, z) == f(z, w));
        // == ((x + y) + z) + w
        assert(f(f(x, y), f(z, w)) == f(f(f(x, y), z), w));
    }
}

proof fn lemma_operands_shape(s: Seq<Pair>)
    requires
        operands_wf(s),
    ensures
        operands_shape_ok(s),
    decreases s,
{
    if s.len() > 0 {
        lemma_operands_shape(s.drop_last());
        assert(pair_wf(s.last()));
        if let Pair::Group(inner) = s.last() {
            assert(operands_wf(inner.operands@));
            lemma_operands_shape(inner.operands@);
        }
    }
}

/// Every tree that `parse` can return builds an expression.
pub proof fn parsed_tree_builds(p: Pairs)
    requires
        pairs_wf(p),
    ensures
        shape_ok(p),
{
    lemma_operands_shape(p.operands@);
}

} // verus!
