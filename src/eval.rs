use vstd::prelude::*;

use crate::expression::{Expression, ExpressionPart};
use crate::value::{arith_ok, combine, combine_spec, BinOp, ExpValue, ValueTable};

verus! {

/// How tightly an operator binds: `+ -` loosest, then `* /`, then `%`,
/// then `^`.
pub open spec fn tier(op: BinOp) -> int {
    match op {
        BinOp::Add | BinOp::Subtract => 1,
        BinOp::Multiply | BinOp::Divide => 2,
        BinOp::Modulus => 3,
        BinOp::Power => 4,
    }
}

/// The loosest tier among `ops[lo..i)`, for `lo < i`.
pub open spec fn min_tier(ops: Seq<BinOp>, lo: int, i: int) -> int
    decreases i - lo,
{
    if i <= lo + 1 {
        tier(ops[lo])
    } else {
        let m = min_tier(ops, lo, i - 1);
        if tier(ops[i - 1]) < m {
            tier(ops[i - 1])
        } else {
            m
        }
    }
}

/// The last index of `ops[lo..i)` whose tier is `t`; `lo - 1` if none.
pub open spec fn last_of(ops: Seq<BinOp>, lo: int, i: int, t: int) -> int
    decreases i - lo,
{
    if i <= lo {
        lo - 1
    } else if tier(ops[i - 1]) == t {
        i - 1
    } else {
        last_of(ops, lo, i - 1, t)
    }
}

/// The first index of `ops[lo..i)` whose tier is `t`; `lo - 1` if none.
pub open spec fn first_of(ops: Seq<BinOp>, lo: int, i: int, t: int) -> int
    decreases i - lo,
{
    if i <= lo {
        lo - 1
    } else {
        let f = first_of(ops, lo, i - 1, t);
        if f >= lo {
            f
        } else if tier(ops[i - 1]) == t {
            i - 1
        } else {
            lo - 1
        }
    }
}

/// The operator at which operands `lo..=hi` divide: of the loosest tier
/// present, the last one where that tier associates to the left, the
/// first one for `^`, which associates to the right.
pub open spec fn split(ops: Seq<BinOp>, lo: int, hi: int) -> int {
    let t = min_tier(ops, lo, hi);
    if t == 4 {
        first_of(ops, lo, hi, t)
    } else {
        last_of(ops, lo, hi, t)
    }
}

/// The number the caller's conversion gives for a numeral; the conversion
/// is asked to be a function of the characters.
pub open spec fn number_spec<N, L: Fn(&String) -> N>(number: L, v: Seq<char>) -> N {
    choose|n: N| converts_to(number, v, n)
}

/// The conversion gives `n` for some text with the characters `v`.
pub open spec fn converts_to<N, L: Fn(&String) -> N>(number: L, v: Seq<char>, n: N) -> bool {
    exists|s: &String| s@ == v && #[trigger] number.ensures((s,), n)
}

/// The conversion can be called on every text, and returns one number for
/// each sequence of characters.
pub open spec fn number_ok<N, L: Fn(&String) -> N>(number: L) -> bool {
    &&& forall|s: &String| #[trigger] number.requires((s,))
    &&& forall|s1: &String, s2: &String, n1: N, n2: N|
        s1@ == s2@ && #[trigger] number.ensures((s1,), n1) && #[trigger] number.ensures((s2,), n2)
            ==> n1 == n2
}

/// Converts a numeral with the caller's conversion.
pub(crate) fn convert<N, L: Fn(&String) -> N>(number: &L, s: &String) -> (n: N)
    requires
        number_ok(*number),
    ensures
        n == number_spec(*number, s@),
{
    let n = number(s);
    assert(converts_to(*number, s@, n));
    n
}

/// The value of one operand: a numeral converted, an identifier looked up
/// (`Error` where unbound), a group evaluated; a function call has no value
/// here and gives `Error`.
pub open spec fn operand_value<N, L: Fn(&String) -> N, A: Fn(BinOp, N, N) -> N>(
    part: ExpressionPart,
    table: Map<Seq<char>, ExpValue<N>>,
    number: L,
    arith: A,
) -> ExpValue<N>
    decreases part, 0int,
{
    match part {
        ExpressionPart::Number(s) => ExpValue::Number(number_spec(number, s@)),
        ExpressionPart::Identifier(id) => if table.contains_key(id.name@) {
            table[id.name@]
        } else {
            ExpValue::Error
        },
        ExpressionPart::Function(_) => ExpValue::Error,
        ExpressionPart::Group(e) => if e.parts@.len() > 0 && e.operators@.len() + 1 == e.parts@.len() {
            range_value(e.parts@, e.operators@, 0, e.parts@.len() - 1, table, number, arith)
        } else {
            ExpValue::Error
        },
    }
}

/// The value of operands `lo..=hi` with the operators between them:
/// divided at `split`, each side evaluated, and the two combined.
pub open spec fn range_value<N, L: Fn(&String) -> N, A: Fn(BinOp, N, N) -> N>(
    parts: Seq<ExpressionPart>,
    ops: Seq<BinOp>,
    lo: int,
    hi: int,
    table: Map<Seq<char>, ExpValue<N>>,
    number: L,
    arith: A,
) -> ExpValue<N>
    decreases parts, hi - lo,
{
    if !(0 <= lo <= hi < parts.len() && hi <= ops.len()) {
        ExpValue::Error
    } else if lo == hi {
        operand_value(parts[lo], table, number, arith)
    } else {
        let k = split(ops, lo, hi);
        if lo <= k < hi {
            combine_spec(
                arith,
                ops[k],
                range_value(parts, ops, lo, k, table, number, arith),
                range_value(parts, ops, k + 1, hi, table, number, arith),
            )
        } else {
            ExpValue::Error
        }
    }
}

/// The value of an expression; `Error` for one without operands or with an
/// operator count that does not fit them.
pub open spec fn expr_value<N, L: Fn(&String) -> N, A: Fn(BinOp, N, N) -> N>(
    e: Expression,
    table: Map<Seq<char>, ExpValue<N>>,
    number: L,
    arith: A,
) -> ExpValue<N> {
    operand_value(ExpressionPart::Group(e), table, number, arith)
}

proof fn lemma_last_of(ops: Seq<BinOp>, lo: int, hi: int, t: int, i: int)
    requires
        lo <= i < hi,
        tier(ops[i]) == t,
        forall|j: int| i < j < hi ==> tier(#[trigger] ops[j]) != t,
    ensures
        last_of(ops, lo, hi, t) == i,
    decreases hi - lo,
{
    if hi - 1 != i {
        lemma_last_of(ops, lo, hi - 1, t, i);
    }
}

proof fn lemma_first_of_none(ops: Seq<BinOp>, lo: int, i: int, t: int)
    requires
        lo <= i,
        forall|j: int| lo <= j < i ==> tier(#[trigger] ops[j]) != t,
    ensures
        first_of(ops, lo, i, t) == lo - 1,
    decreases i - lo,
{
    if i > lo {
        lemma_first_of_none(ops, lo, i - 1, t);
    }
}

proof fn lemma_first_of(ops: Seq<BinOp>, lo: int, hi: int, t: int, i: int)
    requires
        lo <= i < hi,
        tier(ops[i]) == t,
        forall|j: int| lo <= j < i ==> tier(#[trigger] ops[j]) != t,
    ensures
        first_of(ops, lo, hi, t) == i,
    decreases hi - lo,
{
    if hi - 1 != i {
        lemma_first_of(ops, lo, hi - 1, t, i);
    } else {
        lemma_first_of_none(ops, lo, i, t);
    }
}

fn tier_of(op: BinOp) -> (r: u8)
    ensures
        r as int == tier(op),
{
    match op {
        BinOp::Add | BinOp::Subtract => 1,
        BinOp::Multiply | BinOp::Divide => 2,
        BinOp::Modulus => 3,
        BinOp::Power => 4,
    }
}

/// The index of the operator at which operands `lo..=hi` divide.
fn find_split(ops: &Vec<BinOp>, lo: usize, hi: usize) -> (k: usize)
    requires
        lo < hi <= ops@.len(),
    ensures
        k == split(ops@, lo as int, hi as int),
        lo <= k < hi,
{
    let mut m = tier_of(ops[lo]);
    let mut w = lo;
    let mut i = lo + 1;
    while i < hi
        invariant
            lo < i <= hi <= ops@.len(),
            m as int == min_tier(ops@, lo as int, i as int),
            lo <= w < i,
            tier(ops@[w as int]) == m as int,
            forall|j: int| lo <= j < i ==> tier(#[trigger] ops@[j]) >= m,
        decreases hi - i,
    {
        let t = tier_of(ops[i]);
        if t < m {
            m = t;
            w = i;
        }
        i += 1;
    }
    if m == 4 {
        let mut f = lo;
        while tier_of(ops[f]) != m
            invariant
                lo <= f <= w,
                w < hi <= ops@.len(),
                tier(ops@[w as int]) == m as int,
                forall|j: int| lo <= j < f ==> tier(#[trigger] ops@[j]) != m,
            decreases w - f,
        {
            f += 1;
        }
        proof {
            lemma_first_of(ops@, lo as int, hi as int, m as int, f as int);
        }
        f
    } else {
        let mut l = hi - 1;
        while tier_of(ops[l]) != m
            invariant
                w <= l < hi <= ops@.len(),
                lo <= w,
                tier(ops@[w as int]) == m as int,
                forall|j: int| l < j < hi ==> tier(#[trigger] ops@[j]) != m,
            decreases l - w,
        {
            l -= 1;
        }
        proof {
            lemma_last_of(ops@, lo as int, hi as int, m as int, l as int);
        }
        l
    }
}

/// The value of one operand.
fn eval_operand<N: Copy, L: Fn(&String) -> N, A: Fn(BinOp, N, N) -> N>(
    part: &ExpressionPart,
    table: &ValueTable<N>,
    number: &L,
    arith: &A,
) -> (r: ExpValue<N>)
    requires
        table.wf(),
        number_ok(*number),
        arith_ok(*arith),
    ensures
        r == operand_value(*part, table@, *number, *arith),
    decreases *part, 0int,
{
    match part {
        ExpressionPart::Number(s) => {
            let n = convert(number, s);
            ExpValue::Number(n)
        },
        ExpressionPart::Identifier(id) => match id.get_value(table) {
            Some(v) => v,
            None => ExpValue::Error,
        },
        ExpressionPart::Function(_) => ExpValue::Error,
        ExpressionPart::Group(e) => {
            if e.parts.len() > 0 && e.operators.len() == e.parts.len() - 1 {
                eval_range(&e.parts, &e.operators, 0, e.parts.len() - 1, table, number, arith)
            } else {
                ExpValue::Error
            }
        },
    }
}

/// The value of operands `lo..=hi` with the operators between them.
fn eval_range<N: Copy, L: Fn(&String) -> N, A: Fn(BinOp, N, N) -> N>(
    parts: &Vec<ExpressionPart>,
    ops: &Vec<BinOp>,
    lo: usize,
    hi: usize,
    table: &ValueTable<N>,
    number: &L,
    arith: &A,
) -> (r: ExpValue<N>)
    requires
        table.wf(),
        number_ok(*number),
        arith_ok(*arith),
        lo <= hi < parts@.len(),
        hi <= ops@.len(),
    ensures
        r == range_value(parts@, ops@, lo as int, hi as int, table@, *number, *arith),
    decreases parts@, hi - lo,
{
    if lo == hi {
        eval_operand(&parts[lo], table, number, arith)
    } else {
        let k = find_split(ops, lo, hi);
        let l = eval_range(parts, ops, lo, k, table, number, arith);
        let r = eval_range(parts, ops, k + 1, hi, table, number, arith);
        combine(arith, ops[k], l, r)
    }
}

/// Evaluates an expression against a value table. Numerals are converted
/// by `number` and numbers combined by `arith`; an unbound identifier, a
/// `String` or `Error` operand of an operator, and a function call give
/// `Error`.
pub fn eval<N: Copy, L: Fn(&String) -> N, A: Fn(BinOp, N, N) -> N>(
    expression: &Expression,
    table: &ValueTable<N>,
    number: &L,
    arith: &A,
) -> (r: ExpValue<N>)
    requires
        table.wf(),
        number_ok(*number),
        arith_ok(*arith),
    ensures
        r == expr_value(*expression, table@, *number, *arith),
{
    if expression.parts.len() > 0 && expression.operators.len() == expression.parts.len() - 1 {
        eval_range(&expression.parts, &expression.operators, 0, expression.parts.len() - 1, table, number, arith)
    } else {
        ExpValue::Error
    }
}

} // verus!
