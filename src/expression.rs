use vstd::prelude::*;

use crate::ast::{names_of, parts_deps, parts_spec, Function, Identifier};
use crate::parser::{Pair, Pairs};
use crate::value::BinOp;

verus! {

/// An operand of an expression.
#[derive(Debug, PartialEq)]
pub enum ExpressionPart {
    /// A numeral, as written.
    Number(String),
    Identifier(Identifier),
    Function(Function),
    /// A parenthesised sub-expression.
    Group(Expression),
}

/// An expression: its operands in source order and the operator between
/// each two neighbours.
#[derive(Debug, PartialEq)]
pub struct Expression {
    pub parts: Vec<ExpressionPart>,
    pub operators: Vec<BinOp>,
}

/// Every level of the tree has one more operand than operators.
pub open spec fn shape_ok(p: Pairs) -> bool {
    p.operands@.len() == p.operators@.len() + 1 && operands_shape_ok(p.operands@)
}

pub open spec fn operands_shape_ok(s: Seq<Pair>) -> bool
    decreases s,
{
    s.len() == 0 || (operands_shape_ok(s.drop_last()) && match s.last() {
        Pair::Group(inner) => inner.operands@.len() == inner.operators@.len() + 1 && operands_shape_ok(
            inner.operands@,
        ),
        _ => true,
    })
}

/// `e` is the expression built from `p`: the same operators, and each
/// operand turned into the part of its kind.
pub open spec fn expr_of(p: Pairs, e: Expression) -> bool {
    e.operators@ == p.operators@ && parts_of(p.operands@, e.parts@)
}

pub open spec fn parts_of(ps: Seq<Pair>, es: Seq<ExpressionPart>) -> bool
    decreases ps,
{
    ps.len() == es.len() && (ps.len() == 0 || (parts_of(ps.drop_last(), es.drop_last()) && match (
        ps.last(),
        es.last(),
    ) {
        (Pair::Number(s), ExpressionPart::Number(t)) => t == s,
        (Pair::Ident(s), ExpressionPart::Identifier(id)) => id.name == s,
        (Pair::Function(n, items), ExpressionPart::Function(f)) => f.name == n && f.parts@ == parts_spec(
            items@,
        ),
        (Pair::Group(inner), ExpressionPart::Group(sub)) => sub.operators@ == inner.operators@
            && parts_of(inner.operands@, sub.parts@),
        _ => false,
    }))
}

/// The names an expression reads, in source order, repetitions kept:
/// bare identifiers, and the base names of function parameters.
pub open spec fn expr_deps(e: Expression) -> Seq<Seq<char>> {
    seq_deps(e.parts@)
}

pub open spec fn seq_deps(s: Seq<ExpressionPart>) -> Seq<Seq<char>>
    decreases s,
{
    if s.len() == 0 {
        Seq::empty()
    } else {
        seq_deps(s.drop_last()) + match s.last() {
            ExpressionPart::Number(_) => Seq::empty(),
            ExpressionPart::Identifier(id) => seq![id.name@],
            ExpressionPart::Function(f) => parts_deps(f.parts@),
            ExpressionPart::Group(sub) => seq_deps(sub.parts@),
        }
    }
}

/// The sequence with each later repetition of an element left out.
pub open spec fn dedup<T>(s: Seq<T>) -> Seq<T>
    decreases s.len(),
{
    if s.len() == 0 {
        Seq::empty()
    } else {
        let d = dedup(s.drop_last());
        if d.contains(s.last()) {
            d
        } else {
            d.push(s.last())
        }
    }
}

impl Expression {
    /// Builds the expression of a parse tree; `None` where some level of the
    /// tree does not hold one more operand than operators.
    pub fn from_pairs(p: &Pairs) -> (r: Option<Expression>)
        ensures
            r is Some <==> shape_ok(*p),
            r matches Some(e) ==> expr_of(*p, e),
        decreases p,
    {
        if p.operands.len() == 0 || p.operands.len() - 1 != p.operators.len() {
            return None;
        }
        let mut parts: Vec<ExpressionPart> = Vec::new();
        let mut i: usize = 0;
        while i < p.operands.len()
            invariant
                i <= p.operands@.len(),
                parts@.len() == i,
                operands_shape_ok(p.operands@.subrange(0, i as int)),
                parts_of(p.operands@.subrange(0, i as int), parts@),
            decreases p.operands@.len() - i,
        {
            let ghost pre = p.operands@.subrange(0, i as int);
            let ghost pre_parts = parts@;
            assert(p.operands@.subrange(0, i + 1).drop_last() =~= pre);
            let part = match &p.operands[i] {
                Pair::Number(s) => ExpressionPart::Number(s.clone()),
                Pair::Ident(s) => ExpressionPart::Identifier(Identifier { name: s.clone() }),
                Pair::Function(name, items) => ExpressionPart::Function(
                    Function { name: name.clone(), parts: crate::ast::FunctionPart::from(items) },
                ),
                Pair::Group(inner) => {
                    assert(decreases_to!(*p => p.operands@[i as int]));
                    match Expression::from_pairs(inner) {
                        Some(sub) => ExpressionPart::Group(sub),
                        None => {
                            proof {
                                lemma_shape_prefix(p.operands@, i as int);
                            }
                            return None;
                        },
                    }
                },
            };
            parts.push(part);
            assert(parts@.drop_last() =~= pre_parts);
            i += 1;
        }
        assert(p.operands@.subrange(0, p.operands@.len() as int) =~= p.operands@);
        Some(Expression { parts, operators: p.operators.clone() })
    }
}

impl Expression {
    /// Appends the names the expression reads, in order, repetitions kept.
    fn collect_deps(&self, out: &mut Vec<Identifier>)
        ensures
            names_of(final(out)@) == names_of(old(out)@) + expr_deps(*self),
        decreases self,
    {
        let mut i: usize = 0;
        while i < self.parts.len()
            invariant
                i <= self.parts@.len(),
                names_of(out@) == names_of(old(out)@) + seq_deps(self.parts@.subrange(0, i as int)),
            decreases self.parts@.len() - i,
        {
            let ghost before = out@;
            assert(self.parts@.subrange(0, i + 1).drop_last() =~= self.parts@.subrange(0, i as int));
            match &self.parts[i] {
                ExpressionPart::Number(_) => {},
                ExpressionPart::Identifier(id) => {
                    out.push(Identifier { name: id.name.clone() });
                    assert(names_of(out@) =~= names_of(before) + seq![id.name@]);
                },
                ExpressionPart::Function(f) => {
                    let mut deps = f.get_dependencies();
                    let ghost d = deps@;
                    out.append(&mut deps);
                    assert(out@ =~= before + d);
                    assert(names_of(out@) =~= names_of(before) + names_of(d));
                },
                ExpressionPart::Group(sub) => {
                    assert(decreases_to!(*self => self.parts@[i as int]));
                    sub.collect_deps(out);
                },
            }
            assert(self.parts@.subrange(0, i + 1).last() == self.parts@[i as int]);
            assert(names_of(out@) =~= names_of(old(out)@) + seq_deps(self.parts@.subrange(0, i + 1)));
            i += 1;
        }
        assert(self.parts@.subrange(0, self.parts@.len() as int) =~= self.parts@);
    }

    /// The names the expression reads, each once, in order of first
    /// occurrence: bare identifiers, and the base names of function
    /// parameters.
    pub fn get_dependencies(&self) -> (r: Vec<Identifier>)
        ensures
            names_of(r@) == dedup(expr_deps(*self)),
    {
        let mut all: Vec<Identifier> = Vec::new();
        self.collect_deps(&mut all);
        assert(names_of(all@) =~= expr_deps(*self));
        let mut out: Vec<Identifier> = Vec::new();
        let mut i: usize = 0;
        while i < all.len()
            invariant
                i <= all@.len(),
                names_of(out@) == dedup(names_of(all@).subrange(0, i as int)),
            decreases all@.len() - i,
        {
            let ghost pre = names_of(all@).subrange(0, i as int);
            assert(names_of(all@).subrange(0, i + 1).drop_last() =~= pre);
            assert(names_of(all@).subrange(0, i + 1).last() == all@[i as int].name@);
            if !holds_name(&out, &all[i].name) {
                out.push(Identifier { name: all[i].name.clone() });
                assert(names_of(out@) =~= dedup(pre).push(all@[i as int].name@));
            }
            i += 1;
        }
        assert(names_of(all@).subrange(0, all@.len() as int) =~= names_of(all@));
        out
    }
}

/// Whether one of the identifiers is named `name`.
fn holds_name(ids: &Vec<Identifier>, name: &String) -> (r: bool)
    ensures
        r == names_of(ids@).contains(name@),
{
    let mut i: usize = 0;
    while i < ids.len()
        invariant
            i <= ids@.len(),
            forall|j: int| 0 <= j < i ==> ids@[j].name@ != name@,
        decreases ids@.len() - i,
    {
        if ids[i].name.eq(name) {
            assert(names_of(ids@)[i as int] == name@);
            return true;
        }
        i += 1;
    }
    assert(!names_of(ids@).contains(name@)) by {
        if names_of(ids@).contains(name@) {
            let j = choose|j: int| 0 <= j < names_of(ids@).len() && names_of(ids@)[j] == name@;
            assert(ids@[j].name@ == name@);
        }
    }
    false
}

/// A sequence whose operands have the right shape has it in each prefix,
/// and in each group it holds.
proof fn lemma_shape_prefix(s: Seq<Pair>, i: int)
    requires
        0 <= i < s.len(),
    ensures
        operands_shape_ok(s) ==> operands_shape_ok(s.subrange(0, i + 1)),
    decreases s.len(),
{
    if i + 1 < s.len() {
        assert(s.drop_last().subrange(0, i + 1) =~= s.subrange(0, i + 1));
        lemma_shape_prefix(s.drop_last(), i);
    } else {
        assert(s.subrange(0, i + 1) =~= s);
    }
}

} // verus!
