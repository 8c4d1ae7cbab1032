use vstd::prelude::*;

use crate::parser::{ParamItem, Pair, Pairs};
use crate::value::{ExpValue, ValueTable};

verus! {

/// A reference to a name of the value table.
#[derive(Clone, Debug, PartialEq)]
pub struct Identifier {
    pub name: String,
}

/// The comparison of a filter parameter. Only `Equal` has a syntax.
#[derive(Clone, Copy, Debug, PartialEq, Eq, Structural)]
pub enum CompareOperator {
    Equal,
    NotEqual,
    GreaterThan,
    GreaterThanOrEqual,
    LessThan,
    LessThanOrEqual,
}

/// One parameter of a function call.
#[derive(Clone, Debug, PartialEq)]
pub enum FunctionPart {
    /// A bare field name.
    Identifier(String),
    /// `name.field`: the first two segments of a dotted name.
    IdentifierWithField(String, String),
    /// A filter `left op right` on raw text.
    CompareExpression(String, CompareOperator, String),
}

/// A call of an aggregate function, with its parameters in source order.
#[derive(Clone, Debug, PartialEq)]
pub struct Function {
    pub name: String,
    pub parts: Vec<FunctionPart>,
}

/// The part that a parameter slot gives: a dotted name keeps its first two
/// segments, a filter is an equality, and an empty slot gives none.
pub open spec fn single_spec(item: ParamItem) -> Option<FunctionPart> {
    match item {
        ParamItem::Path(segs) => if segs@.len() == 0 {
            None
        } else if segs@.len() == 1 {
            Some(FunctionPart::Identifier(segs@[0]))
        } else {
            Some(FunctionPart::IdentifierWithField(segs@[0], segs@[1]))
        },
        ParamItem::Compare(l, r) => Some(FunctionPart::CompareExpression(l, CompareOperator::Equal, r)),
    }
}

/// The parts of a parameter list: each slot's part, in order, without the
/// slots that give none.
pub open spec fn parts_spec(items: Seq<ParamItem>) -> Seq<FunctionPart>
    decreases items.len(),
{
    if items.len() == 0 {
        Seq::empty()
    } else {
        parts_spec(items.drop_last()) + match single_spec(items.last()) {
            Some(p) => seq![p],
            None => Seq::empty(),
        }
    }
}

/// The names a part reads: the base name of a field reference, none for a filter.
pub open spec fn part_deps(p: FunctionPart) -> Seq<Seq<char>> {
    match p {
        FunctionPart::Identifier(n) => seq![n@],
        FunctionPart::IdentifierWithField(n, _) => seq![n@],
        FunctionPart::CompareExpression(..) => Seq::empty(),
    }
}

/// The names the parts read, in order, repetitions kept.
pub open spec fn parts_deps(ps: Seq<FunctionPart>) -> Seq<Seq<char>>
    decreases ps.len(),
{
    if ps.len() == 0 {
        Seq::empty()
    } else {
        parts_deps(ps.drop_last()) + part_deps(ps.last())
    }
}

pub open spec fn names_of(ids: Seq<Identifier>) -> Seq<Seq<char>> {
    ids.map_values(|i: Identifier| i.name@)
}

impl Identifier {
    /// The value the table binds to this name, if any.
    pub fn get_value<N: Copy>(&self, table: &ValueTable<N>) -> (r: Option<ExpValue<N>>)
        requires
            table.wf(),
        ensures
            r == (if table@.contains_key(self.name@) {
                Some(table@[self.name@])
            } else {
                None::<ExpValue<N>>
            }),
    {
        table.get(self.name.as_str())
    }

    /// The identifier that an identifier node names; `None` for any other node.
    pub fn from(pair: &Pair) -> (r: Option<Identifier>)
        ensures
            match pair {
                Pair::Ident(s) => r == Some(Identifier { name: *s }),
                _ => r is None,
            },
    {
        match pair {
            Pair::Ident(s) => Some(Identifier { name: s.clone() }),
            _ => None,
        }
    }
}

impl FunctionPart {
    /// The part that one parameter slot gives.
    pub fn from_single(item: &ParamItem) -> (r: Option<FunctionPart>)
        ensures
            r == single_spec(*item),
    {
        match item {
            ParamItem::Path(segs) => {
                if segs.len() == 0 {
                    None
                } else if segs.len() == 1 {
                    Some(FunctionPart::Identifier(segs[0].clone()))
                } else {
                    Some(FunctionPart::IdentifierWithField(segs[0].clone(), segs[1].clone()))
                }
            },
            ParamItem::Compare(l, r) => Some(
                FunctionPart::CompareExpression(l.clone(), CompareOperator::Equal, r.clone()),
            ),
        }
    }

    /// The parts of a parameter list, in source order; slots that give no
    /// part are left out.
    pub fn from(items: &Vec<ParamItem>) -> (r: Vec<FunctionPart>)
        ensures
            r@ == parts_spec(items@),
    {
        let mut out: Vec<FunctionPart> = Vec::new();
        let mut i: usize = 0;
        while i < items.len()
            invariant
                i <= items@.len(),
                out@ == parts_spec(items@.subrange(0, i as int)),
            decreases items@.len() - i,
        {
            let ghost pre = items@.subrange(0, i as int);
            assert(items@.subrange(0, i + 1).drop_last() =~= pre);
            match FunctionPart::from_single(&items[i]) {
                Some(p) => {
                    out.push(p);
                },
                None => {},
            }
            i += 1;
            assert(out@ =~= parts_spec(items@.subrange(0, i as int)));
        }
        assert(items@.subrange(0, items@.len() as int) =~= items@);
        out
    }

    /// The identifiers this part reads.
    pub fn get_dependencies(&self) -> (r: Vec<Identifier>)
        ensures
            names_of(r@) == part_deps(*self),
    {
        let mut out: Vec<Identifier> = Vec::new();
        match self {
            FunctionPart::Identifier(n) => {
                out.push(Identifier { name: n.clone() });
            },
            FunctionPart::IdentifierWithField(n, _) => {
                out.push(Identifier { name: n.clone() });
            },
            FunctionPart::CompareExpression(..) => {},
        }
        assert(names_of(out@) =~= part_deps(*self));
        out
    }
}

impl Function {
    /// The call that a function node holds; `None` for any other node.
    pub fn from(pair: &Pair) -> (r: Option<Function>)
        ensures
            match pair {
                Pair::Function(name, items) => r matches Some(f) && f.name == *name && f.parts@
                    == parts_spec(items@),
                _ => r is None,
            },
    {
        match pair {
            Pair::Function(name, items) => Some(
                Function { name: name.clone(), parts: FunctionPart::from(items) },
            ),
            _ => None,
        }
    }

    /// The identifiers the parameters read, in order, repetitions kept.
    pub fn get_dependencies(&self) -> (r: Vec<Identifier>)
        ensures
            names_of(r@) == parts_deps(self.parts@),
    {
        let mut out: Vec<Identifier> = Vec::new();
        let mut i: usize = 0;
        while i < self.parts.len()
            invariant
                i <= self.parts@.len(),
                names_of(out@) == parts_deps(self.parts@.subrange(0, i as int)),
            decreases self.parts@.len() - i,
        {
            let mut deps = self.parts[i].get_dependencies();
            let ghost before = out@;
            out.append(&mut deps);
            assert(self.parts@.subrange(0, i + 1).drop_last() =~= self.parts@.subrange(0, i as int));
            i += 1;
            assert(names_of(out@) =~= names_of(before) + part_deps(self.parts@[i - 1]));
        }
        assert(self.parts@.subrange(0, self.parts@.len() as int) =~= self.parts@);
        out
    }
}

} // verus!
