use vstd::prelude::*;

use crate::ast::{CompareOperator, Function, FunctionPart};
use crate::eval::{convert, number_ok, number_spec};
use crate::parser::chars_of;
use crate::value::{arith_ok, arith_spec, BinOp, ExpValue};

verus! {

/// A read-only document tree that aggregate functions run over. Numbers
/// are held as their decimal text.
#[derive(Debug, PartialEq)]
pub enum Document {
    Null,
    Bool(bool),
    Number(String),
    Text(String),
    Array(Vec<Document>),
    Object(Vec<(String, Document)>),
}

/// The value of the first entry named `k`.
pub open spec fn entry_lookup(es: Seq<(String, Document)>, k: Seq<char>) -> Option<Document>
    decreases es.len(),
{
    if es.len() == 0 {
        None
    } else if es[0].0@ == k {
        Some(es[0].1)
    } else {
        entry_lookup(es.drop_first(), k)
    }
}

/// The field `k` of an object; `None` for anything else.
pub open spec fn field(d: Document, k: Seq<char>) -> Option<Document> {
    match d {
        Document::Object(es) => entry_lookup(es@, k),
        _ => None,
    }
}

/// The text of a number or a string node.
pub open spec fn scalar_text(d: Document) -> Option<Seq<char>> {
    match d {
        Document::Number(t) => Some(t@),
        Document::Text(t) => Some(t@),
        _ => None,
    }
}

/// Every filter `l=r` among the parts holds of the element: its field `l`
/// is a number or a string whose text is `r`.
pub open spec fn filters_hold(e: Document, parts: Seq<FunctionPart>) -> bool {
    forall|i: int|
        0 <= i < parts.len() ==> match #[trigger] parts[i] {
            FunctionPart::CompareExpression(l, _, r) => field(e, l@) matches Some(v) && scalar_text(v)
                == Some(r@),
            _ => true,
        }
}

/// Every filter among the parts is an equality, the one comparison that runs.
pub open spec fn filters_supported(parts: Seq<FunctionPart>) -> bool {
    forall|i: int|
        0 <= i < parts.len() ==> match #[trigger] parts[i] {
            FunctionPart::CompareExpression(_, op, _) => op == CompareOperator::Equal,
            _ => true,
        }
}

/// What an element adds to a sum: the element itself, or its field `b`.
pub open spec fn target(e: Document, sub: Option<Seq<char>>) -> Option<Document> {
    match sub {
        None => Some(e),
        Some(b) => field(e, b),
    }
}

/// The sum, from `0`, of the numbers that the elements passing the filters
/// give; elements whose target is no number add nothing.
pub open spec fn sum_spec<N, L: Fn(&String) -> N, A: Fn(BinOp, N, N) -> N>(
    elems: Seq<Document>,
    parts: Seq<FunctionPart>,
    sub: Option<Seq<char>>,
    number: L,
    arith: A,
) -> N
    decreases elems.len(),
{
    if elems.len() == 0 {
        number_spec(number, seq!['0'])
    } else {
        let t = sum_spec(elems.drop_last(), parts, sub, number, arith);
        let e = elems.last();
        if filters_hold(e, parts) {
            match target(e, sub) {
                Some(Document::Number(x)) => arith_spec(arith, BinOp::Add, t, number_spec(number, x@)),
                _ => t,
            }
        } else {
            t
        }
    }
}

/// `0` plus `1` for each element that passes the filters.
pub open spec fn count_spec<N, L: Fn(&String) -> N, A: Fn(BinOp, N, N) -> N>(
    elems: Seq<Document>,
    parts: Seq<FunctionPart>,
    number: L,
    arith: A,
) -> N
    decreases elems.len(),
{
    if elems.len() == 0 {
        number_spec(number, seq!['0'])
    } else {
        let t = count_spec(elems.drop_last(), parts, number, arith);
        if filters_hold(elems.last(), parts) {
            arith_spec(arith, BinOp::Add, t, number_spec(number, seq!['1']))
        } else {
            t
        }
    }
}

/// `s` is `lower` or `upper` letter by letter, each letter in either case.
pub open spec fn name_is(s: Seq<char>, lower: Seq<char>, upper: Seq<char>) -> bool {
    s.len() == lower.len() && s.len() == upper.len() && forall|i: int|
        0 <= i < s.len() ==> #[trigger] s[i] == lower[i] || s[i] == upper[i]
}

pub open spec fn is_sum(name: Seq<char>) -> bool {
    name_is(name, seq!['s', 'u', 'm'], seq!['S', 'U', 'M'])
}

pub open spec fn is_count(name: Seq<char>) -> bool {
    name_is(name, seq!['c', 'o', 'u', 'n', 't'], seq!['C', 'O', 'U', 'N', 'T'])
}

/// What running a function gives: for `SUM` and `COUNT`, in any case, whose
/// first parameter names an array field `a` of the document (or `a.b`, a
/// field `b` of its elements, for `SUM`) and whose filters are all
/// equalities, the sum or count over the elements that pass the filters;
/// otherwise nothing.
pub open spec fn run_spec<N, L: Fn(&String) -> N, A: Fn(BinOp, N, N) -> N>(
    f: Function,
    doc: Document,
    number: L,
    arith: A,
) -> Option<ExpValue<N>> {
    if !(is_sum(f.name@) || is_count(f.name@)) || f.parts@.len() == 0 || !filters_supported(f.parts@) {
        None
    } else {
        let (a, sub) = match f.parts@[0] {
            FunctionPart::Identifier(a) => (Some(a@), None),
            FunctionPart::IdentifierWithField(a, b) => (Some(a@), Some(b@)),
            FunctionPart::CompareExpression(..) => (None, None),
        };
        match a {
            None => None,
            Some(a) => match field(doc, a) {
                Some(Document::Array(v)) => if is_sum(f.name@) {
                    Some(ExpValue::Number(sum_spec(v@, f.parts@, sub, number, arith)))
                } else if sub is None {
                    Some(ExpValue::Number(count_spec(v@, f.parts@, number, arith)))
                } else {
                    None
                },
                _ => None,
            },
        }
    }
}

/// The field `k` of an object node.
fn get_field<'a>(d: &'a Document, k: &String) -> (r: Option<&'a Document>)
    ensures
        match r {
            Some(v) => field(*d, k@) == Some(*v),
            None => field(*d, k@) is None,
        },
{
    match d {
        Document::Object(es) => {
            assert(es@.subrange(0, es@.len() as int) =~= es@);
            let mut i: usize = 0;
            while i < es.len()
                invariant
                    i <= es@.len(),
                    field(*d, k@) == entry_lookup(es@, k@),
                    entry_lookup(es@, k@) == entry_lookup(es@.subrange(i as int, es@.len() as int), k@),
                decreases es@.len() - i,
            {
                assert(es@.subrange(i as int, es@.len() as int).drop_first() =~= es@.subrange(
                    i + 1,
                    es@.len() as int,
                ));
                assert(es@.subrange(i as int, es@.len() as int)[0] == es@[i as int]);
                if es[i].0.eq(k) {
                    assert(entry_lookup(es@.subrange(i as int, es@.len() as int), k@) == Some(es@[i as int].1));
                    return Some(&es[i].1);
                }
                i += 1;
            }
            None
        },
        _ => None,
    }
}

/// Whether the text of a scalar node is `r`.
fn scalar_is(v: &Document, r: &String) -> (b: bool)
    ensures
        b == (scalar_text(*v) == Some(r@)),
{
    match v {
        Document::Number(t) => t.eq(r),
        Document::Text(t) => t.eq(r),
        _ => false,
    }
}

/// Whether every filter among the parts holds of the element.
fn passes(e: &Document, parts: &Vec<FunctionPart>) -> (b: bool)
    ensures
        b == filters_hold(*e, parts@),
{
    let mut i: usize = 0;
    while i < parts.len()
        invariant
            i <= parts@.len(),
            forall|j: int|
                0 <= j < i ==> match #[trigger] parts@[j] {
                    FunctionPart::CompareExpression(l, _, r) => field(*e, l@) matches Some(v)
                        && scalar_text(v) == Some(r@),
                    _ => true,
                },
        decreases parts@.len() - i,
    {
        match &parts[i] {
            FunctionPart::CompareExpression(l, _, r) => {
                let ok = match get_field(e, l) {
                    Some(v) => scalar_is(v, r),
                    None => false,
                };
                if !ok {
                    assert(!filters_hold(*e, parts@)) by {
                        assert(match parts@[i as int] {
                            FunctionPart::CompareExpression(l, _, r) => !(field(*e, l@) matches Some(v)
                                && scalar_text(v) == Some(r@)),
                            _ => false,
                        });
                    }
                    return false;
                }
            },
            _ => {},
        }
        i += 1;
    }
    true
}

/// Whether every filter among the parts is an equality.
fn supported(parts: &Vec<FunctionPart>) -> (b: bool)
    ensures
        b == filters_supported(parts@),
{
    let mut i: usize = 0;
    while i < parts.len()
        invariant
            i <= parts@.len(),
            forall|j: int|
                0 <= j < i ==> match #[trigger] parts@[j] {
                    FunctionPart::CompareExpression(_, op, _) => op == CompareOperator::Equal,
                    _ => true,
                },
        decreases parts@.len() - i,
    {
        match &parts[i] {
            FunctionPart::CompareExpression(_, op, _) => {
                if *op != CompareOperator::Equal {
                    assert(!filters_supported(parts@)) by {
                        assert(match parts@[i as int] {
                            FunctionPart::CompareExpression(_, op, _) => op != CompareOperator::Equal,
                            _ => false,
                        });
                    }
                    return false;
                }
            },
            _ => {},
        }
        i += 1;
    }
    true
}

/// Whether `s` spells `lower`, each letter in either case.
fn spells(s: &String, lower: &str, upper: &str) -> (b: bool)
    ensures
        b == name_is(s@, lower@, upper@),
{
    let cs = chars_of(s.as_str());
    let lo = chars_of(lower);
    let up = chars_of(upper);
    if cs.len() != lo.len() || cs.len() != up.len() {
        return false;
    }
    let mut i: usize = 0;
    while i < cs.len()
        invariant
            i <= cs@.len(),
            cs@.len() == lo@.len() && cs@.len() == up@.len(),
            cs@ == s@,
            lo@ == lower@,
            up@ == upper@,
            forall|j: int| 0 <= j < i ==> #[trigger] cs@[j] == lo@[j] || cs@[j] == up@[j],
        decreases cs@.len() - i,
    {
        if cs[i] != lo[i] && cs[i] != up[i] {
            return false;
        }
        i += 1;
    }
    true
}

impl Function {
    /// Runs the function over `doc`. `SUM(a; f=v; ...)` adds the numbers of
    /// the array field `a` whose elements pass every filter `f=v`
    /// (`SUM(a.b; ...)` adds their field `b`); `COUNT(a; ...)` counts those
    /// elements. Any other name, a first parameter that names no array
    /// field, or a filter other than an equality gives `None`.
    pub fn run<N: Copy, L: Fn(&String) -> N, A: Fn(BinOp, N, N) -> N>(
        &self,
        doc: &Document,
        number: &L,
        arith: &A,
    ) -> (r: Option<ExpValue<N>>)
        requires
            number_ok(*number),
            arith_ok(*arith),
        ensures
            r == run_spec(*self, *doc, *number, *arith),
    {
        let sum = spells(&self.name, "sum", "SUM");
        let count = spells(&self.name, "count", "COUNT");
        proof {
            reveal_strlit("sum");
            reveal_strlit("SUM");
            reveal_strlit("count");
            reveal_strlit("COUNT");
        }
        if !(sum || count) || self.parts.len() == 0 || !supported(&self.parts) {
            return None;
        }
        let (a, sub) = match &self.parts[0] {
            FunctionPart::Identifier(a) => (a, None),
            FunctionPart::IdentifierWithField(a, b) => (a, Some(b)),
            FunctionPart::CompareExpression(..) => {
                return None;
            },
        };
        let elems = match get_field(doc, a) {
            Some(Document::Array(v)) => v,
            _ => {
                return None;
            },
        };
        if !sum && sub.is_some() {
            return None;
        }
        let zero = "0".to_owned();
        let one = "1".to_owned();
        proof {
            reveal_strlit("0");
            reveal_strlit("1");
        }
        assert(zero@ =~= seq!['0']);
        assert(one@ =~= seq!['1']);
        let mut total = convert(number, &zero);
        let step = convert(number, &one);
        assert(elems@.subrange(0, 0) =~= Seq::<Document>::empty());
        let ghost sub_v: Option<Seq<char>> = match sub {
            Some(b) => Some(b@),
            None => None,
        };
        let mut i: usize = 0;
        while i < elems.len()
            invariant
                i <= elems@.len(),
                number_ok(*number),
                arith_ok(*arith),
                step == number_spec(*number, seq!['1']),
                match sub {
                    Some(b) => sub_v == Some(b@),
                    None => sub_v is None,
                },
                sum ==> total == sum_spec(elems@.subrange(0, i as int), self.parts@, sub_v, *number, *arith),
                !sum ==> total == count_spec(elems@.subrange(0, i as int), self.parts@, *number, *arith),
            decreases elems@.len() - i,
        {
            let ghost pre = elems@.subrange(0, i as int);
            assert(elems@.subrange(0, i + 1).drop_last() =~= pre);
            assert(elems@.subrange(0, i + 1).last() == elems@[i as int]);
            let e = &elems[i];
            let ghost prev = total;
            if passes(e, &self.parts) {
                if sum {
                    let t = match sub {
                        None => Some(e),
                        Some(b) => {
                            assert(sub_v == Some(b@));
                            get_field(e, b)
                        },
                    };
                    assert(match t {
                        Some(v) => target(*e, sub_v) == Some(*v),
                        None => target(*e, sub_v) is None,
                    });
                    match t {
                        Some(Document::Number(x)) => {
                            let n = convert(number, x);
                            total = arith(BinOp::Add, total, n);
                            assert(total == arith_spec(*arith, BinOp::Add, prev, n));
                        },
                        _ => {},
                    }
                } else {
                    total = arith(BinOp::Add, total, step);
                    assert(total == arith_spec(*arith, BinOp::Add, prev, step));
                }
            }
            i += 1;
        }
        assert(elems@.subrange(0, elems@.len() as int) =~= elems@);
        Some(ExpValue::Number(total))
    }
}

} // verus!
