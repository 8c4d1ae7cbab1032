use vstd::prelude::*;

verus! {

/// A binary operator of the formula language.
#[derive(Clone, Copy, Debug, PartialEq, Eq, Structural)]
pub enum BinOp {
    Add,
    Subtract,
    Multiply,
    Divide,
    Modulus,
    Power,
}

/// The typed result of an evaluation. `Error` is a value that poisons
/// every arithmetic operation it takes part in.
#[derive(Clone, Debug, PartialEq)]
pub enum ExpValue<N> {
    Number(N),
    String(String),
    Error,
}

/// What the caller's arithmetic returns for `op` on two numbers; the
/// arithmetic is asked to be a function of its arguments.
pub open spec fn arith_spec<N, A: Fn(BinOp, N, N) -> N>(arith: A, op: BinOp, a: N, b: N) -> N {
    choose|r: N| arith.ensures((op, a, b), r)
}

/// Whether the arithmetic can be called on every operator and pair of
/// numbers, and returns one result for each.
pub open spec fn arith_ok<N, A: Fn(BinOp, N, N) -> N>(arith: A) -> bool {
    &&& forall|op: BinOp, a: N, b: N| #[trigger] arith.requires((op, a, b))
    &&& forall|op: BinOp, a: N, b: N, r1: N, r2: N|
        #[trigger] arith.ensures((op, a, b), r1) && #[trigger] arith.ensures((op, a, b), r2) ==> r1 == r2
}

/// Combining two values: numbers through the arithmetic, anything else
/// gives `Error`.
pub open spec fn combine_spec<N, A: Fn(BinOp, N, N) -> N>(
    arith: A,
    op: BinOp,
    l: ExpValue<N>,
    r: ExpValue<N>,
) -> ExpValue<N> {
    match (l, r) {
        (ExpValue::Number(a), ExpValue::Number(b)) => ExpValue::Number(arith_spec(arith, op, a, b)),
        _ => ExpValue::Error,
    }
}

/// Applies `op` to two values: `Number op Number` is computed by `arith`;
/// an `Error` or a `String` on either side gives `Error`.
pub fn combine<N, A: Fn(BinOp, N, N) -> N>(arith: &A, op: BinOp, l: ExpValue<N>, r: ExpValue<N>) -> (res: ExpValue<N>)
    requires
        arith_ok(*arith),
    ensures
        res == combine_spec(*arith, op, l, r),
{
    match (l, r) {
        (ExpValue::Number(a), ExpValue::Number(b)) => {
            let n = arith(op, a, b);
            ExpValue::Number(n)
        },
        _ => ExpValue::Error,
    }
}

} // verus!

verus! {

impl<N: Copy> ExpValue<N> {
    /// A copy of the value.
    pub fn copied(&self) -> (r: ExpValue<N>)
        ensures
            r == *self,
    {
        match self {
            ExpValue::Number(n) => ExpValue::Number(*n),
            ExpValue::String(s) => ExpValue::String(s.clone()),
            ExpValue::Error => ExpValue::Error,
        }
    }
}

/// A table from identifier names to values; each name occurs once. The
/// entries are kept in a list: vstd specifies `HashMap` lookups only for
/// key types with a hashing model, which `String` does not have, so a
/// hash map here could not carry a proved contract.
pub struct ValueTable<N> {
    entries: Vec<(String, ExpValue<N>)>,
    contents: Ghost<Map<Seq<char>, ExpValue<N>>>,
}

impl<N> View for ValueTable<N> {
    type V = Map<Seq<char>, ExpValue<N>>;

    closed spec fn view(&self) -> Map<Seq<char>, ExpValue<N>> {
        self.contents@
    }
}

impl<N: Copy> ValueTable<N> {
    /// The entries match the map, and no name is held twice.
    pub closed spec fn wf(&self) -> bool {
        &&& forall|i: int|
            0 <= i < self.entries@.len() ==> #[trigger] self.contents@.contains_key(self.entries@[i].0@)
                && self.contents@[self.entries@[i].0@] == self.entries@[i].1
        &&& forall|k: Seq<char>|
            #[trigger] self.contents@.contains_key(k) ==> exists|i: int|
                0 <= i < self.entries@.len() && #[trigger] self.entries@[i].0@ == k
        &&& forall|i: int, j: int|
            0 <= i < j < self.entries@.len() ==> #[trigger] self.entries@[i].0@
                != #[trigger] self.entries@[j].0@
    }

    /// An empty table.
    pub fn new() -> (t: ValueTable<N>)
        ensures
            t.wf(),
            t@ == Map::<Seq<char>, ExpValue<N>>::empty(),
    {
        ValueTable { entries: Vec::new(), contents: Ghost(Map::empty()) }
    }

    /// The index of the entry named `name`, if any.
    fn find(&self, name: &str) -> (r: Option<usize>)
        requires
            self.wf(),
        ensures
            match r {
                Some(i) => i < self.entries@.len() && self.entries@[i as int].0@ == name@,
                None => !self@.contains_key(name@),
            },
    {
        let key = name.to_owned();
        let mut i: usize = 0;
        while i < self.entries.len()
            invariant
                self.wf(),
                key@ == name@,
                i <= self.entries@.len(),
                forall|j: int| 0 <= j < i ==> #[trigger] self.entries@[j].0@ != name@,
            decreases self.entries@.len() - i,
        {
            if self.entries[i].0.eq(&key) {
                return Some(i);
            }
            i += 1;
        }
        None
    }

    /// Binds `name` to `value`, replacing an earlier binding of that name.
    pub fn insert(&mut self, name: String, value: ExpValue<N>)
        requires
            old(self).wf(),
        ensures
            final(self).wf(),
            final(self)@ == old(self)@.insert(name@, value),
    {
        let ghost new_map = self.contents@.insert(name@, value);
        let ghost old_entries = self.entries@;
        let ghost old_map = self.contents@;
        match self.find(name.as_str()) {
            Some(i) => {
                let ghost k = name@;
                self.entries.set(i, (name, value));
                self.contents = Ghost(new_map);
                assert forall|j: int| 0 <= j < self.entries@.len() implies
                    #[trigger] self.contents@.contains_key(self.entries@[j].0@)
                    && self.contents@[self.entries@[j].0@] == self.entries@[j].1 by {
                    if j != i {
                        assert(self.entries@[j].0@ != k);
                    }
                }
                assert forall|k2: Seq<char>| #[trigger] self.contents@.contains_key(k2) implies exists|j: int|
                    0 <= j < self.entries@.len() && #[trigger] self.entries@[j].0@ == k2 by {
                    if k2 == k {
                        assert(self.entries@[i as int].0@ == k2);
                    } else {
                        assert(old_map.contains_key(k2));
                        let j = choose|j: int| 0 <= j < old_entries.len() && #[trigger] old_entries[j].0@ == k2;
                        assert(self.entries@[j].0@ == k2);
                    }
                }
            },
            None => {
                let ghost k = name@;
                self.entries.push((name, value));
                self.contents = Ghost(new_map);
                let ghost last = self.entries@.len() - 1;
                assert forall|k2: Seq<char>| #[trigger] self.contents@.contains_key(k2) implies exists|j: int|
                    0 <= j < self.entries@.len() && #[trigger] self.entries@[j].0@ == k2 by {
                    if k2 == k {
                        assert(self.entries@[last].0@ == k2);
                    } else {
                        assert(old_map.contains_key(k2));
                        let j = choose|j: int| 0 <= j < old_entries.len() && #[trigger] old_entries[j].0@ == k2;
                        assert(self.entries@[j].0@ == k2);
                    }
                }
            },
        }
    }

    /// The value bound to `name`, or `None` where the name is unbound.
    pub fn get(&self, name: &str) -> (r: Option<ExpValue<N>>)
        requires
            self.wf(),
        ensures
            r == (if self@.contains_key(name@) { Some(self@[name@]) } else { None::<ExpValue<N>> }),
    {
        match self.find(name) {
            Some(i) => Some(self.entries[i].1.copied()),
            None => None,
        }
    }
}

} // verus!
