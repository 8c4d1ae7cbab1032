use vstd::prelude::*;

use crate::value::BinOp;
use vstd::std_specs::iter::IteratorSpec;

verus! {

/// One parameter slot of a function call, as written. A slot that is
/// neither a dotted name nor `name=value` (such as `x=` with no value)
/// fails the whole formula rather than being dropped: a filter that is
/// silently left out would widen the aggregate without any sign of it.
#[derive(Clone, Debug, PartialEq)]
pub enum ParamItem {
    /// A dotted name `a.b.c`, one string per segment; empty for an empty slot.
    Path(Vec<String>),
    /// An equality filter `left=right`, both sides as raw text.
    Compare(String, String),
}

/// An operand of the parse tree.
#[derive(Debug, PartialEq)]
pub enum Pair {
    Number(String),
    Ident(String),
    Function(String, Vec<ParamItem>),
    Group(Box<Pairs>),
}

/// The parse tree of an expression: operands with the operators between them.
#[derive(Debug, PartialEq)]
pub struct Pairs {
    pub operands: Vec<Pair>,
    pub operators: Vec<BinOp>,
}

/// A formula that does not follow the grammar: the text and the index of
/// the character where reading stopped.
#[derive(Clone, Debug, PartialEq)]
pub struct ParseError {
    pub input: String,
    pub position: usize,
}

pub open spec fn is_letter(c: char) -> bool {
    ('a' <= c && c <= 'z') || ('A' <= c && c <= 'Z')
}

pub open spec fn is_digit(c: char) -> bool {
    '0' <= c && c <= '9'
}

pub open spec fn is_ident_char(c: char) -> bool {
    is_letter(c) || is_digit(c) || c == '_'
}

pub open spec fn is_space(c: char) -> bool {
    c == ' ' || c == '\t' || c == '\n' || c == '\r'
}

/// `letter (letter | digit | "_")*`
pub open spec fn is_ident(s: Seq<char>) -> bool {
    s.len() > 0 && is_letter(s[0]) && forall|i: int| 0 <= i < s.len() ==> #[trigger] is_ident_char(s[i])
}

/// `digits ["." digits]`
pub open spec fn is_numeral(s: Seq<char>) -> bool {
    ||| s.len() > 0 && forall|i: int| 0 <= i < s.len() ==> #[trigger] is_digit(s[i])
    ||| exists|k: int|
        0 < k < s.len() - 1 && s[k] == '.' && (forall|i: int|
            0 <= i < s.len() && i != k ==> #[trigger] is_digit(s[i]))
}

/// The right side of a filter: one or more of letters, digits, `_` and `.`.
pub open spec fn is_raw_value(s: Seq<char>) -> bool {
    s.len() > 0 && forall|i: int| 0 <= i < s.len() ==> is_ident_char(#[trigger] s[i]) || s[i] == '.'
}

pub open spec fn item_wf(p: ParamItem) -> bool {
    match p {
        ParamItem::Path(segs) => forall|i: int| 0 <= i < segs@.len() ==> is_ident(#[trigger] segs@[i]@),
        ParamItem::Compare(l, r) => is_ident(l@) && is_raw_value(r@),
    }
}

pub open spec fn operator_char(op: BinOp) -> char {
    match op {
        BinOp::Add => '+',
        BinOp::Subtract => '-',
        BinOp::Multiply => '*',
        BinOp::Divide => '/',
        BinOp::Modulus => '%',
        BinOp::Power => '^',
    }
}

/// A tree that the grammar can produce: one more operand than operators,
/// and each token of the form its kind asks for.
pub open spec fn pairs_wf(p: Pairs) -> bool {
    p.operands@.len() == p.operators@.len() + 1 && operands_wf(p.operands@)
}

/// Each operand of the sequence is well formed.
pub open spec fn operands_wf(s: Seq<Pair>) -> bool
    decreases s,
{
    s.len() == 0 || (operands_wf(s.drop_last()) && pair_wf(s.last()))
}

pub open spec fn pair_wf(p: Pair) -> bool
    decreases p,
{
    match p {
        Pair::Number(s) => is_numeral(s@),
        Pair::Ident(s) => is_ident(s@),
        Pair::Function(name, items) => is_ident(name@) && items@.len() > 0 && forall|i: int|
            0 <= i < items@.len() ==> #[trigger] item_wf(items@[i]),
        Pair::Group(inner) => inner.operands@.len() == inner.operators@.len() + 1 && operands_wf(
            inner.operands@,
        ),
    }
}

/// The characters of `s` with the blanks left out.
pub open spec fn compact(s: Seq<char>) -> Seq<char>
    decreases s.len(),
{
    if s.len() == 0 {
        Seq::empty()
    } else if is_space(s.last()) {
        compact(s.drop_last())
    } else {
        compact(s.drop_last()).push(s.last())
    }
}

/// The text of a tree, written without blanks.
pub open spec fn render_pairs(p: Pairs) -> Seq<char> {
    render_seq(p.operands@, p.operators@)
}

pub open spec fn render_seq(s: Seq<Pair>, ops: Seq<BinOp>) -> Seq<char>
    decreases s,
{
    if s.len() == 0 {
        Seq::empty()
    } else if s.len() == 1 {
        render_pair(s[0])
    } else {
        render_seq(s.drop_last(), ops) + seq![operator_char(ops[s.len() - 2])] + render_pair(s.last())
    }
}

pub open spec fn render_pair(p: Pair) -> Seq<char>
    decreases p,
{
    match p {
        Pair::Number(s) => s@,
        Pair::Ident(s) => s@,
        Pair::Function(name, items) => name@ + seq!['('] + render_items(items@) + seq![')'],
        Pair::Group(inner) => seq!['('] + render_seq(inner.operands@, inner.operators@) + seq![')'],
    }
}

pub open spec fn render_items(items: Seq<ParamItem>) -> Seq<char>
    decreases items.len(),
{
    if items.len() == 0 {
        Seq::empty()
    } else if items.len() == 1 {
        render_item(items[0])
    } else {
        render_items(items.drop_last()) + seq![';'] + render_item(items.last())
    }
}

pub open spec fn render_item(item: ParamItem) -> Seq<char> {
    match item {
        ParamItem::Path(segs) => join_segments(segs@),
        ParamItem::Compare(l, r) => l@ + seq!['='] + r@,
    }
}

pub open spec fn join_segments(segs: Seq<String>) -> Seq<char>
    decreases segs.len(),
{
    if segs.len() == 0 {
        Seq::empty()
    } else if segs.len() == 1 {
        segs[0]@
    } else {
        join_segments(segs.drop_last()) + seq!['.'] + segs.last()@
    }
}

proof fn lemma_compact_add(x: Seq<char>, y: Seq<char>)
    ensures
        compact(x + y) == compact(x) + compact(y),
    decreases y.len(),
{
    if y.len() == 0 {
        assert(x + y =~= x);
        assert(compact(x) + compact(y) =~= compact(x));
    } else {
        assert((x + y).drop_last() =~= x + y.drop_last());
        lemma_compact_add(x, y.drop_last());
        if !is_space(y.last()) {
            assert(compact(x) + compact(y.drop_last()).push(y.last()) =~= (compact(x) + compact(
                y.drop_last(),
            )).push(y.last()));
        }
    }
}

/// Blanks in `s[a..c]` are those in `s[a..b]` and in `s[b..c]`.
proof fn lemma_compact_split(s: Seq<char>, a: int, b: int, c: int)
    requires
        0 <= a <= b <= c <= s.len(),
    ensures
        compact(s.subrange(a, c)) == compact(s.subrange(a, b)) + compact(s.subrange(b, c)),
{
    assert(s.subrange(a, c) =~= s.subrange(a, b) + s.subrange(b, c));
    lemma_compact_add(s.subrange(a, b), s.subrange(b, c));
}

/// A text without blanks stays as it is.
proof fn lemma_compact_plain(s: Seq<char>)
    requires
        forall|i: int| 0 <= i < s.len() ==> !is_space(#[trigger] s[i]),
    ensures
        compact(s) == s,
    decreases s.len(),
{
    if s.len() > 0 {
        lemma_compact_plain(s.drop_last());
        assert(s.drop_last().push(s.last()) =~= s);
    }
}

/// A text of blanks only leaves nothing.
proof fn lemma_compact_blank(s: Seq<char>)
    requires
        forall|i: int| 0 <= i < s.len() ==> is_space(#[trigger] s[i]),
    ensures
        compact(s) == Seq::<char>::empty(),
    decreases s.len(),
{
    if s.len() > 0 {
        lemma_compact_blank(s.drop_last());
    }
}

/// One character that is no blank stays.
proof fn lemma_compact_char(s: Seq<char>, i: int)
    requires
        0 <= i < s.len(),
        !is_space(s[i]),
    ensures
        compact(s.subrange(i, i + 1)) == seq![s[i]],
{
    let t = s.subrange(i, i + 1);
    assert(t.drop_last() =~= Seq::<char>::empty());
    assert(compact(t.drop_last()) == Seq::<char>::empty());
    assert(Seq::<char>::empty().push(s[i]) =~= seq![s[i]]);
}

/// No character of `s` is a blank.
pub open spec fn no_blanks(s: Seq<char>) -> bool {
    forall|i: int| 0 <= i < s.len() ==> !is_space(#[trigger] s[i])
}

/// `w` stands in `cs` from index `p` on.
pub open spec fn at(cs: Seq<char>, p: int, w: Seq<char>) -> bool {
    0 <= p && p + w.len() <= cs.len() && cs.subrange(p, p + w.len()) == w
}

/// The text of operands `n..` with the operators between them.
pub open spec fn seq_tail(s: Seq<Pair>, ops: Seq<BinOp>, n: int) -> Seq<char>
    decreases s.len() - n,
{
    if n >= s.len() - 1 {
        render_pair(s[n])
    } else {
        render_pair(s[n]) + seq![operator_char(ops[n])] + seq_tail(s, ops, n + 1)
    }
}

/// The text of parameter slots `n..` with the `;` between them.
pub open spec fn items_tail(items: Seq<ParamItem>, n: int) -> Seq<char>
    decreases items.len() - n,
{
    if n >= items.len() - 1 {
        render_item(items[n])
    } else {
        render_item(items[n]) + seq![';'] + items_tail(items, n + 1)
    }
}

/// The text of segments `n..` with the `.` between them.
pub open spec fn segs_tail(segs: Seq<String>, n: int) -> Seq<char>
    decreases segs.len() - n,
{
    if n >= segs.len() - 1 {
        segs[n]@
    } else {
        segs[n]@ + seq!['.'] + segs_tail(segs, n + 1)
    }
}

proof fn lemma_seq_tail_step(s: Seq<Pair>, ops: Seq<BinOp>, n: int)
    requires
        0 <= n <= s.len() - 2,
    ensures
        seq_tail(s.drop_last(), ops, n) + seq![operator_char(ops[s.len() - 2])] + render_pair(s.last())
            == seq_tail(s, ops, n),
    decreases s.len() - n,
{
    let x = seq![operator_char(ops[s.len() - 2])] + render_pair(s.last());
    assert(seq_tail(s.drop_last(), ops, n) + seq![operator_char(ops[s.len() - 2])] + render_pair(s.last())
        =~= seq_tail(s.drop_last(), ops, n) + x);
    assert(s.drop_last()[n] == s[n]);
    if n < s.len() - 2 {
        lemma_seq_tail_step(s, ops, n + 1);
        assert(seq_tail(s.drop_last(), ops, n + 1) + seq![operator_char(ops[s.len() - 2])] + render_pair(
            s.last(),
        ) =~= seq_tail(s.drop_last(), ops, n + 1) + x);
        let a = render_pair(s[n]) + seq![operator_char(ops[n])];
        assert(seq_tail(s, ops, n) == a + seq_tail(s, ops, n + 1));
        assert(seq_tail(s.drop_last(), ops, n) == a + seq_tail(s.drop_last(), ops, n + 1));
        assert((a + seq_tail(s.drop_last(), ops, n + 1)) + x =~= a + (seq_tail(s.drop_last(), ops, n + 1) + x));
    } else {
        assert(s.last() == s[n + 1]);
        assert(seq_tail(s, ops, n + 1) == render_pair(s[n + 1]));
        assert(seq_tail(s, ops, n) == render_pair(s[n]) + seq![operator_char(ops[n])] + seq_tail(s, ops, n + 1));
        assert(seq_tail(s.drop_last(), ops, n) == render_pair(s[n]));
        assert(seq_tail(s.drop_last(), ops, n) + x =~= render_pair(s[n]) + seq![operator_char(ops[n])]
            + render_pair(s[n + 1]));
    }
}

proof fn lemma_render_seq_tail(s: Seq<Pair>, ops: Seq<BinOp>)
    requires
        s.len() >= 1,
    ensures
        render_seq(s, ops) == seq_tail(s, ops, 0),
    decreases s.len(),
{
    if s.len() >= 2 {
        lemma_render_seq_tail(s.drop_last(), ops);
        lemma_seq_tail_step(s, ops, 0);
    }
}

proof fn lemma_items_tail_step(s: Seq<ParamItem>, n: int)
    requires
        0 <= n <= s.len() - 2,
    ensures
        items_tail(s.drop_last(), n) + seq![';'] + render_item(s.last()) == items_tail(s, n),
    decreases s.len() - n,
{
    let x = seq![';'] + render_item(s.last());
    assert(items_tail(s.drop_last(), n) + seq![';'] + render_item(s.last()) =~= items_tail(s.drop_last(), n) + x);
    assert(s.drop_last()[n] == s[n]);
    if n < s.len() - 2 {
        lemma_items_tail_step(s, n + 1);
        assert(items_tail(s.drop_last(), n + 1) + seq![';'] + render_item(s.last()) =~= items_tail(
            s.drop_last(),
            n + 1,
        ) + x);
        let a = render_item(s[n]) + seq![';'];
        assert(items_tail(s, n) == a + items_tail(s, n + 1));
        assert(items_tail(s.drop_last(), n) == a + items_tail(s.drop_last(), n + 1));
        assert((a + items_tail(s.drop_last(), n + 1)) + x =~= a + (items_tail(s.drop_last(), n + 1) + x));
    } else {
        assert(s.last() == s[n + 1]);
        assert(items_tail(s, n + 1) == render_item(s[n + 1]));
        assert(items_tail(s, n) == render_item(s[n]) + seq![';'] + items_tail(s, n + 1));
        assert(items_tail(s.drop_last(), n) == render_item(s[n]));
        assert(items_tail(s.drop_last(), n) + x =~= render_item(s[n]) + seq![';'] + render_item(s[n + 1]));
    }
}

proof fn lemma_render_items_tail(s: Seq<ParamItem>)
    requires
        s.len() >= 1,
    ensures
        render_items(s) == items_tail(s, 0),
    decreases s.len(),
{
    if s.len() >= 2 {
        lemma_render_items_tail(s.drop_last());
        lemma_items_tail_step(s, 0);
    }
}

proof fn lemma_segs_tail_step(s: Seq<String>, n: int)
    requires
        0 <= n <= s.len() - 2,
    ensures
        segs_tail(s.drop_last(), n) + seq!['.'] + s.last()@ == segs_tail(s, n),
    decreases s.len() - n,
{
    let x = seq!['.'] + s.last()@;
    assert(segs_tail(s.drop_last(), n) + seq!['.'] + s.last()@ =~= segs_tail(s.drop_last(), n) + x);
    assert(s.drop_last()[n] == s[n]);
    if n < s.len() - 2 {
        lemma_segs_tail_step(s, n + 1);
        assert(segs_tail(s.drop_last(), n + 1) + seq!['.'] + s.last()@ =~= segs_tail(s.drop_last(), n + 1)
            + x);
        let a = s[n]@ + seq!['.'];
        assert(segs_tail(s, n) == a + segs_tail(s, n + 1));
        assert(segs_tail(s.drop_last(), n) == a + segs_tail(s.drop_last(), n + 1));
        assert((a + segs_tail(s.drop_last(), n + 1)) + x =~= a + (segs_tail(s.drop_last(), n + 1) + x));
    } else {
        assert(s.last() == s[n + 1]);
        assert(segs_tail(s, n + 1) == s[n + 1]@);
        assert(segs_tail(s, n) == s[n]@ + seq!['.'] + segs_tail(s, n + 1));
        assert(segs_tail(s.drop_last(), n) == s[n]@);
        assert(segs_tail(s.drop_last(), n) + x =~= s[n]@ + seq!['.'] + s[n + 1]@);
    }
}

proof fn lemma_join_segments_tail(s: Seq<String>)
    requires
        s.len() >= 1,
    ensures
        join_segments(s) == segs_tail(s, 0),
    decreases s.len(),
{
    if s.len() >= 2 {
        lemma_join_segments_tail(s.drop_last());
        lemma_segs_tail_step(s, 0);
    }
}

/// Where `a + b` stands at `p`, `a` stands at `p` and `b` right after it.
proof fn lemma_at_split(cs: Seq<char>, p: int, a: Seq<char>, b: Seq<char>)
    requires
        at(cs, p, a + b),
    ensures
        at(cs, p, a),
        at(cs, p + a.len(), b),
{
    let w = a + b;
    assert(cs.subrange(p, p + w.len()) == w);
    assert(cs.subrange(p, p + a.len()) =~= w.subrange(0, a.len() as int));
    assert(w.subrange(0, a.len() as int) =~= a);
    assert(cs.subrange(p + a.len(), p + a.len() + b.len()) =~= w.subrange(
        a.len() as int,
        w.len() as int,
    ));
    assert(w.subrange(a.len() as int, w.len() as int) =~= b);
}

/// The character at `p + i` of a text that stands at `p`.
proof fn lemma_at_index(cs: Seq<char>, p: int, w: Seq<char>, i: int)
    requires
        at(cs, p, w),
        0 <= i < w.len(),
    ensures
        cs[p + i] == w[i],
{
    assert(cs.subrange(p, p + w.len())[i] == cs[p + i]);
}

/// Two maximal runs of characters meeting `pred`, both from `pos`, end
/// at the same index.
proof fn lemma_run_end(cs: Seq<char>, pos: int, e: int, m: int, pred: spec_fn(char) -> bool)
    requires
        pos <= e <= cs.len(),
        pos <= m <= cs.len(),
        forall|i: int| pos <= i < e ==> #[trigger] pred(cs[i]),
        e == cs.len() || !pred(cs[e]),
        forall|i: int| pos <= i < m ==> #[trigger] pred(cs[i]),
        m == cs.len() || !pred(cs[m]),
    ensures
        e == m,
{
    if e < m {
        assert(pred(cs[e]));
    } else if m < e {
        assert(pred(cs[m]));
    }
}

/// Segments `k..` with a `.` before each; empty past the last.
pub open spec fn segs_rest(segs: Seq<String>, k: int) -> Seq<char> {
    if k >= segs.len() {
        Seq::empty()
    } else {
        seq!['.'] + segs_tail(segs, k)
    }
}

proof fn lemma_segs_tail_rest(segs: Seq<String>, k: int)
    requires
        0 <= k < segs.len(),
    ensures
        segs_tail(segs, k) == segs[k]@ + segs_rest(segs, k + 1),
{
    if k < segs.len() - 1 {
        assert(segs_tail(segs, k) =~= segs[k]@ + segs_rest(segs, k + 1));
    } else {
        assert(segs_tail(segs, k) =~= segs[k]@ + segs_rest(segs, k + 1));
    }
}

/// Slots `k..` with a `;` before each; empty past the last.
pub open spec fn items_rest(items: Seq<ParamItem>, k: int) -> Seq<char> {
    if k >= items.len() {
        Seq::empty()
    } else {
        seq![';'] + items_tail(items, k)
    }
}

proof fn lemma_items_tail_rest(items: Seq<ParamItem>, k: int)
    requires
        0 <= k < items.len(),
    ensures
        items_tail(items, k) == render_item(items[k]) + items_rest(items, k + 1),
{
    assert(items_tail(items, k) =~= render_item(items[k]) + items_rest(items, k + 1));
}

/// The slots `its`, then `)`, stand at `p` in a text without blanks.
pub open spec fn params_fit(cs: Seq<char>, p: int, its: Seq<ParamItem>) -> bool {
    its.len() > 0 && (forall|i: int| 0 <= i < its.len() ==> #[trigger] item_wf(its[i])) && no_blanks(cs)
        && at(cs, p, render_items(its) + seq![')'])
}

/// Operands `j..` with the operator before each; empty past the last.
pub open spec fn seq_rest(s: Seq<Pair>, ops: Seq<BinOp>, j: int) -> Seq<char> {
    if j >= s.len() {
        Seq::empty()
    } else {
        seq![operator_char(ops[j - 1])] + seq_tail(s, ops, j)
    }
}

proof fn lemma_seq_tail_rest(s: Seq<Pair>, ops: Seq<BinOp>, n: int)
    requires
        0 <= n < s.len(),
    ensures
        seq_tail(s, ops, n) == render_pair(s[n]) + seq_rest(s, ops, n + 1),
{
    assert(seq_tail(s, ops, n) =~= render_pair(s[n]) + seq_rest(s, ops, n + 1));
}

proof fn lemma_operands_wf_index(s: Seq<Pair>, i: int)
    requires
        operands_wf(s),
        0 <= i < s.len(),
    ensures
        pair_wf(s[i]),
    decreases s.len(),
{
    if i < s.len() - 1 {
        lemma_operands_wf_index(s.drop_last(), i);
        assert(s.drop_last()[i] == s[i]);
    }
}

/// How the text of a well-formed operand begins.
proof fn lemma_pair_start(x: Pair)
    requires
        pair_wf(x),
    ensures
        render_pair(x).len() > 0,
        x is Number ==> is_digit(render_pair(x)[0]),
        (x is Ident || x is Function) ==> is_letter(render_pair(x)[0]),
        x is Group ==> render_pair(x)[0] == '(',
{
    match x {
        Pair::Number(s) => {
            if !(forall|i: int| 0 <= i < s@.len() ==> #[trigger] is_digit(s@[i])) {
                let k = choose|k: int|
                    0 < k < s@.len() - 1 && s@[k] == '.' && (forall|i: int|
                        0 <= i < s@.len() && i != k ==> #[trigger] is_digit(s@[i]));
                assert(is_digit(s@[0]));
            } else {
                assert(is_digit(s@[0]));
            }
        },
        Pair::Function(nm, items) => {
            assert(render_pair(x)[0] == nm@[0]);
        },
        Pair::Group(inner) => {},
        Pair::Ident(s) => {},
    }
}

/// The tree `t` stands at `p` in a text without blanks, followed by the
/// end of the text or `)`.
pub open spec fn expr_fits(cs: Seq<char>, p: int, t: Pairs) -> bool {
    let e = p + render_pairs(t).len();
    pairs_wf(t) && no_blanks(cs) && at(cs, p, render_pairs(t)) && (e == cs.len() || cs[e] == ')')
}

/// `it` stands at `p` in a text without blanks, followed by `;` or `)`.
pub open spec fn slot_fits(cs: Seq<char>, p: int, it: ParamItem) -> bool {
    let e = p + render_item(it).len();
    item_wf(it) && no_blanks(cs) && at(cs, p, render_item(it)) && e < cs.len() && (cs[e] == ';'
        || cs[e] == ')')
}

/// The characters of `s` in order.
pub(crate) fn chars_of(s: &str) -> (r: Vec<char>)
    ensures
        r@ == s@,
{
    broadcast use vstd::string::axiom_spec_iter, vstd::string::next_postcondition;

    let mut it = s.chars();
    let mut out: Vec<char> = Vec::new();
    loop
        invariant
            it.obeys_prophetic_iter_laws(),
            it.decrease() is Some,
            out@ + it.remaining() == s@,
        decreases it.decrease()->0,
    {
        match it.next() {
            Some(c) => {
                out.push(c);
                assert(out@ + it.remaining() =~= s@);
            },
            None => {
                assert(out@ =~= s@);
                return out;
            },
        }
    }
}

/// Relies on std's `FromIterator<char>` for `String`: the string of
/// these characters in order.
#[verifier::external_body]
fn string_of(cs: Vec<char>) -> (r: String)
    ensures
        r@ == cs@,
{
    String::from_iter(cs)
}

fn letter(c: char) -> (r: bool)
    ensures
        r == is_letter(c),
{
    ('a' <= c && c <= 'z') || ('A' <= c && c <= 'Z')
}

fn digit(c: char) -> (r: bool)
    ensures
        r == is_digit(c),
{
    '0' <= c && c <= '9'
}

fn ident_char(c: char) -> (r: bool)
    ensures
        r == is_ident_char(c),
{
    letter(c) || digit(c) || c == '_'
}

fn operator_of(c: char) -> (r: Option<BinOp>)
    ensures
        match r {
            Some(op) => operator_char(op) == c,
            None => forall|op: BinOp| operator_char(op) != c,
        },
{
    if c == '+' {
        Some(BinOp::Add)
    } else if c == '-' {
        Some(BinOp::Subtract)
    } else if c == '*' {
        Some(BinOp::Multiply)
    } else if c == '/' {
        Some(BinOp::Divide)
    } else if c == '%' {
        Some(BinOp::Modulus)
    } else if c == '^' {
        Some(BinOp::Power)
    } else {
        None
    }
}

/// The first index at or after `pos` that holds no blank.
fn skip_spaces(cs: &Vec<char>, pos: usize) -> (r: usize)
    requires
        pos <= cs@.len(),
    ensures
        pos <= r <= cs@.len(),
        r == cs@.len() || !is_space(cs@[r as int]),
        compact(cs@.subrange(pos as int, r as int)) == Seq::<char>::empty(),
        no_blanks(cs@) ==> r == pos,
{
    let mut p = pos;
    while p < cs.len() && (cs[p] == ' ' || cs[p] == '\t' || cs[p] == '\n' || cs[p] == '\r')
        invariant
            pos <= p <= cs@.len(),
            forall|i: int| pos <= i < p ==> is_space(#[trigger] cs@[i]),
        decreases cs@.len() - p,
    {
        p += 1;
    }
    proof {
        let sub = cs@.subrange(pos as int, p as int);
        assert forall|i: int| 0 <= i < sub.len() implies is_space(#[trigger] sub[i]) by {
            assert(sub[i] == cs@[pos + i]);
        }
        lemma_compact_blank(sub);
        if p > pos {
            assert(is_space(cs@[pos as int]));
        }
    }
    p
}

/// Reads the identifier that starts at `pos`; returns it and the index after it.
fn read_ident(cs: &Vec<char>, pos: usize) -> (r: (String, usize))
    requires
        pos < cs@.len(),
        is_letter(cs@[pos as int]),
    ensures
        pos < r.1 <= cs@.len(),
        r.0@ == cs@.subrange(pos as int, r.1 as int),
        is_ident(r.0@),
        compact(r.0@) == r.0@,
        forall|i: int| pos <= i < r.1 ==> #[trigger] is_ident_char(cs@[i]),
        r.1 == cs@.len() || !is_ident_char(cs@[r.1 as int]),
{
    let mut out: Vec<char> = Vec::new();
    let mut p = pos;
    while p < cs.len() && ident_char(cs[p])
        invariant
            pos <= p <= cs@.len(),
            out@ == cs@.subrange(pos as int, p as int),
            forall|i: int| 0 <= i < out@.len() ==> #[trigger] is_ident_char(out@[i]),
            forall|i: int| pos <= i < p ==> #[trigger] is_ident_char(cs@[i]),
        decreases cs@.len() - p,
    {
        out.push(cs[p]);
        p += 1;
    }
    assert(out@[0] == cs@[pos as int]);
    proof {
        assert forall|i: int| 0 <= i < out@.len() implies !is_space(#[trigger] out@[i]) by {
            assert(is_ident_char(out@[i]));
        }
        lemma_compact_plain(out@);
    }
    (string_of(out), p)
}

/// Reads a run of digits at `pos` into `out`; returns the index after it.
fn read_digits(cs: &Vec<char>, pos: usize, out: &mut Vec<char>) -> (r: usize)
    requires
        pos <= cs@.len(),
    ensures
        pos <= r <= cs@.len(),
        final(out)@ == old(out)@ + cs@.subrange(pos as int, r as int),
        r == cs@.len() || !is_digit(cs@[r as int]),
        forall|i: int| pos <= i < r ==> #[trigger] is_digit(cs@[i]),
{
    let mut p = pos;
    while p < cs.len() && digit(cs[p])
        invariant
            pos <= p <= cs@.len(),
            out@ == old(out)@ + cs@.subrange(pos as int, p as int),
            forall|i: int| pos <= i < p ==> #[trigger] is_digit(cs@[i]),
        decreases cs@.len() - p,
    {
        out.push(cs[p]);
        p += 1;
        assert(out@ == old(out)@ + cs@.subrange(pos as int, p as int));
    }
    p
}

/// Reads the numeral that starts at `pos`: digits, then a point and
/// digits where a digit follows the point.
fn read_number(cs: &Vec<char>, pos: usize, Ghost(w): Ghost<Seq<char>>) -> (r: (String, usize))
    requires
        pos < cs@.len(),
        is_digit(cs@[pos as int]),
    ensures
        pos < r.1 <= cs@.len(),
        r.0@ == cs@.subrange(pos as int, r.1 as int),
        is_numeral(r.0@),
        compact(r.0@) == r.0@,
        at(cs@, pos as int, w) && is_numeral(w) && (pos + w.len() == cs@.len() || !(is_digit(
            cs@[pos + w.len()],
        ) || cs@[pos + w.len()] == '.')) ==> r.1 == pos + w.len(),
{
    let mut out: Vec<char> = Vec::new();
    let p = read_digits(cs, pos, &mut out);
    assert(out@ == cs@.subrange(pos as int, p as int));
    let ghost m = pos + w.len();
    let ghost fits = at(cs@, pos as int, w) && is_numeral(w) && (m == cs@.len() || !(is_digit(cs@[m])
        || cs@[m] == '.'));
    let ghost dotted = fits && exists|k: int|
        0 < k < w.len() - 1 && w[k] == '.' && (forall|i: int|
            0 <= i < w.len() && i != k ==> #[trigger] is_digit(w[i]));
    proof {
        if fits && !dotted {
            assert forall|i: int| pos <= i < m implies #[trigger] is_digit(cs@[i]) by {
                lemma_at_index(cs@, pos as int, w, i - pos);
            }
            lemma_run_end(cs@, pos as int, p as int, m, |c: char| is_digit(c));
        }
    }
    if p < cs.len() && cs[p] == '.' && p + 1 < cs.len() && digit(cs[p + 1]) {
        out.push('.');
        let q = read_digits(cs, p + 1, &mut out);
        proof {
            if fits {
                if dotted {
                    let k = choose|k: int|
                        0 < k < w.len() - 1 && w[k] == '.' && (forall|i: int|
                            0 <= i < w.len() && i != k ==> #[trigger] is_digit(w[i]));
                    assert forall|i: int| pos <= i < pos + k implies #[trigger] is_digit(cs@[i]) by {
                        lemma_at_index(cs@, pos as int, w, i - pos);
                    }
                    lemma_at_index(cs@, pos as int, w, k);
                    lemma_run_end(cs@, pos as int, p as int, pos + k, |c: char| is_digit(c));
                    assert forall|i: int| p + 1 <= i < m implies #[trigger] is_digit(cs@[i]) by {
                        lemma_at_index(cs@, pos as int, w, i - pos);
                    }
                    lemma_run_end(cs@, p + 1, q as int, m, |c: char| is_digit(c));
                } else {
                    assert(false);
                }
            }
        }
        let ghost k = p - pos;
        assert(out@ =~= cs@.subrange(pos as int, q as int));
        assert forall|i: int| 0 <= i < out@.len() && i != k implies #[trigger] is_digit(out@[i]) by {
            assert(out@[i] == cs@[pos + i]);
        }
        proof {
            assert forall|i: int| 0 <= i < out@.len() implies !is_space(#[trigger] out@[i]) by {
                if i != k {
                    assert(is_digit(out@[i]));
                }
            }
            lemma_compact_plain(out@);
        }
        (string_of(out), q)
    } else {
        proof {
            if dotted {
                let k = choose|k: int|
                    0 < k < w.len() - 1 && w[k] == '.' && (forall|i: int|
                        0 <= i < w.len() && i != k ==> #[trigger] is_digit(w[i]));
                assert forall|i: int| pos <= i < pos + k implies #[trigger] is_digit(cs@[i]) by {
                    lemma_at_index(cs@, pos as int, w, i - pos);
                }
                lemma_at_index(cs@, pos as int, w, k);
                lemma_at_index(cs@, pos as int, w, k + 1);
                lemma_run_end(cs@, pos as int, p as int, pos + k, |c: char| is_digit(c));
            }
        }
        assert forall|i: int| 0 <= i < out@.len() implies #[trigger] is_digit(out@[i]) by {
            assert(out@[i] == cs@[pos + i]);
        }
        proof {
            assert forall|i: int| 0 <= i < out@.len() implies !is_space(#[trigger] out@[i]) by {
                assert(is_digit(out@[i]));
            }
            lemma_compact_plain(out@);
        }
        (string_of(out), p)
    }
}

/// Reads the raw text on the right of `=`; `None` where it is empty.
fn read_raw_value(cs: &Vec<char>, pos: usize) -> (r: Option<(String, usize)>)
    requires
        pos <= cs@.len(),
    ensures
        match r {
            Some((s, e)) => pos < e <= cs@.len() && is_raw_value(s@) && s@ == cs@.subrange(
                pos as int,
                e as int,
            ) && compact(s@) == s@ && (forall|i: int|
                pos <= i < e ==> #[trigger] is_ident_char(cs@[i]) || cs@[i] == '.') && (e == cs@.len()
                || !(is_ident_char(cs@[e as int]) || cs@[e as int] == '.')),
            None => pos == cs@.len() || !(is_ident_char(cs@[pos as int]) || cs@[pos as int] == '.'),
        },
{
    let mut out: Vec<char> = Vec::new();
    let mut p = pos;
    while p < cs.len() && (ident_char(cs[p]) || cs[p] == '.')
        invariant
            pos <= p <= cs@.len(),
            out@ == cs@.subrange(pos as int, p as int),
            forall|i: int| 0 <= i < out@.len() ==> is_ident_char(#[trigger] out@[i]) || out@[i] == '.',
            forall|i: int| pos <= i < p ==> #[trigger] is_ident_char(cs@[i]) || cs@[i] == '.',
        decreases cs@.len() - p,
    {
        out.push(cs[p]);
        p += 1;
    }
    if p == pos {
        None
    } else {
        proof {
            assert forall|i: int| 0 <= i < out@.len() implies !is_space(#[trigger] out@[i]) by {
                assert(is_ident_char(out@[i]) || out@[i] == '.');
            }
            lemma_compact_plain(out@);
        }
        Some((string_of(out), p))
    }
}

/// Reads one parameter slot at `pos`; on failure, the index where it
/// stopped. A malformed slot is an error, not a slot to drop (see `ParamItem`).
fn parse_param(cs: &Vec<char>, pos: usize, Ghost(it): Ghost<ParamItem>) -> (r: Result<(ParamItem, usize), usize>)
    requires
        pos <= cs@.len(),
    ensures
        match r {
            Ok((item, e)) => pos <= e <= cs@.len() && item_wf(item) && compact(
                cs@.subrange(pos as int, e as int),
            ) == render_item(item),
            Err(e) => e <= cs@.len(),
        },
        slot_fits(cs@, pos as int, it) ==> (r matches Ok((_, e)) && e == pos + render_item(it).len()),
{
    let ghost good = slot_fits(cs@, pos as int, it);
    let ghost ri = render_item(it);
    let ghost end = pos + ri.len();
    let p = skip_spaces(cs, pos);
    proof {
        if good {
            match it {
                ParamItem::Path(ts) => {
                    if ts@.len() > 0 {
                        lemma_join_segments_tail(ts@);
                        lemma_segs_tail_rest(ts@, 0);
                        lemma_at_split(cs@, pos as int, ts@[0]@, segs_rest(ts@, 1));
                        lemma_at_index(cs@, pos as int, ts@[0]@, 0);
                    }
                },
                ParamItem::Compare(l, rv) => {
                    assert(ri =~= l@ + (seq!['='] + rv@));
                    lemma_at_split(cs@, pos as int, l@, seq!['='] + rv@);
                    lemma_at_index(cs@, pos as int, l@, 0);
                },
            }
        }
    }
    if p == cs.len() || !letter(cs[p]) {
        return Ok((ParamItem::Path(Vec::new()), p));
    }
    let (first, p1) = read_ident(cs, p);
    let q = skip_spaces(cs, p1);
    proof {
        if good {
            let w = match it {
                ParamItem::Path(ts) => ts@[0]@,
                ParamItem::Compare(l, _) => l@,
            };
            assert forall|i: int| pos <= i < pos + w.len() implies #[trigger] is_ident_char(cs@[i]) by {
                lemma_at_index(cs@, pos as int, w, i - pos);
                match it {
                    ParamItem::Path(ts) => assert(is_ident(ts@[0]@)),
                    ParamItem::Compare(l, _) => {},
                }
            }
            match it {
                ParamItem::Path(ts) => {
                    if ts@.len() > 1 {
                        lemma_at_split(cs@, pos + w.len(), seq!['.'], segs_tail(ts@, 1));
                        lemma_at_index(cs@, pos + w.len(), seq!['.'], 0);
                    }
                },
                ParamItem::Compare(l, rv) => {
                    lemma_at_split(cs@, pos + w.len(), seq!['='], rv@);
                    lemma_at_index(cs@, pos + w.len(), seq!['='], 0);
                },
            }
            lemma_run_end(cs@, pos as int, p1 as int, pos + w.len(), |c: char| is_ident_char(c));
        }
    }
    if q < cs.len() && cs[q] == '=' {
        let v = skip_spaces(cs, q + 1);
        let rr = read_raw_value(cs, v);
        proof {
            if good {
                if let ParamItem::Compare(l, rv) = it {
                    lemma_at_split(cs@, pos + l@.len(), seq!['='], rv@);
                    lemma_at_index(cs@, v as int, rv@, 0);
                    assert forall|i: int| v <= i < v + rv@.len() implies #[trigger] is_ident_char(cs@[i])
                        || cs@[i] == '.' by {
                        lemma_at_index(cs@, v as int, rv@, i - v);
                    }
                    if let Some((_, e)) = rr {
                        lemma_run_end(cs@, v as int, e as int, v + rv@.len(), |c: char| is_ident_char(c) || c == '.');
                    }
                }
            }
        }
        match rr {
            Some((right, e)) => {
                proof {
                    lemma_compact_split(cs@, pos as int, p as int, e as int);
                    lemma_compact_split(cs@, p as int, p1 as int, e as int);
                    lemma_compact_split(cs@, p1 as int, q as int, e as int);
                    lemma_compact_split(cs@, q as int, q + 1, e as int);
                    lemma_compact_split(cs@, q + 1, v as int, e as int);
                    lemma_compact_char(cs@, q as int);
                    assert(compact(cs@.subrange(pos as int, e as int)) =~= first@ + seq!['='] + right@);
                }
                Ok((ParamItem::Compare(first, right), e))
            },
            None => Err(v),
        }
    } else {
        proof {
            lemma_compact_split(cs@, pos as int, p as int, p1 as int);
        }
        let mut segs: Vec<String> = Vec::new();
        segs.push(first);
        let mut p = p1;
        assert(join_segments(segs@) == segs@[0]@);
        while p < cs.len() && cs[p] == '.'
            invariant
                pos <= p <= cs@.len(),
                segs@.len() >= 1,
                compact(cs@.subrange(pos as int, p as int)) == join_segments(segs@),
                forall|i: int| 0 <= i < segs@.len() ==> is_ident(#[trigger] segs@[i]@),
                good == slot_fits(cs@, pos as int, it),
                end == pos + render_item(it).len(),
                good ==> (it matches ParamItem::Path(ts) && segs@.len() <= ts@.len() && at(
                    cs@,
                    p as int,
                    segs_rest(ts@, segs@.len() as int),
                ) && p + segs_rest(ts@, segs@.len() as int).len() == end),
            decreases cs@.len() - p,
        {
            proof {
                if good {
                    if let ParamItem::Path(ts) = it {
                        let k = segs@.len() as int;
                        if k >= ts@.len() {
                            assert(p == end);
                        }
                        lemma_segs_tail_rest(ts@, k);
                        lemma_at_split(cs@, p as int, seq!['.'], segs_tail(ts@, k));
                        lemma_at_split(cs@, p + 1, ts@[k]@, segs_rest(ts@, k + 1));
                        lemma_at_index(cs@, p + 1, ts@[k]@, 0);
                    }
                }
            }
            if p + 1 < cs.len() && letter(cs[p + 1]) {
                let (seg, e) = read_ident(cs, p + 1);
                proof {
                    if good {
                        if let ParamItem::Path(ts) = it {
                            let k = segs@.len() as int;
                            let w = ts@[k]@;
                            assert(is_ident(w));
                            assert forall|i: int| p + 1 <= i < p + 1 + w.len() implies #[trigger] is_ident_char(
                                cs@[i],
                            ) by {
                                lemma_at_index(cs@, p + 1, w, i - (p + 1));
                            }
                            if k + 1 < ts@.len() {
                                lemma_segs_tail_rest(ts@, k + 1);
                                lemma_at_index(cs@, p + 1 + w.len(), segs_rest(ts@, k + 1), 0);
                            }
                            lemma_run_end(cs@, p + 1, e as int, p + 1 + w.len(), |c: char| is_ident_char(c));
                        }
                    }
                }
                let ghost prev = segs@;
                segs.push(seg);
                proof {
                    lemma_compact_split(cs@, pos as int, p as int, e as int);
                    lemma_compact_split(cs@, p as int, p + 1, e as int);
                    lemma_compact_char(cs@, p as int);
                    assert(segs@.drop_last() =~= prev);
                }
                p = e;
            } else {
                return Err(p + 1);
            }
        }
        proof {
            if good {
                if let ParamItem::Path(ts) = it {
                    if segs@.len() < ts@.len() {
                        lemma_at_index(cs@, p as int, segs_rest(ts@, segs@.len() as int), 0);
                    }
                }
            }
        }
        Ok((ParamItem::Path(segs), p))
    }
}

/// Reads the parameter slots after `(` up to the matching `)`; returns
/// them and the index after `)`.
fn parse_params(cs: &Vec<char>, pos: usize, Ghost(its): Ghost<Seq<ParamItem>>) -> (r: Result<
    (Vec<ParamItem>, usize),
    usize,
>)
    requires
        pos <= cs@.len(),
    ensures
        match r {
            Ok((items, e)) => pos < e <= cs@.len() && items@.len() > 0 && (forall|i: int|
                0 <= i < items@.len() ==> #[trigger] item_wf(items@[i])) && compact(
                cs@.subrange(pos as int, e as int),
            ) == render_items(items@) + seq![')'],
            Err(e) => e <= cs@.len(),
        },
        params_fit(cs@, pos as int, its) ==> (r matches Ok((_, e)) && e == pos + render_items(its).len()
            + 1),
{
    let ghost good = params_fit(cs@, pos as int, its);
    let ghost end = pos + render_items(its).len();
    let mut items: Vec<ParamItem> = Vec::new();
    let mut p = pos;
    assert(cs@.subrange(pos as int, pos as int) =~= Seq::<char>::empty());
    proof {
        if good {
            lemma_render_items_tail(its);
        }
    }
    loop
        invariant
            good == params_fit(cs@, pos as int, its),
            end == pos + render_items(its).len(),
            good ==> (items@.len() < its.len() && at(cs@, p as int, items_tail(its, items@.len() as int)
                + seq![')']) && p + items_tail(its, items@.len() as int).len() == end),
            pos <= p <= cs@.len(),
            forall|i: int| 0 <= i < items@.len() ==> #[trigger] item_wf(items@[i]),
            compact(cs@.subrange(pos as int, p as int)) == (if items@.len() == 0 {
                Seq::<char>::empty()
            } else {
                render_items(items@) + seq![';']
            }),
        decreases cs@.len() - p,
    {
        let ghost k = items@.len() as int;
        proof {
            if good {
                let x = its[k];
                lemma_items_tail_rest(its, k);
                assert(items_tail(its, k) + seq![')'] =~= render_item(x) + (items_rest(its, k + 1) + seq![')']));
                lemma_at_split(cs@, p as int, render_item(x), items_rest(its, k + 1) + seq![')']);
                lemma_at_index(cs@, p + render_item(x).len(), items_rest(its, k + 1) + seq![')'], 0);
                if k + 1 < its.len() {
                    assert(items_rest(its, k + 1) + seq![')'] =~= seq![';'] + (items_tail(its, k + 1) + seq![')']));
                    lemma_at_split(cs@, p + render_item(x).len(), seq![';'], items_tail(its, k + 1) + seq![')']);
                }
                assert(slot_fits(cs@, p as int, x));
            }
        }
        match parse_param(cs, p, Ghost(its[k])) {
            Ok((item, e)) => {
                let ghost prev = items@;
                items.push(item);
                let q = skip_spaces(cs, e);
                proof {
                    assert(items@.drop_last() =~= prev);
                    lemma_compact_split(cs@, pos as int, p as int, e as int);
                    lemma_compact_split(cs@, pos as int, e as int, q as int);
                    if prev.len() == 0 {
                        assert(compact(cs@.subrange(pos as int, q as int)) =~= render_items(items@));
                    } else {
                        assert(compact(cs@.subrange(pos as int, q as int)) =~= render_items(items@));
                    }
                }
                if q < cs.len() && cs[q] == ';' {
                    proof {
                        lemma_compact_split(cs@, pos as int, q as int, q + 1);
                        lemma_compact_char(cs@, q as int);
                    }
                    p = q + 1;
                } else if q < cs.len() && cs[q] == ')' {
                    proof {
                        lemma_compact_split(cs@, pos as int, q as int, q + 1);
                        lemma_compact_char(cs@, q as int);
                    }
                    return Ok((items, q + 1));
                } else {
                    return Err(q);
                }
            },
            Err(e) => {
                return Err(e);
            },
        }
    }
}

/// `render_seq` reads only the operators between the operands.
proof fn lemma_render_ops(s: Seq<Pair>, ops1: Seq<BinOp>, ops2: Seq<BinOp>)
    requires
        forall|j: int| 0 <= j < s.len() - 1 ==> ops1[j] == ops2[j],
    ensures
        render_seq(s, ops1) == render_seq(s, ops2),
    decreases s.len(),
{
    if s.len() > 1 {
        lemma_render_ops(s.drop_last(), ops1, ops2);
    }
}

/// Reads an expression at `pos`, up to the end of the text or a `)` that
/// it does not open; returns its tree and the index where it stopped.
#[verifier::rlimit(100)]
#[verifier::spinoff_prover]
fn parse_expr(cs: &Vec<char>, pos: usize, Ghost(t): Ghost<Pairs>) -> (r: Result<(Pairs, usize), usize>)
    requires
        pos <= cs@.len(),
    ensures
        match r {
            Ok((tree, e)) => pos <= e <= cs@.len() && pairs_wf(tree) && (e == cs@.len() || cs@[e as int]
                == ')') && compact(cs@.subrange(pos as int, e as int)) == render_pairs(tree),
            Err(e) => e <= cs@.len(),
        },
        expr_fits(cs@, pos as int, t) ==> (r matches Ok((_, e)) && e == pos + render_pairs(t).len()),
    decreases cs@.len() - pos,
{
    let ghost good = expr_fits(cs@, pos as int, t);
    let ghost end = pos + render_pairs(t).len();
    let ghost ts = t.operands@;
    let ghost tops = t.operators@;
    let mut operands: Vec<Pair> = Vec::new();
    let mut operators: Vec<BinOp> = Vec::new();
    let mut p = pos;
    assert(cs@.subrange(pos as int, pos as int) =~= Seq::<char>::empty());
    proof {
        if good {
            lemma_render_seq_tail(ts, tops);
        }
    }
    loop
        invariant
            good == expr_fits(cs@, pos as int, t),
            end == pos + render_pairs(t).len(),
            ts == t.operands@,
            tops == t.operators@,
            good ==> (operands@.len() < ts.len() && at(cs@, p as int, seq_tail(ts, tops, operands@.len() as int))
                && p + seq_tail(ts, tops, operands@.len() as int).len() == end),
            pos <= p <= cs@.len(),
            operands@.len() == operators@.len(),
            operands_wf(operands@),
            compact(cs@.subrange(pos as int, p as int)) == (if operands@.len() == 0 {
                Seq::<char>::empty()
            } else {
                render_seq(operands@, operators@) + seq![operator_char(operators@.last())]
            }),
        decreases cs@.len() - p,
    {
        let ghost prev = operands@;
        let ghost n = operands@.len() as int;
        let ghost x = ts[n];
        let ghost rest = seq_rest(ts, tops, n + 1);
        let ghost px = p + render_pair(x).len();
        proof {
            if good {
                lemma_operands_wf_index(ts, n);
                lemma_seq_tail_rest(ts, tops, n);
                lemma_at_split(cs@, p as int, render_pair(x), rest);
                lemma_pair_start(x);
                lemma_at_index(cs@, p as int, render_pair(x), 0);
                if n + 1 < ts.len() {
                    lemma_at_index(cs@, px, rest, 0);
                    assert(rest[0] == operator_char(tops[n]));
                    lemma_at_split(cs@, px, seq![operator_char(tops[n])], seq_tail(ts, tops, n + 1));
                } else {
                    assert(px == end);
                }
                // what follows the operand ends every token reader's run
                assert(px == cs@.len() || cs@[px] == ')' || (cs@[px] == operator_char(tops[n])));
            }
        }
        let q = skip_spaces(cs, p);
        if q == cs.len() {
            return Err(q);
        }
        let c = cs[q];
        let after: usize;
        if digit(c) {
            let (text, e) = read_number(cs, q, Ghost(match x {
                Pair::Number(sx) => sx@,
                _ => Seq::empty(),
            }));
            assert(good ==> x is Number);
            operands.push(Pair::Number(text));
            after = e;
        } else if letter(c) {
            let (name, e) = read_ident(cs, q);
            proof {
                if good {
                    let w = match x {
                        Pair::Ident(sx) => sx@,
                        Pair::Function(nm, _) => nm@,
                        _ => Seq::empty(),
                    };
                    match x {
                        Pair::Ident(sx) => {},
                        Pair::Function(nm, items) => {
                            assert(render_pair(x) =~= nm@ + (seq!['('] + (render_items(items@) + seq![')'])));
                            lemma_at_split(cs@, p as int, nm@, seq!['('] + (render_items(items@) + seq![')']));
                            lemma_at_index(cs@, p + nm@.len(), seq!['('] + (render_items(items@) + seq![')']), 0);
                        },
                        _ => {
                            assert(false);
                        },
                    }
                    assert forall|i: int| p <= i < p + w.len() implies #[trigger] is_ident_char(cs@[i]) by {
                        lemma_at_index(cs@, p as int, render_pair(x), i - p);
                        if let Pair::Function(nm, items) = x {
                            lemma_at_index(cs@, p as int, nm@, i - p);
                        }
                    }
                    lemma_run_end(cs@, p as int, e as int, p + w.len(), |c: char| is_ident_char(c));
                }
            }
            let f = skip_spaces(cs, e);
            proof {
                if good {
                    if let Pair::Function(nm, items) = x {
                        lemma_at_split(cs@, p + nm@.len(), seq!['('], render_items(items@) + seq![')']);
                        assert(params_fit(cs@, f + 1, items@));
                    }
                }
            }
            if f < cs.len() && cs[f] == '(' {
                match parse_params(cs, f + 1, Ghost(match x {
                    Pair::Function(_, items) => items@,
                    _ => Seq::empty(),
                })) {
                    Ok((items, e2)) => {
                        proof {
                            lemma_compact_split(cs@, q as int, e as int, e2 as int);
                            lemma_compact_split(cs@, e as int, f as int, e2 as int);
                            lemma_compact_split(cs@, f as int, f + 1, e2 as int);
                            lemma_compact_char(cs@, f as int);
                            assert(compact(cs@.subrange(q as int, e2 as int)) =~= name@ + seq!['(']
                                + render_items(items@) + seq![')']);
                        }
                        operands.push(Pair::Function(name, items));
                        after = e2;
                    },
                    Err(e2) => {
                        return Err(e2);
                    },
                }
            } else {
                operands.push(Pair::Ident(name));
                after = e;
            }
        } else if c == '(' {
            proof {
                if good {
                    if let Pair::Group(inner) = x {
                        assert(render_pair(x) =~= seq!['('] + (render_pairs(*inner) + seq![')']));
                        lemma_at_split(cs@, p as int, seq!['('], render_pairs(*inner) + seq![')']);
                        lemma_at_split(cs@, p + 1, render_pairs(*inner), seq![')']);
                        lemma_at_index(cs@, p + 1 + render_pairs(*inner).len(), seq![')'], 0);
                        assert(expr_fits(cs@, q + 1, *inner));
                    } else {
                        assert(false);
                    }
                }
            }
            match parse_expr(cs, q + 1, Ghost(match x {
                Pair::Group(inner) => *inner,
                _ => t,
            })) {
                Ok((inner, e)) => {
                    if e < cs.len() {
                        proof {
                            lemma_compact_split(cs@, q as int, q + 1, e + 1);
                            lemma_compact_split(cs@, q + 1, e as int, e + 1);
                            lemma_compact_char(cs@, q as int);
                            lemma_compact_char(cs@, e as int);
                            assert(compact(cs@.subrange(q as int, e + 1)) =~= seq!['('] + render_pairs(
                                inner,
                            ) + seq![')']);
                        }
                        operands.push(Pair::Group(Box::new(inner)));
                        after = e + 1;
                    } else {
                        return Err(e);
                    }
                },
                Err(e) => {
                    return Err(e);
                },
            }
        } else {
            return Err(q);
        }
        assert(operands@.drop_last() =~= prev);
        assert(pair_wf(operands@.last()));
        assert(good ==> after == px);
        let o = skip_spaces(cs, after);
        proof {
            assert(compact(cs@.subrange(q as int, after as int)) == render_pair(operands@.last()));
            lemma_compact_split(cs@, pos as int, p as int, q as int);
            lemma_compact_split(cs@, pos as int, q as int, after as int);
            lemma_compact_split(cs@, pos as int, after as int, o as int);
            if prev.len() == 0 {
                assert(compact(cs@.subrange(pos as int, o as int)) =~= render_seq(operands@, operators@));
            } else {
                assert(compact(cs@.subrange(pos as int, o as int)) =~= render_seq(operands@, operators@));
            }
        }
        if o == cs.len() || cs[o] == ')' {
            let tree = Pairs { operands, operators };
            return Ok((tree, o));
        }
        match operator_of(cs[o]) {
            Some(op) => {
                let ghost before_ops = operators@;
                operators.push(op);
                proof {
                    lemma_render_ops(operands@, before_ops, operators@);
                    lemma_compact_split(cs@, pos as int, o as int, o + 1);
                    lemma_compact_char(cs@, o as int);
                }
                p = o + 1;
            },
            None => {
                return Err(o);
            },
        }
    }
}

/// The formula grammar:
/// `expr := term (op term)*`, `term := number | ident | ident "(" params ")" | "(" expr ")"`,
/// `params := [param] (";" [param])*`, `param := ident ("." ident)* | ident "=" value`,
/// with blanks allowed between tokens.
pub struct Calculator;

impl Calculator {
    /// Parses a formula into its tree; see [`parse`].
    pub fn parse(input: &str) -> (r: Result<Pairs, ParseError>)
        ensures
            match r {
                Ok(tree) => pairs_wf(tree) && spaced(input@, tree),
                Err(e) => e.input@ == input@ && e.position <= input@.len(),
            },
            (exists|t: Pairs| pairs_wf(t) && spaced(input@, t)) ==> r is Ok,
    {
        parse(input)
    }
}

/// A character that belongs to a multi-character token: a name, a
/// numeral, a filter value or a dotted path.
pub open spec fn glue(c: char) -> bool {
    is_ident_char(c) || c == '.'
}

/// No run of blanks stands between two characters that would otherwise
/// belong to one token (`a b`, `1 .5`, `a . b`).
pub open spec fn no_glued_blank(s: Seq<char>) -> bool {
    forall|i: int, j: int|
        0 <= i && i + 1 < j < s.len() && #[trigger] glue(s[i]) && #[trigger] glue(s[j]) ==> exists|k: int|
            i < k < j && !is_space(#[trigger] s[k])
}

/// `s` is the text of `t` with blanks between tokens: without its blanks it
/// is the text of `t`, and no blank splits a token.
pub open spec fn spaced(s: Seq<char>, t: Pairs) -> bool {
    render_pairs(t) == compact(s) && no_glued_blank(s)
}

proof fn lemma_compact_no_blanks(s: Seq<char>)
    ensures
        no_blanks(compact(s)),
    decreases s.len(),
{
    if s.len() > 0 {
        lemma_compact_no_blanks(s.drop_last());
        let d = compact(s.drop_last());
        if !is_space(s.last()) {
            assert forall|i: int| 0 <= i < d.push(s.last()).len() implies !is_space(
                #[trigger] d.push(s.last())[i],
            ) by {
                if i < d.len() {
                    assert(d.push(s.last())[i] == d[i]);
                }
            }
        }
    }
}

/// The index of the first character that a run of blanks parts from a
/// character of the same token, if any.
fn find_glued_blank(cs: &Vec<char>) -> (r: Option<usize>)
    ensures
        match r {
            None => no_glued_blank(cs@),
            Some(j) => j < cs@.len() && !no_glued_blank(cs@),
        },
{
    let mut last: Option<usize> = None;
    let mut k: usize = 0;
    while k < cs.len()
        invariant
            k <= cs@.len(),
            match last {
                None => forall|m: int| 0 <= m < k ==> is_space(#[trigger] cs@[m]),
                Some(l) => l < k && !is_space(cs@[l as int]) && forall|m: int|
                    l < m < k ==> is_space(#[trigger] cs@[m]),
            },
            forall|i: int, j: int|
                0 <= i && i + 1 < j < k && #[trigger] glue(cs@[i]) && #[trigger] glue(cs@[j]) ==> exists|
                    m: int,
                | i < m < j && !is_space(#[trigger] cs@[m]),
        decreases cs@.len() - k,
    {
        let c = cs[k];
        if !(c == ' ' || c == '\t' || c == '\n' || c == '\r') {
            if let Some(l) = last {
                if l + 1 < k && (ident_char(cs[l]) || cs[l] == '.') && (ident_char(c) || c == '.') {
                    assert(!no_glued_blank(cs@)) by {
                        assert(glue(cs@[l as int]) && glue(cs@[k as int]));
                        if exists|m: int| l < m < k && !is_space(#[trigger] cs@[m]) {
                            let m = choose|m: int| l < m < k && !is_space(#[trigger] cs@[m]);
                            assert(is_space(cs@[m]));
                        }
                    }
                    return Some(k);
                }
            }
            assert forall|i: int, j: int|
                0 <= i && i + 1 < j < k + 1 && #[trigger] glue(cs@[i]) && #[trigger] glue(cs@[j]) implies exists|
                    m: int,
                | i < m < j && !is_space(#[trigger] cs@[m]) by {
                if j == k {
                    match last {
                        None => {
                            assert(is_space(cs@[i]));
                        },
                        Some(l) => {
                            if i < l {
                                assert(!is_space(cs@[l as int]));
                            } else if i > l {
                                assert(is_space(cs@[i]));
                            }
                        },
                    }
                }
            }
            last = Some(k);
        } else {
            assert forall|i: int, j: int|
                0 <= i && i + 1 < j < k + 1 && #[trigger] glue(cs@[i]) && #[trigger] glue(cs@[j]) implies exists|
                    m: int,
                | i < m < j && !is_space(#[trigger] cs@[m]) by {
                if j == k {
                    assert(is_space(cs@[j]));
                }
            }
        }
        k += 1;
    }
    None
}

/// The characters without their blanks, and for each the index it had.
fn without_blanks(cs: &Vec<char>) -> (r: (Vec<char>, Vec<usize>))
    ensures
        r.0@ == compact(cs@),
        r.1@.len() == r.0@.len(),
        forall|i: int| 0 <= i < r.1@.len() ==> #[trigger] r.1@[i] < cs@.len(),
{
    let mut out: Vec<char> = Vec::new();
    let mut orig: Vec<usize> = Vec::new();
    let mut k: usize = 0;
    assert(cs@.subrange(0, 0) =~= Seq::<char>::empty());
    while k < cs.len()
        invariant
            k <= cs@.len(),
            out@ == compact(cs@.subrange(0, k as int)),
            orig@.len() == out@.len(),
            forall|i: int| 0 <= i < orig@.len() ==> #[trigger] orig@[i] < cs@.len(),
        decreases cs@.len() - k,
    {
        assert(cs@.subrange(0, k + 1).drop_last() =~= cs@.subrange(0, k as int));
        assert(cs@.subrange(0, k + 1).last() == cs@[k as int]);
        let c = cs[k];
        if !(c == ' ' || c == '\t' || c == '\n' || c == '\r') {
            out.push(c);
            orig.push(k);
        }
        k += 1;
    }
    assert(cs@.subrange(0, cs@.len() as int) =~= cs@);
    (out, orig)
}

/// The index in the text of the character at `e` of its blank-free form.
fn input_position(orig: &Vec<usize>, e: usize, n: usize) -> (r: usize)
    requires
        forall|i: int| 0 <= i < orig@.len() ==> #[trigger] orig@[i] < n,
    ensures
        r <= n,
{
    if e < orig.len() {
        orig[e]
    } else {
        n
    }
}

/// Parses a formula into its tree. Blanks may stand between tokens but
/// not inside one. The text parses exactly when it is the text of some
/// well-formed tree with such blanks, and the tree returned is one of
/// those. On failure the error holds the input and the position where
/// reading stopped.
pub fn parse(input: &str) -> (r: Result<Pairs, ParseError>)
    ensures
        match r {
            Ok(tree) => pairs_wf(tree) && spaced(input@, tree),
            Err(e) => e.input@ == input@ && e.position <= input@.len(),
        },
        (exists|t: Pairs| pairs_wf(t) && spaced(input@, t)) ==> r is Ok,
{
    let cs = chars_of(input);
    if let Some(bad) = find_glued_blank(&cs) {
        return Err(ParseError { input: input.to_owned(), position: bad });
    }
    let (flat, orig) = without_blanks(&cs);
    let ghost t = choose|t: Pairs| pairs_wf(t) && spaced(input@, t);
    proof {
        lemma_compact_no_blanks(cs@);
        assert(flat@.subrange(0, flat@.len() as int) =~= flat@);
        if exists|t: Pairs| pairs_wf(t) && spaced(input@, t) {
            assert(expr_fits(flat@, 0, t));
        }
    }
    match parse_expr(&flat, 0, Ghost(t)) {
        Ok((tree, e)) => {
            if e == flat.len() {
                proof {
                    lemma_compact_plain(flat@);
                }
                Ok(tree)
            } else {
                Err(ParseError { input: input.to_owned(), position: input_position(&orig, e, cs.len()) })
            }
        },
        Err(e) => Err(ParseError { input: input.to_owned(), position: input_position(&orig, e, cs.len()) }),
    }
}

} // verus!
