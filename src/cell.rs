//! Cells: immutable nodes of at most 1023 bits and four child references,
//! shared between parents; the tree they form is their view.

use crate::bitstring::{hex_text, parse_bitstring, parse_text, to_hex_string};
use crate::error::Error;
use std::rc::Rc;
use vstd::prelude::*;
use vstd::string::*;

verus! {

/// Largest number of data bits in one cell.
pub const MAX_DATA_BITS: usize = 1023;

/// Largest number of child references in one cell.
pub const MAX_REFS: usize = 4;

/// The tree that a cell stands for: its bits and, in order, its children.
pub struct CellView {
    pub bits: Seq<bool>,
    pub refs: Seq<CellView>,
}

/// Number of nodes of a forest, each counted once per edge that reaches it.
pub open spec fn forest_size(f: Seq<CellView>) -> nat
    decreases f,
{
    if f.len() == 0 {
        0
    } else {
        forest_size(f.drop_last()) + 1 + forest_size(f.last().refs)
    }
}

/// Number of nodes of a tree, each counted once per path from the root.
pub open spec fn tree_size(t: CellView) -> nat {
    forest_size(seq![t])
}

/// `tab` written `n` times.
pub open spec fn repeat_text(tab: Seq<char>, n: nat) -> Seq<char>
    decreases n,
{
    if n == 0 {
        Seq::empty()
    } else {
        repeat_text(tab, (n - 1) as nat) + tab
    }
}

/// The dump of one node at depth `indent`, its children given as text.
pub open spec fn node_text(
    t: CellView,
    children: Seq<char>,
    indent: nat,
    ctor: Seq<char>,
    tab: Seq<char>,
) -> Seq<char> {
    repeat_text(tab, indent) + ctor + seq!['(', '"'] + hex_text(t.bits) + seq!['"'] + (if t.refs.len() > 0 {
        seq![',', '\n'] + children
    } else {
        Seq::empty()
    }) + seq![')']
}

/// The dumps of the trees of a forest, each at depth `indent`, one after the
/// other with a comma and a line break between them.
pub open spec fn dump_forest(f: Seq<CellView>, indent: nat, ctor: Seq<char>, tab: Seq<char>) -> Seq<char>
    decreases f,
{
    if f.len() == 0 {
        Seq::empty()
    } else {
        let t = f.last();
        let before = if f.len() == 1 {
            Seq::empty()
        } else {
            dump_forest(f.drop_last(), indent, ctor, tab) + seq![',', '\n']
        };
        before + node_text(t, dump_forest(t.refs, indent + 1, ctor, tab), indent, ctor, tab)
    }
}

/// The dump of a tree: each node as `ctor("<text form of its bits>"`, then its
/// children one level deeper, each on a line of its own, then `)`.
pub open spec fn dump_text(t: CellView, ctor: Seq<char>, tab: Seq<char>) -> Seq<char> {
    dump_forest(seq![t], 0, ctor, tab)
}

proof fn lemma_forest_size_mono(f: Seq<CellView>, j: int)
    requires
        0 <= j <= f.len(),
    ensures
        forest_size(f.take(j)) <= forest_size(f),
    decreases f.len() - j,
{
    if j < f.len() {
        lemma_forest_size_prefix(f, j + 1);
        lemma_forest_size_mono(f, j + 1);
    } else {
        assert(f.take(j) =~= f);
    }
}

proof fn lemma_forest_size_prefix(f: Seq<CellView>, j: int)
    requires
        0 < j <= f.len(),
    ensures
        forest_size(f.take(j)) == forest_size(f.take(j - 1)) + 1 + forest_size(f[j - 1].refs),
{
    assert(f.take(j).drop_last() =~= f.take(j - 1));
}

/// The distinct trees that occur in a forest: its trees and all their subtrees.
pub open spec fn forest_nodes(f: Seq<CellView>) -> Set<CellView>
    decreases f,
{
    if f.len() == 0 {
        Set::empty()
    } else {
        forest_nodes(f.drop_last()).insert(f.last()).union(forest_nodes(f.last().refs))
    }
}

/// The distinct subtrees of a tree, itself included: the nodes of the tree once
/// equal subtrees are counted once.
pub open spec fn tree_nodes(t: CellView) -> Set<CellView> {
    forest_nodes(seq![t])
}

/// The trees of a sequence of cells.
pub open spec fn views(s: Seq<Cell>) -> Seq<CellView> {
    s.map_values(|c: Cell| c@)
}

/// Every child of a tree in `seen` is in `seen` or in `pending`.
pub open spec fn children_covered(seen: Seq<CellView>, pending: Seq<CellView>) -> bool {
    forall|x: CellView, j: int|
        #![trigger seen.contains(x), x.refs[j]]
        seen.contains(x) && 0 <= j < x.refs.len() ==> seen.contains(x.refs[j]) || pending.contains(x.refs[j])
}

pub proof fn lemma_forest_nodes_finite(f: Seq<CellView>)
    ensures
        forest_nodes(f).finite(),
    decreases f,
{
    if f.len() > 0 {
        lemma_forest_nodes_finite(f.drop_last());
        lemma_forest_nodes_finite(f.last().refs);
    }
}

/// Each tree of a forest is one of its nodes.
pub proof fn lemma_forest_nodes_roots(f: Seq<CellView>, i: int)
    requires
        0 <= i < f.len(),
    ensures
        forest_nodes(f).contains(f[i]),
    decreases f,
{
    if i < f.len() - 1 {
        lemma_forest_nodes_roots(f.drop_last(), i);
    }
}

/// The children of a node of a forest are nodes of it too.
pub proof fn lemma_forest_nodes_children(f: Seq<CellView>, x: CellView, j: int)
    requires
        forest_nodes(f).contains(x),
        0 <= j < x.refs.len(),
    ensures
        forest_nodes(f).contains(x.refs[j]),
    decreases f,
{
    if f.len() > 0 {
        let last = f.last();
        if forest_nodes(f.drop_last()).contains(x) {
            lemma_forest_nodes_children(f.drop_last(), x, j);
        } else if x == last {
            lemma_forest_nodes_roots(last.refs, j);
        } else {
            lemma_forest_nodes_children(last.refs, x, j);
        }
    }
}

/// A set that holds the trees of a forest and the children of each of its
/// members holds every node of the forest.
pub proof fn lemma_forest_nodes_within(f: Seq<CellView>, s: Set<CellView>)
    requires
        forall|i: int| 0 <= i < f.len() ==> s.contains(#[trigger] f[i]),
        forall|x: CellView, j: int|
            #![trigger s.contains(x), x.refs[j]]
            s.contains(x) && 0 <= j < x.refs.len() ==> s.contains(x.refs[j]),
    ensures
        forest_nodes(f).subset_of(s),
    decreases f,
{
    if f.len() > 0 {
        let last = f.last();
        lemma_forest_nodes_within(f.drop_last(), s);
        assert(s.contains(f[f.len() - 1]));
        assert forall|i: int| 0 <= i < last.refs.len() implies s.contains(#[trigger] last.refs[i]) by {
            assert(s.contains(last));
        }
        lemma_forest_nodes_within(last.refs, s);
    }
}

/// A duplicate-free sequence of members of a finite set is no longer than the set.
proof fn lemma_views_within(s: Seq<CellView>, n: Set<CellView>)
    requires
        s.no_duplicates(),
        n.finite(),
        forall|k: int| 0 <= k < s.len() ==> n.contains(#[trigger] s[k]),
    ensures
        s.len() <= n.len(),
{
    s.unique_seq_to_set();
    assert(s.to_set().subset_of(n));
    vstd::set_lib::lemma_len_subset(s.to_set(), n);
}

/// Whether a tree equal to `c`'s is among those of `seen`.
fn contains_cell(seen: &Vec<Cell>, c: &Cell) -> (r: bool)
    ensures
        r == views(seen@).contains(c@),
{
    let mut i: usize = 0;
    while i < seen.len()
        invariant
            i <= seen@.len(),
            forall|k: int| 0 <= k < i ==> #[trigger] views(seen@)[k] != c@,
        decreases seen@.len() - i,
    {
        if seen[i].equals(c) {
            assert(views(seen@)[i as int] == c@);
            return true;
        }
        i += 1;
    }
    false
}

struct CellNode {
    bits: Vec<bool>,
    refs: Vec<Cell>,
    tree: Ghost<CellView>,
}

impl CellNode {
    #[verifier::type_invariant]
    spec fn inv(self) -> bool {
        &&& self.tree@.bits == self.bits@
        &&& self.tree@.refs.len() == self.refs@.len()
        &&& forall|i: int| 0 <= i < self.refs@.len() ==> self.tree@.refs[i] == #[trigger] self.refs@[i]@
        &&& self.bits@.len() <= MAX_DATA_BITS
        &&& self.refs@.len() <= MAX_REFS
    }
}

/// An immutable node, shared by reference between its parents.
pub struct Cell {
    node: Rc<CellNode>,
}

impl View for Cell {
    type V = CellView;

    closed spec fn view(&self) -> CellView {
        self.node.tree@
    }
}

impl Cell {
    /// A cell with the given bits and children.
    pub(crate) fn from_parts(bits: Vec<bool>, refs: Vec<Cell>) -> (r: Cell)
        requires
            bits@.len() <= MAX_DATA_BITS,
            refs@.len() <= MAX_REFS,
        ensures
            r@.bits == bits@,
            r@.refs == refs@.map_values(|c: Cell| c@),
    {
        let ghost tree = CellView { bits: bits@, refs: refs@.map_values(|c: Cell| c@) };
        Cell { node: Rc::new(CellNode { bits, refs, tree: Ghost(tree) }) }
    }

    /// Another handle on the same cell.
    pub fn share(&self) -> (r: Cell)
        ensures
            r@ == self@,
    {
        Cell { node: self.node.clone() }
    }

    /// The view of each child is the tree's child.
    fn node_facts(&self)
        ensures
            self@.refs.len() == self.node.refs@.len(),
            forall|i: int| 0 <= i < self@.refs.len() ==> self@.refs[i] == #[trigger] self.node.refs@[i]@,
            self@.bits == self.node.bits@,
            self@.bits.len() <= MAX_DATA_BITS,
            self@.refs.len() <= MAX_REFS,
    {
        proof {
            use_type_invariant(&*self.node);
        }
    }

    /// A cell of the bits that `bitstring` stands for in text form (see
    /// `parse_bitstring`) and of the given children.
    pub fn create(bitstring: &str, refs: Vec<Cell>) -> (r: Result<Cell, Error>)
        requires
            bitstring@.len() <= usize::MAX / 8,
        ensures
            refs@.len() > MAX_REFS ==> r == Err::<Cell, Error>(Error::Bounds),
            refs@.len() <= MAX_REFS && parse_text(bitstring@) is None ==> r == Err::<Cell, Error>(Error::Format),
            refs@.len() <= MAX_REFS && parse_text(bitstring@) is Some ==> {
                let b = parse_text(bitstring@).unwrap();
                if b.len() > MAX_DATA_BITS {
                    r == Err::<Cell, Error>(Error::Bounds)
                } else {
                    r.is_ok() && r.unwrap()@ == (CellView { bits: b, refs: refs@.map_values(|c: Cell| c@) })
                }
            },
    {
        if refs.len() > MAX_REFS {
            return Err(Error::Bounds);
        }
        let bits = parse_bitstring(bitstring)?;
        if bits.len() > MAX_DATA_BITS {
            return Err(Error::Bounds);
        }
        Ok(Cell::from_parts(bits, refs))
    }

    /// The child at `index`.
    pub fn reference(&self, index: usize) -> (r: Result<Cell, Error>)
        ensures
            index < self@.refs.len() ==> r.is_ok() && r.unwrap()@ == self@.refs[index as int],
            index >= self@.refs.len() ==> r == Err::<Cell, Error>(Error::Bounds),
    {
        self.node_facts();
        if index < self.node.refs.len() {
            Ok(self.node.refs[index].share())
        } else {
            Err(Error::Bounds)
        }
    }

    /// Number of children.
    pub fn references_count(&self) -> (r: usize)
        ensures
            r == self@.refs.len(),
    {
        self.node_facts();
        self.node.refs.len()
    }

    /// The cell's bits.
    pub fn bits(&self) -> (r: Vec<bool>)
        ensures
            r@ == self@.bits,
    {
        self.node_facts();
        let mut r: Vec<bool> = Vec::new();
        let mut i: usize = 0;
        while i < self.node.bits.len()
            invariant
                i <= self.node.bits@.len(),
                r@ == self.node.bits@.take(i as int),
            decreases self.node.bits@.len() - i,
        {
            r.push(self.node.bits[i]);
            i += 1;
            assert(r@ =~= self.node.bits@.take(i as int));
        }
        assert(r@ =~= self.node.bits@);
        r
    }

    /// Whether two cells stand for the same tree.
    pub fn equals(&self, other: &Cell) -> (r: bool)
        ensures
            r == (self@ == other@),
        decreases self@,
    {
        self.node_facts();
        other.node_facts();
        let a = &self.node;
        let b = &other.node;
        if a.bits.len() != b.bits.len() || a.refs.len() != b.refs.len() {
            return false;
        }
        let mut i: usize = 0;
        while i < a.bits.len()
            invariant
                i <= a.bits@.len(),
                a.bits@.len() == b.bits@.len(),
                a.bits@.take(i as int) == b.bits@.take(i as int),
                self@.bits == a.bits@,
                other@.bits == b.bits@,
            decreases a.bits@.len() - i,
        {
            if a.bits[i] != b.bits[i] {
                assert(self@.bits[i as int] != other@.bits[i as int]);
                return false;
            }
            i += 1;
            assert(a.bits@.take(i as int) =~= b.bits@.take(i as int));
        }
        assert(a.bits@ =~= a.bits@.take(i as int));
        assert(b.bits@ =~= b.bits@.take(i as int));
        let mut j: usize = 0;
        while j < a.refs.len()
            invariant
                j <= a.refs@.len(),
                a.refs@.len() == b.refs@.len(),
                a.refs@.len() == self@.refs.len(),
                b.refs@.len() == other@.refs.len(),
                forall|k: int| 0 <= k < self@.refs.len() ==> self@.refs[k] == #[trigger] a.refs@[k]@,
                forall|k: int| 0 <= k < other@.refs.len() ==> other@.refs[k] == #[trigger] b.refs@[k]@,
                self@.refs.take(j as int) == other@.refs.take(j as int),
            decreases a.refs@.len() - j,
        {
            assert(decreases_to!(self@ => self@.refs[j as int]));
            if !a.refs[j].equals(&b.refs[j]) {
                assert(self@.refs[j as int] != other@.refs[j as int]);
                return false;
            }
            j += 1;
            assert(self@.refs.take(j as int) =~= other@.refs.take(j as int));
        }
        assert(self@.refs =~= self@.refs.take(j as int));
        assert(other@.refs =~= other@.refs.take(j as int));
        true
    }

    proof fn lemma_tree_size(t: CellView)
        ensures
            tree_size(t) == 1 + forest_size(t.refs),
    {
        reveal_with_fuel(forest_size, 2);
        assert(seq![t].drop_last() =~= Seq::<CellView>::empty());
    }

    fn count_from(&self, acc: usize, limit: usize) -> (r: Result<usize, Error>)
        requires
            acc <= limit,
        ensures
            acc + tree_size(self@) <= limit ==> r == Ok::<usize, Error>((acc + tree_size(self@)) as usize),
            acc + tree_size(self@) > limit ==> r == Err::<usize, Error>(Error::ResourceLimit),
        decreases self@,
    {
        self.node_facts();
        proof {
            Cell::lemma_tree_size(self@);
        }
        if acc == limit {
            return Err(Error::ResourceLimit);
        }
        let mut total = acc + 1;
        let mut j: usize = 0;
        let refs = &self.node.refs;
        while j < refs.len()
            invariant
                j <= refs@.len(),
                refs@.len() == self@.refs.len(),
                forall|k: int| 0 <= k < self@.refs.len() ==> self@.refs[k] == #[trigger] refs@[k]@,
                total <= limit,
                total == acc + 1 + forest_size(self@.refs.take(j as int)),
                tree_size(self@) == 1 + forest_size(self@.refs),
            decreases refs@.len() - j,
        {
            let ghost f = self@.refs;
            proof {
                assert(f.take(j + 1).drop_last() =~= f.take(j as int));
                Cell::lemma_tree_size(f[j as int]);
                lemma_forest_size_prefix(f, j + 1);
            }
            assert(decreases_to!(self@ => self@.refs[j as int]));
            match refs[j].count_from(total, limit) {
                Ok(t) => {
                    total = t;
                },
                Err(e) => {
                    proof {
                        lemma_forest_size_mono(f, j + 1);
                    }
                    return Err(e);
                },
            }
            j += 1;
        }
        assert(self@.refs.take(j as int) =~= self@.refs);
        Ok(total)
    }

    /// Number of nodes of the tree, each counted once per path from the root;
    /// `Error::ResourceLimit` once the count would pass `limit`.
    pub fn cells_count(&self, limit: usize) -> (r: Result<usize, Error>)
        ensures
            tree_size(self@) <= limit ==> r == Ok::<usize, Error>(tree_size(self@) as usize),
            tree_size(self@) > limit ==> r == Err::<usize, Error>(Error::ResourceLimit),
    {
        self.count_from(0, limit)
    }

    fn dump_into(&self, out: &mut String, prefix: &String, ctor: &str, tab: &str, Ghost(indent): Ghost<nat>)
        requires
            prefix@ == repeat_text(tab@, indent),
        ensures
            final(out)@ == old(out)@ + node_text(
                self@,
                dump_forest(self@.refs, indent + 1, ctor@, tab@),
                indent,
                ctor@,
                tab@,
            ),
        decreases self@,
    {
        self.node_facts();
        proof {
            reveal_strlit("(\"");
            reveal_strlit("\"");
            reveal_strlit(",\n");
            reveal_strlit(")");
        }
        let ghost start = out@;
        out.append(prefix.as_str());
        out.append(ctor);
        out.append("(\"");
        let hex = to_hex_string(&self.node.bits);
        out.append(hex.as_str());
        out.append("\"");
        let refs = &self.node.refs;
        let ghost f = self@.refs;
        let ghost inner = indent + 1;
        if refs.len() > 0 {
            out.append(",\n");
            let inner_prefix = prefix.clone().concat(tab);
            assert(inner_prefix@ == repeat_text(tab@, inner));
            let ghost mid = out@;
            let mut j: usize = 0;
            while j < refs.len()
                invariant
                    j <= refs@.len(),
                    refs@.len() == f.len(),
                    f == self@.refs,
                    inner == indent + 1,
                    inner_prefix@ == repeat_text(tab@, inner),
                    forall|i: int| 0 <= i < f.len() ==> f[i] == #[trigger] refs@[i]@,
                    out@ == mid + dump_forest(f.take(j as int), inner, ctor@, tab@),
                decreases refs@.len() - j,
            {
                proof {
                    assert(f.take(j + 1).drop_last() =~= f.take(j as int));
                    assert(f.take(j + 1).last() == f[j as int]);
                }
                let ghost before = out@;
                if j > 0 {
                    out.append(",\n");
                }
                assert(decreases_to!(self@ => self@.refs[j as int]));
                refs[j].dump_into(out, &inner_prefix, ctor, tab, Ghost(inner));
                proof {
                    let g = f.take(j + 1);
                    let t = f[j as int];
                    let node = node_text(t, dump_forest(t.refs, inner + 1, ctor@, tab@), inner, ctor@, tab@);
                    assert(refs@[j as int]@ == t);
                    if j == 0 {
                        assert(dump_forest(g, inner, ctor@, tab@) == Seq::<char>::empty() + node);
                        assert(f.take(0) =~= Seq::<CellView>::empty());
                        assert(out@ =~= mid + dump_forest(g, inner, ctor@, tab@));
                    } else {
                        reveal_strlit(",\n");
                        assert(",\n"@ =~= seq![',', '\n']);
                        assert(before =~= mid + dump_forest(f.take(j as int), inner, ctor@, tab@));
                        assert(dump_forest(g, inner, ctor@, tab@) == dump_forest(f.take(j as int), inner, ctor@, tab@)
                            + seq![',', '\n'] + node);
                        assert(out@ =~= mid + dump_forest(g, inner, ctor@, tab@));
                    }
                }
                j += 1;
            }
            assert(f.take(j as int) =~= f);
        }
        out.append(")");
        assert(out@ =~= start + node_text(self@, dump_forest(f, inner, ctor@, tab@), indent, ctor@, tab@));
    }

    /// A cell respects the limits on bits and children.
    pub fn limits(&self)
        ensures
            self@.bits.len() <= MAX_DATA_BITS,
            self@.refs.len() <= MAX_REFS,
    {
        self.node_facts();
    }

    /// Number of bits.
    pub fn bits_len(&self) -> (r: usize)
        ensures
            r == self@.bits.len(),
            r <= MAX_DATA_BITS,
    {
        self.node_facts();
        self.node.bits.len()
    }

    /// The bit at `i`.
    pub fn bit_at(&self, i: usize) -> (r: bool)
        requires
            i < self@.bits.len(),
        ensures
            r == self@.bits[i as int],
    {
        self.node_facts();
        self.node.bits[i]
    }

    /// Number of distinct subtrees of the cell, itself included: a subtree that
    /// several parents share, or that occurs twice, is counted once.
    pub fn unique_cells_count(&self) -> (r: usize)
        ensures
            r == tree_nodes(self@).len(),
    {
        let ghost n = tree_nodes(self@);
        proof {
            lemma_forest_nodes_finite(seq![self@]);
            lemma_forest_nodes_roots(seq![self@], 0);
        }
        let mut stack: Vec<Cell> = Vec::new();
        stack.push(self.share());
        let mut seen: Vec<Cell> = Vec::new();
        assert(views(stack@) =~= seq![self@]);
        assert(views(seen@) =~= Seq::<CellView>::empty());
        while stack.len() > 0
            invariant
                n == tree_nodes(self@),
                n.finite(),
                views(seen@).no_duplicates(),
                views(seen@).len() <= n.len(),
                forall|k: int| 0 <= k < seen@.len() ==> n.contains(#[trigger] views(seen@)[k]),
                forall|k: int| 0 <= k < stack@.len() ==> n.contains(#[trigger] views(stack@)[k]),
                children_covered(views(seen@), views(stack@)),
                views(seen@).contains(self@) || views(stack@).contains(self@),
            decreases n.len() - seen@.len(), stack@.len(),
        {
            let ghost old_seen = views(seen@);
            let ghost old_stack = views(stack@);
            let c = stack.pop().unwrap();
            let ghost rest = views(stack@);
            assert(old_stack =~= rest.push(c@));
            assert(n.contains(c@)) by {
                assert(old_stack[old_stack.len() - 1] == c@);
            }
            assert forall|i: int| 0 <= i < stack@.len() implies n.contains(#[trigger] views(stack@)[i]) by {
                assert(views(stack@)[i] == old_stack[i]);
            }
            if !contains_cell(&seen, &c) {
                c.node_facts();
                let k = c.references_count();
                let mut j: usize = 0;
                while j < k
                    invariant
                        j <= k,
                        k == c@.refs.len(),
                        views(stack@) == rest + c@.refs.take(j as int),
                        forall|i: int| 0 <= i < stack@.len() ==> n.contains(#[trigger] views(stack@)[i]),
                        n.contains(c@),
                        n == tree_nodes(self@),
                    decreases k - j,
                {
                    let ghost before = views(stack@);
                    let child = c.reference(j);
                    assert(child.is_ok());
                    if let Ok(ch) = child {
                        stack.push(ch);
                    }
                    proof {
                        lemma_forest_nodes_children(seq![self@], c@, j as int);
                        assert(views(stack@) =~= before.push(c@.refs[j as int]));
                    }
                    j += 1;
                    assert(views(stack@) =~= rest + c@.refs.take(j as int));
                }
                assert(c@.refs.take(j as int) =~= c@.refs);
                seen.push(c);
                proof {
                    let sv = views(seen@);
                    let st = views(stack@);
                    assert(sv =~= old_seen.push(c@));
                    assert forall|x: CellView, i: int|
                        #![trigger sv.contains(x), x.refs[i]]
                        sv.contains(x) && 0 <= i < x.refs.len() implies sv.contains(x.refs[i]) || st.contains(
                            x.refs[i],
                        ) by {
                        if x == c@ {
                            assert(st[rest.len() + i] == x.refs[i]);
                        } else {
                            let q = choose|q: int| 0 <= q < sv.len() && sv[q] == x;
                            assert(old_seen[q] == x);
                            assert(old_seen.contains(x));
                            if x.refs[i] == c@ {
                                assert(sv[old_seen.len() as int] == c@);
                            } else if old_seen.contains(x.refs[i]) {
                                let p = choose|p: int| 0 <= p < old_seen.len() && old_seen[p] == x.refs[i];
                                assert(sv[p] == x.refs[i]);
                            } else {
                                let p = choose|p: int| 0 <= p < old_stack.len() && old_stack[p] == x.refs[i];
                                assert(st[p] == x.refs[i]);
                            }
                        }
                    }
                    if self@ == c@ {
                        assert(sv[old_seen.len() as int] == c@);
                    } else if old_seen.contains(self@) {
                        let p = choose|p: int| 0 <= p < old_seen.len() && old_seen[p] == self@;
                        assert(sv[p] == self@);
                    } else {
                        let p = choose|p: int| 0 <= p < old_stack.len() && old_stack[p] == self@;
                        assert(st[p] == self@);
                    }
                    assert forall|k: int| 0 <= k < seen@.len() implies n.contains(#[trigger] views(seen@)[k]) by {
                        if k < seen@.len() - 1 {
                            assert(views(seen@)[k] == old_seen[k]);
                        }
                    }
                    lemma_views_within(sv, n);
                }
            } else {
                proof {
                    let st = views(stack@);
                    let sv = views(seen@);
                    assert forall|x: CellView, i: int|
                        #![trigger sv.contains(x), x.refs[i]]
                        sv.contains(x) && 0 <= i < x.refs.len() implies sv.contains(x.refs[i]) || st.contains(
                            x.refs[i],
                        ) by {
                        if old_stack.contains(x.refs[i]) && x.refs[i] != c@ {
                            let p = choose|p: int| 0 <= p < old_stack.len() && old_stack[p] == x.refs[i];
                            assert(st[p] == x.refs[i]);
                        }
                    }
                    if !old_seen.contains(self@) && self@ != c@ {
                        let p = choose|p: int| 0 <= p < old_stack.len() && old_stack[p] == self@;
                        assert(st[p] == self@);
                    }
                }
            }
        }
        proof {
            let sv = views(seen@);
            assert forall|x: CellView, j: int|
                #![trigger sv.to_set().contains(x), x.refs[j]]
                sv.to_set().contains(x) && 0 <= j < x.refs.len() implies sv.to_set().contains(x.refs[j]) by {
                assert(sv.contains(x));
            }
            assert forall|i: int| 0 <= i < seq![self@].len() implies sv.to_set().contains(#[trigger] seq![self@][i]) by {
                assert(sv.contains(self@));
            }
            lemma_forest_nodes_within(seq![self@], sv.to_set());
            assert forall|x: CellView| sv.to_set().contains(x) implies n.contains(x) by {
                let p = choose|p: int| 0 <= p < sv.len() && sv[p] == x;
                assert(n.contains(views(seen@)[p]));
            }
            assert(sv.to_set() =~= n);
            sv.unique_seq_to_set();
        }
        seen.len()
    }

    /// The cell with no bits and no children.
    pub fn empty() -> (r: Cell)
        ensures
            r@ == (CellView { bits: Seq::empty(), refs: Seq::empty() }),
    {
        let r = Cell::from_parts(Vec::new(), Vec::new());
        assert(r@.refs =~= Seq::<CellView>::empty());
        r
    }
}

/// The dump of `cell`, each node written with `ctor_name` and each level of
/// depth indented by one `tab`.
pub fn dump_cell_generic(cell: &Cell, ctor_name: &str, tab: &str) -> (r: String)
    ensures
        r@ == dump_text(cell@, ctor_name@, tab@),
{
    let mut out = String::new();
    let prefix = String::new();
    assert(prefix@ =~= repeat_text(tab@, 0));
    cell.dump_into(&mut out, &prefix, ctor_name, tab, Ghost(0));
    proof {
        reveal_with_fuel(dump_forest, 2);
        assert(seq![cell@].drop_last() =~= Seq::<CellView>::empty());
        assert(out@ =~= dump_text(cell@, ctor_name@, tab@));
    }
    out
}

/// The dump of `cell` with nodes written `C(...)` and two spaces for each level.
pub fn dump_cell(cell: &Cell) -> (r: String)
    ensures
        r@ == dump_text(cell@, seq!['C'], seq![' ', ' ']),
{
    proof {
        reveal_strlit("C");
        reveal_strlit("  ");
    }
    let r = dump_cell_generic(cell, "C", "  ");
    assert("C"@ =~= seq!['C']);
    assert("  "@ =~= seq![' ', ' ']);
    r
}

} // verus!
