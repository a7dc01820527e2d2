use vstd::prelude::*;
use vstd::string::StringExecFns;

use crate::const_graph::{ConstSparseGraph, ConstSparseGraphNode, Graph};
use crate::decimal::{decimal, push_decimal};

verus! {

/// Whether `s` is strictly increasing, so sorted without duplicates.
pub open spec fn strictly_increasing(s: Seq<u16>) -> bool {
    forall|i: int, j: int| 0 <= i < j < s.len() ==> #[trigger] s[i] < #[trigger] s[j]
}

/// Whether `arr` is sorted without duplicates; `arr` must not be empty.
pub fn is_sorted_deduplicated(arr: &[u16]) -> (r: bool)
    requires
        arr@.len() >= 1,
    ensures
        r == strictly_increasing(arr@),
{
    let mut i: usize = 0;
    while i < arr.len() - 1
        invariant
            arr@.len() >= 1,
            i <= arr@.len() - 1,
            forall|a: int, b: int| 0 <= a < b <= i ==> #[trigger] arr@[a] < #[trigger] arr@[b],
        decreases arr@.len() - 1 - i,
    {
        if arr[i] >= arr[i + 1] {
            return false;
        }
        proof {
            assert forall|a: int, b: int| 0 <= a < b <= i + 1 implies #[trigger] arr@[a]
                < #[trigger] arr@[b] by {
                if b == i + 1 && a < i {
                    assert(arr@[a] < arr@[i as int]);
                }
            }
        }
        i = i + 1;
    }
    true
}

/// The largest element of `s`, if any.
pub open spec fn seq_max(s: Seq<u16>) -> Option<u16>
    decreases s.len(),
{
    if s.len() == 0 {
        None
    } else {
        match seq_max(s.drop_last()) {
            None => Some(s.last()),
            Some(m) => Some(if m < s.last() {
                s.last()
            } else {
                m
            }),
        }
    }
}

/// The adjacency lists of nodes, stored one after another: for each node the nodes before it,
/// then those after it.
pub open spec fn concat_lists(lists: Seq<(Seq<u16>, Seq<u16>)>) -> Seq<u16>
    decreases lists.len(),
{
    if lists.len() == 0 {
        Seq::empty()
    } else {
        concat_lists(lists.drop_last()) + lists.last().0 + lists.last().1
    }
}

/// Builds a sparse directed graph for [`ConstSparseGraph`], node by node.
pub struct ConstSparseGraphBuilder {
    nodes: Vec<ConstSparseGraphNode>,
    data: Vec<u16>,
    max_index: Option<u16>,
    offset: usize,
    lists: Ghost<Seq<(Seq<u16>, Seq<u16>)>>,
}

impl ConstSparseGraphBuilder {
    /// The adjacency lists of the nodes added so far: nodes before, nodes after.
    pub closed spec fn lists(&self) -> Seq<(Seq<u16>, Seq<u16>)> {
        self.lists@
    }

    /// The stored nodes.
    pub closed spec fn nodes_of(&self) -> Seq<ConstSparseGraphNode> {
        self.nodes@
    }

    /// The stored adjacency data.
    pub closed spec fn data_of(&self) -> Seq<u16> {
        self.data@
    }

    /// The stored data hold the adjacency lists, and the stored nodes their bounds.
    pub closed spec fn wf(&self) -> bool {
        &&& self.data@ == concat_lists(self.lists@)
        &&& self.nodes@.len() == self.lists@.len()
        &&& self.offset == self.data@.len()
        &&& self.offset <= u16::MAX
        &&& self.max_index == seq_max(self.data@)
        &&& forall|i: int|
            0 <= i < self.nodes@.len() ==> {
                let node = #[trigger] self.nodes@[i];
                let before = concat_lists(self.lists@.take(i));
                &&& node.start == before.len()
                &&& node.mid == before.len() + self.lists@[i].0.len()
                &&& node.end == before.len() + self.lists@[i].0.len() + self.lists@[i].1.len()
            }
    }

    /// The stored nodes, to be written out.
    pub fn nodes(&self) -> (r: &[ConstSparseGraphNode])
        ensures
            r@ == self.nodes_of(),
    {
        self.nodes.as_slice()
    }

    /// The stored adjacency data, to be written out.
    pub fn data(&self) -> (r: &[u16])
        ensures
            r@ == self.data_of(),
    {
        self.data.as_slice()
    }

    /// A builder without nodes.
    pub fn new() -> (r: Self)
        ensures
            r.wf(),
            r.lists() == Seq::<(Seq<u16>, Seq<u16>)>::empty(),
    {
        Self { nodes: Vec::new(), data: Vec::new(), max_index: None, offset: 0, lists: Ghost(Seq::empty()) }
    }

    /// Adds a node with the nodes `before` it and the nodes `after` it, each sorted without
    /// duplicates and not empty; all lists together must fit `u16` positions.
    pub fn add_node(&mut self, before: &[u16], after: &[u16])
        requires
            old(self).wf(),
            before@.len() >= 1,
            after@.len() >= 1,
            strictly_increasing(before@),
            strictly_increasing(after@),
            concat_lists(old(self).lists()).len() + before@.len() + after@.len() <= u16::MAX,
        ensures
            final(self).wf(),
            final(self).lists() == old(self).lists().push((before@, after@)),
    {
        let ghost lists0 = self.lists@;
        let ghost data0 = self.data@;
        let m = slice_max(before, after);
        let new_max = match self.max_index {
            Some(index2) => if m > index2 {
                m
            } else {
                index2
            },
            None => m,
        };
        let node = ConstSparseGraphNode {
            start: self.offset as u16,
            mid: (self.offset + before.len()) as u16,
            end: (self.offset + before.len() + after.len()) as u16,
        };
        let offset = self.offset + before.len() + after.len();
        let ghost nodes0 = self.nodes@;
        self.nodes.push(node);
        extend_from(&mut self.data, before);
        extend_from(&mut self.data, after);
        self.max_index = Some(new_max);
        self.offset = offset;
        self.lists = Ghost(lists0.push((before@, after@)));
        proof {
            let lists1 = lists0.push((before@, after@));
            assert(lists1.drop_last() =~= lists0);
            assert(self.data@ =~= concat_lists(lists1));
            lemma_seq_max_append(data0, before@ + after@);
            assert(data0 + (before@ + after@) =~= self.data@);
            assert(self.max_index == seq_max(self.data@));
            assert(self.offset == self.data@.len());
            assert forall|i: int| 0 <= i < self.nodes@.len() implies {
                let node = #[trigger] self.nodes@[i];
                let b = concat_lists(lists1.take(i));
                &&& node.start == b.len()
                &&& node.mid == b.len() + lists1[i].0.len()
                &&& node.end == b.len() + lists1[i].0.len() + lists1[i].1.len()
            } by {
                if i < lists0.len() {
                    assert(lists1.take(i) =~= lists0.take(i));
                    assert(self.nodes@[i] == nodes0[i]);
                } else {
                    assert(lists1.take(i) =~= lists0);
                }
            }
        }
    }

    /// Whether the graph is consistent: every listed node exists, and the nodes can be
    /// numbered by `u16`.
    pub fn is_valid(&self) -> (r: bool)
        requires
            self.wf(),
        ensures
            r == ((forall|k: int|
                0 <= k < concat_lists(self.lists()).len() ==> (#[trigger] concat_lists(self.lists())[k] as int)
                    < self.lists().len()) && self.lists().len() <= u16::MAX),
    {
        proof {
            lemma_seq_max_bounds(self.data@);
        }
        if let Some(max_index) = self.max_index {
            if max_index as usize >= self.nodes.len() {
                return false;
            }
        }
        if self.nodes.len() > u16::MAX as usize {
            return false;
        }
        true
    }

    /// The type of the graph generated from the builder.
    pub fn type_string(&self) -> (r: String)
        requires
            self.wf(),
            forall|k: int|
                0 <= k < concat_lists(self.lists()).len() ==> (#[trigger] concat_lists(self.lists())[k] as int)
                    < self.lists().len(),
            self.lists().len() <= u16::MAX,
        ensures
            r@ == "::kartoffel_gps::const_graph::ConstSparseGraph<"@ + decimal(self.lists().len())
                + ", "@ + decimal(concat_lists(self.lists()).len()) + ">"@,
    {
        let mut s = String::from_str("::kartoffel_gps::const_graph::ConstSparseGraph<");
        push_decimal(&mut s, self.nodes.len());
        s.append(", ");
        push_decimal(&mut s, self.data.len());
        s.append(">");
        s
    }
}

impl Default for ConstSparseGraphBuilder {
    fn default() -> (r: Self)
        ensures
            r.wf(),
            r.lists() == Seq::<(Seq<u16>, Seq<u16>)>::empty(),
    {
        Self::new()
    }
}

/// Appends the elements of `s` to `v`.
fn extend_from(v: &mut Vec<u16>, s: &[u16])
    ensures
        final(v)@ == old(v)@ + s@,
{
    let mut i: usize = 0;
    while i < s.len()
        invariant
            i <= s@.len(),
            v@ == old(v)@ + s@.take(i as int),
        decreases s@.len() - i,
    {
        v.push(s[i]);
        assert(s@.take(i as int + 1) =~= s@.take(i as int).push(s@[i as int]));
        i = i + 1;
    }
    assert(s@.take(i as int) =~= s@);
}

/// The largest element of `a` and `b` together.
fn slice_max(a: &[u16], b: &[u16]) -> (r: u16)
    requires
        a@.len() >= 1,
        a@.len() + b@.len() <= u16::MAX,
    ensures
        seq_max(a@ + b@) == Some(r),
{
    let mut m = a[0];
    let ghost all = a@ + b@;
    let n = a.len() + b.len();
    let mut i: usize = 1;
    assert(all.take(1) =~= seq![a@[0]]);
    assert(seq_max(all.take(1).drop_last()) is None) by {
        assert(all.take(1).drop_last() =~= Seq::<u16>::empty());
    }
    while i < n
        invariant
            1 <= i <= n,
            n == all.len(),
            all == a@ + b@,
            seq_max(all.take(i as int)) == Some(m),
        decreases n - i,
    {
        let x = if i < a.len() {
            a[i]
        } else {
            b[i - a.len()]
        };
        assert(x == all[i as int]);
        assert(all.take(i as int + 1).drop_last() =~= all.take(i as int));
        if x > m {
            m = x;
        }
        i = i + 1;
    }
    assert(all.take(n as int) =~= all);
    m
}

proof fn lemma_seq_max_append(s: Seq<u16>, t: Seq<u16>)
    ensures
        seq_max(s + t) == match (seq_max(s), seq_max(t)) {
            (None, x) => x,
            (x, None) => x,
            (Some(a), Some(b)) => Some(if a < b {
                b
            } else {
                a
            }),
        },
    decreases t.len(),
{
    if t.len() == 0 {
        assert(s + t =~= s);
    } else {
        assert((s + t).drop_last() =~= s + t.drop_last());
        lemma_seq_max_append(s, t.drop_last());
    }
}

proof fn lemma_seq_max_bounds(s: Seq<u16>)
    ensures
        seq_max(s) is None <==> s.len() == 0,
        seq_max(s) matches Some(m) ==> forall|k: int| 0 <= k < s.len() ==> #[trigger] s[k] <= m,
        seq_max(s) matches Some(m) ==> exists|k: int| 0 <= k < s.len() && s[k] == m,
    decreases s.len(),
{
    if s.len() > 0 {
        lemma_seq_max_bounds(s.drop_last());
        let m = seq_max(s).unwrap();
        assert forall|k: int| 0 <= k < s.len() implies #[trigger] s[k] <= m by {
            if k < s.len() - 1 {
                assert(s[k] == s.drop_last()[k]);
            }
        }
        if seq_max(s) == Some(s.last()) {
            assert(s[s.len() - 1] == m);
        } else {
            let k = choose|k: int| 0 <= k < s.drop_last().len() && s.drop_last()[k] == m;
            assert(s[k] == m);
        }
    }
}


/// The lists of the first `j` nodes come first in the stored data.
proof fn lemma_concat_prefix(l: Seq<(Seq<u16>, Seq<u16>)>, j: int)
    requires
        0 <= j <= l.len(),
    ensures
        concat_lists(l.take(j)).len() <= concat_lists(l).len(),
        concat_lists(l).subrange(0, concat_lists(l.take(j)).len() as int) == concat_lists(l.take(j)),
    decreases l.len() - j,
{
    if j == l.len() {
        assert(l.take(j) =~= l);
        assert(concat_lists(l).subrange(0, concat_lists(l).len() as int) =~= concat_lists(l));
    } else {
        lemma_concat_prefix(l, j + 1);
        let a = concat_lists(l.take(j));
        let b = concat_lists(l.take(j + 1));
        assert(l.take(j + 1).drop_last() =~= l.take(j));
        assert(b == a + l[j].0 + l[j].1);
        assert(concat_lists(l).subrange(0, a.len() as int) =~= b.subrange(0, a.len() as int));
        assert(b.subrange(0, a.len() as int) =~= a);
    }
}

/// A graph generated from a builder's nodes and data has the adjacency lists that were added,
/// and it is valid exactly where the builder says so.
pub proof fn law_builder_graph<const N_NODES: usize, const N_STORE: usize>(
    builder: ConstSparseGraphBuilder,
    graph: ConstSparseGraph<N_NODES, N_STORE>,
    i: int,
)
    requires
        builder.wf(),
        graph.nodes@ == builder.nodes_of(),
        graph.data@ == builder.data_of(),
        0 <= i < N_NODES,
    ensures
        graph.predecessors(i) == builder.lists()[i].0,
        graph.successors(i) == builder.lists()[i].1,
        graph.valid() == ((forall|k: int|
            0 <= k < concat_lists(builder.lists()).len() ==> (#[trigger] concat_lists(builder.lists())[k] as int)
                < builder.lists().len()) && builder.lists().len() <= u16::MAX),
{
    let l = builder.lists();
    let data = concat_lists(l);
    assert(graph.nodes@.len() == N_NODES);
    assert(graph.data@.len() == N_STORE);
    assert(l.len() == N_NODES);
    assert(data.len() == N_STORE);
    assert forall|j: int| 0 <= j < N_NODES implies #[trigger] graph.nodes@[j].start
        <= graph.nodes@[j].mid <= graph.nodes@[j].end <= N_STORE by {
        lemma_concat_prefix(l, j + 1);
        assert(l.take(j + 1).drop_last() =~= l.take(j));
        assert(builder.nodes_of()[j] == graph.nodes@[j]);
    }
    lemma_concat_prefix(l, i + 1);
    let a = concat_lists(l.take(i));
    assert(l.take(i + 1).drop_last() =~= l.take(i));
    let b = concat_lists(l.take(i + 1));
    assert(b == a + l[i].0 + l[i].1);
    assert(builder.nodes_of()[i] == graph.nodes@[i]);
    assert(graph.successors(i) =~= l[i].1) by {
        assert forall|k: int| 0 <= k < l[i].1.len() implies graph.successors(i)[k] == l[i].1[k] by {
            assert(data[a.len() + l[i].0.len() + k] == b[a.len() + l[i].0.len() + k]);
        }
    }
    assert(graph.predecessors(i) =~= l[i].0) by {
        assert forall|k: int| 0 <= k < l[i].0.len() implies graph.predecessors(i)[k] == l[i].0[k] by {
            assert(data[a.len() + k] == b[a.len() + k]);
        }
    }
}

} // verus!
