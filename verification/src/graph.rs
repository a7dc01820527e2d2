//! Weighted directed graphs between numbered values, stored as a dense matrix of optional
//! edge weights; used to find and connect beacons on a map.
use vstd::prelude::*;
use core::marker::PhantomData;

use crate::pos::GlobalPos;
use crate::terrain_map::{lemma_cell_index, PositionBiMap};

verus! {

/// A numbering of values of type `T`: the values at indices `0..len()`.
pub trait GraphMapping<T>: Copy + Sized {
    /// The values, by index.
    spec fn values(&self) -> Seq<T>;

    /// The value at `index`, if there is one.
    fn get_value(&self, index: usize) -> (r: Option<T>)
        ensures
            r == if index < self.values().len() {
                Some(self.values()[index as int])
            } else {
                None::<T>
            },
    ;

    /// An index of `t`, if it has one.
    fn get_index(&self, t: T) -> (r: Option<usize>)
        ensures
            r is None <==> !self.values().contains(t),
            r matches Some(i) ==> i < self.values().len() && self.values()[i as int] == t,
    ;

    /// The number of values.
    fn len(&self) -> (r: usize)
        ensures
            r == self.values().len(),
    ;

    /// Whether there is no value.
    fn is_empty(&self) -> (r: bool)
        ensures
            r == (self.values().len() == 0),
    {
        self.len() == 0
    }

    /// Whether both number the same values in the same order.
    fn equals(&self, other: &Self) -> (r: bool)
        ensures
            r == (self.values() == other.values()),
    ;
}

/// For each value numbered by `mapping`, an index of it in `other`, which must hold every value.
pub fn index_mapping<T, A: GraphMapping<T>, M: GraphMapping<T>>(mapping: &A, other: &M) -> (r: Vec<usize>)
    requires
        forall|k: int| 0 <= k < mapping.values().len() ==> other.values().contains(#[trigger] mapping.values()[k]),
    ensures
        r@.len() == mapping.values().len(),
        forall|k: int|
            0 <= k < r@.len() ==> #[trigger] r@[k] < other.values().len() && other.values()[r@[k] as int]
                == mapping.values()[k],
{
    let n = mapping.len();
    let mut r: Vec<usize> = Vec::new();
    let mut index: usize = 0;
    while index < n
        invariant
            n == mapping.values().len(),
            index <= n,
            r@.len() == index,
            forall|k: int| 0 <= k < mapping.values().len() ==> other.values().contains(#[trigger] mapping.values()[k]),
            forall|k: int|
                0 <= k < r@.len() ==> #[trigger] r@[k] < other.values().len() && other.values()[r@[k] as int]
                    == mapping.values()[k],
        decreases n - index,
    {
        let value = mapping.get_value(index).unwrap();
        assert(other.values().contains(mapping.values()[index as int]));
        let i = other.get_index(value).unwrap();
        r.push(i);
        index = index + 1;
    }
    r
}

/// The numbering of a single value, the unit.
#[derive(Clone, Copy, Debug, Eq, PartialEq, Hash)]
pub struct GraphMappingSingleNode;

impl GraphMapping<()> for GraphMappingSingleNode {
    open spec fn values(&self) -> Seq<()> {
        seq![()]
    }

    fn get_value(&self, index: usize) -> (r: Option<()>) {
        if index == 0 {
            Some(())
        } else {
            None
        }
    }

    fn get_index(&self, _t: ()) -> (r: Option<usize>) {
        assert(self.values()[0] == ());
        Some(0)
    }

    fn len(&self) -> (r: usize) {
        1
    }

    fn equals(&self, _other: &Self) -> (r: bool) {
        true
    }
}

impl<'a> GraphMapping<GlobalPos> for &'a PositionBiMap {
    open spec fn values(&self) -> Seq<GlobalPos> {
        self.positions()
    }

    fn get_value(&self, index: usize) -> (r: Option<GlobalPos>) {
        let v = self.vec();
        if index < v.len() {
            Some(v[index])
        } else {
            None
        }
    }

    fn get_index(&self, t: GlobalPos) -> (r: Option<usize>) {
        let v = self.vec();
        let r = self.index_of(t);
        proof {
            match r {
                Some(k) => {
                    assert(v@.map_values(|p: GlobalPos| p@)[k as int] == t@);
                    crate::position::lemma_position_view_injective(v@[k as int], t);
                },
                None => {
                    if v@.contains(t) {
                        let k = choose|k: int| 0 <= k < v@.len() && v@[k] == t;
                        assert(v@.map_values(|p: GlobalPos| p@)[k] == t@);
                    }
                },
            }
        }
        r
    }

    fn len(&self) -> (r: usize) {
        self.vec().len()
    }

    fn equals(&self, other: &Self) -> (r: bool) {
        let a = self.vec();
        let b = other.vec();
        if a.len() != b.len() {
            return false;
        }
        let mut i: usize = 0;
        while i < a.len()
            invariant
                a@ == self.values(),
                b@ == other.values(),
                a@.len() == b@.len(),
                i <= a@.len(),
                forall|k: int| 0 <= k < i ==> a@[k] == b@[k],
            decreases a@.len() - i,
        {
            if !a[i].same_as(&b[i]) {
                assert(a@[i as int] != b@[i as int]);
                return false;
            }
            proof {
                crate::position::lemma_position_view_injective(a@[i as int], b@[i as int]);
            }
            i = i + 1;
        }
        assert(a@ =~= b@);
        true
    }
}

/// The sum of two optional weights, missing where either is.
pub open spec fn add_opt(x1: Option<u32>, x2: Option<u32>) -> Option<int> {
    match (x1, x2) {
        (Some(v1), Some(v2)) => Some(v1 + v2),
        _ => None,
    }
}

/// The number of indices `k < n` for which `p` holds.
pub open spec fn count_where(p: spec_fn(int) -> bool, n: int) -> int
    decreases n,
{
    if n <= 0 {
        0
    } else {
        count_where(p, n - 1) + if p(n - 1) {
            1int
        } else {
            0int
        }
    }
}

/// The smaller of two optional values, where a missing value counts as infinite.
pub open spec fn min_int_opt(x1: Option<int>, x2: Option<int>) -> Option<int> {
    match (x1, x2) {
        (Some(v1), Some(v2)) => Some(if v1 <= v2 { v1 } else { v2 }),
        (Some(v), None) => Some(v),
        (None, Some(v)) => Some(v),
        _ => None,
    }
}

/// The smallest of `f(k)` for `k < n`, missing values counting as infinite.
pub open spec fn min_over(f: spec_fn(int) -> Option<int>, n: int) -> Option<int>
    decreases n,
{
    if n <= 0 {
        None
    } else {
        min_int_opt(min_over(f, n - 1), f(n - 1))
    }
}

/// A missing value, or one that fits a `u32`.
pub open spec fn fits_u32(x: Option<int>) -> bool {
    match x {
        Some(v) => v <= u32::MAX,
        None => true,
    }
}

/// An optional weight as an optional integer.
pub open spec fn opt_int(x: Option<u32>) -> Option<int> {
    match x {
        Some(v) => Some(v as int),
        None => None,
    }
}

/// A directed graph from values numbered by `MapStart` to values numbered by `MapDestination`:
/// an optional weight for each pair of indices.
pub struct Graph<
    TStart,
    TDestination,
    MapStart: GraphMapping<TStart>,
    MapDestination: GraphMapping<TDestination>,
> {
    data: Vec<Option<u32>>,
    map_start: MapStart,
    map_destination: MapDestination,
    _phantom: PhantomData<(TStart, TDestination)>,
}

impl<
    TStart,
    TDestination,
    MapStart: GraphMapping<TStart>,
    MapDestination: GraphMapping<TDestination>,
> Graph<TStart, TDestination, MapStart, MapDestination> {
    /// The numbering of the start values.
    pub closed spec fn start_map(&self) -> MapStart {
        self.map_start
    }

    /// The numbering of the destination values.
    pub closed spec fn destination_map(&self) -> MapDestination {
        self.map_destination
    }

    /// The number of start values.
    pub open spec fn n_start(&self) -> int {
        self.start_map().values().len() as int
    }

    /// The number of destination values.
    pub open spec fn n_destination(&self) -> int {
        self.destination_map().values().len() as int
    }

    /// The weight of the edge from start index `i` to destination index `j`.
    pub closed spec fn edge(&self, i: int, j: int) -> Option<u32> {
        self.data@[i * self.n_destination() + j]
    }

    /// The weights, row by row: the weight of edge `(i, j)` at `i * n_destination() + j`.
    pub closed spec fn weights(&self) -> Seq<Option<u32>> {
        self.data@
    }

    /// The weight of edge `(i, j)` is at `i * n_destination() + j` among the weights.
    pub proof fn lemma_weights(&self, i: int, j: int)
        requires
            self.wf(),
            0 <= i < self.n_start(),
            0 <= j < self.n_destination(),
        ensures
            0 <= i * self.n_destination() + j < self.weights().len(),
            self.weights()[i * self.n_destination() + j] == self.edge(i, j),
    {
        lemma_cell_index(j, i, self.n_destination(), self.n_start());
        lemma_mul_comm(self.n_destination(), self.n_start());
    }

    /// There is a weight for each pair of values.
    pub proof fn lemma_len(&self)
        requires
            self.wf(),
        ensures
            self.weights().len() == self.n_start() * self.n_destination(),
    {
    }

    /// A graph with a single destination holds its weights in start order.
    pub proof fn lemma_column(&self)
        requires
            self.wf(),
            self.n_destination() == 1,
        ensures
            self.weights().len() == self.n_start(),
            forall|k: int| 0 <= k < self.n_start() ==> #[trigger] self.weights()[k] == self.edge(k, 0),
    {
    }

    /// The weights match the numberings.
    pub closed spec fn wf(&self) -> bool {
        self.data@.len() == self.n_start() * self.n_destination()
    }

    /// The place of the weight of edge `(i, j)` in the data.
    fn index_of(&self, i: usize, j: usize) -> (r: usize)
        requires
            self.wf(),
            i < self.n_start(),
            j < self.n_destination(),
        ensures
            r < self.data@.len(),
            r == i * self.n_destination() + j,
    {
        let len = self.data.len();
        let cols = self.map_destination.len();
        proof {
            lemma_cell_index(j as int, i as int, self.n_destination(), self.n_start());
            lemma_mul_comm(self.n_destination(), self.n_start());
            assert(i * cols + j < len);
        }
        i * cols + j
    }

    /// A graph between the two numberings without edges.
    pub fn new(map_start: MapStart, map_destination: MapDestination) -> (r: Self)
        requires
            map_start.values().len() * map_destination.values().len() <= usize::MAX,
        ensures
            r.wf(),
            r.start_map() == map_start,
            r.destination_map() == map_destination,
            forall|i: int, j: int| 0 <= i < r.n_start() && 0 <= j < r.n_destination() ==> #[trigger] r.edge(i, j) is None,
    {
        Self::filled(map_start, map_destination, None)
    }

    /// A graph between the two numberings with an edge of weight `val` between every pair.
    pub fn new_with_edge(map_start: MapStart, map_destination: MapDestination, val: u32) -> (r: Self)
        requires
            map_start.values().len() * map_destination.values().len() <= usize::MAX,
        ensures
            r.wf(),
            r.start_map() == map_start,
            r.destination_map() == map_destination,
            forall|i: int, j: int|
                0 <= i < r.n_start() && 0 <= j < r.n_destination() ==> #[trigger] r.edge(i, j) == Some(val),
    {
        Self::filled(map_start, map_destination, Some(val))
    }

    /// A graph between the two numberings with `val` for every pair.
    fn filled(map_start: MapStart, map_destination: MapDestination, val: Option<u32>) -> (r: Self)
        requires
            map_start.values().len() * map_destination.values().len() <= usize::MAX,
        ensures
            r.wf(),
            r.start_map() == map_start,
            r.destination_map() == map_destination,
            forall|i: int, j: int| 0 <= i < r.n_start() && 0 <= j < r.n_destination() ==> #[trigger] r.edge(i, j) == val,
    {
        let n = map_start.len() * map_destination.len();
        let mut data: Vec<Option<u32>> = Vec::new();
        while data.len() < n
            invariant
                data@.len() <= n,
                forall|k: int| 0 <= k < data@.len() ==> data@[k] == val,
            decreases n - data@.len(),
        {
            data.push(val);
        }
        let r = Self { data, map_start, map_destination, _phantom: PhantomData };
        proof {
            lemma_mul_comm(r.n_destination(), r.n_start());
        }
        assert forall|i: int, j: int| 0 <= i < r.n_start() && 0 <= j < r.n_destination() implies #[trigger] r.edge(i, j) == val by {
            lemma_cell_index(j, i, r.n_destination(), r.n_start());
        }
        r
    }

    /// The numbering of the start values.
    pub fn get_map_start(&self) -> (r: &MapStart)
        ensures
            *r == self.start_map(),
    {
        &self.map_start
    }

    /// The numbering of the destination values.
    pub fn get_map_destination(&self) -> (r: &MapDestination)
        ensures
            *r == self.destination_map(),
    {
        &self.map_destination
    }

    /// The number of start values.
    pub fn len_start(&self) -> (r: usize)
        ensures
            r == self.n_start(),
    {
        self.map_start.len()
    }

    /// The number of destination values.
    pub fn len_destination(&self) -> (r: usize)
        ensures
            r == self.n_destination(),
    {
        self.map_destination.len()
    }

    /// The weight of the edge from start index `index_start` to destination index
    /// `index_destination`.
    pub fn get(&self, index_start: usize, index_destination: usize) -> (r: Option<u32>)
        requires
            self.wf(),
            index_start < self.n_start(),
            index_destination < self.n_destination(),
        ensures
            r == self.edge(index_start as int, index_destination as int),
    {
        let k = self.index_of(index_start, index_destination);
        self.data[k]
    }

    /// The weight of the edge from start index `index_start` to destination index
    /// `index_destination`, to change in place.
    pub fn get_mut(&mut self, index_start: usize, index_destination: usize) -> (r: &mut Option<u32>)
        requires
            old(self).wf(),
            index_start < old(self).n_start(),
            index_destination < old(self).n_destination(),
        ensures
            *r == old(self).edge(index_start as int, index_destination as int),
            final(self).wf(),
            final(self).start_map() == old(self).start_map(),
            final(self).destination_map() == old(self).destination_map(),
            final(self).edge(index_start as int, index_destination as int) == *final(r),
            forall|i: int, j: int|
                0 <= i < old(self).n_start() && 0 <= j < old(self).n_destination() && (i, j) != (
                index_start as int,
                index_destination as int,
            ) ==> #[trigger] final(self).edge(i, j) == old(self).edge(i, j),
    {
        let k = self.index_of(index_start, index_destination);
        let ghost old_self = *self;
        proof {
            assert forall|i: int, j: int|
                #![trigger old_self.edge(i, j)]
                0 <= i < old_self.n_start() && 0 <= j < old_self.n_destination() && (i, j) != (
                index_start as int,
                index_destination as int,
            ) implies i * old_self.n_destination() + j != k && 0 <= i * old_self.n_destination() + j
                < old_self.data@.len() by {
                lemma_edge_index_injective(i, j, index_start as int, index_destination as int, old_self.n_destination());
                lemma_cell_index(j, i, old_self.n_destination(), old_self.n_start());
                lemma_mul_comm(old_self.n_destination(), old_self.n_start());
            }
        }
        &mut self.data[k]
    }

    /// Sets the weight of the edge from start index `index_start` to destination index
    /// `index_destination`.
    pub fn set(&mut self, index_start: usize, index_destination: usize, val: Option<u32>)
        requires
            old(self).wf(),
            index_start < old(self).n_start(),
            index_destination < old(self).n_destination(),
        ensures
            final(self).wf(),
            final(self).start_map() == old(self).start_map(),
            final(self).destination_map() == old(self).destination_map(),
            forall|i: int, j: int|
                0 <= i < old(self).n_start() && 0 <= j < old(self).n_destination() ==> #[trigger] final(self).edge(i, j)
                    == if (i, j) == (index_start as int, index_destination as int) {
                    val
                } else {
                    old(self).edge(i, j)
                },
    {
        let k = self.index_of(index_start, index_destination);
        let ghost old_self = *self;
        self.data.set(k, val);
        proof {
            assert forall|i: int, j: int|
                0 <= i < old_self.n_start() && 0 <= j < old_self.n_destination() implies #[trigger] self.edge(i, j)
                    == if (i, j) == (index_start as int, index_destination as int) {
                    val
                } else {
                    old_self.edge(i, j)
                } by {
                lemma_cell_index(j, i, old_self.n_destination(), old_self.n_start());
                lemma_mul_comm(old_self.n_destination(), old_self.n_start());
                if (i, j) != (index_start as int, index_destination as int) {
                    lemma_edge_index_injective(i, j, index_start as int, index_destination as int, old_self.n_destination());
                }
            }
        }
    }

    /// Removes the edge from start index `index_start` to destination index
    /// `index_destination`.
    pub fn remove_edge(&mut self, index_start: usize, index_destination: usize)
        requires
            old(self).wf(),
            index_start < old(self).n_start(),
            index_destination < old(self).n_destination(),
        ensures
            final(self).wf(),
            final(self).start_map() == old(self).start_map(),
            final(self).destination_map() == old(self).destination_map(),
            forall|i: int, j: int|
                0 <= i < old(self).n_start() && 0 <= j < old(self).n_destination() ==> #[trigger] final(self).edge(i, j)
                    == if (i, j) == (index_start as int, index_destination as int) {
                    None
                } else {
                    old(self).edge(i, j)
                },
    {
        self.set(index_start, index_destination, None);
    }
}

impl<
    TStart,
    TDestination,
    MapStart: GraphMapping<TStart>,
    MapDestination: GraphMapping<TDestination>,
> Graph<TStart, TDestination, MapStart, MapDestination> {
    /// The number of middle values with an edge from start index `i` of `self` and one to
    /// destination index `j` of `other`.
    fn count_middle<TNew, MapNew: GraphMapping<TNew>>(
        &self,
        other: &Graph<TDestination, TNew, MapDestination, MapNew>,
        i: usize,
        j: usize,
    ) -> (r: u32)
        requires
            self.wf(),
            other.wf(),
            self.destination_map().values() == other.start_map().values(),
            self.n_destination() <= u32::MAX,
            i < self.n_start(),
            j < other.n_destination(),
        ensures
            r == count_where(|k: int| self.edge(i as int, k) is Some && other.edge(k, j as int) is Some, self.n_destination()),
    {
        let ghost p = |k: int| self.edge(i as int, k) is Some && other.edge(k, j as int) is Some;
        let n = self.len_destination();
        let mut count: u32 = 0;
        let mut k: usize = 0;
        while k < n
            invariant
                n == self.n_destination(),
                n <= u32::MAX,
                k <= n,
                self.wf(),
                other.wf(),
                self.destination_map().values() == other.start_map().values(),
                i < self.n_start(),
                j < other.n_destination(),
                p == (|k: int| self.edge(i as int, k) is Some && other.edge(k, j as int) is Some),
                count == count_where(p, k as int),
                count <= k,
            decreases n - k,
        {
            if self.get(i, k).is_some() && other.get(k, j).is_some() {
                count = count + 1;
            }
            k = k + 1;
        }
        count
    }

    /// For each start index of `self` and destination index of `other`, the number of middle
    /// values with an edge from the start in `self` and one to the destination in `other`.
    pub fn count_paths<TNew, MapNew: GraphMapping<TNew>>(
        &self,
        other: &Graph<TDestination, TNew, MapDestination, MapNew>,
    ) -> (r: Vec<Vec<u32>>)
        requires
            self.wf(),
            other.wf(),
            self.destination_map().values() == other.start_map().values(),
            self.n_destination() <= u32::MAX,
        ensures
            r@.len() == self.n_start(),
            forall|i: int| 0 <= i < self.n_start() ==> #[trigger] r@[i]@.len() == other.n_destination(),
            forall|i: int, j: int|
                0 <= i < self.n_start() && 0 <= j < other.n_destination() ==> #[trigger] r@[i]@[j]
                    == count_where(
                    |k: int| self.edge(i, k) is Some && other.edge(k, j) is Some,
                    self.n_destination(),
                ),
    {
        let rows = self.len_start();
        let cols = other.len_destination();
        let mut r: Vec<Vec<u32>> = Vec::new();
        let mut i: usize = 0;
        while i < rows
            invariant
                rows == self.n_start(),
                cols == other.n_destination(),
                i <= rows,
                self.wf(),
                other.wf(),
                self.destination_map().values() == other.start_map().values(),
                self.n_destination() <= u32::MAX,
                r@.len() == i,
                forall|a: int| 0 <= a < i ==> #[trigger] r@[a]@.len() == cols,
                forall|a: int, b: int|
                    0 <= a < i && 0 <= b < cols ==> #[trigger] r@[a]@[b] == count_where(
                        |k: int| self.edge(a, k) is Some && other.edge(k, b) is Some,
                        self.n_destination(),
                    ),
            decreases rows - i,
        {
            let mut row: Vec<u32> = Vec::new();
            let mut j: usize = 0;
            while j < cols
                invariant
                    rows == self.n_start(),
                    cols == other.n_destination(),
                    i < rows,
                    j <= cols,
                    self.wf(),
                    other.wf(),
                    self.destination_map().values() == other.start_map().values(),
                    self.n_destination() <= u32::MAX,
                    row@.len() == j,
                    forall|b: int|
                        0 <= b < j ==> #[trigger] row@[b] == count_where(
                            |k: int| self.edge(i as int, k) is Some && other.edge(k, b) is Some,
                            self.n_destination(),
                        ),
                decreases cols - j,
            {
                let c = self.count_middle(other, i, j);
                row.push(c);
                j = j + 1;
            }
            r.push(row);
            i = i + 1;
        }
        r
    }

    /// The smallest total weight of an edge from start index `i` in `self` followed by one to
    /// destination index `j` in `other`.
    fn chain_entry<TNew, MapNew: GraphMapping<TNew>>(
        &self,
        other: &Graph<TDestination, TNew, MapDestination, MapNew>,
        i: usize,
        j: usize,
    ) -> (r: Option<u32>)
        requires
            self.wf(),
            other.wf(),
            self.destination_map().values() == other.start_map().values(),
            i < self.n_start(),
            j < other.n_destination(),
            forall|k: int|
                0 <= k < self.n_destination() ==> #[trigger] fits_u32(add_opt(self.edge(i as int, k), other.edge(k, j as int))),
        ensures
            opt_int(r) == min_over(|k: int| add_opt(self.edge(i as int, k), other.edge(k, j as int)), self.n_destination()),
    {
        let ghost f = |k: int| add_opt(self.edge(i as int, k), other.edge(k, j as int));
        let n = self.len_destination();
        let mut val: Option<u32> = None;
        let mut k: usize = 0;
        while k < n
            invariant
                n == self.n_destination(),
                k <= n,
                self.wf(),
                other.wf(),
                self.destination_map().values() == other.start_map().values(),
                i < self.n_start(),
                j < other.n_destination(),
                f == (|k: int| add_opt(self.edge(i as int, k), other.edge(k, j as int))),
                forall|k: int|
                    0 <= k < self.n_destination() ==> #[trigger] fits_u32(add_opt(self.edge(i as int, k), other.edge(k, j as int))),
                opt_int(val) == min_over(f, k as int),
            decreases n - k,
        {
            let sum = match (self.get(i, k), other.get(k, j)) {
                (Some(a), Some(b)) => {
                    assert(fits_u32(add_opt(self.edge(i as int, k as int), other.edge(k as int, j as int))));
                    Some(a + b)
                },
                _ => None,
            };
            val = match (val, sum) {
                (Some(v1), Some(v2)) => Some(if v1 <= v2 { v1 } else { v2 }),
                (Some(v), None) => Some(v),
                (None, Some(v)) => Some(v),
                _ => None,
            };
            k = k + 1;
        }
        val
    }

    /// The graph of two steps: an edge of `self` followed by one of `other`, with the smallest
    /// total weight for each pair.
    pub fn chain<TNew, MapNew: GraphMapping<TNew>>(
        &self,
        other: &Graph<TDestination, TNew, MapDestination, MapNew>,
    ) -> (r: Graph<TStart, TNew, MapStart, MapNew>)
        requires
            self.wf(),
            other.wf(),
            self.destination_map().values() == other.start_map().values(),
            self.n_start() * other.n_destination() <= usize::MAX,
            forall|i: int, k: int, j: int|
                0 <= i < self.n_start() && 0 <= k < self.n_destination() && 0 <= j < other.n_destination()
                    ==> #[trigger] fits_u32(add_opt(self.edge(i, k), other.edge(k, j))),
        ensures
            r.wf(),
            r.start_map() == self.start_map(),
            r.destination_map() == other.destination_map(),
            forall|i: int, j: int|
                0 <= i < r.n_start() && 0 <= j < r.n_destination() ==> #[trigger] opt_int(r.edge(i, j))
                    == min_over(|k: int| add_opt(self.edge(i, k), other.edge(k, j)), self.n_destination()),
    {
        let mut new = Graph::new(self.map_start, other.map_destination);
        let rows = self.len_start();
        let cols = other.len_destination();
        let mut i: usize = 0;
        while i < rows
            invariant
                rows == self.n_start(),
                cols == other.n_destination(),
                i <= rows,
                self.wf(),
                other.wf(),
                new.wf(),
                new.start_map() == self.start_map(),
                new.destination_map() == other.destination_map(),
                self.destination_map().values() == other.start_map().values(),
                forall|i: int, k: int, j: int|
                    0 <= i < self.n_start() && 0 <= k < self.n_destination() && 0 <= j < other.n_destination()
                        ==> #[trigger] fits_u32(add_opt(self.edge(i, k), other.edge(k, j))),
                forall|a: int, b: int|
                    0 <= a < i && 0 <= b < cols ==> #[trigger] opt_int(new.edge(a, b)) == min_over(
                        |k: int| add_opt(self.edge(a, k), other.edge(k, b)),
                        self.n_destination(),
                    ),
            decreases rows - i,
        {
            let mut j: usize = 0;
            while j < cols
                invariant
                    rows == self.n_start(),
                    cols == other.n_destination(),
                    i < rows,
                    j <= cols,
                    self.wf(),
                    other.wf(),
                    new.wf(),
                    new.start_map() == self.start_map(),
                    new.destination_map() == other.destination_map(),
                    self.destination_map().values() == other.start_map().values(),
                    forall|i: int, k: int, j: int|
                        0 <= i < self.n_start() && 0 <= k < self.n_destination() && 0 <= j < other.n_destination()
                            ==> #[trigger] fits_u32(add_opt(self.edge(i, k), other.edge(k, j))),
                    forall|a: int, b: int|
                        (0 <= a < i && 0 <= b < cols || a == i && 0 <= b < j) ==> #[trigger] opt_int(new.edge(a, b))
                            == min_over(|k: int| add_opt(self.edge(a, k), other.edge(k, b)), self.n_destination()),
                decreases cols - j,
            {
                let v = self.chain_entry(other, i, j);
                new.set(i, j, v);
                j = j + 1;
            }
            i = i + 1;
        }
        new
    }
}

/// The number of present weights among `w`.
pub open spec fn count_some(w: Seq<Option<u32>>) -> int
    decreases w.len(),
{
    if w.len() == 0 {
        0
    } else {
        count_some(w.drop_last()) + if w.last() is Some {
            1int
        } else {
            0int
        }
    }
}

/// The largest present weight among `w`, if any.
pub open spec fn max_some(w: Seq<Option<u32>>) -> Option<u32>
    decreases w.len(),
{
    if w.len() == 0 {
        None
    } else {
        match (max_some(w.drop_last()), w.last()) {
            (Some(a), Some(b)) => Some(if a >= b { a } else { b }),
            (Some(a), None) => Some(a),
            (None, b) => b,
        }
    }
}

/// The smallest present weight among `w`, if any.
pub open spec fn min_some(w: Seq<Option<u32>>) -> Option<u32>
    decreases w.len(),
{
    if w.len() == 0 {
        None
    } else {
        match (min_some(w.drop_last()), w.last()) {
            (Some(a), Some(b)) => Some(if a <= b { a } else { b }),
            (Some(a), None) => Some(a),
            (None, b) => b,
        }
    }
}

impl<
    TStart,
    TDestination,
    MapStart: GraphMapping<TStart>,
    MapDestination: GraphMapping<TDestination>,
> Clone for Graph<TStart, TDestination, MapStart, MapDestination> {
    fn clone(&self) -> (r: Self)
        ensures
            r.start_map() == self.start_map(),
            r.destination_map() == self.destination_map(),
            r.weights() == self.weights(),
    {
        let mut data: Vec<Option<u32>> = Vec::new();
        let mut k: usize = 0;
        while k < self.data.len()
            invariant
                k <= self.data@.len(),
                data@ == self.data@.take(k as int),
            decreases self.data@.len() - k,
        {
            data.push(self.data[k]);
            k = k + 1;
            assert(data@ =~= self.data@.take(k as int));
        }
        assert(data@ =~= self.data@);
        Self { data, map_start: self.map_start, map_destination: self.map_destination, _phantom: PhantomData }
    }
}

impl<
    TStart,
    TDestination,
    MapStart: GraphMapping<TStart>,
    MapDestination: GraphMapping<TDestination>,
> Graph<TStart, TDestination, MapStart, MapDestination> {
    /// Whether both graphs number the same values and have the same weights.
    pub fn same_as(&self, other: &Self) -> (r: bool)
        ensures
            r == (self.start_map().values() == other.start_map().values() && self.destination_map().values()
                == other.destination_map().values() && self.weights() == other.weights()),
    {
        if !self.map_start.equals(&other.map_start) || !self.map_destination.equals(&other.map_destination) {
            return false;
        }
        if self.data.len() != other.data.len() {
            return false;
        }
        let mut k: usize = 0;
        while k < self.data.len()
            invariant
                self.data@.len() == other.data@.len(),
                k <= self.data@.len(),
                forall|l: int| 0 <= l < k ==> self.data@[l] == other.data@[l],
            decreases self.data@.len() - k,
        {
            if self.data[k] != other.data[k] {
                return false;
            }
            k = k + 1;
        }
        assert(self.data@ =~= other.data@);
        true
    }
}

impl<
    TStart,
    TDestination,
    MapStart: GraphMapping<TStart>,
    MapDestination: GraphMapping<TDestination>,
> Graph<TStart, TDestination, MapStart, MapDestination> {
    /// The graph restricted to, and renumbered by, the values of `map_start` and
    /// `map_destination`, which must all be values of this graph.
    pub fn sub_graph<MapStartNew: GraphMapping<TStart>, MapDestNew: GraphMapping<TDestination>>(
        &self,
        map_start: MapStartNew,
        map_destination: MapDestNew,
    ) -> (r: Graph<TStart, TDestination, MapStartNew, MapDestNew>)
        requires
            self.wf(),
            forall|k: int|
                0 <= k < map_start.values().len() ==> self.start_map().values().contains(
                    #[trigger] map_start.values()[k],
                ),
            forall|k: int|
                0 <= k < map_destination.values().len() ==> self.destination_map().values().contains(
                    #[trigger] map_destination.values()[k],
                ),
            map_start.values().len() * map_destination.values().len() <= usize::MAX,
        ensures
            r.wf(),
            r.start_map() == map_start,
            r.destination_map() == map_destination,
            forall|a: int, b: int|
                0 <= a < r.n_start() && 0 <= b < r.n_destination() ==> exists|i: int, j: int|
                    0 <= i < self.n_start() && 0 <= j < self.n_destination() && self.start_map().values()[i]
                        == map_start.values()[a] && self.destination_map().values()[j]
                        == map_destination.values()[b] && #[trigger] r.edge(a, b) == self.edge(i, j),
    {
        let indices_start = index_mapping(&map_start, &self.map_start);
        let indices_destination = index_mapping(&map_destination, &self.map_destination);
        let mut ret = Graph::new(map_start, map_destination);
        let rows = indices_start.len();
        let cols = indices_destination.len();
        let mut a: usize = 0;
        while a < rows
            invariant
                rows == indices_start@.len() == map_start.values().len(),
                cols == indices_destination@.len() == map_destination.values().len(),
                a <= rows,
                self.wf(),
                ret.wf(),
                ret.start_map() == map_start,
                ret.destination_map() == map_destination,
                forall|k: int|
                    0 <= k < rows ==> #[trigger] indices_start@[k] < self.n_start() && self.start_map().values()[indices_start@[k] as int]
                        == map_start.values()[k],
                forall|k: int|
                    0 <= k < cols ==> #[trigger] indices_destination@[k] < self.n_destination()
                        && self.destination_map().values()[indices_destination@[k] as int]
                        == map_destination.values()[k],
                forall|x: int, y: int|
                    0 <= x < a && 0 <= y < cols ==> #[trigger] ret.edge(x, y) == self.edge(
                        indices_start@[x] as int,
                        indices_destination@[y] as int,
                    ),
            decreases rows - a,
        {
            let mut b: usize = 0;
            while b < cols
                invariant
                    rows == indices_start@.len() == map_start.values().len(),
                    cols == indices_destination@.len() == map_destination.values().len(),
                    a < rows,
                    b <= cols,
                    self.wf(),
                    ret.wf(),
                    ret.start_map() == map_start,
                    ret.destination_map() == map_destination,
                    forall|k: int|
                        0 <= k < rows ==> #[trigger] indices_start@[k] < self.n_start() && self.start_map().values()[indices_start@[k] as int]
                            == map_start.values()[k],
                    forall|k: int|
                        0 <= k < cols ==> #[trigger] indices_destination@[k] < self.n_destination()
                            && self.destination_map().values()[indices_destination@[k] as int]
                            == map_destination.values()[k],
                    forall|x: int, y: int|
                        (0 <= x < a && 0 <= y < cols || x == a && 0 <= y < b) ==> #[trigger] ret.edge(x, y)
                            == self.edge(indices_start@[x] as int, indices_destination@[y] as int),
                decreases cols - b,
            {
                let w = self.get(indices_start[a], indices_destination[b]);
                ret.set(a, b, w);
                b = b + 1;
            }
            a = a + 1;
        }
        proof {
            assert forall|x: int, y: int|
                0 <= x < ret.n_start() && 0 <= y < ret.n_destination() implies exists|i: int, j: int|
                    0 <= i < self.n_start() && 0 <= j < self.n_destination() && self.start_map().values()[i]
                        == map_start.values()[x] && self.destination_map().values()[j]
                        == map_destination.values()[y] && #[trigger] ret.edge(x, y) == self.edge(i, j) by {
                let i = indices_start@[x] as int;
                let j = indices_destination@[y] as int;
                assert(ret.edge(x, y) == self.edge(i, j));
            }
        }
        ret
    }

    /// The graph with the edges whose start value, destination value and weight `f` keeps.
    pub fn keep_edges<F: Fn(TStart, TDestination, u32) -> bool>(&self, f: F) -> (r: Self)
        requires
            self.wf(),
            forall|a: TStart, b: TDestination, w: u32| #[trigger] f.requires((a, b, w)),
        ensures
            r.wf(),
            r.start_map() == self.start_map(),
            r.destination_map() == self.destination_map(),
            forall|i: int, j: int|
                0 <= i < self.n_start() && 0 <= j < self.n_destination() ==> {
                    let e = self.edge(i, j);
                    let args = (self.start_map().values()[i], self.destination_map().values()[j], e.unwrap());
                    &&& #[trigger] r.edge(i, j) is Some ==> r.edge(i, j) == e && f.ensures(args, true)
                    &&& r.edge(i, j) is None && e is Some ==> f.ensures(args, false)
                },
    {
        let mut ret = self.clone();
        let rows = ret.len_start();
        let cols = ret.len_destination();
        let mut i: usize = 0;
        while i < rows
            invariant
                rows == self.n_start(),
                cols == self.n_destination(),
                i <= rows,
                self.wf(),
                ret.wf(),
                ret.start_map() == self.start_map(),
                ret.destination_map() == self.destination_map(),
                forall|a: TStart, b: TDestination, w: u32| #[trigger] f.requires((a, b, w)),
                forall|x: int, y: int|
                    0 <= x < rows && 0 <= y < cols && !(0 <= x < i) ==> #[trigger] ret.edge(x, y) == self.edge(x, y),
                forall|x: int, y: int|
                    0 <= x < i && 0 <= y < cols ==> {
                        let e = self.edge(x, y);
                        let args = (self.start_map().values()[x], self.destination_map().values()[y], e.unwrap());
                        &&& #[trigger] ret.edge(x, y) is Some ==> ret.edge(x, y) == e && f.ensures(args, true)
                        &&& ret.edge(x, y) is None && e is Some ==> f.ensures(args, false)
                    },
            decreases rows - i,
        {
            let mut j: usize = 0;
            while j < cols
                invariant
                    rows == self.n_start(),
                    cols == self.n_destination(),
                    i < rows,
                    j <= cols,
                    self.wf(),
                    ret.wf(),
                    ret.start_map() == self.start_map(),
                    ret.destination_map() == self.destination_map(),
                    forall|a: TStart, b: TDestination, w: u32| #[trigger] f.requires((a, b, w)),
                    forall|x: int, y: int|
                        0 <= x < rows && 0 <= y < cols && !(0 <= x < i) && !(x == i && 0 <= y < j) ==> #[trigger] ret.edge(x, y)
                            == self.edge(x, y),
                    forall|x: int, y: int|
                        (0 <= x < i && 0 <= y < cols || x == i && 0 <= y < j) ==> {
                            let e = self.edge(x, y);
                            let args = (self.start_map().values()[x], self.destination_map().values()[y], e.unwrap());
                            &&& #[trigger] ret.edge(x, y) is Some ==> ret.edge(x, y) == e && f.ensures(args, true)
                            &&& ret.edge(x, y) is None && e is Some ==> f.ensures(args, false)
                        },
                decreases cols - j,
            {
                if let Some(weight) = ret.get(i, j) {
                    let a = ret.map_start.get_value(i).unwrap();
                    let b = ret.map_destination.get_value(j).unwrap();
                    if !f(a, b, weight) {
                        ret.remove_edge(i, j);
                    }
                }
                j = j + 1;
            }
            i = i + 1;
        }
        ret
    }

    /// The graph with every edge reversed.
    pub fn invert_direction(&self) -> (r: Graph<TDestination, TStart, MapDestination, MapStart>)
        requires
            self.wf(),
        ensures
            r.wf(),
            r.start_map() == self.destination_map(),
            r.destination_map() == self.start_map(),
            forall|j: int, i: int|
                0 <= j < self.n_destination() && 0 <= i < self.n_start() ==> #[trigger] r.edge(j, i) == self.edge(i, j),
    {
        let size = self.data.len();
        proof {
            lemma_mul_comm(self.n_start(), self.n_destination());
        }
        let mut ret = Graph::new(self.map_destination, self.map_start);
        let rows = self.len_destination();
        let cols = self.len_start();
        let mut j: usize = 0;
        while j < rows
            invariant
                rows == self.n_destination(),
                cols == self.n_start(),
                j <= rows,
                self.wf(),
                ret.wf(),
                ret.start_map() == self.destination_map(),
                ret.destination_map() == self.start_map(),
                forall|y: int, x: int| 0 <= y < j && 0 <= x < cols ==> #[trigger] ret.edge(y, x) == self.edge(x, y),
            decreases rows - j,
        {
            let mut i: usize = 0;
            while i < cols
                invariant
                    rows == self.n_destination(),
                    cols == self.n_start(),
                    j < rows,
                    i <= cols,
                    self.wf(),
                    ret.wf(),
                    ret.start_map() == self.destination_map(),
                    ret.destination_map() == self.start_map(),
                    forall|y: int, x: int|
                        (0 <= y < j && 0 <= x < cols || y == j && 0 <= x < i) ==> #[trigger] ret.edge(y, x) == self.edge(x, y),
                decreases cols - i,
            {
                let w = self.get(i, j);
                ret.set(j, i, w);
                i = i + 1;
            }
            j = j + 1;
        }
        ret
    }

    /// The graph with each weight, present or not, replaced by what `f` makes of it.
    pub fn map_edges<F: Fn(Option<u32>) -> Option<u32>>(&self, f: F) -> (r: Self)
        requires
            self.wf(),
            forall|x: Option<u32>| #[trigger] f.requires((x,)),
        ensures
            r.wf(),
            r.start_map() == self.start_map(),
            r.destination_map() == self.destination_map(),
            r.weights().len() == self.weights().len(),
            forall|k: int| 0 <= k < self.weights().len() ==> f.ensures((self.weights()[k],), #[trigger] r.weights()[k]),
    {
        let mut data: Vec<Option<u32>> = Vec::new();
        let mut k: usize = 0;
        while k < self.data.len()
            invariant
                k <= self.data@.len(),
                data@.len() == k,
                forall|x: Option<u32>| #[trigger] f.requires((x,)),
                forall|l: int| 0 <= l < k ==> f.ensures((self.data@[l],), #[trigger] data@[l]),
            decreases self.data@.len() - k,
        {
            data.push(f(self.data[k]));
            k = k + 1;
        }
        Self { data, map_start: self.map_start, map_destination: self.map_destination, _phantom: PhantomData }
    }

    /// Whether some edge is present.
    pub fn has_edges(&self) -> (r: bool)
        ensures
            r == exists|k: int| 0 <= k < self.weights().len() && #[trigger] self.weights()[k] is Some,
    {
        let mut k: usize = 0;
        while k < self.data.len()
            invariant
                k <= self.data@.len(),
                forall|l: int| 0 <= l < k ==> #[trigger] self.data@[l] is None,
            decreases self.data@.len() - k,
        {
            if self.data[k].is_some() {
                return true;
            }
            k = k + 1;
        }
        false
    }

    /// Whether every edge is present.
    pub fn fully_connected(&self) -> (r: bool)
        ensures
            r == forall|k: int| 0 <= k < self.weights().len() ==> #[trigger] self.weights()[k] is Some,
    {
        let mut k: usize = 0;
        while k < self.data.len()
            invariant
                k <= self.data@.len(),
                forall|l: int| 0 <= l < k ==> #[trigger] self.data@[l] is Some,
            decreases self.data@.len() - k,
        {
            if self.data[k].is_none() {
                return false;
            }
            k = k + 1;
        }
        true
    }

    /// The largest weight, if any edge is present.
    pub fn max_weight(&self) -> (r: Option<u32>)
        ensures
            r == max_some(self.weights()),
    {
        let mut best: Option<u32> = None;
        let mut k: usize = 0;
        while k < self.data.len()
            invariant
                k <= self.data@.len(),
                best == max_some(self.data@.take(k as int)),
            decreases self.data@.len() - k,
        {
            assert(self.data@.take(k + 1).drop_last() =~= self.data@.take(k as int));
            best = match (best, self.data[k]) {
                (Some(a), Some(b)) => Some(if a >= b { a } else { b }),
                (Some(a), None) => Some(a),
                (None, b) => b,
            };
            k = k + 1;
        }
        assert(self.data@.take(k as int) =~= self.data@);
        best
    }

    /// The smallest weight, if any edge is present.
    pub fn min_weight(&self) -> (r: Option<u32>)
        ensures
            r == min_some(self.weights()),
    {
        let mut best: Option<u32> = None;
        let mut k: usize = 0;
        while k < self.data.len()
            invariant
                k <= self.data@.len(),
                best == min_some(self.data@.take(k as int)),
            decreases self.data@.len() - k,
        {
            assert(self.data@.take(k + 1).drop_last() =~= self.data@.take(k as int));
            best = match (best, self.data[k]) {
                (Some(a), Some(b)) => Some(if a <= b { a } else { b }),
                (Some(a), None) => Some(a),
                (None, b) => b,
            };
            k = k + 1;
        }
        assert(self.data@.take(k as int) =~= self.data@);
        best
    }

    /// The number of present edges.
    pub fn count_edges(&self) -> (r: usize)
        ensures
            r == count_some(self.weights()),
    {
        let mut count: usize = 0;
        let mut k: usize = 0;
        while k < self.data.len()
            invariant
                k <= self.data@.len(),
                count == count_some(self.data@.take(k as int)),
                count <= k,
            decreases self.data@.len() - k,
        {
            assert(self.data@.take(k + 1).drop_last() =~= self.data@.take(k as int));
            if self.data[k].is_some() {
                count = count + 1;
            }
            k = k + 1;
        }
        assert(self.data@.take(k as int) =~= self.data@);
        count
    }
}

impl<T, Mapping: GraphMapping<T>> Graph<T, T, Mapping, Mapping> {
    /// The edges whose reverse has the same weight, or whose reverse is missing as well.
    pub fn symmetric_subgraph(&self) -> (r: Self)
        requires
            self.wf(),
            self.start_map().values() == self.destination_map().values(),
        ensures
            r.wf(),
            r.start_map() == self.start_map(),
            r.destination_map() == self.destination_map(),
            forall|i: int, j: int|
                0 <= i < self.n_start() && 0 <= j < self.n_destination() ==> #[trigger] r.edge(i, j) == if self.edge(
                    i,
                    j,
                ) == self.edge(j, i) {
                    self.edge(i, j)
                } else {
                    None
                },
    {
        let size = self.data.len();
        let mut ret = Graph::new(self.map_start, self.map_destination);
        let n = self.len_start();
        let mut i: usize = 0;
        while i < n
            invariant
                n == self.n_start() == self.n_destination(),
                i <= n,
                self.wf(),
                ret.wf(),
                ret.start_map() == self.start_map(),
                ret.destination_map() == self.destination_map(),
                forall|x: int, y: int|
                    0 <= x < n && 0 <= y < n && !(0 <= x < i) ==> #[trigger] ret.edge(x, y) is None,
                forall|x: int, y: int|
                    0 <= x < i && 0 <= y < n ==> #[trigger] ret.edge(x, y) == if self.edge(x, y) == self.edge(y, x) {
                        self.edge(x, y)
                    } else {
                        None
                    },
            decreases n - i,
        {
            let mut j: usize = 0;
            while j < n
                invariant
                    n == self.n_start() == self.n_destination(),
                    i < n,
                    j <= n,
                    self.wf(),
                    ret.wf(),
                    ret.start_map() == self.start_map(),
                    ret.destination_map() == self.destination_map(),
                    forall|x: int, y: int|
                        0 <= x < n && 0 <= y < n && !(0 <= x < i) && !(x == i && 0 <= y < j) ==> #[trigger] ret.edge(x, y) is None,
                    forall|x: int, y: int|
                        (0 <= x < i && 0 <= y < n || x == i && 0 <= y < j) ==> #[trigger] ret.edge(x, y) == if self.edge(x, y)
                            == self.edge(y, x) {
                            self.edge(x, y)
                        } else {
                            None
                        },
                decreases n - j,
            {
                let a = self.get(i, j);
                let b = self.get(j, i);
                if a == b {
                    ret.set(i, j, a);
                }
                j = j + 1;
            }
            i = i + 1;
        }
        ret
    }
}

/// Weight `a` is at most `b`, where a missing weight counts as infinite.
pub open spec fn le_opt(a: Option<u32>, b: Option<u32>) -> bool {
    match b {
        None => true,
        Some(y) => a is Some && a.unwrap() <= y,
    }
}

/// The number of missing weights among `w`.
pub open spec fn count_none(w: Seq<Option<u32>>) -> int
    decreases w.len(),
{
    if w.len() == 0 {
        0
    } else {
        count_none(w.drop_last()) + if w.last() is None {
            1int
        } else {
            0int
        }
    }
}

/// The sum of the present weights among `w`.
pub open spec fn sum_some(w: Seq<Option<u32>>) -> int
    decreases w.len(),
{
    if w.len() == 0 {
        0
    } else {
        sum_some(w.drop_last()) + match w.last() {
            Some(v) => v as int,
            None => 0int,
        }
    }
}

/// Weights that are each at most those of `w1`, and not all equal to them, have fewer missing
/// weights, or as many and a smaller sum.
proof fn lemma_lowered_measure(w1: Seq<Option<u32>>, w2: Seq<Option<u32>>)
    requires
        w1.len() == w2.len(),
        forall|k: int| 0 <= k < w1.len() ==> le_opt(#[trigger] w2[k], w1[k]),
    ensures
        count_none(w2) <= count_none(w1),
        count_none(w2) == count_none(w1) ==> sum_some(w2) <= sum_some(w1),
        w1 != w2 ==> count_none(w2) < count_none(w1) || (count_none(w2) == count_none(w1) && sum_some(w2)
            < sum_some(w1)),
    decreases w1.len(),
{
    if w1.len() > 0 {
        let a1 = w1.drop_last();
        let a2 = w2.drop_last();
        assert forall|k: int| 0 <= k < a1.len() implies le_opt(#[trigger] a2[k], a1[k]) by {
            assert(a2[k] == w2[k] && a1[k] == w1[k]);
        }
        lemma_lowered_measure(a1, a2);
        assert(le_opt(w2[w1.len() - 1], w1[w1.len() - 1]));
        lemma_count_none_bound(a1);
        lemma_count_none_bound(a2);
        if w1 != w2 && a1 == a2 {
            assert(w1 =~= a1.push(w1.last()));
            assert(w2 =~= a2.push(w2.last()));
            assert(w1.last() != w2.last());
        }
    } else {
        assert(w1 =~= w2);
    }
}

/// Missing weights are no more than all weights.
proof fn lemma_count_none_bound(w: Seq<Option<u32>>)
    ensures
        0 <= count_none(w) <= w.len(),
    decreases w.len(),
{
    if w.len() > 0 {
        lemma_count_none_bound(w.drop_last());
    }
}

/// Present weights add up to a nonnegative sum.
proof fn lemma_sum_some_nonneg(w: Seq<Option<u32>>)
    ensures
        0 <= sum_some(w),
    decreases w.len(),
{
    if w.len() > 0 {
        lemma_sum_some_nonneg(w.drop_last());
    }
}

/// The smallest of the values is no larger than any present one.
proof fn lemma_min_over_le(f: spec_fn(int) -> Option<int>, n: int, k: int)
    requires
        0 <= k < n,
        f(k) is Some,
    ensures
        min_over(f, n) is Some,
        min_over(f, n).unwrap() <= f(k).unwrap(),
    decreases n,
{
    if k < n - 1 {
        lemma_min_over_le(f, n - 1, k);
    }
}

impl<
    TStart,
    TDestination,
    MapStart: GraphMapping<TStart>,
    MapDestination: GraphMapping<TDestination>,
> Graph<TStart, TDestination, MapStart, MapDestination> {
    /// Whether chaining with `other` keeps every total weight within a `u32`.
    fn chain_fits<TNew, MapNew: GraphMapping<TNew>>(
        &self,
        other: &Graph<TDestination, TNew, MapDestination, MapNew>,
    ) -> (r: bool)
        requires
            self.wf(),
            other.wf(),
            self.destination_map().values() == other.start_map().values(),
        ensures
            r == forall|i: int, k: int, j: int|
                0 <= i < self.n_start() && 0 <= k < self.n_destination() && 0 <= j < other.n_destination()
                    ==> #[trigger] fits_u32(add_opt(self.edge(i, k), other.edge(k, j))),
    {
        let rows = self.len_start();
        let mid = self.len_destination();
        let cols = other.len_destination();
        let mut i: usize = 0;
        while i < rows
            invariant
                rows == self.n_start(),
                mid == self.n_destination(),
                cols == other.n_destination(),
                i <= rows,
                self.wf(),
                other.wf(),
                self.destination_map().values() == other.start_map().values(),
                forall|a: int, k: int, j: int|
                    0 <= a < i && 0 <= k < mid && 0 <= j < cols ==> #[trigger] fits_u32(add_opt(self.edge(a, k), other.edge(k, j))),
            decreases rows - i,
        {
            let mut k: usize = 0;
            while k < mid
                invariant
                    rows == self.n_start(),
                    mid == self.n_destination(),
                    cols == other.n_destination(),
                    i < rows,
                    k <= mid,
                    self.wf(),
                    other.wf(),
                    self.destination_map().values() == other.start_map().values(),
                    forall|a: int, c: int, j: int|
                        (0 <= a < i && 0 <= c < mid || a == i && 0 <= c < k) && 0 <= j < cols ==> #[trigger] fits_u32(add_opt(self.edge(a, c), other.edge(c, j))),
                decreases mid - k,
            {
                let mut j: usize = 0;
                while j < cols
                    invariant
                        rows == self.n_start(),
                        mid == self.n_destination(),
                        cols == other.n_destination(),
                        i < rows,
                        k < mid,
                        j <= cols,
                        self.wf(),
                        other.wf(),
                        self.destination_map().values() == other.start_map().values(),
                        forall|a: int, c: int, b: int|
                            ((0 <= a < i && 0 <= c < mid || a == i && 0 <= c < k) && 0 <= b < cols || a == i && c == k && 0 <= b < j)
                                ==> #[trigger] fits_u32(add_opt(self.edge(a, c), other.edge(c, b))),
                    decreases cols - j,
                {
                    if let (Some(x), Some(y)) = (self.get(i, k), other.get(k, j)) {
                        if x > u32::MAX - y {
                            assert(!fits_u32(add_opt(self.edge(i as int, k as int), other.edge(k as int, j as int))));
                            return false;
                        }
                    }
                    j = j + 1;
                }
                k = k + 1;
            }
            i = i + 1;
        }
        true
    }
}

/// The sum of two optional integers, missing where either is.
pub open spec fn add_int_opt(x1: Option<int>, x2: Option<int>) -> Option<int> {
    match (x1, x2) {
        (Some(v1), Some(v2)) => Some(v1 + v2),
        _ => None,
    }
}

impl<T, Mapping: GraphMapping<T>> Graph<T, T, Mapping, Mapping> {
    /// The weight from `i` to `j` once the graph has been chained with itself `t` times: the
    /// smallest total weight over `t + 1` edges (none where there is no such walk).
    pub open spec fn chained_weight(&self, t: nat, i: int, j: int) -> Option<int>
        decreases t, 0int,
    {
        if t == 0 {
            opt_int(self.edge(i, j))
        } else {
            self.relaxed((t - 1) as nat, i, j, self.n_start())
        }
    }

    /// The smallest total weight from `i` to `j` over the weight after `t` chainings to some
    /// `k < m` and one more edge from `k`.
    pub open spec fn relaxed(&self, t: nat, i: int, j: int, m: int) -> Option<int>
        decreases t, m + 1,
    {
        if m <= 0 {
            None
        } else {
            min_int_opt(
                self.relaxed(t, i, j, m - 1),
                add_int_opt(self.chained_weight(t, i, m - 1), opt_int(self.edge(m - 1, j))),
            )
        }
    }

    /// The total weight from `i` over the weight after `t` chainings to `k` and the edge from `k`
    /// to `j`.
    pub open spec fn step_sum(&self, t: nat, i: int, k: int, j: int) -> Option<int> {
        add_int_opt(self.chained_weight(t, i, k), opt_int(self.edge(k, j)))
    }

    /// One more chaining after `t` keeps the weight from `i` to `j`.
    pub open spec fn keeps(&self, t: nat, i: int, j: int) -> bool {
        self.chained_weight(t + 1, i, j) == self.chained_weight(t, i, j)
    }

    /// After `t` chainings, one more keeps every total weight within a `u32`.
    pub open spec fn chain_fits_after(&self, t: nat) -> bool {
        forall|i: int, k: int, j: int|
            0 <= i < self.n_start() && 0 <= k < self.n_start() && 0 <= j < self.n_start() ==> fits_u32(
                #[trigger] self.step_sum(t, i, k, j),
            )
    }

    /// After `t` chainings, one more changes no weight.
    pub open spec fn settled_after(&self, t: nat) -> bool {
        forall|i: int, j: int| 0 <= i < self.n_start() && 0 <= j < self.n_start() ==> #[trigger] self.keeps(t, i, j)
    }

    /// Chaining the graph with itself settles after `s` graphs: every chaining before fitted
    /// and changed something, and the next one fits and changes nothing.
    pub open spec fn settles_after(&self, s: int) -> bool {
        &&& s >= 1
        &&& forall|t: nat| t < s - 1 ==> #[trigger] self.chain_fits_after(t) && !self.settled_after(t)
        &&& self.chain_fits_after((s - 1) as nat)
        &&& self.settled_after((s - 1) as nat)
    }

    /// The graph settles after at most one count of graphs.
    pub proof fn lemma_settles_unique(&self, s1: int, s2: int)
        requires
            self.settles_after(s1),
            self.settles_after(s2),
        ensures
            s1 == s2,
    {
        if s1 < s2 {
            assert(self.chain_fits_after((s1 - 1) as nat) && !self.settled_after((s1 - 1) as nat));
        } else if s2 < s1 {
            assert(self.chain_fits_after((s2 - 1) as nat) && !self.settled_after((s2 - 1) as nat));
        }
    }

    /// Two square graphs of `n` values have the same weights exactly where every edge agrees.
    proof fn lemma_same_weights(g1: Self, g2: Self, n: int)
        requires
            g1.wf(),
            g2.wf(),
            n == g1.n_start() == g1.n_destination() == g2.n_start() == g2.n_destination(),
        ensures
            (g1.weights() == g2.weights()) <==> forall|a: int, b: int|
                0 <= a < n && 0 <= b < n ==> #[trigger] g1.edge(a, b) == g2.edge(a, b),
    {
        g1.lemma_len();
        g2.lemma_len();
        if g1.weights() == g2.weights() {
            assert forall|a: int, b: int| 0 <= a < n && 0 <= b < n implies #[trigger] g1.edge(a, b) == g2.edge(a, b) by {
                g1.lemma_weights(a, b);
                g2.lemma_weights(a, b);
            }
        }
        if forall|a: int, b: int| 0 <= a < n && 0 <= b < n ==> #[trigger] g1.edge(a, b) == g2.edge(a, b) {
            assert forall|x: int| 0 <= x < g1.weights().len() implies g1.weights()[x] == g2.weights()[x] by {
                vstd::arithmetic::div_mod::lemma_fundamental_div_mod(x, n);
                let a = x / n;
                let b = x % n;
                assert(0 <= a < n) by (nonlinear_arith)
                    requires
                        0 <= x < n * n,
                        a == x / n,
                        n > 0,
                ;
                g1.lemma_weights(a, b);
                g2.lemma_weights(a, b);
                assert(x == a * n + b) by (nonlinear_arith)
                    requires
                        x == n * (x / n) + x % n,
                        a == x / n,
                        b == x % n,
                ;
                assert(g1.edge(a, b) == g2.edge(a, b));
            }
            assert(g1.weights() =~= g2.weights());
        }
    }

    /// Chaining with the graph fits, for a graph `c` holding the weights after `t` chainings,
    /// exactly where it fits after `t` chainings.
    proof fn lemma_fits_link<M2: GraphMapping<T>, M3: GraphMapping<T>>(&self, c: Graph<T, T, M2, M3>, t: nat)
        requires
            forall|a: int, b: int|
                0 <= a < self.n_start() && 0 <= b < self.n_start() ==> #[trigger] opt_int(c.edge(a, b))
                    == self.chained_weight(t, a, b),
        ensures
            (forall|i: int, k: int, j: int|
                0 <= i < self.n_start() && 0 <= k < self.n_start() && 0 <= j < self.n_start() ==> #[trigger] fits_u32(
                    add_opt(c.edge(i, k), self.edge(k, j)),
                )) == self.chain_fits_after(t),
    {
        if self.chain_fits_after(t) {
            assert forall|i: int, k: int, j: int|
                0 <= i < self.n_start() && 0 <= k < self.n_start() && 0 <= j < self.n_start() implies #[trigger] fits_u32(
                    add_opt(c.edge(i, k), self.edge(k, j)),
                ) by {
                assert(opt_int(c.edge(i, k)) == self.chained_weight(t, i, k));
                assert(fits_u32(self.step_sum(t, i, k, j)));
            }
        }
        if forall|i: int, k: int, j: int|
            0 <= i < self.n_start() && 0 <= k < self.n_start() && 0 <= j < self.n_start() ==> #[trigger] fits_u32(
                add_opt(c.edge(i, k), self.edge(k, j)),
            ) {
            assert forall|i: int, k: int, j: int|
                0 <= i < self.n_start() && 0 <= k < self.n_start() && 0 <= j < self.n_start() implies fits_u32(
                    #[trigger] self.step_sum(t, i, k, j),
                ) by {
                assert(opt_int(c.edge(i, k)) == self.chained_weight(t, i, k));
                assert(fits_u32(add_opt(c.edge(i, k), self.edge(k, j))));
            }
        }
    }

    /// Where no count up to `i - 1` settles, and chaining after `i - 1` chainings does not fit
    /// or `i` is the largest count, the graph settles after no count at all.
    proof fn lemma_never_settles(&self, i: int)
        requires
            i >= 1,
            forall|t: nat| t < i - 1 ==> #[trigger] self.chain_fits_after(t) && !self.settled_after(t),
            !self.chain_fits_after((i - 1) as nat) || (i == usize::MAX && !self.settled_after((i - 1) as nat)),
        ensures
            forall|s: int| 1 <= s <= usize::MAX ==> !#[trigger] self.settles_after(s),
    {
        assert forall|s: int| 1 <= s <= usize::MAX implies !#[trigger] self.settles_after(s) by {
            if self.settles_after(s) {
                if s < i {
                    assert(self.chain_fits_after((s - 1) as nat) && !self.settled_after((s - 1) as nat));
                } else if s > i {
                    assert(self.chain_fits_after((i - 1) as nat));
                }
            }
        }
    }

    /// Where `c` holds the weights after `t` chainings, the weights of chaining `c` with the
    /// graph are those after `t + 1`.
    proof fn lemma_relaxed<M2: GraphMapping<T>, M3: GraphMapping<T>>(
        &self,
        c: Graph<T, T, M2, M3>,
        t: nat,
        i: int,
        j: int,
        m: int,
    )
        requires
            0 <= m <= self.n_start(),
            forall|k: int| 0 <= k < self.n_start() ==> #[trigger] opt_int(c.edge(i, k)) == self.chained_weight(t, i, k),
        ensures
            self.relaxed(t, i, j, m) == min_over(|k: int| add_opt(c.edge(i, k), self.edge(k, j)), m),
        decreases m,
    {
        if m > 0 {
            self.lemma_relaxed(c, t, i, j, m - 1);
            assert(opt_int(c.edge(i, m - 1)) == self.chained_weight(t, i, m - 1));
        }
    }
}

impl<T, Mapping: GraphMapping<T>> Graph<T, T, Mapping, Mapping> {
    /// Chains the graph with itself until nothing changes, which needs a weight of zero from
    /// every value to itself: the resulting graph and how many graphs were chained. `None` where
    /// a total weight would not fit a `u32`, or the count a `usize`.
    pub fn all_pairs(&self) -> (r: Option<(Self, usize)>)
        requires
            self.wf(),
            self.start_map().values() == self.destination_map().values(),
            forall|i: int| 0 <= i < self.n_start() ==> #[trigger] self.edge(i, i) == Some(0u32),
        ensures
            r matches Some((g, steps)) ==> {
                &&& steps >= 1
                &&& g.wf()
                &&& g.start_map() == self.start_map()
                &&& g.destination_map() == self.destination_map()
                &&& forall|i: int, j: int|
                    0 <= i < self.n_start() && 0 <= j < self.n_start() ==> le_opt(#[trigger] g.edge(i, j), self.edge(i, j))
                &&& forall|i: int, j: int|
                    0 <= i < self.n_start() && 0 <= j < self.n_start() ==> #[trigger] opt_int(g.edge(i, j))
                        == min_over(|k: int| add_opt(g.edge(i, k), self.edge(k, j)), self.n_start())
                &&& self.settles_after(steps as int)
                &&& forall|i: int, j: int|
                    0 <= i < self.n_start() && 0 <= j < self.n_start() ==> opt_int(#[trigger] g.edge(i, j))
                        == self.chained_weight((steps - 1) as nat, i, j)
            },
            r is None <==> forall|s: int| 1 <= s <= usize::MAX ==> !#[trigger] self.settles_after(s),
    {
        let n = self.len_start();
        let size = self.data.len();
        let mut chained = self.clone();
        let mut i: usize = 1;
        loop
            invariant
                n == self.n_start() == self.n_destination(),
                n * n <= usize::MAX,
                self.wf(),
                self.start_map().values() == self.destination_map().values(),
                forall|x: int| 0 <= x < n ==> #[trigger] self.edge(x, x) == Some(0u32),
                chained.wf(),
                chained.start_map() == self.start_map(),
                chained.destination_map() == self.destination_map(),
                i >= 1,
                forall|a: int, b: int|
                    0 <= a < n && 0 <= b < n ==> le_opt(#[trigger] chained.edge(a, b), self.edge(a, b)),
                forall|a: int, b: int|
                    0 <= a < n && 0 <= b < n ==> #[trigger] opt_int(chained.edge(a, b)) == self.chained_weight(
                        (i - 1) as nat,
                        a,
                        b,
                    ),
                forall|t: nat| t < i - 1 ==> #[trigger] self.chain_fits_after(t) && !self.settled_after(t),
            decreases count_none(chained.weights()), sum_some(chained.weights()),
        {
            let ghost t = (i - 1) as nat;
            proof {
                self.lemma_fits_link(chained, t);
                assert(forall|u: nat| u < t ==> #[trigger] self.chain_fits_after(u) && !self.settled_after(u));
            }
            if !chained.chain_fits(self) {
                proof {
                    assert(forall|u: nat| u < i - 1 ==> #[trigger] self.chain_fits_after(u) && !self.settled_after(u));
                    assert(!self.chain_fits_after((i - 1) as nat));
                    self.lemma_never_settles(i as int);
                }
                return None;
            }
            let new = chained.chain(self);
            proof {
                assert forall|a: int, b: int| 0 <= a < n && 0 <= b < n implies #[trigger] opt_int(new.edge(a, b))
                    == self.chained_weight(t + 1, a, b) by {
                    assert forall|k: int| 0 <= k < self.n_start() implies #[trigger] opt_int(chained.edge(a, k))
                        == self.chained_weight(t, a, k) by {}
                    self.lemma_relaxed(chained, t, a, b, n as int);
                }
                Self::lemma_same_weights(chained, new, n as int);
            }
            proof {
                assert forall|a: int, b: int| 0 <= a < n && 0 <= b < n implies le_opt(#[trigger] new.edge(a, b), chained.edge(a, b)) by {
                    if chained.edge(a, b) is Some {
                        assert(opt_int(new.edge(a, b)) == min_over(|k: int| add_opt(chained.edge(a, k), self.edge(k, b)), n as int));
                        lemma_min_over_le(|k: int| add_opt(chained.edge(a, k), self.edge(k, b)), n as int, b);
                    }
                }
            }
            if new.same_as(&chained) {
                proof {
                    assert forall|a: int, b: int|
                        0 <= a < n && 0 <= b < n implies #[trigger] opt_int(chained.edge(a, b))
                            == min_over(|k: int| add_opt(chained.edge(a, k), self.edge(k, b)), n as int) by {
                        chained.lemma_weights(a, b);
                        new.lemma_weights(a, b);
                    }
                    assert forall|a: int, b: int| 0 <= a < n && 0 <= b < n implies #[trigger] self.keeps(t, a, b) by {
                        chained.lemma_weights(a, b);
                        new.lemma_weights(a, b);
                        assert(opt_int(new.edge(a, b)) == self.chained_weight(t + 1, a, b));
                        assert(opt_int(chained.edge(a, b)) == self.chained_weight(t, a, b));
                    }
                    assert(self.settled_after(t));
                    assert(self.settles_after(i as int));
                }
                return Some((chained, i));
            }
            proof {
                let (a0, b0) = choose|a: int, b: int| 0 <= a < n && 0 <= b < n && chained.edge(a, b) != new.edge(a, b);
                assert(opt_int(new.edge(a0, b0)) == self.chained_weight(t + 1, a0, b0));
                assert(opt_int(chained.edge(a0, b0)) == self.chained_weight(t, a0, b0));
                assert(!self.keeps(t, a0, b0));
                assert(!self.settled_after(t));
            }
            proof {
                assert forall|x: int| 0 <= x < chained.weights().len() implies le_opt(
                    #[trigger] new.weights()[x],
                    chained.weights()[x],
                ) by {
                    chained.lemma_len();
                    new.lemma_len();
                    vstd::arithmetic::div_mod::lemma_fundamental_div_mod(x, n as int);
                    let a = x / n as int;
                    let b = x % n as int;
                    assert(0 <= a < n) by (nonlinear_arith)
                        requires
                            0 <= x < n * n,
                            a == x / n as int,
                            n > 0,
                    ;
                    chained.lemma_weights(a, b);
                    new.lemma_weights(a, b);
                    assert(x == a * n + b) by (nonlinear_arith)
                        requires
                            x == n * (x / n as int) + x % n as int,
                            a == x / n as int,
                            b == x % n as int,
                    ;
                }
                lemma_lowered_measure(chained.weights(), new.weights());
                lemma_count_none_bound(new.weights());
                lemma_sum_some_nonneg(new.weights());
            }
            chained = new;
            i = match i.checked_add(1) {
                Some(next) => next,
                None => {
                    proof {
                        self.lemma_never_settles(i as int);
                    }
                    return None;
                },
            };
            proof {
                assert(self.chain_fits_after(t) && !self.settled_after(t));
                assert(forall|u: nat| u < t ==> #[trigger] self.chain_fits_after(u) && !self.settled_after(u));
                assert(i - 1 == t + 1);
                assert forall|u: nat| u < i - 1 implies #[trigger] self.chain_fits_after(u) && !self.settled_after(u) by {
                    if u == t {
                        assert(self.chain_fits_after(t) && !self.settled_after(t));
                    } else {
                        assert(u < t);
                        assert(self.chain_fits_after(u) && !self.settled_after(u));
                    }
                }
            }
        }
    }
}

/// Multiplication commutes.
proof fn lemma_mul_comm(a: int, b: int)
    ensures
        a * b == b * a,
{
    assert(a * b == b * a) by (nonlinear_arith);
}

/// Different cells of a matrix with `cols` columns have different places.
proof fn lemma_edge_index_injective(i1: int, j1: int, i2: int, j2: int, cols: int)
    requires
        0 <= j1 < cols,
        0 <= j2 < cols,
        0 <= i1,
        0 <= i2,
        (i1, j1) != (i2, j2),
    ensures
        i1 * cols + j1 != i2 * cols + j2,
{
    if i1 == i2 {
    } else if i1 < i2 {
        assert(i1 * cols + cols <= i2 * cols) by (nonlinear_arith)
            requires
                i1 < i2,
                0 <= cols,
        ;
    } else {
        assert(i2 * cols + cols <= i1 * cols) by (nonlinear_arith)
            requires
                i2 < i1,
                0 <= cols,
        ;
    }
}

} // verus!
