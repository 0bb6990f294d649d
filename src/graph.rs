use vstd::prelude::*;
use vstd::set_lib::*;

use crate::binding::{binding_size, eval_binding, lemma_eval_depends_on_reads, reads_of, Binding};
use crate::context::EvaluationContext;

verus! {

/// Why a read could not produce a value.
#[derive(Clone, Copy, PartialEq, Eq, Structural, Debug)]
pub enum BindingError {
    /// A binding read, directly or through other bindings, the property that
    /// was being evaluated.
    CircularDependency,
}

/// The state of one property slot.
pub struct PropertyState {
    /// The cached or assigned value.
    pub value: i64,
    /// How the value is computed, if it is computed.
    pub binding: Option<Binding>,
    /// The value may not reflect the current inputs of the binding.
    pub dirty: bool,
    /// Handles of the properties whose bindings read this one since it was
    /// last invalidated. Entries may name dropped properties.
    pub dependents: Vec<usize>,
    /// The slot has not been dropped.
    pub alive: bool,
}

/// An arena of properties and the stack of the bindings being evaluated.
pub struct PropertyGraph {
    /// The property slots, indexed by handle.
    pub cells: Vec<PropertyState>,
    /// Handles of the properties whose bindings are being evaluated,
    /// innermost last.
    pub stack: Vec<usize>,
}

/// Every property that `b` reads is a slot of an arena of `n` slots.
pub open spec fn reads_within(b: Binding, n: int) -> bool {
    forall|x: int| #[trigger] reads_of(b).contains(x) ==> 0 <= x < n
}

/// Reading the property gives its stored value without evaluating anything.
pub open spec fn settled(c: PropertyState) -> bool {
    !c.dirty || c.binding is None
}

/// A sequence of distinct handles below `n` has at most `n` elements.
proof fn lemma_stack_bounded(s: Seq<usize>, n: int)
    requires
        s.no_duplicates(),
        0 <= n,
        forall|k: int| 0 <= k < s.len() ==> #[trigger] s[k] < n,
    ensures
        s.len() <= n,
{
    let t = s.map_values(|x: usize| x as int);
    assert(t.no_duplicates());
    t.unique_seq_to_set();
    lemma_int_range(0, n);
    assert forall|x: int| t.to_set().contains(x) implies set_int_range(0, n).contains(x) by {
        let k = choose|k: int| 0 <= k < t.len() && t[k] == x;
        assert(s[k] < n);
    }
    lemma_len_subset(t.to_set(), set_int_range(0, n));
}

/// Doing nothing is an evolution.
proof fn lemma_evolves_refl(g: PropertyGraph)
    ensures
        g.evolves_to(g),
{
    assert forall|i: int| 0 <= i < g.len() implies g.cell(i).dependents@.subrange(
        0,
        g.cell(i).dependents@.len() as int,
    ) =~= g.cell(i).dependents@ by {}
}

/// Evolutions compose.
proof fn lemma_evolves_trans(a: PropertyGraph, b: PropertyGraph, c: PropertyGraph)
    requires
        a.evolves_to(b),
        b.evolves_to(c),
    ensures
        a.evolves_to(c),
{
    assert forall|i: int| 0 <= i < a.len() implies a.cell(i).dependents@ == c.cell(
        i,
    ).dependents@.subrange(0, a.cell(i).dependents@.len() as int) by {
        let n = a.cell(i).dependents@.len() as int;
        assert(b.cell(i).dependents@.subrange(0, n) =~= c.cell(i).dependents@.subrange(
            0,
            b.cell(i).dependents@.len() as int,
        ).subrange(0, n));
    }
}

/// An evolution of the cells carries over to any common evaluation stack.
proof fn lemma_evolves_restack(a: PropertyGraph, b: PropertyGraph, a2: PropertyGraph, b2: PropertyGraph)
    requires
        a.evolves_to(b),
        a2.cells@ == a.cells@,
        b2.cells@ == b.cells@,
        a2.stack@ == b2.stack@,
    ensures
        a2.evolves_to(b2),
{
    assert forall|i: int| 0 <= i < a2.len() implies a2.cell(i) == a.cell(i) && b2.cell(i) == b.cell(i) by {}
}

/// What a prefix holds, the whole sequence holds.
proof fn lemma_prefix_contains(s: Seq<usize>, t: Seq<usize>, v: usize)
    requires
        s.len() <= t.len(),
        s == t.subrange(0, s.len() as int),
        s.contains(v),
    ensures
        t.contains(v),
{
    let k = choose|k: int| 0 <= k < s.len() && s[k] == v;
    assert(t[k] == v);
}

/// Consistency depends on the cells alone, not on the evaluation stack.
proof fn lemma_consistent_same_cells(a: PropertyGraph, b: PropertyGraph)
    requires
        a.consistent(),
        a.cells@ == b.cells@,
    ensures
        b.consistent(),
{
    assert(a.values() == b.values());
    assert forall|c: int|
        0 <= c < b.len() && (#[trigger] b.cell(c)).binding is Some && !b.cell(c).dirty implies b.fresh(
        c,
    ) by {
        assert(a.cell(c) == b.cell(c));
        assert(a.fresh(c));
        let f = b.cell(c).binding->0;
        assert forall|x: int| #[trigger] reads_of(f).contains(x) implies settled(b.cell(x)) && (
        b.cell(x).alive ==> b.cell(x).dependents@.contains(c as usize)) by {
            assert(a.cell(x) == b.cell(x));
        }
    }
}

/// An invalidation sweep from a live property that leaves it unbound or
/// dirty keeps the arena consistent.
proof fn lemma_consistent_after_marks(a: PropertyGraph, b: PropertyGraph, id: int, m: Set<int>)
    requires
        a.wf(),
        a.consistent(),
        0 <= id < a.len(),
        a.cell(id).alive,
        a.marks(b, id, m),
        b.cell(id).binding is None || b.cell(id).dirty,
    ensures
        b.consistent(),
{
    assert forall|c: int|
        0 <= c < b.len() && (#[trigger] b.cell(c)).binding is Some && !b.cell(c).dirty implies b.fresh(
        c,
    ) by {
        assert(c != id);
        assert(!m.contains(c));
        assert(a.cell(c).binding == b.cell(c).binding);
        assert(a.cell(c).alive);
        assert(a.fresh(c));
        let f = a.cell(c).binding->0;
        assert(reads_within(f, a.len()));
        assert forall|x: int| #[trigger] reads_of(f).contains(x) implies a.values()[x]
            == b.values()[x] && settled(b.cell(x)) && (b.cell(x).alive
            ==> b.cell(x).dependents@.contains(c as usize)) by {
            assert(settled(a.cell(x)));
            if m.contains(x) && a.cell(x).alive {
                let k = choose|k: int|
                    0 <= k < a.cell(x).dependents@.len() && a.cell(x).dependents@[k] == c as usize;
                assert(a.cells.len() == a.cells@.len());
                assert(a.cell(x).dependents@[k] as int == c);
                assert(a.cell(c).alive);
                assert(m.contains(a.cell(x).dependents@[k] as int));
                assert(false);
            }
            assert(m.contains(id));
            assert(x != id);
            assert(b.cell(x).value == a.cell(x).value);
        }
        lemma_eval_depends_on_reads(f, a.values(), b.values());
    }
}

/// A ranking depends on the cells alone, not on the evaluation stack.
proof fn lemma_ranked_same_cells(a: PropertyGraph, b: PropertyGraph, rank: spec_fn(int) -> nat)
    requires
        a.ranked(rank),
        a.cells@ == b.cells@,
    ensures
        b.ranked(rank),
{
    assert forall|y: int, x: int|
        #![trigger reads_of(b.cell(y).binding->0).contains(x), rank(y), rank(x)]
        0 <= y < b.len() && !settled(b.cell(y)) && rank(y) > 0 && reads_of(
            b.cell(y).binding->0,
        ).contains(x) && !settled(b.cell(x)) implies 0 < rank(x) < rank(y) by {
        assert(a.cell(y) == b.cell(y));
        assert(a.cell(x) == b.cell(x));
        assert(reads_of(a.cell(y).binding->0).contains(x));
    }
}

/// A ranking stays a ranking as properties become settled.
proof fn lemma_ranked_evolves(a: PropertyGraph, b: PropertyGraph, rank: spec_fn(int) -> nat)
    requires
        a.wf(),
        a.ranked(rank),
        a.evolves_to(b),
    ensures
        b.ranked(rank),
{
    assert forall|y: int, x: int|
        #![trigger reads_of(b.cell(y).binding->0).contains(x), rank(y), rank(x)]
        0 <= y < b.len() && !settled(b.cell(y)) && rank(y) > 0 && reads_of(
            b.cell(y).binding->0,
        ).contains(x) && !settled(b.cell(x)) implies 0 < rank(x) < rank(y) by {
        assert(!settled(a.cell(y)));
        assert(a.cell(y).binding == b.cell(y).binding);
        assert(a.cell(y).binding is Some);
        assert(reads_within(a.cell(y).binding->0, a.len()));
        assert(0 <= x < a.len());
        assert(!settled(a.cell(x)));
        assert(reads_of(a.cell(y).binding->0).contains(x));
    }
}

/// Evolving keeps every clean binding fresh; only the properties that became
/// clean on the way need to be shown fresh.
proof fn lemma_consistent_frame(a: PropertyGraph, b: PropertyGraph)
    requires
        a.wf(),
        a.consistent(),
        a.evolves_to(b),
        forall|c: int|
            0 <= c < a.len() && (#[trigger] b.cell(c)).binding is Some && !b.cell(c).dirty
                && !settled(a.cell(c)) ==> b.fresh(c),
    ensures
        b.consistent(),
{
    assert forall|c: int|
        0 <= c < b.len() && (#[trigger] b.cell(c)).binding is Some && !b.cell(c).dirty implies b.fresh(
        c,
    ) by {
        if settled(a.cell(c)) {
            let f = a.cell(c).binding->0;
            assert(a.cell(c).binding is Some);
            assert(a.fresh(c));
            assert(reads_within(f, a.len()));
            assert forall|x: int| #[trigger] reads_of(f).contains(x) implies a.values()[x]
                == b.values()[x] by {
                assert(settled(a.cell(x)));
                assert(b.cell(x).value == a.cell(x).value);
            }
            lemma_eval_depends_on_reads(f, a.values(), b.values());
            assert forall|x: int| #[trigger] reads_of(f).contains(x) implies settled(b.cell(x)) && (
            b.cell(x).alive ==> b.cell(x).dependents@.contains(c as usize)) by {
                assert(settled(a.cell(x)));
                assert(b.cell(x).alive == a.cell(x).alive);
                if a.cell(x).alive {
                    lemma_prefix_contains(a.cell(x).dependents@, b.cell(x).dependents@, c as usize);
                }
            }
        }
    }
}

impl PropertyGraph {
    /// The number of slots.
    pub open spec fn len(&self) -> int {
        self.cells@.len() as int
    }

    /// The slot of handle `i`.
    pub open spec fn cell(&self, i: int) -> PropertyState {
        self.cells@[i]
    }

    /// The stored values, by handle.
    pub open spec fn values(&self) -> Seq<i64> {
        self.cells@.map_values(|c: PropertyState| c.value)
    }

    /// Handles and bindings stay within the arena; the evaluation stack holds
    /// each property at most once.
    pub open spec fn wf(&self) -> bool {
        &&& forall|i: int, k: int|
            0 <= i < self.len() && 0 <= k < self.cell(i).dependents@.len()
                ==> #[trigger] self.cell(i).dependents@[k] < self.len()
        &&& forall|i: int|
            0 <= i < self.len() && (#[trigger] self.cell(i)).binding is Some
                ==> reads_within(self.cell(i).binding->0, self.len()) && self.cell(i).alive
        &&& self.stack@.no_duplicates()
        &&& forall|k: int| 0 <= k < self.stack@.len() ==> #[trigger] self.stack@[k] < self.len()
    }

    /// Every clean property with a binding is `fresh`.
    pub open spec fn consistent(&self) -> bool {
        forall|c: int|
            0 <= c < self.len() && (#[trigger] self.cell(c)).binding is Some && !self.cell(c).dirty
                ==> self.fresh(c)
    }

    /// Property `c` holds the value of its binding over the current values,
    /// every property the binding reads is settled, and `c` is registered as
    /// a dependent of each of them that is live.
    pub open spec fn fresh(&self, c: int) -> bool {
        let b = self.cell(c).binding->0;
        &&& self.cell(c).value == eval_binding(b, self.values())
        &&& forall|x: int| #[trigger]
            reads_of(b).contains(x) ==> settled(self.cell(x)) && (self.cell(x).alive
                ==> self.cell(x).dependents@.contains(c as usize))
    }

    /// `rank` orders the dirty bindings below every ranked property: a
    /// ranked property that is not settled reads only settled properties or
    /// ranked properties of a lower rank. No cycle passes through a ranked
    /// property.
    pub open spec fn ranked(&self, rank: spec_fn(int) -> nat) -> bool {
        forall|y: int, x: int|
            #![trigger reads_of(self.cell(y).binding->0).contains(x), rank(y), rank(x)]
            0 <= y < self.len() && !settled(self.cell(y)) && rank(y) > 0 && reads_of(
                self.cell(y).binding->0,
            ).contains(x) && !settled(self.cell(x)) ==> 0 < rank(x) < rank(y)
    }

    /// Property `x` is on the evaluation stack.
    pub open spec fn on_stack(&self, x: int) -> bool {
        exists|k: int| 0 <= k < self.stack@.len() && self.stack@[k] as int == x
    }

    /// What reading `id` with nothing being evaluated, with result `r`,
    /// leaves in `after`.
    pub open spec fn read_outcome(&self, after: PropertyGraph, id: int, r: Result<i64, BindingError>) -> bool {
        &&& after.wf()
        &&& after.consistent()
        &&& after.idle()
        &&& self.evolves_to(after)
        &&& settled(self.cell(id)) ==> {
            &&& r == Ok::<i64, BindingError>(self.cell(id).value)
            &&& forall|i: int|
                #![trigger after.cell(i)]
                0 <= i < self.len() ==> after.cell(i).value == self.cell(i).value
                    && after.cell(i).dirty == self.cell(i).dirty
        }
        &&& !settled(self.cell(id)) && reads_of(self.cell(id).binding->0).contains(id) ==> r
            == Err::<i64, BindingError>(BindingError::CircularDependency)
        &&& self.cell(id).binding is Some && reads_of(self.cell(id).binding->0).is_empty() ==> r is Ok
        &&& forall|rank: spec_fn(int) -> nat|
            self.ranked(rank) && (settled(self.cell(id)) || rank(id) > 0) ==> r is Ok
        &&& r is Ok ==> settled(after.cell(id)) && r->Ok_0 == after.cell(id).value
        &&& r is Ok && after.cell(id).binding is Some ==> r->Ok_0 == eval_binding(
            after.cell(id).binding->0,
            after.values(),
        )
    }

    /// What writing `value` to `id` leaves in `after`.
    pub open spec fn write_outcome(&self, after: PropertyGraph, id: int, value: i64) -> bool {
        &&& after.wf()
        &&& after.consistent()
        &&& after.idle()
        &&& after.cell(id).value == value
        &&& after.cell(id).binding is None
        &&& !after.cell(id).dirty
        &&& exists|m: Set<int>| #[trigger] self.marks(after, id, m)
    }

    /// What installing `binding` on `id` leaves in `after`.
    pub open spec fn bind_outcome(&self, after: PropertyGraph, id: int, binding: Binding) -> bool {
        &&& after.wf()
        &&& after.consistent()
        &&& after.idle()
        &&& after.cell(id).value == self.cell(id).value
        &&& after.cell(id).binding == Some(binding)
        &&& after.cell(id).dirty
        &&& exists|m: Set<int>| #[trigger] self.marks(after, id, m)
    }

    /// No binding is being evaluated.
    pub open spec fn idle(&self) -> bool {
        self.stack@.len() == 0
    }

    /// What an evaluation may do to the arena: evaluate bindings of
    /// properties that were not settled, and register dependents.
    pub open spec fn evolves_to(&self, other: PropertyGraph) -> bool {
        &&& other.len() == self.len()
        &&& other.stack@ == self.stack@
        &&& forall|i: int|
            #![trigger other.cell(i)]
            0 <= i < self.len() ==> {
                &&& other.cell(i).binding == self.cell(i).binding
                &&& other.cell(i).alive == self.cell(i).alive
                &&& self.cell(i).dependents@.len() <= other.cell(i).dependents@.len()
                &&& self.cell(i).dependents@ == other.cell(i).dependents@.subrange(
                    0,
                    self.cell(i).dependents@.len() as int,
                )
                &&& settled(self.cell(i)) ==> {
                    &&& other.cell(i).value == self.cell(i).value
                    &&& other.cell(i).dirty == self.cell(i).dirty
                }
                &&& settled(self.cell(i)) ==> settled(other.cell(i))
            }
    }

    /// The outcome of an invalidation sweep from `id` that marked the set
    /// `m`: `m` holds `id`, and with each property it holds every live
    /// property that was registered as its dependent. The marked properties
    /// are dirty and their dependent lists are emptied; nothing else changes.
    pub open spec fn swept(&self, other: PropertyGraph, id: int, m: Set<int>) -> bool {
        &&& self.marks(other, id, m)
        &&& other.cell(id).value == self.cell(id).value
        &&& other.cell(id).binding == self.cell(id).binding
        &&& other.cell(id).dirty
    }

    /// What an invalidation sweep from `id` that marked `m` does to every
    /// part of the arena but the value, binding and dirty flag of `id`.
    pub open spec fn marks(&self, other: PropertyGraph, id: int, m: Set<int>) -> bool {
        &&& other.len() == self.len()
        &&& other.stack@ == self.stack@
        &&& m.contains(id)
        &&& forall|i: int| #[trigger] m.contains(i) ==> 0 <= i < self.len()
        &&& forall|i: int, k: int|
            m.contains(i) && 0 <= k < self.cell(i).dependents@.len() && self.cell(
                self.cell(i).dependents@[k] as int,
            ).alive ==> #[trigger] m.contains(self.cell(i).dependents@[k] as int)
        &&& forall|i: int|
            #![trigger other.cell(i)]
            0 <= i < self.len() ==> {
                &&& other.cell(i).alive == self.cell(i).alive
                &&& m.contains(i) ==> other.cell(i).dependents@.len() == 0
                &&& !m.contains(i) ==> other.cell(i).dependents@ == self.cell(i).dependents@
                &&& i != id ==> {
                    &&& other.cell(i).value == self.cell(i).value
                    &&& other.cell(i).binding == self.cell(i).binding
                    &&& m.contains(i) ==> other.cell(i).dirty
                    &&& !m.contains(i) ==> other.cell(i).dirty == self.cell(i).dirty
                }
            }
    }

    /// Marks `id` and, transitively, every live property registered as
    /// depending on it, dirty. Each dependent list is emptied before the
    /// properties it names are visited, so mutual dependencies end the sweep.
    pub(crate) fn mark_dirty(&mut self, id: usize) -> (m: Ghost<Set<int>>)
        requires
            old(self).wf(),
            id < old(self).len(),
        ensures
            final(self).wf(),
            old(self).swept(*final(self), id as int, m@),
    {
        let ghost orig = *self;
        let ghost n = self.len();
        let ghost mut marked: Set<int> = Set::empty().insert(id as int);
        let mut work: Vec<usize> = Vec::new();
        self.cells[id].dirty = true;
        std::mem::swap(&mut self.cells[id].dependents, &mut work);
        proof {
            lemma_int_range(0, n);
            assert(marked.subset_of(set_int_range(0, n)));
            assert(work@ == orig.cell(id as int).dependents@);
            assert forall|i: int| 0 <= i < n && i != id implies self.cell(i) == orig.cell(i) by {}
            assert forall|k: int| 0 <= k < work@.len() implies #[trigger] work@[k] < n by {
                assert(orig.cell(id as int).dependents@[k] < n);
            }
            assert forall|i: int, k: int|
                0 <= i < self.len() && 0 <= k < self.cell(i).dependents@.len()
                    implies #[trigger] self.cell(i).dependents@[k] < self.len() by {
                assert(self.cell(i) == orig.cell(i));
            }
            assert forall|i: int| 0 <= i < self.len() && (#[trigger] self.cell(i)).binding is Some
                implies reads_within(self.cell(i).binding->0, self.len()) && self.cell(i).alive by {
                assert(self.cell(i).binding == orig.cell(i).binding);
            }
            assert forall|i: int, k: int|
                marked.contains(i) && 0 <= k < orig.cell(i).dependents@.len() && orig.cell(
                    orig.cell(i).dependents@[k] as int,
                ).alive implies #[trigger] marked.contains(orig.cell(i).dependents@[k] as int)
                || work@.contains(orig.cell(i).dependents@[k]) by {
                assert(i == id);
                assert(work@[k] == orig.cell(i).dependents@[k]);
            }
        }
        while work.len() > 0
            invariant
                self.wf(),
                self.len() == n,
                orig.len() == n,
                orig.wf(),
                self.stack@ == orig.stack@,
                forall|k: int| 0 <= k < work@.len() ==> #[trigger] work@[k] < n,
                marked.contains(id as int),
                marked.subset_of(set_int_range(0, n)),
                set_int_range(0, n).finite(),
                set_int_range(0, n).len() == n,
                forall|i: int|
                    #![trigger self.cell(i)]
                    0 <= i < n ==> {
                        &&& self.cell(i).value == orig.cell(i).value
                        &&& self.cell(i).binding == orig.cell(i).binding
                        &&& self.cell(i).alive == orig.cell(i).alive
                        &&& marked.contains(i) ==> self.cell(i).dirty
                            && self.cell(i).dependents@.len() == 0
                        &&& !marked.contains(i) ==> self.cell(i).dirty == orig.cell(i).dirty
                            && self.cell(i).dependents@ == orig.cell(i).dependents@
                    },
                forall|i: int, k: int|
                    marked.contains(i) && 0 <= k < orig.cell(i).dependents@.len() && orig.cell(
                        orig.cell(i).dependents@[k] as int,
                    ).alive ==> #[trigger] marked.contains(orig.cell(i).dependents@[k] as int)
                        || work@.contains(orig.cell(i).dependents@[k]),
            decreases n - marked.len(), work@.len(),
        {
            let ghost before = work@;
            let ghost start = *self;
            let w = match work.pop() {
                Some(w) => w,
                None => id,
            };
            assert(before == work@.push(w));
            let ghost popped = work@;
            assert(popped =~= before.subrange(0, before.len() - 1));
            if self.cells[w].alive {
                let ghost was = marked.contains(w as int);
                let mut d: Vec<usize> = Vec::new();
                let ghost pre = self.cell(w as int).dependents@;
                self.cells[w].dirty = true;
                std::mem::swap(&mut self.cells[w].dependents, &mut d);
                assert(d@ == pre);
                let ghost taken = d@;
                work.append(&mut d);
                proof {
                    assert(work@ == popped + taken);
                    if !was {
                        assert(taken == orig.cell(w as int).dependents@);
                    }
                    assert forall|k: int| 0 <= k < work@.len() implies #[trigger] work@[k] < n by {
                        if k >= popped.len() {
                            assert(work@[k] == taken[k - popped.len()]);
                        } else {
                            assert(work@[k] == before[k]);
                        }
                    }
                    assert forall|i: int, k: int|
                        0 <= i < self.len() && 0 <= k < self.cell(i).dependents@.len()
                            implies #[trigger] self.cell(i).dependents@[k] < self.len() by {
                        assert(i != w);
                        assert(self.cell(i) == start.cell(i));
                    }
                    assert forall|i: int| 0 <= i < self.len() && (#[trigger] self.cell(i)).binding is Some
                        implies reads_within(self.cell(i).binding->0, self.len()) && self.cell(i).alive by {
                        assert(self.cell(i).binding == start.cell(i).binding);
                    }
                    if !was {
                        marked = marked.insert(w as int);
                        lemma_len_subset(marked, set_int_range(0, n));
                    }
                    assert forall|i: int, k: int|
                        marked.contains(i) && 0 <= k < orig.cell(i).dependents@.len() && orig.cell(
                            orig.cell(i).dependents@[k] as int,
                        ).alive implies #[trigger] marked.contains(
                            orig.cell(i).dependents@[k] as int,
                        ) || work@.contains(orig.cell(i).dependents@[k]) by {
                        let d = orig.cell(i).dependents@[k];
                        if i == w && !was {
                            assert(work@[popped.len() + k] == d);
                        } else if !marked.contains(d as int) {
                            assert(before.contains(d));
                            let j = choose|j: int| 0 <= j < before.len() && before[j] == d;
                            if d != w {
                                assert(j < popped.len());
                                assert(work@[j] == d);
                            }
                        }
                    }
                }
            } else {
                proof {
                    assert forall|i: int, k: int|
                        marked.contains(i) && 0 <= k < orig.cell(i).dependents@.len() && orig.cell(
                            orig.cell(i).dependents@[k] as int,
                        ).alive implies #[trigger] marked.contains(
                            orig.cell(i).dependents@[k] as int,
                        ) || work@.contains(orig.cell(i).dependents@[k]) by {
                        let d = orig.cell(i).dependents@[k];
                        if !marked.contains(d as int) {
                            assert(before.contains(d));
                            let j = choose|j: int| 0 <= j < before.len() && before[j] == d;
                            assert(d != w);
                            assert(j < popped.len());
                            assert(work@[j] == d);
                        }
                    }
                }
            }
        }
        Ghost(marked)
    }

    /// Registers the property whose binding is being evaluated, if any, as a
    /// dependent of `id`.
    fn register_current_binding_as_dependency(&mut self, id: usize)
        requires
            old(self).wf(),
            id < old(self).len(),
        ensures
            final(self).wf(),
            old(self).evolves_to(*final(self)),
            forall|i: int| #![trigger final(self).cell(i)]
                0 <= i < old(self).len() ==> {
                    &&& final(self).cell(i).value == old(self).cell(i).value
                    &&& final(self).cell(i).dirty == old(self).cell(i).dirty
                },
            old(self).stack@.len() > 0 ==> final(self).cell(id as int).dependents@ == old(
                self,
            ).cell(id as int).dependents@.push(old(self).stack@.last()),
            old(self).stack@.len() == 0 ==> final(self).cells@ == old(self).cells@,
    {
        let n = self.stack.len();
        if n > 0 {
            let top = self.stack[n - 1];
            let ghost prev = self.cell(id as int).dependents@;
            self.cells[id].dependents.push(top);
            proof {
                assert(self.cell(id as int).value == old(self).cell(id as int).value);
                assert(self.cell(id as int).dirty == old(self).cell(id as int).dirty);
                assert(self.cell(id as int).binding == old(self).cell(id as int).binding);
                assert(self.cell(id as int).alive == old(self).cell(id as int).alive);
                assert(self.cell(id as int).dependents@.subrange(0, prev.len() as int) =~= prev);
                assert forall|i: int| 0 <= i < self.len() && i != id implies self.cell(i) == old(
                    self,
                ).cell(i) by {}
                assert forall|i: int| 0 <= i < self.len() implies self.cell(i).dependents@.subrange(
                    0,
                    old(self).cell(i).dependents@.len() as int,
                ) =~= old(self).cell(i).dependents@ by {}
                assert forall|i: int, k: int|
                    0 <= i < self.len() && 0 <= k < self.cell(i).dependents@.len()
                        implies #[trigger] self.cell(i).dependents@[k] < self.len() by {
                    if i != id && k < prev.len() {
                        assert(self.cell(i) == old(self).cell(i));
                    }
                    if i == id && k < prev.len() {
                        assert(self.cell(i).dependents@[k] == prev[k]);
                    }
                }
                assert forall|i: int| 0 <= i < self.len() && (#[trigger] self.cell(i)).binding is Some
                    implies reads_within(self.cell(i).binding->0, self.len()) && self.cell(i).alive by {
                    assert(old(self).cell(i).binding == self.cell(i).binding);
                }
            }
        }
        proof {
            assert forall|i: int| 0 <= i < self.len() implies self.cell(i).dependents@.subrange(
                0,
                old(self).cell(i).dependents@.len() as int,
            ) =~= old(self).cell(i).dependents@ by {}
        }
    }

    /// Whether the binding of `id` is being evaluated.
    fn is_evaluating(&self, id: usize) -> (r: bool)
        ensures
            r == self.stack@.contains(id),
    {
        let mut k: usize = 0;
        while k < self.stack.len()
            invariant
                k <= self.stack@.len(),
                forall|j: int| 0 <= j < k ==> self.stack@[j] != id,
            decreases self.stack@.len() - k,
        {
            if self.stack[k] == id {
                return true;
            }
            k = k + 1;
        }
        false
    }

    /// Reads property `id` on behalf of the binding on top of the stack.
    ///
    /// A dirty property with a binding is evaluated first, with `id` pushed on
    /// the evaluation stack; if it is already there, the read fails with
    /// `CircularDependency`. On success the reader is registered as a
    /// dependent of `id`. The context is handed down through every nested
    /// evaluation; the arithmetic bindings of this engine do not consult it.
    pub fn read(&mut self, id: usize, context: &EvaluationContext) -> (r: Result<
        i64,
        BindingError,
    >)
        requires
            old(self).wf(),
            old(self).consistent(),
            id < old(self).len(),
        ensures
            final(self).wf(),
            final(self).consistent(),
            old(self).evolves_to(*final(self)),
            settled(old(self).cell(id as int)) ==> forall|i: int|
                #![trigger final(self).cell(i)]
                0 <= i < old(self).len() ==> final(self).cell(i).value == old(self).cell(i).value
                    && final(self).cell(i).dirty == old(self).cell(i).dirty,
            !settled(old(self).cell(id as int)) && reads_of(
                old(self).cell(id as int).binding->0,
            ).contains(id as int) ==> r is Err,
            !old(self).stack@.contains(id) && reads_of(
                old(self).cell(id as int).binding->0,
            ).is_empty() ==> r is Ok,
            forall|rank: spec_fn(int) -> nat|
                old(self).ranked(rank) && (settled(old(self).cell(id as int)) || (rank(id as int) > 0
                    && forall|k: int|
                    0 <= k < old(self).stack@.len() ==> rank(id as int) < rank(
                        #[trigger] old(self).stack@[k] as int,
                    ))) ==> r is Ok,
            forall|i: usize|
                #[trigger] old(self).stack@.contains(i) ==> final(self).cell(i as int).value == old(
                    self,
                ).cell(i as int).value && final(self).cell(i as int).dirty == old(self).cell(
                    i as int,
                ).dirty,
            settled(old(self).cell(id as int)) ==> r == Ok::<i64, BindingError>(
                old(self).cell(id as int).value,
            ),
            !settled(old(self).cell(id as int)) && old(self).stack@.contains(id) ==> r == Err::<
                i64,
                BindingError,
            >(BindingError::CircularDependency),
            r is Ok ==> settled(final(self).cell(id as int)) && r->Ok_0 == final(self).cell(
                id as int,
            ).value,
            r is Ok && !settled(old(self).cell(id as int)) ==> final(self).cell(id as int).value
                == eval_binding(old(self).cell(id as int).binding->0, final(self).values()),
            r is Ok && old(self).stack@.len() > 0 ==> final(self).cell(
                id as int,
            ).dependents@.contains(old(self).stack@.last()),
        decreases old(self).len() - old(self).stack@.len(), 0nat,
    {
        let ghost orig = *self;
        proof {
            lemma_evolves_refl(*self);
        }
        let b: Option<Binding> = if self.cells[id].dirty {
            match &self.cells[id].binding {
                Some(b) => Some(b.duplicate()),
                None => None,
            }
        } else {
            None
        };
        if let Some(b) = b {
            if self.is_evaluating(id) {
                proof {
                    lemma_evolves_refl(*self);
                }
                return Err(BindingError::CircularDependency);
            }
            proof {
                assert(reads_within(b, self.len()));
            }
            self.stack.push(id);
            proof {
                assert(self.stack@ == orig.stack@.push(id));
                assert forall|j: int, k: int|
                    0 <= j < self.stack@.len() && 0 <= k < self.stack@.len() && j != k
                        implies self.stack@[j] != self.stack@[k] by {
                    if j == orig.stack@.len() {
                        assert(orig.stack@[k] == self.stack@[k]);
                    } else if k == orig.stack@.len() {
                        assert(orig.stack@[j] == self.stack@[j]);
                    }
                }
                assert forall|k: int| 0 <= k < self.stack@.len() implies #[trigger] self.stack@[k]
                    < self.len() by {
                    if k < orig.stack@.len() {
                        assert(orig.stack@[k] == self.stack@[k]);
                    }
                }
                assert forall|i: int, k: int|
                    0 <= i < self.len() && 0 <= k < self.cell(i).dependents@.len()
                        implies #[trigger] self.cell(i).dependents@[k] < self.len() by {
                    assert(self.cell(i) == orig.cell(i));
                }
                assert forall|i: int| 0 <= i < self.len() && (#[trigger] self.cell(i)).binding is Some
                    implies reads_within(self.cell(i).binding->0, self.len()) && self.cell(i).alive by {
                    assert(self.cell(i) == orig.cell(i));
                }
                lemma_stack_bounded(self.stack@, self.len());
                assert(self.cells@ == orig.cells@);
                lemma_consistent_same_cells(orig, *self);
            }
            let ghost pushed = *self;
            proof {
                assert(pushed.stack@[pushed.stack@.len() - 1] as int == id as int);
                assert(pushed.on_stack(id as int));
            }
            let res = self.evaluate(&b, context);
            let ghost mid = *self;
            self.stack.pop();
            proof {
                assert(self.stack@ =~= orig.stack@);
                assert(pushed.stack@.contains(id));
                assert forall|i: int, k: int|
                    0 <= i < self.len() && 0 <= k < self.cell(i).dependents@.len()
                        implies #[trigger] self.cell(i).dependents@[k] < self.len() by {
                    assert(self.cell(i) == mid.cell(i));
                }
                assert forall|i: int| 0 <= i < self.len() && (#[trigger] self.cell(i)).binding is Some
                    implies reads_within(self.cell(i).binding->0, self.len()) && self.cell(i).alive by {
                    assert(self.cell(i) == mid.cell(i));
                }
                assert(self.cells@ == mid.cells@);
                lemma_consistent_same_cells(mid, *self);
            }
            let ghost after_pop = *self;
            match res {
                Err(e) => {
                    proof {
                        assert forall|i: usize| #[trigger] orig.stack@.contains(i) implies pushed.stack@.contains(i) by {
                            let j = choose|j: int| 0 <= j < orig.stack@.len() && orig.stack@[j] == i;
                            assert(pushed.stack@[j] == i);
                        }
                    }
                    proof {
                        lemma_evolves_restack(pushed, mid, orig, *self);
                        assert(b == orig.cell(id as int).binding->0);
                        assert(!settled(orig.cell(id as int)));
                        assert forall|rank: spec_fn(int) -> nat|
                            orig.ranked(rank) && (settled(orig.cell(id as int)) || (rank(id as int) > 0
                                && forall|k: int|
                                0 <= k < orig.stack@.len() ==> rank(id as int) < rank(
                                    #[trigger] orig.stack@[k] as int,
                                ))) implies false by {
                            assert(pushed.cells@ == orig.cells@);
                            lemma_ranked_same_cells(orig, pushed, rank);
                            assert forall|x: int, k: int|
                                #![trigger reads_of(b).contains(x), pushed.stack@[k]]
                                reads_of(b).contains(x) && !settled(pushed.cell(x)) && 0 <= k
                                    < pushed.stack@.len() implies 0 < rank(x) < rank(
                                    pushed.stack@[k] as int,
                                ) by {
                                assert(reads_of(orig.cell(id as int).binding->0).contains(x));
                                assert(0 < rank(x) < rank(id as int));
                                if k < orig.stack@.len() {
                                    assert(pushed.stack@[k] == orig.stack@[k]);
                                }
                            }
                            assert forall|x: int|
                                #[trigger] reads_of(b).contains(x) && !settled(pushed.cell(x))
                                    implies rank(x) > 0 by {
                                assert(reads_of(orig.cell(id as int).binding->0).contains(x));
                                assert(0 < rank(x) < rank(id as int));
                            }
                        }
                    }
                    return Err(e);
                },
                Ok(v) => {
                    self.cells[id].value = v;
                    self.cells[id].dirty = false;
                    proof {
                        assert(!settled(mid.cell(id as int)));
                        assert forall|x: int| #[trigger] reads_of(b).contains(x) implies mid.values()[x]
                            == self.values()[x] by {
                            assert(x != id);
                        }
                        lemma_eval_depends_on_reads(b, mid.values(), self.values());
                        assert forall|i: usize| #[trigger] orig.stack@.contains(i) implies pushed.stack@.contains(i) by {
                            let j = choose|j: int| 0 <= j < orig.stack@.len() && orig.stack@[j] == i;
                            assert(pushed.stack@[j] == i);
                        }
                        assert forall|i: int| 0 <= i < self.len() && i != id implies self.cell(i) == mid.cell(i) by {}
                        assert(self.cell(id as int).dependents == mid.cell(id as int).dependents);
                        assert(self.cell(id as int).binding == mid.cell(id as int).binding);
                        assert forall|i: int, k: int|
                            0 <= i < self.len() && 0 <= k < self.cell(i).dependents@.len()
                                implies #[trigger] self.cell(i).dependents@[k] < self.len() by {
                            assert(self.cell(i).dependents == mid.cell(i).dependents);
                        }
                        assert forall|i: int| 0 <= i < self.len() && (#[trigger] self.cell(i)).binding is Some
                            implies reads_within(self.cell(i).binding->0, self.len()) && self.cell(i).alive by {
                            assert(self.cell(i).binding == mid.cell(i).binding);
                        }
                        let ghost popped = PropertyGraph { cells: mid.cells, stack: self.stack };
                        lemma_evolves_restack(pushed, mid, orig, popped);
                        assert forall|i: int| 0 <= i < self.len() implies self.cell(i).dependents@.subrange(
                            0,
                            popped.cell(i).dependents@.len() as int,
                        ) =~= popped.cell(i).dependents@ by {
                            assert(self.cell(i).dependents == mid.cell(i).dependents);
                        }
                        assert(popped.evolves_to(*self));
                        lemma_evolves_trans(orig, popped, *self);
                        assert(after_pop.cells@ == popped.cells@);
                        assert(after_pop.evolves_to(*self));
                        assert forall|x: int| #[trigger] reads_of(b).contains(x) implies settled(
                            self.cell(x),
                        ) && (self.cell(x).alive ==> self.cell(x).dependents@.contains(
                            id,
                        )) by {
                            assert(x != id);
                            assert(self.cell(x) == mid.cell(x));
                        }
                        assert(self.fresh(id as int));
                        lemma_consistent_frame(after_pop, *self);
                    }
                },
            }
        }
        let ghost before_register = *self;
        self.register_current_binding_as_dependency(id);
        proof {
            lemma_consistent_frame(before_register, *self);
            lemma_evolves_trans(orig, before_register, *self);
            assert forall|i: int| 0 <= i < self.len() implies self.values()[i]
                == before_register.values()[i] by {
                assert(self.cell(i).value == before_register.cell(i).value);
            }
            assert(self.values() =~= before_register.values());
            if orig.stack@.len() > 0 {
                let d = self.cell(id as int).dependents@;
                assert(d[d.len() - 1] == orig.stack@.last());
            }
        }
        Ok(self.cells[id].value)
    }

    /// Evaluates `b` on behalf of the binding on top of the stack.
    fn evaluate(&mut self, b: &Binding, context: &EvaluationContext) -> (r: Result<
        i64,
        BindingError,
    >)
        requires
            old(self).wf(),
            old(self).consistent(),
            reads_within(*b, old(self).len()),
        ensures
            final(self).wf(),
            final(self).consistent(),
            old(self).evolves_to(*final(self)),
            r is Ok && old(self).stack@.len() > 0 ==> forall|x: int| #[trigger]
                reads_of(*b).contains(x) ==> final(self).cell(x).dependents@.contains(
                    old(self).stack@.last(),
                ),
            forall|x: int| #[trigger]
                reads_of(*b).contains(x) && old(self).on_stack(x) && !settled(old(self).cell(x))
                    ==> r is Err,
            reads_of(*b).is_empty() ==> r is Ok,
            forall|rank: spec_fn(int) -> nat|
                old(self).ranked(rank) && (forall|x: int, k: int|
                    #![trigger reads_of(*b).contains(x), old(self).stack@[k]]
                    reads_of(*b).contains(x) && !settled(old(self).cell(x)) && 0 <= k
                        < old(self).stack@.len() ==> 0 < rank(x) < rank(
                        old(self).stack@[k] as int,
                    )) && (forall|x: int|
                    #[trigger] reads_of(*b).contains(x) && !settled(old(self).cell(x)) ==> rank(x)
                        > 0) ==> r is Ok,
            forall|i: usize|
                #[trigger] old(self).stack@.contains(i) ==> final(self).cell(i as int).value == old(
                    self,
                ).cell(i as int).value && final(self).cell(i as int).dirty == old(self).cell(
                    i as int,
                ).dirty,
            r is Ok ==> (forall|x: int| #[trigger]
                reads_of(*b).contains(x) ==> settled(final(self).cell(x))) && r->Ok_0
                == eval_binding(*b, final(self).values()),
        decreases old(self).len() - old(self).stack@.len(), binding_size(*b),
    {
        match b {
            Binding::Constant(c) => {
                proof {
                    lemma_evolves_refl(*self);
                }
                Ok(*c)
            },
            Binding::Read(p) => {
                proof {
                    assert(reads_of(*b).contains(p.inner.0 as int));
                    assert(reads_of(*b) == Set::<int>::empty().insert(p.inner.0 as int));
                    if self.on_stack(p.inner.0 as int) {
                        let k = choose|k: int| 0 <= k < self.stack@.len() && self.stack@[k] as int == p.inner.0 as int;
                        assert(self.stack@[k] == p.inner.0);
                    }
                }
                self.read(p.inner.0, context)
            },
            Binding::Add(l, r) | Binding::Sub(l, r) | Binding::Mul(l, r) => {
                proof {
                    assert forall|x: int| #[trigger] reads_of(**l).contains(x) implies 0 <= x < self.len() by {
                        assert(reads_of(*b).contains(x));
                    }
                }
                let ghost start = *self;
                proof {
                    assert(reads_of(*b) == reads_of(**l) + reads_of(**r));
                }
                let vl = match self.evaluate(l, context) {
                    Ok(v) => v,
                    Err(e) => {
                        proof {
                            assert forall|rank: spec_fn(int) -> nat|
                                start.ranked(rank) && (forall|x: int, k: int|
                                    #![trigger reads_of(*b).contains(x), start.stack@[k]]
                                    reads_of(*b).contains(x) && !settled(start.cell(x)) && 0 <= k
                                        < start.stack@.len() ==> 0 < rank(x) < rank(
                                        start.stack@[k] as int,
                                    )) && (forall|x: int|
                                    #[trigger] reads_of(*b).contains(x) && !settled(start.cell(x))
                                        ==> rank(x) > 0) implies false by {
                                assert forall|x: int, k: int|
                                    #![trigger reads_of(**l).contains(x), start.stack@[k]]
                                    reads_of(**l).contains(x) && !settled(start.cell(x)) && 0 <= k
                                        < start.stack@.len() implies 0 < rank(x) < rank(
                                        start.stack@[k] as int,
                                    ) by {
                                    assert(reads_of(*b).contains(x));
                                }
                                assert forall|x: int|
                                    #[trigger] reads_of(**l).contains(x) && !settled(start.cell(x))
                                        implies rank(x) > 0 by {
                                    assert(reads_of(*b).contains(x));
                                }
                            }
                        }
                        return Err(e);
                    },
                };
                let ghost mid = *self;
                proof {
                    assert forall|x: int| #[trigger] reads_of(**r).contains(x) implies 0 <= x < self.len() by {
                        assert(reads_of(*b).contains(x));
                    }
                    assert forall|x: int| #[trigger]
                        reads_of(**r).contains(x) && start.on_stack(x) && !settled(start.cell(x))
                        implies !settled(mid.cell(x)) && mid.on_stack(x) by {
                        let k = choose|k: int| 0 <= k < start.stack@.len() && start.stack@[k] as int == x;
                        assert(start.stack@.contains(start.stack@[k]));
                        assert(mid.cell(x).dirty == start.cell(x).dirty);
                        assert(mid.cell(x).binding == start.cell(x).binding);
                        assert(mid.stack@[k] as int == x);
                    }
                }
                let vr = match self.evaluate(r, context) {
                    Ok(v) => v,
                    Err(e) => {
                        proof {
                            lemma_evolves_trans(start, mid, *self);
                            assert forall|rank: spec_fn(int) -> nat|
                                start.ranked(rank) && (forall|x: int, k: int|
                                    #![trigger reads_of(*b).contains(x), start.stack@[k]]
                                    reads_of(*b).contains(x) && !settled(start.cell(x)) && 0 <= k
                                        < start.stack@.len() ==> 0 < rank(x) < rank(
                                        start.stack@[k] as int,
                                    )) && (forall|x: int|
                                    #[trigger] reads_of(*b).contains(x) && !settled(start.cell(x))
                                        ==> rank(x) > 0) implies false by {
                                lemma_ranked_evolves(start, mid, rank);
                                assert forall|x: int, k: int|
                                    #![trigger reads_of(**r).contains(x), mid.stack@[k]]
                                    reads_of(**r).contains(x) && !settled(mid.cell(x)) && 0 <= k
                                        < mid.stack@.len() implies 0 < rank(x) < rank(
                                        mid.stack@[k] as int,
                                    ) by {
                                    assert(reads_of(*b).contains(x));
                                    assert(!settled(start.cell(x)));
                                }
                                assert forall|x: int|
                                    #[trigger] reads_of(**r).contains(x) && !settled(mid.cell(x))
                                        implies rank(x) > 0 by {
                                    assert(reads_of(*b).contains(x));
                                    assert(!settled(start.cell(x)));
                                }
                            }
                        }
                        return Err(e);
                    },
                };
                proof {
                    lemma_evolves_trans(start, mid, *self);
                    assert(reads_of(*b) == reads_of(**l) + reads_of(**r));
                    if start.stack@.len() > 0 {
                        assert forall|x: int| #[trigger] reads_of(**l).contains(x) implies self.cell(
                            x,
                        ).dependents@.contains(start.stack@.last()) by {
                            lemma_prefix_contains(
                                mid.cell(x).dependents@,
                                self.cell(x).dependents@,
                                start.stack@.last(),
                            );
                        }
                    }
                    assert forall|x: int| #[trigger] reads_of(**l).contains(x) implies mid.values()[x]
                        == self.values()[x] by {
                        assert(settled(mid.cell(x)));
                        assert(self.cell(x).value == mid.cell(x).value);
                    }
                    lemma_eval_depends_on_reads(**l, mid.values(), self.values());
                    assert forall|x: int| #[trigger] reads_of(*b).contains(x) implies settled(self.cell(x)) by {
                        if reads_of(**l).contains(x) {
                            assert(settled(mid.cell(x)));
                        }
                    }
                }
                match b {
                    Binding::Add(_, _) => Ok(vl.wrapping_add(vr)),
                    Binding::Sub(_, _) => Ok(vl.wrapping_sub(vr)),
                    _ => Ok(vl.wrapping_mul(vr)),
                }
            },
        }
    }

    /// Assigns `value` to `id`: the binding is removed, every property that
    /// depends on `id`, transitively, is marked dirty, and `id` is clean.
    pub fn write(&mut self, id: usize, value: i64)
        requires
            old(self).wf(),
            old(self).consistent(),
            old(self).idle(),
            id < old(self).len(),
            old(self).cell(id as int).alive,
        ensures
            final(self).wf(),
            final(self).consistent(),
            final(self).idle(),
            final(self).cell(id as int).value == value,
            final(self).cell(id as int).binding is None,
            !final(self).cell(id as int).dirty,
            exists|m: Set<int>| #[trigger] old(self).marks(*final(self), id as int, m),
    {
        let ghost orig = *self;
        self.cells[id].binding = None;
        self.cells[id].dirty = false;
        self.cells[id].value = value;
        let ghost assigned = *self;
        proof {
            self.lemma_wf_after_edit(orig, id as int);
        }
        let m = self.mark_dirty(id);
        let ghost mid = *self;
        self.cells[id].dirty = false;
        proof {
            self.lemma_wf_after_edit(mid, id as int);
            assert forall|i: int| 0 <= i < self.len() && i != id implies self.cell(i) == mid.cell(i) by {}
            assert(self.cell(id as int).dependents == mid.cell(id as int).dependents);
            assert(self.cell(id as int).alive == mid.cell(id as int).alive);
            assert(assigned.marks(mid, id as int, m@));
            assert forall|i: int| 0 <= i < self.len() && i != id implies assigned.cell(i) == orig.cell(i) by {}
            assert forall|i: int| 0 <= i < self.len() implies assigned.cell(i).dependents == orig.cell(i).dependents
                && assigned.cell(i).alive == orig.cell(i).alive by {}
            let fin = *self;
            assert(fin.len() == orig.len());
            assert forall|i: int| #![trigger fin.cell(i)] 0 <= i < orig.len() implies {
                &&& fin.cell(i).alive == orig.cell(i).alive
                &&& i != id ==> {
                    &&& fin.cell(i).value == orig.cell(i).value
                    &&& fin.cell(i).binding == orig.cell(i).binding
                    &&& m@.contains(i) ==> fin.cell(i).dirty
                    &&& !m@.contains(i) ==> fin.cell(i).dirty == orig.cell(i).dirty
                }
                &&& m@.contains(i) ==> fin.cell(i).dependents@.len() == 0
                &&& !m@.contains(i) ==> fin.cell(i).dependents@ == orig.cell(i).dependents@
            } by {
                assert(mid.cell(i).alive == assigned.cell(i).alive);
                assert(assigned.cell(i).alive == orig.cell(i).alive);
                if i != id {
                    assert(assigned.cell(i) == orig.cell(i));
                    assert(fin.cell(i) == mid.cell(i));
                }
                assert(fin.cell(i).dependents == mid.cell(i).dependents);
                assert(fin.cell(i).alive == mid.cell(i).alive);
            }
            assert forall|i: int, k: int|
                m@.contains(i) && 0 <= k < orig.cell(i).dependents@.len() && orig.cell(
                    orig.cell(i).dependents@[k] as int,
                ).alive implies #[trigger] m@.contains(orig.cell(i).dependents@[k] as int) by {
                assert(0 <= i < fin.len());
                assert(assigned.cell(i).dependents == orig.cell(i).dependents);
                let d = orig.cell(i).dependents@[k] as int;
                assert(0 <= d < fin.len());
                assert(assigned.cell(d).alive == orig.cell(d).alive);
            }
            assert(orig.marks(fin, id as int, m@));
            lemma_consistent_after_marks(orig, fin, id as int, m@);
        }
    }

    /// Installs `binding` on `id`: every property that depends on `id`,
    /// transitively, and `id` itself are marked dirty.
    pub fn bind(&mut self, id: usize, binding: Binding)
        requires
            old(self).wf(),
            old(self).consistent(),
            old(self).idle(),
            id < old(self).len(),
            old(self).cell(id as int).alive,
            reads_within(binding, old(self).len()),
        ensures
            final(self).wf(),
            final(self).consistent(),
            final(self).idle(),
            final(self).cell(id as int).value == old(self).cell(id as int).value,
            final(self).cell(id as int).binding == Some(binding),
            final(self).cell(id as int).dirty,
            exists|m: Set<int>| #[trigger] old(self).marks(*final(self), id as int, m),
    {
        let ghost orig = *self;
        self.cells[id].binding = Some(binding);
        let ghost assigned = *self;
        proof {
            self.lemma_wf_after_edit(orig, id as int);
        }
        let m = self.mark_dirty(id);
        proof {
            assert forall|i: int| 0 <= i < self.len() && i != id implies assigned.cell(i) == orig.cell(i) by {}
            assert forall|i: int| 0 <= i < self.len() implies assigned.cell(i).dependents == orig.cell(i).dependents
                && assigned.cell(i).alive == orig.cell(i).alive by {}
            assert(orig.marks(*self, id as int, m@)) by {
                assert forall|i: int, k: int|
                    m@.contains(i) && 0 <= k < orig.cell(i).dependents@.len() && orig.cell(
                        orig.cell(i).dependents@[k] as int,
                    ).alive implies #[trigger] m@.contains(orig.cell(i).dependents@[k] as int) by {
                    assert(0 <= i < self.len());
                    assert(assigned.cell(i).dependents == orig.cell(i).dependents);
                    let d = orig.cell(i).dependents@[k] as int;
                    assert(0 <= d < self.len());
                    assert(assigned.cell(d).alive == orig.cell(d).alive);
                }
            }
            lemma_consistent_after_marks(orig, *self, id as int, m@);
        }
    }

    /// Releases `id`: its binding is dropped and it no longer takes part in
    /// invalidation sweeps. The slot is not reused.
    pub fn release(&mut self, id: usize)
        requires
            old(self).wf(),
            old(self).consistent(),
            old(self).idle(),
            id < old(self).len(),
        ensures
            final(self).wf(),
            final(self).consistent(),
            final(self).idle(),
            final(self).len() == old(self).len(),
            !final(self).cell(id as int).alive,
            final(self).cell(id as int).binding is None,
            final(self).cell(id as int).value == old(self).cell(id as int).value,
            final(self).cell(id as int).dirty == old(self).cell(id as int).dirty,
            final(self).cell(id as int).dependents@ == old(self).cell(id as int).dependents@,
            forall|i: int| 0 <= i < old(self).len() && i != id ==> #[trigger] final(self).cell(i) == old(self).cell(i),
    {
        let ghost orig = *self;
        self.cells[id].binding = None;
        self.cells[id].alive = false;
        proof {
            self.lemma_wf_after_edit(orig, id as int);
            assert(orig.values() =~= self.values());
            assert forall|c: int|
                0 <= c < self.len() && (#[trigger] self.cell(c)).binding is Some && !self.cell(c).dirty
                    implies self.fresh(c) by {
                assert(c != id);
                assert(self.cell(c) == orig.cell(c));
                assert(orig.fresh(c));
                let f = orig.cell(c).binding->0;
                assert forall|x: int| #[trigger] reads_of(f).contains(x) implies settled(self.cell(x))
                    && (self.cell(x).alive ==> self.cell(x).dependents@.contains(c as usize)) by {
                    if x != id {
                        assert(self.cell(x) == orig.cell(x));
                    }
                }
            }
        }
    }

    /// Editing the value, dirty flag, liveness or binding of one slot, with a
    /// binding that stays within the arena, keeps the arena well formed.
    proof fn lemma_wf_after_edit(&self, prev: PropertyGraph, id: int)
        requires
            prev.wf(),
            self.len() == prev.len(),
            self.stack@ == prev.stack@,
            0 <= id < self.len(),
            self.cell(id).dependents@ == prev.cell(id).dependents@,
            self.cell(id).binding is Some ==> reads_within(self.cell(id).binding->0, self.len())
                && self.cell(id).alive,
            forall|i: int| 0 <= i < self.len() && i != id ==> self.cell(i) == prev.cell(i),
        ensures
            self.wf(),
    {
        assert forall|i: int, k: int|
            0 <= i < self.len() && 0 <= k < self.cell(i).dependents@.len()
                implies #[trigger] self.cell(i).dependents@[k] < self.len() by {
            assert(self.cell(i).dependents@ == prev.cell(i).dependents@);
        }
        assert forall|i: int| 0 <= i < self.len() && (#[trigger] self.cell(i)).binding is Some
            implies reads_within(self.cell(i).binding->0, self.len()) && self.cell(i).alive by {
            if i != id {
                assert(self.cell(i) == prev.cell(i));
            }
        }
    }

    /// An empty arena.
    pub fn new() -> (r: Self)
        ensures
            r.wf(),
            r.idle(),
            r.len() == 0,
    {
        PropertyGraph { cells: Vec::new(), stack: Vec::new() }
    }

    /// Adds a clean, unbound property holding 0 and returns its handle.
    pub fn add_property(&mut self) -> (r: usize)
        requires
            old(self).wf(),
            old(self).len() < usize::MAX,
        ensures
            final(self).wf(),
            final(self).stack@ == old(self).stack@,
            r == old(self).len(),
            final(self).cells@ == old(self).cells@.push(final(self).cell(r as int)),
            final(self).cell(r as int).value == 0,
            final(self).cell(r as int).binding is None,
            !final(self).cell(r as int).dirty,
            final(self).cell(r as int).dependents@.len() == 0,
            final(self).cell(r as int).alive,
    {
        let r = self.cells.len();
        self.cells.push(
            PropertyState { value: 0, binding: None, dirty: false, dependents: Vec::new(), alive: true },
        );
        proof {
            assert forall|i: int, k: int|
                0 <= i < self.len() && 0 <= k < self.cell(i).dependents@.len()
                    implies #[trigger] self.cell(i).dependents@[k] < self.len() by {
                if i < old(self).len() {
                    assert(old(self).cell(i) == self.cell(i));
                }
            }
            assert forall|i: int| 0 <= i < self.len() && (#[trigger] self.cell(i)).binding is Some
                implies reads_within(self.cell(i).binding->0, self.len()) && self.cell(i).alive by {
                assert(old(self).cell(i) == self.cell(i));
                let b = self.cell(i).binding->0;
                assert forall|x: int| #[trigger] reads_of(b).contains(x) implies 0 <= x < self.len() by {
                    assert(reads_within(b, old(self).len()));
                }
            }
        }
        r
    }
}

} // verus!
