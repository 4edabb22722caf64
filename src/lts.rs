//! Labelled transition systems with silent and visible actions.
use vstd::prelude::*;

verus! {

/// The label of a transition: the silent (internal) action, or a visible
/// action carrying a payload.
#[derive(Clone, Copy, Debug, PartialEq, Eq, Structural, Hash)]
pub enum Label {
    Silent,
    Visible(char),
}

/// One observation of a signature: the label of a step and the block its
/// target lies in.
pub type Obs = (Label, usize);

/// The mathematical model of a transition system: for each state, its
/// outgoing `(target, label)` pairs.
pub type Graph = Seq<Seq<(usize, Label)>>;

/// Every target of every transition is a state of the system, and no state
/// lists the same `(target, label)` pair twice.
pub open spec fn graph_wf(g: Graph) -> bool {
    &&& forall|u: int, i: int|
        0 <= u < g.len() && 0 <= i < g[u].len() ==> (#[trigger] g[u][i]).0 < g.len()
    &&& forall|u: int| 0 <= u < g.len() ==> (#[trigger] g[u]).no_duplicates()
}

/// A finite transition system over the states `0..n`.
pub struct TransitionSystem {
    edges: Vec<Vec<(usize, Label)>>,
}

impl View for TransitionSystem {
    type V = Graph;

    closed spec fn view(&self) -> Graph {
        self.edges@.map_values(|v: Vec<(usize, Label)>| v@)
    }
}

impl TransitionSystem {
    pub open spec fn wf(&self) -> bool {
        graph_wf(self@)
    }

    /// A system of `n` states and no transitions.
    pub fn new(n: usize) -> (r: TransitionSystem)
        ensures
            r.wf(),
            r@.len() == n,
            forall|u: int| 0 <= u < n ==> (#[trigger] r@[u]).len() == 0,
    {
        let mut edges: Vec<Vec<(usize, Label)>> = Vec::new();
        let mut k: usize = 0;
        while k < n
            invariant
                k <= n,
                edges@.len() == k,
                forall|u: int| 0 <= u < k ==> (#[trigger] edges@[u])@.len() == 0,
            decreases n - k,
        {
            edges.push(Vec::new());
            k = k + 1;
        }
        let r = TransitionSystem { edges };
        assert forall|u: int| 0 <= u < n implies (#[trigger] r@[u]).len() == 0 by {
            assert(r@[u] == edges@[u]@);
        }
        r
    }

    /// The number of states.
    pub fn num_states(&self) -> (r: usize)
        ensures
            r == self@.len(),
    {
        self.edges.len()
    }

    /// The outgoing transitions of state `u`, as `(target, label)` pairs.
    pub fn successors(&self, u: usize) -> (r: &Vec<(usize, Label)>)
        requires
            u < self@.len(),
        ensures
            r@ == self@[u as int],
    {
        &self.edges[u]
    }

    /// Adds the transition `s --l--> t`. Transitions form a set: adding one
    /// that is already present changes nothing.
    pub fn add_transition(&mut self, s: usize, t: usize, l: Label)
        requires
            old(self).wf(),
            s < old(self)@.len(),
            t < old(self)@.len(),
        ensures
            final(self).wf(),
            final(self)@.len() == old(self)@.len(),
            forall|u: int| 0 <= u < old(self)@.len() && u != s ==> final(self)@[u] == old(self)@[u],
            final(self)@[s as int].to_set() == old(self)@[s as int].to_set().insert((t, l)),
    {
        let ghost g0 = self@;
        let row = &self.edges[s];
        let mut i: usize = 0;
        let mut found = false;
        while i < row.len()
            invariant
                i <= row@.len(),
                row@ == g0[s as int],
                s < g0.len(),
                found <==> exists|j: int| 0 <= j < i && row@[j] == (t, l),
            decreases row@.len() - i,
        {
            if row[i].0 == t && row[i].1 == l {
                found = true;
            }
            i = i + 1;
        }
        if found {
            assert(g0[s as int].to_set().insert((t, l)) =~= g0[s as int].to_set());
            return;
        }
        let mut new_row: Vec<(usize, Label)> = Vec::new();
        let mut j: usize = 0;
        while j < row.len()
            invariant
                j <= row@.len(),
                row@ == g0[s as int],
                new_row@ == row@.subrange(0, j as int),
            decreases row@.len() - j,
        {
            new_row.push(row[j]);
            j = j + 1;
            assert(new_row@ =~= row@.subrange(0, j as int));
        }
        assert(new_row@ =~= g0[s as int]);
        new_row.push((t, l));
        self.edges.set(s, new_row);
        assert(self@[s as int] == g0[s as int].push((t, l)));
        assert forall|x: (usize, Label)| #[trigger] self@[s as int].to_set().contains(x) <==> g0[s as int].to_set().insert(
            (t, l),
        ).contains(x) by {
            if x == (t, l) {
                assert(self@[s as int][g0[s as int].len() as int] == x);
            }
            if g0[s as int].contains(x) {
                let k = choose|k: int| 0 <= k < g0[s as int].len() && g0[s as int][k] == x;
                assert(self@[s as int][k] == x);
            }
        }
        assert(self@[s as int].to_set() =~= g0[s as int].to_set().insert((t, l)));
        assert forall|u: int| 0 <= u < g0.len() && u != s implies self@[u] == g0[u] by {
            assert(self.edges@[u] == old(self).edges@[u]);
        }
        assert forall|u: int, i: int|
            0 <= u < self@.len() && 0 <= i < self@[u].len() implies (#[trigger] self@[u][i]).0
            < self@.len() by {
            if u != s {
                assert(self@[u] == g0[u]);
            }
        }
        assert(self@[s as int].no_duplicates()) by {
            assert(!g0[s as int].contains((t, l)));
        }
        assert forall|u: int| 0 <= u < self@.len() implies (#[trigger] self@[u]).no_duplicates() by {
            if u != s {
                assert(self@[u] == g0[u]);
            }
        }
    }
}

} // verus!
