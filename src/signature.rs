//! The splitter engine: a state's signature under a partition.
use vstd::prelude::*;
use vstd::set_lib::{lemma_int_range, lemma_len_subset, set_int_range};
use crate::lts::{Graph, Label, Obs, TransitionSystem};

verus! {

/// The `i`-th transition of `u` is a silent step that stays inside `u`'s block.
pub open spec fn internal(g: Graph, p: Seq<usize>, u: int, i: int) -> bool {
    g[u][i].1 == Label::Silent && p[u] == p[g[u][i].0 as int]
}

/// What the `i`-th transition of `u` shows: its label and the target's block.
pub open spec fn obs_of(g: Graph, p: Seq<usize>, u: int, i: int) -> Obs {
    (g[u][i].1, p[g[u][i].0 as int])
}

/// The states reachable from `s` in at most `k` silent steps inside the block.
pub open spec fn reach(g: Graph, p: Seq<usize>, s: int, k: nat) -> Set<int>
    decreases k,
{
    if k == 0 {
        set![s]
    } else {
        let r = reach(g, p, s, (k - 1) as nat);
        r.union(
            Set::new(
                |t: int|
                    exists|u: int, i: int|
                        #![trigger r.contains(u), g[u][i]]
                        r.contains(u) && 0 <= u < g.len() && 0 <= i < g[u].len() && internal(
                            g,
                            p,
                            u,
                            i,
                        ) && g[u][i].0 as int == t,
            ),
        )
    }
}

/// The silent closure of `s`: every state reachable from `s` by zero or more
/// silent steps that never leave the block.
pub open spec fn closure(g: Graph, p: Seq<usize>, s: int) -> Set<int> {
    Set::new(|u: int| exists|k: nat| #[trigger] reach(g, p, s, k).contains(u))
}

/// The signature of `s`: every observation made by a visible step, or by a
/// silent step that leaves the block, from some state of the silent closure.
pub open spec fn sig(g: Graph, p: Seq<usize>, s: int) -> Set<Obs> {
    Set::new(
        |o: Obs|
            exists|u: int, i: int|
                #![trigger closure(g, p, s).contains(u), obs_of(g, p, u, i)]
                closure(g, p, s).contains(u) && 0 <= u < g.len() && 0 <= i < g[u].len()
                    && !internal(g, p, u, i) && o == obs_of(g, p, u, i),
    )
}

/// A set of states closed under silent steps inside the block.
pub open spec fn silent_closed(g: Graph, p: Seq<usize>, vs: Set<int>) -> bool {
    forall|u: int, i: int|
        #![trigger vs.contains(u), g[u][i]]
        vs.contains(u) && 0 <= u < g.len() && 0 <= i < g[u].len() && internal(g, p, u, i)
            ==> vs.contains(g[u][i].0 as int)
}

/// A partition of the states of `g`: one block id per state.
pub open spec fn partition_of(g: Graph, p: Seq<usize>) -> bool {
    p.len() == g.len()
}

/// One silent step inside the block extends the closure.
pub proof fn lemma_closure_step(g: Graph, p: Seq<usize>, s: int, u: int, i: int)
    requires
        closure(g, p, s).contains(u),
        0 <= u < g.len(),
        0 <= i < g[u].len(),
        internal(g, p, u, i),
    ensures
        closure(g, p, s).contains(g[u][i].0 as int),
{
    let k = choose|k: nat| #[trigger] reach(g, p, s, k).contains(u);
    let t = g[u][i].0 as int;
    assert(reach(g, p, s, k + 1).contains(t));
}

/// A set holding `s` and closed under silent steps inside the block holds
/// the whole silent closure of `s`.
pub proof fn lemma_closure_least(g: Graph, p: Seq<usize>, s: int, vs: Set<int>)
    requires
        vs.contains(s),
        silent_closed(g, p, vs),
    ensures
        closure(g, p, s).subset_of(vs),
{
    assert forall|u: int| closure(g, p, s).contains(u) implies vs.contains(u) by {
        let k = choose|k: nat| #[trigger] reach(g, p, s, k).contains(u);
        lemma_reach_within(g, p, s, vs, k);
    }
}

proof fn lemma_reach_within(g: Graph, p: Seq<usize>, s: int, vs: Set<int>, k: nat)
    requires
        vs.contains(s),
        silent_closed(g, p, vs),
    ensures
        reach(g, p, s, k).subset_of(vs),
    decreases k,
{
    if k > 0 {
        lemma_reach_within(g, p, s, vs, (k - 1) as nat);
    }
}

/// However the silent closure is explored, a search that starts at `s`, only
/// follows silent steps inside the block, and stops once the visited set is
/// closed has visited exactly the silent closure; the signature, collected
/// from the visited states, therefore does not depend on the order in which
/// the search takes states from its work set.
pub proof fn lemma_exploration_order_irrelevant(g: Graph, p: Seq<usize>, s: int, vs: Set<int>)
    requires
        vs.contains(s),
        vs.subset_of(closure(g, p, s)),
        silent_closed(g, p, vs),
    ensures
        vs == closure(g, p, s),
        sig(g, p, s) == Set::new(
            |o: Obs|
                exists|u: int, i: int|
                    #![trigger vs.contains(u), obs_of(g, p, u, i)]
                    vs.contains(u) && 0 <= u < g.len() && 0 <= i < g[u].len() && !internal(
                        g,
                        p,
                        u,
                        i,
                    ) && o == obs_of(g, p, u, i),
        ),
{
    lemma_closure_least(g, p, s, vs);
    assert(vs =~= closure(g, p, s));
    assert(sig(g, p, s) =~= Set::new(
        |o: Obs|
            exists|u: int, i: int|
                #![trigger vs.contains(u), obs_of(g, p, u, i)]
                vs.contains(u) && 0 <= u < g.len() && 0 <= i < g[u].len() && !internal(
                    g,
                    p,
                    u,
                    i,
                ) && o == obs_of(g, p, u, i),
    ));
}

/// Every transition of `u` has been looked at: each silent step inside the
/// block leads into `vs`, and each other step's observation is in `found`.
pub open spec fn expanded(g: Graph, p: Seq<usize>, vs: Set<int>, found: Seq<Obs>, u: int) -> bool {
    forall|i: int|
        #![trigger g[u][i]]
        0 <= i < g[u].len() ==> (internal(g, p, u, i) ==> vs.contains(g[u][i].0 as int)) && (
        !internal(g, p, u, i) ==> found.contains(obs_of(g, p, u, i)))
}

/// Whether `v` holds the observation `o`.
pub fn contains_obs(v: &Vec<Obs>, o: Obs) -> (r: bool)
    ensures
        r == v@.contains(o),
{
    let mut j: usize = 0;
    while j < v.len()
        invariant
            j <= v@.len(),
            forall|k: int| 0 <= k < j ==> v@[k] != o,
        decreases v@.len() - j,
    {
        if v[j].0 == o.0 && v[j].1 == o.1 {
            return true;
        }
        j = j + 1;
    }
    false
}

/// The signature of state `s` under the partition `part`: a search through
/// the silent closure of `s`, with a visited set so that silent cycles are
/// expanded once. The result lists each observation once.
pub fn find_splitters(s: usize, g: &TransitionSystem, part: &Vec<usize>) -> (r: Vec<Obs>)
    requires
        g.wf(),
        partition_of(g@, part@),
        s < g@.len(),
    ensures
        r@.to_set() == sig(g@, part@, s as int),
        r@.no_duplicates(),
{
    let ghost gg = g@;
    let ghost p = part@;
    let ghost si = s as int;
    let n = g.num_states();
    let mut visited: Vec<bool> = Vec::new();
    let mut k: usize = 0;
    while k < n
        invariant
            k <= n,
            visited@.len() == k,
            forall|u: int| 0 <= u < k ==> !visited@[u],
        decreases n - k,
    {
        visited.push(false);
        k = k + 1;
    }
    visited.set(s, true);
    let mut work: Vec<usize> = Vec::new();
    work.push(s);
    let mut found: Vec<Obs> = Vec::new();
    let ghost mut vs: Set<int> = set![si];
    proof {
        lemma_int_range(0, n as int);
        assert(reach(gg, p, si, 0).contains(si));
        assert(work@[0] == s);
    }
    while work.len() > 0
        invariant
            n == gg.len(),
            g@ == gg,
            part@ == p,
            g.wf(),
            partition_of(gg, p),
            0 <= si < n,
            visited@.len() == n,
            forall|u: int| 0 <= u < n ==> visited@[u] == #[trigger] vs.contains(u),
            vs.subset_of(set_int_range(0, n as int)),
            vs.contains(si),
            vs.subset_of(closure(gg, p, si)),
            forall|j: int| 0 <= j < work@.len() ==> vs.contains(#[trigger] work@[j] as int),
            forall|u: int|
                #[trigger] vs.contains(u) ==> work@.contains(u as usize) || expanded(
                    gg,
                    p,
                    vs,
                    found@,
                    u,
                ),
            forall|o: Obs| found@.contains(o) ==> #[trigger] sig(gg, p, si).contains(o),
            found@.no_duplicates(),
            vs.finite(),
            set_int_range(0, n as int).finite(),
        decreases 2 * (n - vs.len()) + work@.len(),
    {
        proof {
            lemma_len_subset(vs, set_int_range(0, n as int));
        }
        let ghost measure = 2 * (n - vs.len()) + work@.len();
        let ghost w0 = work@;
        let u = work.pop().unwrap();
        let ghost ui = u as int;
        proof {
            assert(w0 == work@.push(u));
            assert forall|v: int|
                #[trigger] vs.contains(v) && v != ui implies work@.contains(v as usize) || expanded(
                gg,
                p,
                vs,
                found@,
                v,
            ) by {
                if w0.contains(v as usize) {
                    let j = choose|j: int| 0 <= j < w0.len() && w0[j] == v as usize;
                    assert(j < work@.len());
                    assert(work@[j] == v as usize);
                }
            }
            assert(vs.contains(w0[w0.len() - 1] as int));
            assert(set_int_range(0, n as int).contains(ui));
        }
        let succ = g.successors(u);
        let mut i: usize = 0;
        while i < succ.len()
            invariant
                n == gg.len(),
                g@ == gg,
                part@ == p,
                g.wf(),
                partition_of(gg, p),
                0 <= si < n,
                0 <= ui < n,
                ui == u as int,
                succ@ == gg[ui],
                i <= succ@.len(),
                vs.contains(ui),
                visited@.len() == n,
                forall|v: int| 0 <= v < n ==> visited@[v] == #[trigger] vs.contains(v),
                vs.subset_of(set_int_range(0, n as int)),
                vs.contains(si),
                vs.subset_of(closure(gg, p, si)),
                forall|j: int| 0 <= j < work@.len() ==> vs.contains(#[trigger] work@[j] as int),
                forall|v: int|
                    #[trigger] vs.contains(v) && v != ui ==> work@.contains(v as usize) || expanded(
                        gg,
                        p,
                        vs,
                        found@,
                        v,
                    ),
                forall|j: int|
                    #![trigger gg[ui][j]]
                    0 <= j < i ==> (internal(gg, p, ui, j) ==> vs.contains(gg[ui][j].0 as int)) && (
                    !internal(gg, p, ui, j) ==> found@.contains(obs_of(gg, p, ui, j))),
                forall|o: Obs| found@.contains(o) ==> #[trigger] sig(gg, p, si).contains(o),
                found@.no_duplicates(),
                vs.finite(),
                set_int_range(0, n as int).finite(),
                2 * (n - vs.len()) + work@.len() < measure,
            decreases succ@.len() - i,
        {
            let (t, l) = succ[i];
            let ghost ii = i as int;
            proof {
                assert(succ@[ii] == (t, l));
                assert(gg[ui][ii].0 < n);
                assert(t < n);

            }
            if l == Label::Silent && part[u] == part[t] {
                if !visited[t] {
                    proof {
                        lemma_closure_step(gg, p, si, ui, ii);
                        lemma_len_subset(vs, set_int_range(0, n as int));
                        assert(!vs.contains(t as int));
                        let vs2 = vs.insert(t as int);
                        assert forall|v: int| #[trigger] vs.contains(v) implies vs2.contains(v) by {}
                        assert forall|v: int|
                            #[trigger] vs2.contains(v) && v != ui implies work@.push(t).contains(
                            v as usize) || expanded(gg, p, vs2, found@, v) by {
                            if v == t as int {
                                assert(work@.push(t)[work@.len() as int] == t);
                            } else if work@.contains(v as usize) {
                                let j = choose|j: int| 0 <= j < work@.len() && work@[j] == v as usize;
                                assert(work@.push(t)[j] == v as usize);
                            }
                        }
                        vs = vs2;
                    }
                    visited.set(t, true);
                    work.push(t);
                }
            } else {
                let o: Obs = (l, part[t]);
                proof {
                    assert(o == obs_of(gg, p, ui, ii));
                    assert(closure(gg, p, si).contains(ui));
                    assert(sig(gg, p, si).contains(o));
                }
                if !contains_obs(&found, o) {
                    let ghost f0 = found@;
                    found.push(o);
                    proof {
                        assert forall|x: Obs| f0.contains(x) implies found@.contains(x) by {
                            let j = choose|j: int| 0 <= j < f0.len() && f0[j] == x;
                            assert(found@[j] == x);
                        }
                        assert(found@[f0.len() as int] == o);
                        assert forall|x: Obs| found@.contains(x) implies #[trigger] sig(
                            gg,
                            p,
                            si,
                        ).contains(x) by {
                            let j = choose|j: int| 0 <= j < found@.len() && found@[j] == x;
                            if j < f0.len() {
                                assert(f0[j] == x);
                            }
                        }
                    }
                }
            }
            i = i + 1;
        }
        proof {
            assert(expanded(gg, p, vs, found@, ui));
            lemma_int_range(0, n as int);
            lemma_len_subset(vs, set_int_range(0, n as int));
        }
    }
    proof {
        assert(silent_closed(gg, p, vs)) by {
            assert forall|u: int, i: int|
                #![trigger vs.contains(u), gg[u][i]]
                vs.contains(u) && 0 <= u < gg.len() && 0 <= i < gg[u].len() && internal(gg, p, u, i)
                    implies vs.contains(gg[u][i].0 as int) by {
                assert(expanded(gg, p, vs, found@, u));
            }
        }
        lemma_closure_least(gg, p, si, vs);
        assert forall|o: Obs| sig(gg, p, si).contains(o) implies found@.contains(o) by {
            let (u, i) = choose|u: int, i: int|
                #![trigger closure(gg, p, si).contains(u), obs_of(gg, p, u, i)]
                closure(gg, p, si).contains(u) && 0 <= u < gg.len() && 0 <= i < gg[u].len()
                    && !internal(gg, p, u, i) && o == obs_of(gg, p, u, i);
            assert(vs.contains(u));
            assert(expanded(gg, p, vs, found@, u));
            assert(gg[u][i] == gg[u][i]);
        }
        assert(found@.to_set() =~= sig(gg, p, si));
    }
    found
}

} // verus!
