//! Partition aggregation, one split round, and the fixpoint driver.
use vstd::prelude::*;
use vstd::set_lib::{lemma_int_range, lemma_map_size_bound, lemma_set_disjoint_lens, set_int_range};
use crate::lts::{Graph, Obs, TransitionSystem};
use crate::signature::{contains_obs, find_splitters, partition_of, sig};

verus! {

/// The union of the signatures of the members of block `b`.
pub open spec fn block_union(g: Graph, p: Seq<usize>, b: usize) -> Set<Obs> {
    Set::new(
        |o: Obs|
            exists|m: int| 0 <= m < p.len() && p[m] == b && #[trigger] sig(g, p, m).contains(o),
    )
}

/// State `n` has every observation of its block: no element of the block's
/// union is contested at `n`.
pub open spec fn consistent(g: Graph, p: Seq<usize>, n: int) -> bool {
    block_union(g, p, p[n]).subset_of(sig(g, p, n))
}

/// No state of `p` has a contested observation: a round on `p` splits nothing.
pub open spec fn stable(g: Graph, p: Seq<usize>) -> bool {
    forall|n: int| 0 <= n < p.len() ==> #[trigger] consistent(g, p, n)
}

/// The blocks of `p` whose members disagree on their signatures.
pub open spec fn inconsistent_blocks(g: Graph, p: Seq<usize>) -> Set<usize> {
    Set::new(|b: usize| exists|n: int| 0 <= n < p.len() && p[n] == b && !#[trigger] consistent(g, p, n))
}

/// Every block of `fine` lies inside one block of `coarse`.
pub open spec fn refines(fine: Seq<usize>, coarse: Seq<usize>) -> bool {
    &&& fine.len() == coarse.len()
    &&& forall|n: int, m: int|
        0 <= n < fine.len() && 0 <= m < fine.len() && #[trigger] fine[n] == #[trigger] fine[m]
            ==> coarse[n] == coarse[m]
}

/// The block ids in use.
pub open spec fn blocks(p: Seq<usize>) -> Set<int> {
    Set::new(|b: int| exists|n: int| 0 <= n < p.len() && #[trigger] p[n] as int == b)
}

/// Every block id is at most `c`.
pub open spec fn ids_below(p: Seq<usize>, c: usize) -> bool {
    forall|n: int| 0 <= n < p.len() ==> #[trigger] p[n] <= c
}

/// One split of a round: the members of `block` that lack `splitter` move to
/// the fresh block `fresh`; the others stay.
#[derive(Clone, Copy, Debug)]
pub struct Split {
    pub block: usize,
    pub splitter: Obs,
    pub fresh: usize,
}

/// Some member of the split's block lacks its splitter.
pub open spec fn lacked_by_some_member(g: Graph, p0: Seq<usize>, sp: Split) -> bool {
    exists|m: int| 0 <= m < p0.len() && p0[m] == sp.block && !#[trigger] sig(g, p0, m).contains(sp.splitter)
}

/// `m` is the first member of the split's block that is not consistent,
/// and it lacks the splitter.
pub open spec fn first_lacking(g: Graph, p0: Seq<usize>, sp: Split, m: int) -> bool {
    &&& 0 <= m < p0.len()
    &&& p0[m] == sp.block
    &&& !sig(g, p0, m).contains(sp.splitter)
    &&& forall|k: int| 0 <= k < m && p0[k] == sp.block ==> #[trigger] consistent(g, p0, k)
}

/// Taking states in increasing order: `ms[j]` is the state that opened split
/// `j`, the first inconsistent member of its block, and these states increase.
pub open spec fn splits_in_state_order(g: Graph, p0: Seq<usize>, s: Seq<Split>, ms: Seq<int>) -> bool {
    &&& ms.len() == s.len()
    &&& forall|j: int| 0 <= j < s.len() ==> first_lacking(g, p0, #[trigger] s[j], ms[j])
    &&& forall|j1: int, j2: int| 0 <= j1 < j2 < s.len() ==> #[trigger] ms[j1] < #[trigger] ms[j2]
}

/// What one round does to partition `p0` with fresh-id counter `c0`: it
/// records one split for each inconsistent block, each on an observation of
/// the block's union that some member lacks, with fresh ids `c0 + 1`,
/// `c0 + 2`, ... in order; in `p1` each member of a split block that lacks
/// the splitter moves to the fresh block, and every other state keeps its id.
pub open spec fn round_outcome(
    g: Graph,
    p0: Seq<usize>,
    c0: usize,
    s: Seq<Split>,
    p1: Seq<usize>,
    c1: usize,
) -> bool {
    &&& p1.len() == p0.len()
    &&& c1 == c0 + s.len()
    &&& forall|j: int| 0 <= j < s.len() ==> (#[trigger] s[j]).fresh == c0 + j + 1
    &&& forall|j1: int, j2: int|
        0 <= j1 < s.len() && 0 <= j2 < s.len() && j1 != j2 ==> (#[trigger] s[j1]).block != (
        #[trigger] s[j2]).block
    &&& forall|j: int|
        0 <= j < s.len() ==> block_union(g, p0, (#[trigger] s[j]).block).contains(s[j].splitter)
    &&& forall|j: int| 0 <= j < s.len() ==> lacked_by_some_member(g, p0, #[trigger] s[j])
    &&& forall|b: usize|
        #[trigger] inconsistent_blocks(g, p0).contains(b) ==> exists|j: int|
            0 <= j < s.len() && (#[trigger] s[j]).block == b
    &&& forall|m: int, j: int|
        0 <= m < p0.len() && 0 <= j < s.len() && (#[trigger] s[j]).block == #[trigger] p0[m]
            ==> p1[m] == if sig(g, p0, m).contains(s[j].splitter) {
            p0[m]
        } else {
            s[j].fresh
        }
    &&& forall|m: int|
        0 <= m < p0.len() && (forall|j: int| 0 <= j < s.len() ==> (#[trigger] s[j]).block != p0[m])
            ==> #[trigger] p1[m] == p0[m]
}

/// A round never merges: every block after a round lies inside one block
/// from before it.
pub proof fn lemma_round_refines(
    g: Graph,
    p0: Seq<usize>,
    c0: usize,
    s: Seq<Split>,
    p1: Seq<usize>,
    c1: usize,
)
    requires
        ids_below(p0, c0),
        round_outcome(g, p0, c0, s, p1, c1),
    ensures
        refines(p1, p0),
{
    assert forall|n: int, m: int|
        0 <= n < p1.len() && 0 <= m < p1.len() && #[trigger] p1[n] == #[trigger] p1[m] implies p0[n]
        == p0[m] by {
        lemma_round_member(g, p0, c0, s, p1, c1, n);
        lemma_round_member(g, p0, c0, s, p1, c1, m);
    }
}

/// Where one state stands after a round: it keeps its id, or it moved to the
/// fresh block of the split of its own block.
proof fn lemma_round_member(
    g: Graph,
    p0: Seq<usize>,
    c0: usize,
    s: Seq<Split>,
    p1: Seq<usize>,
    c1: usize,
    n: int,
)
    requires
        ids_below(p0, c0),
        round_outcome(g, p0, c0, s, p1, c1),
        0 <= n < p0.len(),
    ensures
        p1[n] == p0[n] || exists|j: int|
            0 <= j < s.len() && (#[trigger] s[j]).block == p0[n] && p1[n] == s[j].fresh,
        p1[n] == p0[n] ==> p1[n] <= c0,
        p1[n] != p0[n] ==> p1[n] > c0,
{
    if exists|j: int| 0 <= j < s.len() && (#[trigger] s[j]).block == p0[n] {
        let j = choose|j: int| 0 <= j < s.len() && (#[trigger] s[j]).block == p0[n];
        assert(s[j].fresh == c0 + j + 1);
    }
    assert(p0[n] <= c0);
}

/// Adds to `acc` each observation of `more` that it lacks.
fn extend_obs(acc: &mut Vec<Obs>, more: &Vec<Obs>)
    requires
        old(acc)@.no_duplicates(),
    ensures
        final(acc)@.no_duplicates(),
        final(acc)@.to_set() == old(acc)@.to_set().union(more@.to_set()),
{
    let ghost a0 = acc@;
    let mut j: usize = 0;
    while j < more.len()
        invariant
            j <= more@.len(),
            acc@.no_duplicates(),
            forall|o: Obs|
                #[trigger] acc@.contains(o) <==> a0.contains(o) || exists|k: int|
                    0 <= k < j && more@[k] == o,
        decreases more@.len() - j,
    {
        let o = more[j];
        let ghost a1 = acc@;
        if !contains_obs(acc, o) {
            acc.push(o);
            proof {
                assert forall|x: Obs| #[trigger] acc@.contains(x) <==> a1.contains(x) || x == o by {
                    if a1.contains(x) {
                        let k = choose|k: int| 0 <= k < a1.len() && a1[k] == x;
                        assert(acc@[k] == x);
                    }
                    if x == o {
                        assert(acc@[a1.len() as int] == x);
                    }
                }
            }
        }
        proof {
            assert forall|x: Obs|
                #[trigger] acc@.contains(x) <==> a0.contains(x) || exists|k: int|
                    0 <= k < j + 1 && more@[k] == x by {
                if x == o {
                    assert(more@[j as int] == x);
                }
            }
        }
        j = j + 1;
    }
    assert(acc@.to_set() =~= a0.to_set().union(more@.to_set()));
}

/// Every state's signature under `part`, indexed by state.
pub fn signatures(g: &TransitionSystem, part: &Vec<usize>) -> (r: Vec<Vec<Obs>>)
    requires
        g.wf(),
        partition_of(g@, part@),
    ensures
        r@.len() == g@.len(),
        forall|n: int| 0 <= n < g@.len() ==> (#[trigger] r@[n])@.to_set() == sig(g@, part@, n),
        forall|n: int| 0 <= n < g@.len() ==> (#[trigger] r@[n])@.no_duplicates(),
{
    let n = g.num_states();
    let mut r: Vec<Vec<Obs>> = Vec::new();
    let mut k: usize = 0;
    while k < n
        invariant
            k <= n,
            n == g@.len(),
            g.wf(),
            partition_of(g@, part@),
            r@.len() == k,
            forall|m: int| 0 <= m < k ==> (#[trigger] r@[m])@.to_set() == sig(g@, part@, m),
            forall|m: int| 0 <= m < k ==> (#[trigger] r@[m])@.no_duplicates(),
        decreases n - k,
    {
        let sk = find_splitters(k, g, part);
        r.push(sk);
        k = k + 1;
    }
    r
}

/// For each state, the union of the signatures of the members of its block.
/// `sigs` holds every state's signature under `part`.
pub fn block_signatures(g: &TransitionSystem, part: &Vec<usize>, sigs: &Vec<Vec<Obs>>) -> (r: Vec<
    Vec<Obs>,
>)
    requires
        partition_of(g@, part@),
        sigs@.len() == part@.len(),
        forall|m: int| 0 <= m < part@.len() ==> (#[trigger] sigs@[m])@.to_set() == sig(g@, part@, m),
    ensures
        r@.len() == part@.len(),
        forall|n: int|
            0 <= n < part@.len() ==> (#[trigger] r@[n])@.to_set() == block_union(
                g@,
                part@,
                part@[n],
            ),
        forall|n: int| 0 <= n < part@.len() ==> (#[trigger] r@[n])@.no_duplicates(),
{
    let len = part.len();
    let mut r: Vec<Vec<Obs>> = Vec::new();
    let mut n: usize = 0;
    while n < len
        invariant
            n <= len,
            len == part@.len(),
            partition_of(g@, part@),
            sigs@.len() == part@.len(),
            forall|m: int| 0 <= m < len ==> (#[trigger] sigs@[m])@.to_set() == sig(g@, part@, m),
            r@.len() == n,
            forall|k: int|
                0 <= k < n ==> (#[trigger] r@[k])@.to_set() == block_union(g@, part@, part@[k]),
            forall|k: int| 0 <= k < n ==> (#[trigger] r@[k])@.no_duplicates(),
        decreases len - n,
    {
        let b = part[n];
        let mut acc: Vec<Obs> = Vec::new();
        let mut m: usize = 0;
        while m < len
            invariant
                m <= len,
                n < len,
                b == part@[n as int],
                len == part@.len(),
                sigs@.len() == part@.len(),
                forall|k: int| 0 <= k < len ==> (#[trigger] sigs@[k])@.to_set() == sig(g@, part@, k),
                acc@.no_duplicates(),
                forall|o: Obs|
                    #[trigger] acc@.contains(o) <==> exists|k: int|
                        0 <= k < m && part@[k] == b && #[trigger] sig(g@, part@, k).contains(o),
            decreases len - m,
        {
            if part[m] == b {
                let ghost a0 = acc@;
                extend_obs(&mut acc, &sigs[m]);
                proof {
                    assert forall|o: Obs|
                        #[trigger] acc@.contains(o) <==> exists|k: int|
                            0 <= k < m + 1 && part@[k] == b && #[trigger] sig(g@, part@, k).contains(
                                o,
                            ) by {
                        assert(acc@.to_set().contains(o) == acc@.contains(o));
                        assert(sigs@[m as int]@.to_set().contains(o) == sigs@[m as int]@.contains(o));
                    }
                }
            }
            m = m + 1;
        }
        assert(acc@.to_set() =~= block_union(g@, part@, b));
        r.push(acc);
        n = n + 1;
    }
    r
}

/// Where two states share a block, the blocks are attained without one of
/// them: there are fewer blocks than states.
proof fn lemma_blocks_bound_shared(p: Seq<usize>, x: int, y: int)
    requires
        0 <= x < p.len(),
        0 <= y < p.len(),
        x != y,
        p[x] == p[y],
    ensures
        blocks(p).finite(),
        blocks(p).len() < p.len(),
{
    let f = |n: int| p[n] as int;
    let dom = set_int_range(0, p.len() as int).remove(x);
    lemma_int_range(0, p.len() as int);
    assert(dom.map(f) =~= blocks(p)) by {
        assert forall|b: int| #[trigger] blocks(p).contains(b) implies dom.map(f).contains(b) by {
            let n = choose|n: int| 0 <= n < p.len() && #[trigger] p[n] as int == b;
            if n == x {
                assert(dom.contains(y) && f(y) == b);
            } else {
                assert(dom.contains(n) && f(n) == b);
            }
        }
    }
    lemma_map_size_bound(dom, blocks(p), f);
}

/// Moving state `n` to block `v` keeps every block, as long as another
/// state `m` stays in `n`'s old block.
proof fn lemma_blocks_update(p: Seq<usize>, n: int, v: usize, m: int)
    requires
        0 <= n < p.len(),
        0 <= m < p.len(),
        n != m,
        p[m] == p[n],
    ensures
        blocks(p.update(n, v)) == blocks(p).insert(v as int),
{
    let q = p.update(n, v);
    assert forall|b: int| #[trigger] blocks(q).contains(b) <==> blocks(p).insert(v as int).contains(b) by {
        if blocks(q).contains(b) {
            let k = choose|k: int| 0 <= k < q.len() && #[trigger] q[k] as int == b;
            if k != n {
                assert(p[k] as int == b);
            }
        }
        if blocks(p).contains(b) {
            let k = choose|k: int| 0 <= k < p.len() && #[trigger] p[k] as int == b;
            if k == n {
                assert(q[m] as int == b);
            } else {
                assert(q[k] as int == b);
            }
        }
        if b == v as int {
            assert(q[n] as int == b);
        }
    }
    assert(blocks(q) =~= blocks(p).insert(v as int));
}

/// The position of the split recorded for block `b`, if any.
fn find_split(splits: &Vec<Split>, b: usize) -> (r: Option<usize>)
    ensures
        r matches Some(j) ==> j < splits@.len() && splits@[j as int].block == b,
        r is None ==> forall|j: int| 0 <= j < splits@.len() ==> (#[trigger] splits@[j]).block != b,
{
    let mut j: usize = 0;
    while j < splits.len()
        invariant
            j <= splits@.len(),
            forall|k: int| 0 <= k < j ==> (#[trigger] splits@[k]).block != b,
        decreases splits@.len() - j,
    {
        if splits[j].block == b {
            return Some(j);
        }
        j = j + 1;
    }
    None
}

/// An observation of `whole` that `part_of` lacks, if there is one.
fn first_missing(whole: &Vec<Obs>, part_of: &Vec<Obs>) -> (r: Option<Obs>)
    ensures
        r matches Some(o) ==> whole@.contains(o) && !part_of@.contains(o),
        r is None ==> whole@.to_set().subset_of(part_of@.to_set()),
{
    let mut j: usize = 0;
    while j < whole.len()
        invariant
            j <= whole@.len(),
            forall|k: int| 0 <= k < j ==> part_of@.contains(#[trigger] whole@[k]),
        decreases whole@.len() - j,
    {
        let o = whole[j];
        if !contains_obs(part_of, o) {
            proof {
                assert(whole@[j as int] == o);
            }
            return Some(o);
        }
        j = j + 1;
    }
    None
}

/// One round of refinement on `part`. `sigs` and `bsigs` hold, for each
/// state, its signature and its block's union under `part` as it stood
/// before the round. States are taken in increasing order; the first member
/// found to lack some observation of its block's union fixes that
/// observation as the block's splitter and opens a fresh block, numbered by
/// advancing `counter`; every later member of the block that lacks the
/// splitter joins it. Returns the splits made; none when `part` is stable.
pub fn split_round(
    g: &TransitionSystem,
    part: &mut Vec<usize>,
    counter: &mut usize,
    sigs: &Vec<Vec<Obs>>,
    bsigs: &Vec<Vec<Obs>>,
) -> (r: Vec<Split>)
    requires
        partition_of(g@, old(part)@),
        sigs@.len() == old(part)@.len(),
        bsigs@.len() == old(part)@.len(),
        forall|m: int|
            0 <= m < old(part)@.len() ==> (#[trigger] sigs@[m])@.to_set() == sig(
                g@,
                old(part)@,
                m,
            ),
        forall|m: int|
            0 <= m < old(part)@.len() ==> (#[trigger] bsigs@[m])@.to_set() == block_union(
                g@,
                old(part)@,
                old(part)@[m],
            ),
        ids_below(old(part)@, *old(counter)),
        *old(counter) + old(part)@.len() - blocks(old(part)@).len() <= usize::MAX,
    ensures
        round_outcome(g@, old(part)@, *old(counter), r@, final(part)@, *final(counter)),
        exists|ms: Seq<int>| #[trigger] splits_in_state_order(g@, old(part)@, r@, ms),
        ids_below(final(part)@, *final(counter)),
{
    let ghost gg = g@;
    let ghost p0 = part@;
    let ghost c0 = *counter;
    let ghost mut creators: Seq<int> = Seq::empty();
    let len = part.len();
    let mut splits: Vec<Split> = Vec::new();
    let mut n: usize = 0;
    proof {
        lemma_blocks_bound(p0);
        assert(blocks(part@) =~= blocks(p0).union(set_int_range(c0 + 1, c0 + 1)));
    }
    while n < len
        invariant
            n <= len,
            len == p0.len(),
            partition_of(gg, p0),
            sigs@.len() == len,
            bsigs@.len() == len,
            forall|m: int| 0 <= m < len ==> (#[trigger] sigs@[m])@.to_set() == sig(gg, p0, m),
            forall|m: int|
                0 <= m < len ==> (#[trigger] bsigs@[m])@.to_set() == block_union(gg, p0, p0[m]),
            ids_below(p0, c0),
            c0 + len - blocks(p0).len() <= usize::MAX,
            blocks(p0).finite(),
            blocks(part@) == blocks(p0).union(set_int_range(c0 + 1, *counter + 1)),
            part@.len() == len,
            forall|m: int| n <= m < len ==> #[trigger] part@[m] == p0[m],
            *counter == c0 + splits@.len(),
            splits@.len() <= n,
            ids_below(part@, *counter),
            creators.len() == splits@.len(),
            forall|j: int| 0 <= j < splits@.len() ==> (#[trigger] splits@[j]).fresh == c0 + j + 1,
            forall|j1: int, j2: int|
                0 <= j1 < splits@.len() && 0 <= j2 < splits@.len() && j1 != j2 ==> (
                #[trigger] splits@[j1]).block != (#[trigger] splits@[j2]).block,
            forall|j: int|
                0 <= j < splits@.len() ==> block_union(gg, p0, (#[trigger] splits@[j]).block).contains(
                    splits@[j].splitter,
                ),
            forall|j: int|
                0 <= j < splits@.len() ==> first_lacking(gg, p0, #[trigger] splits@[j], creators[j]),
            forall|j: int| 0 <= j < splits@.len() ==> #[trigger] creators[j] < n,
            forall|j1: int, j2: int|
                0 <= j1 < j2 < splits@.len() ==> #[trigger] creators[j1] < #[trigger] creators[j2],
            forall|m: int|
                0 <= m < n && !#[trigger] consistent(gg, p0, m) ==> exists|j: int|
                    0 <= j < splits@.len() && (#[trigger] splits@[j]).block == p0[m],
            forall|m: int, j: int|
                0 <= m < n && 0 <= j < splits@.len() && (#[trigger] splits@[j]).block == #[trigger] p0[m]
                    ==> part@[m] == if sig(gg, p0, m).contains(splits@[j].splitter) {
                    p0[m]
                } else {
                    splits@[j].fresh
                },
            forall|m: int|
                0 <= m < n && (forall|j: int|
                    0 <= j < splits@.len() ==> (#[trigger] splits@[j]).block != p0[m]) ==> #[trigger] part@[m]
                    == p0[m],
        decreases len - n,
    {
        let b = part[n];
        let ghost ni = n as int;
        let ghost part_before = part@;
        match find_split(&splits, b) {
            Some(j) => {
                let sp = splits[j];
                if !contains_obs(&sigs[n], sp.splitter) {
                    proof {
                        let jj = j as int;
                        assert(block_union(gg, p0, sp.block).contains(sp.splitter));
                        let m = choose|m: int|
                            0 <= m < p0.len() && p0[m] == sp.block && #[trigger] sig(gg, p0, m).contains(
                                sp.splitter,
                            );
                        assert(sigs@[ni]@.to_set().contains(sp.splitter) == sigs@[ni]@.contains(sp.splitter));
                        assert(m != ni);
                        if m < ni {
                            assert(part@[m] == p0[m]);
                        }
                        assert(part@[m] == part@[ni]);
                        lemma_blocks_update(part@, ni, sp.fresh, m);
                        let cr = creators[jj];
                        assert(part@[cr] == sp.fresh);
                        assert(blocks(part@).contains(sp.fresh as int));
                        assert(blocks(part@).insert(sp.fresh as int) =~= blocks(part@));
                    }
                    part.set(n, sp.fresh);
                }
                proof {
                    assert(sigs@[ni]@.to_set().contains(sp.splitter) == sigs@[ni]@.contains(sp.splitter));
                    assert forall|m: int, k: int|
                        0 <= m < n + 1 && 0 <= k < splits@.len() && (#[trigger] splits@[k]).block
                            == #[trigger] p0[m] implies part@[m] == if sig(gg, p0, m).contains(
                        splits@[k].splitter,
                    ) {
                        p0[m]
                    } else {
                        splits@[k].fresh
                    } by {
                        if m == ni && k != j {
                            assert(splits@[k].block != splits@[j as int].block);
                        }
                    }
                }
            },
            None => {
                match first_missing(&bsigs[n], &sigs[n]) {
                    None => {
                        proof {
                            assert(block_union(gg, p0, p0[ni]) =~= bsigs@[ni]@.to_set());
                            assert(sig(gg, p0, ni) =~= sigs@[ni]@.to_set());
                            assert(consistent(gg, p0, ni));
                        }
                    },
                    Some(c) => {
                        proof {
                            assert(bsigs@[ni]@.to_set().contains(c));
                            assert(!sigs@[ni]@.to_set().contains(c));
                            assert(!consistent(gg, p0, ni));
                        }
                        let ghost s0 = splits@;
                        proof {
                            let m = choose|m: int|
                                0 <= m < p0.len() && p0[m] == b && #[trigger] sig(gg, p0, m).contains(c);
                            assert(sigs@[ni]@.to_set().contains(c) == sigs@[ni]@.contains(c));
                            assert(m != ni);
                            if m < ni {
                                assert(forall|k2: int|
                                    0 <= k2 < s0.len() ==> (#[trigger] s0[k2]).block != p0[m]);
                                assert(part@[m] == p0[m]);
                            }
                            assert(part@[m] == part@[ni]);
                            lemma_blocks_bound_shared(part@, m, ni);
                            lemma_int_range(c0 + 1, *counter + 1);
                            assert(blocks(p0).disjoint(set_int_range(c0 + 1, *counter + 1))) by {
                                assert forall|x: int| blocks(p0).contains(x) implies !set_int_range(
                                    c0 + 1,
                                    *counter + 1,
                                ).contains(x) by {
                                    let k = choose|k: int| 0 <= k < p0.len() && #[trigger] p0[k] as int == x;
                                    assert(p0[k] <= c0);
                                }
                            }
                            lemma_set_disjoint_lens(blocks(p0), set_int_range(c0 + 1, *counter + 1));
                            lemma_blocks_update(part@, ni, (*counter + 1) as usize, m);
                            assert(blocks(p0).union(set_int_range(c0 + 1, *counter + 1)).insert(
                                *counter + 1,
                            ) =~= blocks(p0).union(set_int_range(c0 + 1, *counter + 2)));
                        }
                        *counter = *counter + 1;
                        let fresh = *counter;
                        splits.push(Split { block: b, splitter: c, fresh });
                        part.set(n, fresh);
                        proof {
                            let c_prev = creators;
                            creators = creators.push(ni);
                            let jn = s0.len() as int;
                            assert forall|k: int| 0 <= k < ni && p0[k] == b implies #[trigger] consistent(
                                gg,
                                p0,
                                k,
                            ) by {
                                if !consistent(gg, p0, k) {
                                    let k2 = choose|k2: int|
                                        0 <= k2 < s0.len() && (#[trigger] s0[k2]).block == p0[k];
                                }
                            }
                            assert(first_lacking(gg, p0, splits@[jn], ni));
                            assert forall|j: int| 0 <= j < splits@.len() implies first_lacking(
                                gg,
                                p0,
                                #[trigger] splits@[j],
                                creators[j],
                            ) by {
                                if j < jn {
                                    assert(splits@[j] == s0[j]);
                                    assert(creators[j] == c_prev[j]);
                                }
                            }
                            assert(splits@[jn].block == b);
                            assert forall|m: int, k: int|
                                0 <= m < n + 1 && 0 <= k < splits@.len() && (
                                #[trigger] splits@[k]).block == #[trigger] p0[m] implies part@[m]
                                == if sig(gg, p0, m).contains(splits@[k].splitter) {
                                p0[m]
                            } else {
                                splits@[k].fresh
                            } by {
                                if k < jn {
                                    assert(s0[k] == splits@[k]);
                                    assert(s0[k].block != b);
                                    assert(m != ni);
                                } else if m < ni {
                                    assert(forall|k2: int|
                                        0 <= k2 < s0.len() ==> (#[trigger] s0[k2]).block != p0[m]);
                                    assert(forall|k2: int|
                                        0 <= k2 < s0.len() ==> (#[trigger] splits@[k2]).block != p0[m]);
                                    assert(part_before[m] == p0[m]);
                                    assert(consistent(gg, p0, m));
                                }
                            }
                            assert forall|m: int|
                                0 <= m < n + 1 && (forall|k: int|
                                    0 <= k < splits@.len() ==> (#[trigger] splits@[k]).block
                                        != p0[m]) implies #[trigger] part@[m] == p0[m] by {
                                if m != ni {
                                    assert forall|k: int|
                                        0 <= k < s0.len() implies (#[trigger] s0[k]).block
                                        != p0[m] by {
                                        assert(splits@[k] == s0[k]);
                                    }
                                } else {
                                    assert(splits@[jn].block == p0[m]);
                                }
                            }
                            assert forall|m: int|
                                0 <= m < n + 1 && !#[trigger] consistent(gg, p0, m) implies exists|k: int|
                                    0 <= k < splits@.len() && (#[trigger] splits@[k]).block == p0[m] by {
                                if m < ni {
                                    let k = choose|k: int|
                                        0 <= k < s0.len() && (#[trigger] s0[k]).block == p0[m];
                                    assert(splits@[k] == s0[k]);
                                } else {
                                    assert(splits@[jn].block == p0[m]);
                                }
                            }
                        }
                    },
                }
            },
        }
        n = n + 1;
    }
    proof {
        assert forall|bb: usize|
            #[trigger] inconsistent_blocks(gg, p0).contains(bb) implies exists|j: int|
                0 <= j < splits@.len() && (#[trigger] splits@[j]).block == bb by {
            let m = choose|m: int| 0 <= m < p0.len() && p0[m] == bb && !#[trigger] consistent(gg, p0, m);
        }
        assert forall|j: int| 0 <= j < splits@.len() implies lacked_by_some_member(
            gg,
            p0,
            #[trigger] splits@[j],
        ) by {
            let m = creators[j];
            assert(first_lacking(gg, p0, splits@[j], m));
            assert(!sig(gg, p0, m).contains(splits@[j].splitter));
        }
        assert(splits_in_state_order(gg, p0, splits@, creators));
    }
    splits
}

/// The number of blocks is finite and at most the number of states.
pub proof fn lemma_blocks_bound(p: Seq<usize>)
    ensures
        blocks(p).finite(),
        blocks(p).len() <= p.len(),
{
    let f = |n: int| p[n] as int;
    lemma_int_range(0, p.len() as int);
    assert(set_int_range(0, p.len() as int).map(f) =~= blocks(p)) by {
        assert forall|b: int| #[trigger] blocks(p).contains(b) implies set_int_range(
            0,
            p.len() as int,
        ).map(f).contains(b) by {
            let n = choose|n: int| 0 <= n < p.len() && #[trigger] p[n] as int == b;
            assert(set_int_range(0, p.len() as int).contains(n));
            assert(f(n) == b);
        }
    }
    lemma_map_size_bound(set_int_range(0, p.len() as int), blocks(p), f);
}

/// A round adds exactly one block per split, keeps every old block, and
/// splits nothing exactly when the partition is stable, in which case it
/// changes nothing.
pub proof fn lemma_round_blocks(
    g: Graph,
    p0: Seq<usize>,
    c0: usize,
    s: Seq<Split>,
    p1: Seq<usize>,
    c1: usize,
)
    requires
        ids_below(p0, c0),
        round_outcome(g, p0, c0, s, p1, c1),
    ensures
        blocks(p1) == blocks(p0).union(set_int_range(c0 + 1, c1 + 1)),
        blocks(p1).len() == blocks(p0).len() + s.len(),
        s.len() == 0 <==> stable(g, p0),
        s.len() == 0 ==> p1 == p0,
{
    let fresh = set_int_range(c0 + 1, c1 + 1);
    assert forall|x: int| #[trigger] blocks(p1).contains(x) <==> blocks(p0).contains(x) || fresh.contains(x) by {
        if blocks(p1).contains(x) {
            let n = choose|n: int| 0 <= n < p1.len() && #[trigger] p1[n] as int == x;
            lemma_round_member(g, p0, c0, s, p1, c1, n);
            if p1[n] == p0[n] {
                assert(blocks(p0).contains(x));
            } else {
                let j = choose|j: int| 0 <= j < s.len() && (#[trigger] s[j]).block == p0[n] && p1[n] == s[j].fresh;
                assert(s[j].fresh == c0 + j + 1);
            }
        }
        if blocks(p0).contains(x) {
            let n = choose|n: int| 0 <= n < p0.len() && #[trigger] p0[n] as int == x;
            if exists|j: int| 0 <= j < s.len() && (#[trigger] s[j]).block == p0[n] {
                let j = choose|j: int| 0 <= j < s.len() && (#[trigger] s[j]).block == p0[n];
                assert(block_union(g, p0, s[j].block).contains(s[j].splitter));
                let m = choose|m: int|
                    0 <= m < p0.len() && p0[m] == s[j].block && #[trigger] sig(g, p0, m).contains(s[j].splitter);
                assert(p1[m] == p0[m]);
                assert(blocks(p1).contains(x));
            } else {
                assert(p1[n] == p0[n]);
                assert(blocks(p1).contains(x));
            }
        }
        if fresh.contains(x) {
            let j = x - c0 - 1;
            assert(s[j].fresh == x);
            assert(lacked_by_some_member(g, p0, s[j]));
            let m = choose|m: int|
                0 <= m < p0.len() && p0[m] == s[j].block && !#[trigger] sig(g, p0, m).contains(s[j].splitter);
            assert(p1[m] as int == x);
            assert(blocks(p1).contains(x));
        }
    }
    assert(blocks(p1) =~= blocks(p0).union(fresh));
    lemma_blocks_bound(p0);
    lemma_int_range(c0 + 1, c1 + 1);
    assert(blocks(p0).disjoint(fresh)) by {
        assert forall|x: int| blocks(p0).contains(x) implies !fresh.contains(x) by {
            let n = choose|n: int| 0 <= n < p0.len() && #[trigger] p0[n] as int == x;
            assert(p0[n] <= c0);
        }
    }
    lemma_set_disjoint_lens(blocks(p0), fresh);
    if s.len() == 0 {
        assert forall|n: int| 0 <= n < p0.len() implies #[trigger] consistent(g, p0, n) by {
            if !consistent(g, p0, n) {
                assert(inconsistent_blocks(g, p0).contains(p0[n]));
            }
        }
        assert(p1 =~= p0);
    }
    if stable(g, p0) && s.len() > 0 {
        assert(lacked_by_some_member(g, p0, s[0]));
        let m = choose|m: int|
            0 <= m < p0.len() && p0[m] == s[0].block && !#[trigger] sig(g, p0, m).contains(s[0].splitter);
        assert(consistent(g, p0, m));
        assert(block_union(g, p0, s[0].block).contains(s[0].splitter));
    }
}

proof fn lemma_refines_trans(a: Seq<usize>, b: Seq<usize>, c: Seq<usize>)
    requires
        refines(a, b),
        refines(b, c),
    ensures
        refines(a, c),
{
    assert forall|n: int, m: int|
        0 <= n < a.len() && 0 <= m < a.len() && #[trigger] a[n] == #[trigger] a[m] implies c[n] == c[m] by {
        assert(b[n] == b[m]);
    }
}

/// What the driver returns for the initial partition `init`: a stable
/// partition of the same states that refines `init`, and `init` itself when
/// `init` is already stable.
pub open spec fn refine_outcome(g: Graph, init: Seq<usize>, out: Seq<usize>) -> bool {
    &&& out.len() == init.len()
    &&& refines(out, init)
    &&& stable(g, out)
    &&& stable(g, init) ==> out == init
}

/// The largest block id of `p`, or 0 when `p` is empty.
pub open spec fn max_id(p: Seq<usize>) -> nat
    decreases p.len(),
{
    if p.len() == 0 {
        0
    } else {
        let m = max_id(p.drop_last());
        if p.last() > m {
            p.last() as nat
        } else {
            m
        }
    }
}

/// `max_id` bounds every id, and is one of them when `p` is not empty.
pub proof fn lemma_max_id(p: Seq<usize>)
    ensures
        forall|n: int| 0 <= n < p.len() ==> #[trigger] p[n] <= max_id(p),
        p.len() > 0 ==> exists|n: int| 0 <= n < p.len() && p[n] == max_id(p),
        max_id(p) <= usize::MAX,
    decreases p.len(),
{
    if p.len() > 0 {
        let q = p.drop_last();
        lemma_max_id(q);
        assert forall|n: int| 0 <= n < p.len() implies #[trigger] p[n] <= max_id(p) by {
            if n < q.len() {
                assert(p[n] == q[n]);
            }
        }
        if p.last() > max_id(q) {
            assert(p[p.len() - 1] == max_id(p));
        } else if q.len() > 0 {
            let n = choose|n: int| 0 <= n < q.len() && q[n] == max_id(q);
            assert(p[n] == q[n]);
        } else {
            assert(p[p.len() - 1] == max_id(p));
        }
    }
}

/// The ids of a partition leave room for all the fresh ids the driver may
/// allocate on it: at most one per state beyond the initial blocks.
pub open spec fn room_for_fresh_ids(p: Seq<usize>) -> bool {
    max_id(p) + p.len() - blocks(p).len() <= usize::MAX
}

/// Some round from `p0` with counter `c0` makes at least one split and
/// leaves `p1` with counter `c1`.
#[verifier::opaque]
pub open spec fn splitting_round(g: Graph, p0: Seq<usize>, c0: usize, p1: Seq<usize>, c1: usize) -> bool {
    exists|s: Seq<Split>| s.len() > 0 && #[trigger] round_outcome(g, p0, c0, s, p1, c1)
}

/// `ps` is the sequence of partitions the driver goes through from `init` to
/// `out`, and `cs` the counter beside each: the counter starts at the largest
/// id of `init`, and each step is one round that splits some block.
pub open spec fn driver_trace(
    g: Graph,
    init: Seq<usize>,
    out: Seq<usize>,
    ps: Seq<Seq<usize>>,
    cs: Seq<usize>,
) -> bool {
    &&& ps.len() >= 1
    &&& cs.len() == ps.len()
    &&& ps[0] == init
    &&& ps.last() == out
    &&& cs[0] == max_id(init)
    &&& forall|i: int|
        0 <= i < ps.len() - 1 ==> #[trigger] splitting_round(g, ps[i], cs[i], ps[i + 1], cs[i + 1])
}

proof fn lemma_trace_extend(
    g: Graph,
    init: Seq<usize>,
    ps: Seq<Seq<usize>>,
    cs: Seq<usize>,
    s: Seq<Split>,
    p1: Seq<usize>,
    c1: usize,
)
    requires
        ps.len() >= 1,
        driver_trace(g, init, ps.last(), ps, cs),
        s.len() > 0,
        round_outcome(g, ps.last(), cs.last(), s, p1, c1),
    ensures
        driver_trace(g, init, p1, ps.push(p1), cs.push(c1)),
{
    let ps1 = ps.push(p1);
    let cs1 = cs.push(c1);
    assert(splitting_round(g, ps.last(), cs.last(), p1, c1)) by {
        reveal(splitting_round);
    }
    assert forall|i: int| 0 <= i < ps1.len() - 1 implies #[trigger] splitting_round(
        g,
        ps1[i],
        cs1[i],
        ps1[i + 1],
        cs1[i + 1],
    ) by {
        if i < ps.len() - 1 {
            assert(ps1[i] == ps[i] && ps1[i + 1] == ps[i + 1]);
            assert(cs1[i] == cs[i] && cs1[i + 1] == cs[i + 1]);
        } else {
            assert(ps1[i] == ps.last() && ps1[i + 1] == p1);
            assert(cs1[i] == cs.last() && cs1[i + 1] == c1);
        }
    }
    assert(ps1[0] == ps[0] && cs1[0] == cs[0]);
    assert(ps1.last() == p1);
}

/// The result of the driver: the final partition and the number of rounds
/// that split some block.
pub struct Refinement {
    pub partition: Vec<usize>,
    pub rounds: usize,
}

/// Refines `initial` to a fixpoint: repeats rounds until one splits nothing.
/// Fresh block ids count up from the largest id of `initial`.
pub fn refine_from(g: &TransitionSystem, initial: &Vec<usize>) -> (r: Refinement)
    requires
        g.wf(),
        partition_of(g@, initial@),
        room_for_fresh_ids(initial@),
    ensures
        refine_outcome(g@, initial@, r.partition@),
        stable(g@, initial@) ==> r.rounds == 0,
        exists|ps: Seq<Seq<usize>>, cs: Seq<usize>|
            #[trigger] driver_trace(g@, initial@, r.partition@, ps, cs) && ps.len() == r.rounds + 1,
        r.rounds <= initial@.len() - blocks(initial@).len(),
        forall|n: int|
            0 <= n < r.partition@.len() ==> #[trigger] r.partition@[n] <= max_id(initial@) + blocks(
                r.partition@,
            ).len() - blocks(initial@).len(),
        room_for_fresh_ids(r.partition@),
{
    let len = g.num_states();
    let mut part: Vec<usize> = Vec::new();
    let mut counter: usize = 0;
    let mut k: usize = 0;
    while k < len
        invariant
            k <= len,
            len == initial@.len(),
            part@ == initial@.subrange(0, k as int),
            counter == max_id(part@),
        decreases len - k,
    {
        let ghost before = part@;
        if initial[k] > counter {
            counter = initial[k];
        }
        part.push(initial[k]);
        k = k + 1;
        proof {
            assert(part@ =~= initial@.subrange(0, k as int));
            assert(part@.drop_last() =~= before);
        }
    }
    assert(part@ =~= initial@);
    let ghost c0 = counter;
    proof {
        lemma_blocks_bound(initial@);
        lemma_max_id(initial@);
    }
    let mut rounds: usize = 0;
    let ghost mut ps: Seq<Seq<usize>> = seq![initial@];
    let ghost mut cs: Seq<usize> = seq![counter];
    loop
        invariant
            g.wf(),
            len == g@.len(),
            len == initial@.len(),
            part@.len() == len,
            refines(part@, initial@),
            ids_below(part@, counter),
            c0 + len - blocks(initial@).len() <= usize::MAX,
            c0 == max_id(initial@),
            blocks(part@).finite(),
            blocks(initial@).finite(),
            blocks(part@).len() <= len,
            counter == c0 + blocks(part@).len() - blocks(initial@).len(),
            rounds <= counter - c0,
            stable(g@, initial@) ==> part@ == initial@ && rounds == 0,
            driver_trace(g@, initial@, part@, ps, cs),
            ps.len() == rounds + 1,
            cs.last() == counter,
        ensures
            driver_trace(g@, initial@, part@, ps, cs),
            ps.len() == rounds + 1,
            refines(part@, initial@),
            stable(g@, part@),
            stable(g@, initial@) ==> part@ == initial@ && rounds == 0,
            rounds <= len - blocks(initial@).len(),
            part@.len() == len,
        decreases len - blocks(part@).len(),
    {
        let sigs = signatures(g, &part);
        let bsigs = block_signatures(g, &part, &sigs);
        let ghost p_prev = part@;
        let ghost c_prev = counter;
        let splits = split_round(g, &mut part, &mut counter, &sigs, &bsigs);
        proof {
            lemma_round_blocks(g@, p_prev, c_prev, splits@, part@, counter);
            lemma_round_refines(g@, p_prev, c_prev, splits@, part@, counter);
            lemma_refines_trans(part@, p_prev, initial@);
            lemma_blocks_bound(part@);
        }
        if splits.len() == 0 {
            break;
        }
        proof {
            lemma_trace_extend(g@, initial@, ps, cs, splits@, part@, counter);
            ps = ps.push(part@);
            cs = cs.push(counter);
        }
        rounds = rounds + 1;
    }
    proof {
        lemma_max_id(part@);
        lemma_blocks_bound(part@);
    }
    let r = Refinement { partition: part, rounds };
    proof {
        assert(driver_trace(g@, initial@, r.partition@, ps, cs));
    }
    r
}

/// The partition of `n` states that puts every state in block 0.
pub open spec fn one_block(n: nat) -> Seq<usize> {
    Seq::new(n, |i: int| 0usize)
}

/// Refines the partition that puts every state in block 0 to a fixpoint.
pub fn refine(g: &TransitionSystem) -> (r: Vec<usize>)
    requires
        g.wf(),
    ensures
        refine_outcome(g@, one_block(g@.len()), r@),
        exists|ps: Seq<Seq<usize>>, cs: Seq<usize>|
            #[trigger] driver_trace(g@, one_block(g@.len()), r@, ps, cs),
        forall|n: int| 0 <= n < r@.len() ==> #[trigger] r@[n] < blocks(r@).len(),
        room_for_fresh_ids(r@),
{
    let len = g.num_states();
    let mut initial: Vec<usize> = Vec::new();
    let mut k: usize = 0;
    while k < len
        invariant
            k <= len,
            initial@ == one_block(k as nat),
        decreases len - k,
    {
        initial.push(0);
        k = k + 1;
        proof {
            assert(initial@ =~= one_block(k as nat));
        }
    }
    proof {
        lemma_blocks_bound(initial@);
        lemma_max_id(initial@);
        if len > 0 {
            assert(blocks(initial@).contains(0));
            assert(blocks(initial@).len() >= 1) by {
                if blocks(initial@).len() == 0 {
                    assert(blocks(initial@) =~= Set::empty());
                }
            }
        }
    }
    refine_from(g, &initial).partition
}

/// One more round on the driver's output splits nothing and changes nothing.
pub proof fn lemma_output_is_fixpoint(
    g: Graph,
    init: Seq<usize>,
    out: Seq<usize>,
    c: usize,
    s: Seq<Split>,
    p1: Seq<usize>,
    c1: usize,
)
    requires
        refine_outcome(g, init, out),
        ids_below(out, c),
        round_outcome(g, out, c, s, p1, c1),
    ensures
        s.len() == 0,
        p1 == out,
        c1 == c,
{
    lemma_round_blocks(g, out, c, s, p1, c1);
}

/// Running the driver again on its own output, as the initial partition,
/// returns that output unchanged.
pub proof fn lemma_round_trip(g: Graph, init: Seq<usize>, out: Seq<usize>, again: Seq<usize>)
    requires
        refine_outcome(g, init, out),
        refine_outcome(g, out, again),
    ensures
        again == out,
{
}

} // verus!
