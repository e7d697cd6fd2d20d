use crate::model::{reads, ModelContext, ModelProgram, ModelVar};
use vstd::prelude::*;

verus! {

/// The var read through input slot `s` of `v`, if the op uses that slot.
pub open spec fn slot_input(v: ModelVar, s: int) -> Option<usize> {
    if 0 <= s < v.op.arity() && s < 3 {
        v.inputs[s]
    } else {
        None
    }
}

/// `reads` is the same as some slot naming the var.
pub proof fn lemma_reads_slot(v: ModelVar, j: usize)
    ensures
        reads(v, j) <==> (slot_input(v, 0) == Some(j) || slot_input(v, 1) == Some(j) || slot_input(v, 2) == Some(j)),
{
}

/// Var `i` of the graph reads var `j`.
pub open spec fn edge(vars: Seq<ModelVar>, i: usize, j: usize) -> bool {
    i < vars.len() && reads(vars[i as int], j)
}

/// Step `k` of path `p` follows an edge.
pub open spec fn path_step(vars: Seq<ModelVar>, p: Seq<usize>, k: int) -> bool {
    edge(vars, p[k], p[k + 1])
}

/// `p` is a walk in the graph from `p[0]` (an existing var) along read edges.
pub open spec fn is_path(vars: Seq<ModelVar>, p: Seq<usize>) -> bool {
    &&& p.len() >= 1
    &&& p[0] < vars.len()
    &&& forall|k: int| 0 <= k < p.len() - 1 ==> #[trigger] path_step(vars, p, k)
}

/// `x` is `root` or a var that `root` depends on, directly or through other vars.
pub open spec fn reachable(vars: Seq<ModelVar>, root: usize, x: usize) -> bool {
    exists|p: Seq<usize>| #[trigger] is_path(vars, p) && p[0] == root && p.last() == x
}

/// `order` lists existing vars, each once, and every var it lists comes after all
/// the vars it reads.
pub open spec fn is_topo_order(vars: Seq<ModelVar>, order: Seq<usize>) -> bool {
    &&& forall|a: int| 0 <= a < order.len() ==> #[trigger] order[a] < vars.len()
    &&& order.no_duplicates()
    &&& forall|a: int, j: usize|
        0 <= a < order.len() && #[trigger] reads(vars[order[a] as int], j) ==> exists|b: int|
            0 <= b < a && #[trigger] order[b] == j
}

/// Number of `true` entries.
pub open spec fn count_true(s: Seq<bool>) -> nat
    decreases s.len(),
{
    if s.len() == 0 {
        0
    } else {
        count_true(s.drop_last()) + if s.last() { 1nat } else { 0nat }
    }
}

proof fn lemma_count_true_le(s: Seq<bool>)
    ensures
        count_true(s) <= s.len(),
    decreases s.len(),
{
    if s.len() > 0 {
        lemma_count_true_le(s.drop_last());
    }
}

proof fn lemma_count_true_set(s: Seq<bool>, i: int)
    requires
        0 <= i < s.len(),
        !s[i],
    ensures
        count_true(s.update(i, true)) == count_true(s) + 1,
    decreases s.len(),
{
    let t = s.update(i, true);
    if i == s.len() - 1 {
        assert(t.drop_last() == s.drop_last());
    } else {
        assert(t.drop_last() == s.drop_last().update(i, true));
        lemma_count_true_set(s.drop_last(), i);
    }
}

/// Stack entry `p` has been expanded (visited, waiting to be emitted).
pub open spec fn marker(vis: Seq<bool>, st: Seq<usize>, p: int) -> bool {
    st[p] < vis.len() && vis[st[p] as int]
}

/// Slot `s` of the var at stack entry `p` is handled: its input is already
/// emitted or waits higher on the stack.
pub open spec fn slot_ok(vars: Seq<ModelVar>, st: Seq<usize>, out: Seq<usize>, p: int, s: int) -> bool {
    slot_input(vars[st[p] as int], s) matches Some(j) ==> (out.contains(j) || exists|q: int|
        p < q < st.len() && #[trigger] st[q] == j)
}

/// Slots below `kmax` of stack entry `p` are handled.
pub open spec fn slots_ok(vars: Seq<ModelVar>, st: Seq<usize>, out: Seq<usize>, p: int, kmax: int) -> bool {
    forall|s: int| 0 <= s < kmax ==> #[trigger] slot_ok(vars, st, out, p, s)
}

/// Emitted var `out[a]` comes after every input read through slot `s`.
pub open spec fn emitted_after_inputs(vars: Seq<ModelVar>, out: Seq<usize>, a: int, s: int) -> bool {
    slot_input(vars[out[a] as int], s) matches Some(j) ==> exists|b: int| 0 <= b < a && #[trigger] out[b] == j
}

/// The state of the depth-first walk that orders a program, apart from the
/// handled-slots property of expanded stack entries.
pub open spec fn walk_core(vars: Seq<ModelVar>, root: usize, vis: Seq<bool>, st: Seq<usize>, out: Seq<usize>) -> bool {
    let n = vars.len();
    &&& vis.len() == n
    &&& forall|k: int| 0 <= k < st.len() ==> (#[trigger] st[k] < n || st[k] == root)
    &&& st.no_duplicates()
    &&& forall|k: int| 0 <= k < out.len() ==> #[trigger] out[k] < n && vis[out[k] as int]
    &&& out.no_duplicates()
    &&& forall|k: int| 0 <= k < st.len() ==> !out.contains(#[trigger] st[k])
    &&& forall|x: int| 0 <= x < n && #[trigger] vis[x] && !out.contains(x as usize) ==> st.contains(x as usize)
    &&& forall|p: int, q: int| 0 <= p < q < st.len() && marker(vis, st, p) ==> #[trigger] st[q] < #[trigger] st[p]
    &&& forall|a: int, s: int| 0 <= a < out.len() && 0 <= s < 3 ==> #[trigger] emitted_after_inputs(vars, out, a, s)
    &&& forall|k: int| 0 <= k < st.len() && st[k] < n ==> reachable(vars, root, #[trigger] st[k])
    &&& forall|k: int| 0 <= k < out.len() ==> reachable(vars, root, #[trigger] out[k])
    &&& (root < n ==> ((st.len() > 0 && st[0] == root && !out.contains(root))
        || (st.len() == 0 && out.len() > 0 && out.last() == root)))
    &&& (root < n && st.len() > 1 ==> vis[root as int])
    &&& (root >= n ==> out.len() == 0 && st.len() <= 1 && (st.len() == 1 ==> st[0] == root))
}

/// Full walk invariant: every expanded stack entry has all its slots handled.
pub open spec fn walk_inv(vars: Seq<ModelVar>, root: usize, vis: Seq<bool>, st: Seq<usize>, out: Seq<usize>) -> bool {
    &&& walk_core(vars, root, vis, st, out)
    &&& forall|p: int| 0 <= p < st.len() && marker(vis, st, p) ==> #[trigger] slots_ok(vars, st, out, p, 3)
}

/// The walk in the middle of expanding stack entry `c`: its slots below `k` are
/// handled, nothing above it is expanded, and every other expanded entry is done.
pub open spec fn walk_partial(
    vars: Seq<ModelVar>,
    root: usize,
    vis: Seq<bool>,
    st: Seq<usize>,
    out: Seq<usize>,
    c: int,
    k: int,
) -> bool {
    &&& walk_core(vars, root, vis, st, out)
    &&& 0 <= c < st.len()
    &&& marker(vis, st, c)
    &&& forall|q: int| c < q < st.len() ==> !#[trigger] marker(vis, st, q)
    &&& forall|p: int| 0 <= p < st.len() && p != c && marker(vis, st, p) ==> #[trigger] slots_ok(vars, st, out, p, 3)
    &&& slots_ok(vars, st, out, c, k)
}

/// Graph in which every var reads only vars created before it.
pub open spec fn acyclic(vars: Seq<ModelVar>) -> bool {
    forall|i: int, j: usize| 0 <= i < vars.len() && #[trigger] reads(vars[i], j) ==> j < i
}

proof fn lemma_path_extend(vars: Seq<ModelVar>, root: usize, x: usize, j: usize)
    requires
        reachable(vars, root, x),
        edge(vars, x, j),
    ensures
        reachable(vars, root, j),
{
    let p = choose|p: Seq<usize>| #[trigger] is_path(vars, p) && p[0] == root && p.last() == x;
    let p2 = p.push(j);
    assert forall|k: int| 0 <= k < p2.len() - 1 implies #[trigger] path_step(vars, p2, k) by {
        if k < p.len() - 1 {
            assert(path_step(vars, p, k));
        }
    }
    assert(is_path(vars, p2));
}

proof fn lemma_root_reachable(vars: Seq<ModelVar>, root: usize)
    requires
        root < vars.len(),
    ensures
        reachable(vars, root, root),
{
    let p = seq![root];
    assert(is_path(vars, p));
}

/// Every var on a path from an emitted var is emitted, when the emitted list is
/// closed under inputs.
proof fn lemma_closed_path(vars: Seq<ModelVar>, out: Seq<usize>, p: Seq<usize>, k: int)
    requires
        is_path(vars, p),
        out.contains(p[0]),
        0 <= k < p.len(),
        forall|a: int, s: int| 0 <= a < out.len() && 0 <= s < 3 ==> #[trigger] emitted_after_inputs(vars, out, a, s),
    ensures
        out.contains(p[k]),
    decreases k,
{
    if k > 0 {
        lemma_closed_path(vars, out, p, k - 1);
        assert(path_step(vars, p, k - 1));
        let a = choose|a: int| 0 <= a < out.len() && out[a] == p[k - 1];
        let j = p[k];
        lemma_reads_slot(vars[p[k - 1] as int], j);
        if slot_input(vars[out[a] as int], 0) == Some(j) {
            assert(emitted_after_inputs(vars, out, a, 0));
        } else if slot_input(vars[out[a] as int], 1) == Some(j) {
            assert(emitted_after_inputs(vars, out, a, 1));
        } else {
            assert(emitted_after_inputs(vars, out, a, 2));
        }
    }
}

/// First position of `x` in `v`.
fn position_of(v: &Vec<usize>, x: usize) -> (r: Option<usize>)
    ensures
        match r {
            Some(i) => i < v@.len() && v@[i as int] == x && forall|k: int| 0 <= k < i ==> v@[k] != x,
            None => !v@.contains(x),
        },
{
    let mut i: usize = 0;
    while i < v.len()
        invariant
            i <= v@.len(),
            forall|k: int| 0 <= k < i ==> v@[k] != x,
        decreases v@.len() - i,
    {
        if v[i] == x {
            return Some(i);
        }
        i = i + 1;
    }
    None
}

proof fn lemma_walk_init(vars: Seq<ModelVar>, root: usize, vis: Seq<bool>)
    requires
        vis.len() == vars.len(),
        forall|i: int| 0 <= i < vis.len() ==> !vis[i],
    ensures
        walk_inv(vars, root, vis, seq![root], Seq::empty()),
{
    let st = seq![root];
    let out = Seq::<usize>::empty();
    if root < vars.len() {
        lemma_root_reachable(vars, root);
    }
    assert(st.no_duplicates());
    assert(out.no_duplicates());
}

proof fn lemma_walk_skip(vars: Seq<ModelVar>, root: usize, vis: Seq<bool>, st: Seq<usize>, out: Seq<usize>)
    requires
        walk_inv(vars, root, vis, st, out),
        st.len() > 0,
        st.last() >= vars.len(),
    ensures
        walk_inv(vars, root, vis, st.drop_last(), out),
        st.drop_last().len() == 0,
{
    assert(st[st.len() - 1] < vars.len() || st[st.len() - 1] == root);
}

proof fn lemma_walk_emit(vars: Seq<ModelVar>, root: usize, vis: Seq<bool>, st: Seq<usize>, out: Seq<usize>)
    requires
        walk_inv(vars, root, vis, st, out),
        st.len() > 0,
        st.last() < vars.len(),
        vis[st.last() as int],
    ensures
        walk_inv(vars, root, vis, st.drop_last(), out.push(st.last())),
{
    let n = vars.len();
    let last = st.len() - 1;
    let x = st[last];
    let st2 = st.drop_last();
    let out2 = out.push(x);
    assert(marker(vis, st, last));
    assert(slots_ok(vars, st, out, last, 3));
    assert(!out.contains(x));
    assert(out2.no_duplicates()) by {
        assert forall|a: int, b: int| 0 <= a < b < out2.len() implies out2[a] != out2[b] by {
            if b == out.len() {
                assert(out[a] == out2[a]);
            }
        }
    }
    assert forall|k: int| 0 <= k < st2.len() implies !out2.contains(#[trigger] st2[k]) by {
        assert(st[k] == st2[k]);
        assert(!out.contains(st[k]));
        if st2[k] == x {
            assert(st[k] == st[last]);
        }
        if out2.contains(st2[k]) {
            let i = choose|i: int| 0 <= i < out2.len() && out2[i] == st2[k];
            if i < out.len() {
                assert(out.contains(st2[k]));
            }
        }
    }
    assert forall|y: int| 0 <= y < n && #[trigger] vis[y] && !out2.contains(y as usize) implies st2.contains(y as usize) by {
        assert(out2[out.len() as int] == x);
        assert(y as usize != x);
        assert(!out.contains(y as usize)) by {
            if out.contains(y as usize) {
                let i = choose|i: int| 0 <= i < out.len() && out[i] == y as usize;
                assert(out2[i] == y as usize);
            }
        }
        let q = choose|q: int| 0 <= q < st.len() && st[q] == y as usize;
        assert(q != last);
        assert(st2[q] == y as usize);
    }
    assert forall|p: int, q: int| 0 <= p < q < st2.len() && marker(vis, st2, p) implies #[trigger] st2[q] < #[trigger] st2[p] by {
        assert(st2[p] == st[p] && st2[q] == st[q]);
        assert(marker(vis, st, p));
    }
    assert forall|a: int, s: int| 0 <= a < out2.len() && 0 <= s < 3 implies #[trigger] emitted_after_inputs(vars, out2, a, s) by {
        if a < out.len() {
            assert(out2[a] == out[a]);
            assert(emitted_after_inputs(vars, out, a, s));
            if let Some(j) = slot_input(vars[out[a] as int], s) {
                let b = choose|b: int| 0 <= b < a && #[trigger] out[b] == j;
                assert(out2[b] == j);
            }
        } else {
            assert(out2[a] == x);
            assert(slot_ok(vars, st, out, last, s));
            if let Some(j) = slot_input(vars[x as int], s) {
                assert(out.contains(j));
                let b = choose|b: int| 0 <= b < out.len() && out[b] == j;
                assert(out2[b] == j);
            }
        }
    }
    assert forall|k: int| 0 <= k < st2.len() && st2[k] < n implies reachable(vars, root, #[trigger] st2[k]) by {
        assert(st2[k] == st[k]);
    }
    assert forall|k: int| 0 <= k < out2.len() implies reachable(vars, root, #[trigger] out2[k]) by {
        if k < out.len() {
            assert(out2[k] == out[k]);
        } else {
            assert(reachable(vars, root, st[last]));
        }
    }
    assert forall|k: int| 0 <= k < out2.len() implies #[trigger] out2[k] < n && vis[out2[k] as int] by {
        if k < out.len() {
            assert(out2[k] == out[k]);
        }
    }
    if root < n {
        if x == root {
            assert(st[0] == root);
            if last > 0 {
                assert(st[0] == st[last]);
            }
            assert(st2.len() == 0);
        } else {
            assert(st2.len() > 0) by {
                if last == 0 {
                    assert(st[0] == root);
                }
            }
            assert(st2[0] == root);
            assert(!out2.contains(root)) by {
                if out2.contains(root) {
                    let i = choose|i: int| 0 <= i < out2.len() && out2[i] == root;
                    if i < out.len() {
                        assert(out.contains(root));
                    }
                }
            }
        }
    }
    assert forall|p: int| 0 <= p < st2.len() && marker(vis, st2, p) implies #[trigger] slots_ok(vars, st2, out2, p, 3) by {
        assert(st2[p] == st[p]);
        assert(marker(vis, st, p));
        assert(slots_ok(vars, st, out, p, 3));
        assert forall|s: int| 0 <= s < 3 implies #[trigger] slot_ok(vars, st2, out2, p, s) by {
            assert(slot_ok(vars, st, out, p, s));
            if let Some(j) = slot_input(vars[st2[p] as int], s) {
                if out.contains(j) {
                    let i = choose|i: int| 0 <= i < out.len() && out[i] == j;
                    assert(out2[i] == j);
                } else {
                    let q = choose|q: int| p < q < st.len() && #[trigger] st[q] == j;
                    if q == last {
                        assert(out2[out.len() as int] == j);
                    } else {
                        assert(st2[q] == j);
                    }
                }
            }
        }
    }
}

proof fn lemma_walk_mark(vars: Seq<ModelVar>, root: usize, vis: Seq<bool>, st: Seq<usize>, out: Seq<usize>)
    requires
        walk_inv(vars, root, vis, st, out),
        st.len() > 0,
        st.last() < vars.len(),
        !vis[st.last() as int],
    ensures
        walk_partial(vars, root, vis.update(st.last() as int, true), st, out, st.len() - 1, 0),
{
    let n = vars.len();
    let last = st.len() - 1;
    let x = st[last];
    let vis2 = vis.update(x as int, true);
    assert forall|k: int| 0 <= k < out.len() implies #[trigger] out[k] < n && vis2[out[k] as int] by {}
    assert forall|y: int| 0 <= y < n && #[trigger] vis2[y] && !out.contains(y as usize) implies st.contains(y as usize) by {
        if y != x as int {
            assert(vis[y]);
        } else {
            assert(st[last] == y as usize);
        }
    }
    assert forall|p: int, q: int| 0 <= p < q < st.len() && marker(vis2, st, p) implies #[trigger] st[q] < #[trigger] st[p] by {
        if p == last {
        } else {
            assert(st[p] != st[last]);
            assert(marker(vis, st, p));
        }
    }
    assert forall|p: int| 0 <= p < st.len() && p != last && marker(vis2, st, p) implies #[trigger] slots_ok(vars, st, out, p, 3) by {
        assert(st[p] != st[last]);
        assert(marker(vis, st, p));
    }
    if root < n && st.len() > 1 {
        assert(vis2[root as int]);
    }
}

proof fn lemma_walk_slot_done(
    vars: Seq<ModelVar>,
    root: usize,
    vis: Seq<bool>,
    st: Seq<usize>,
    out: Seq<usize>,
    c: int,
    k: int,
)
    requires
        acyclic(vars),
        walk_partial(vars, root, vis, st, out, c, k),
        0 <= k < 3,
        slot_input(vars[st[c] as int], k) matches Some(j) ==> vis[j as int],
    ensures
        walk_partial(vars, root, vis, st, out, c, k + 1),
{
    let n = vars.len();
    let cur = st[c];
    if let Some(j) = slot_input(vars[cur as int], k) {
        lemma_reads_slot(vars[cur as int], j);
        assert(reads(vars[cur as int], j));
        assert(j < cur);
        if !out.contains(j) {
            assert(vis[j as int]);
            assert(st.contains(j));
            let q = choose|q: int| 0 <= q < st.len() && st[q] == j;
            if q < c {
                assert(marker(vis, st, q));
                assert(st[c] < st[q]);
            }
            assert(q != c);
            assert(c < q < st.len() && st[q] == j);
        }
        assert(slot_ok(vars, st, out, c, k));
    }
    assert forall|s: int| 0 <= s < k + 1 implies #[trigger] slot_ok(vars, st, out, c, s) by {
        if s < k {
            assert(slots_ok(vars, st, out, c, k));
        }
    }
}

/// Position, before removing entry `pos`, of what is entry `i` after the removal.
pub open spec fn stack_pos(pos: Option<int>, i: int) -> int {
    match pos {
        Some(p) => if i >= p { i + 1 } else { i },
        None => i,
    }
}

proof fn lemma_walk_slot_push(
    vars: Seq<ModelVar>,
    root: usize,
    vis: Seq<bool>,
    st: Seq<usize>,
    out: Seq<usize>,
    c: int,
    k: int,
    j: usize,
    pos: Option<int>,
)
    requires
        acyclic(vars),
        vars.len() <= usize::MAX,
        walk_partial(vars, root, vis, st, out, c, k),
        0 <= k < 3,
        slot_input(vars[st[c] as int], k) == Some(j),
        !vis[j as int],
        pos matches Some(p) ==> 0 <= p < st.len() && st[p] == j,
        pos is None ==> !st.contains(j),
    ensures
        ({
            let st1 = match pos {
                Some(p) => st.remove(p),
                None => st,
            };
            let c1 = match pos {
                Some(p) => if p < c { c - 1 } else { c },
                None => c,
            };
            &&& walk_partial(vars, root, vis, st1.push(j), out, c1, k + 1)
            &&& st1.push(j).len() <= st.len() + 1
            &&& st1.push(j)[c1] == st[c]
        }),
{
    let n = vars.len();
    let cur = st[c];
    lemma_reads_slot(vars[cur as int], j);
    assert(reads(vars[cur as int], j));
    assert(j < cur);
    assert(j < n);
    let st1 = match pos {
        Some(p) => st.remove(p),
        None => st,
    };
    let c1 = match pos {
        Some(p) => if p < c { c - 1 } else { c },
        None => c,
    };
    let st2 = st1.push(j);
    let last = st1.len() as int;
    assert(pos matches Some(p) ==> p != c);
    assert forall|i: int| 0 <= i < st1.len() implies #[trigger] st1[i] == st[stack_pos(pos, i)] && 0 <= stack_pos(pos, i) < st.len() by {}
    assert forall|q: int| 0 <= q < st.len() && st[q] != j implies exists|i: int| 0 <= i < st1.len() && #[trigger] stack_pos(pos, i) == q by {
        match pos {
            Some(p) => {
                if q > p {
                    assert(stack_pos(pos, q - 1) == q);
                } else {
                    assert(q != p);
                    assert(stack_pos(pos, q) == q);
                }
            },
            None => {
                assert(stack_pos(pos, q) == q);
            },
        }
    }
    assert(stack_pos(pos, c1) == c);
    assert(st2[c1] == cur);
    // No entry of `st1` is `j`.
    assert forall|i: int| 0 <= i < st1.len() implies st1[i] != j by {
        assert(st1[i] == st[stack_pos(pos, i)]);
        if pos is None {
            assert(st.contains(st[stack_pos(pos, i)]));
        } else {
            let p = pos.unwrap();
            assert(stack_pos(pos, i) != p);
        }
    }
    assert(st2.no_duplicates()) by {
        assert forall|a: int, b: int| 0 <= a < b < st2.len() implies st2[a] != st2[b] by {
            if b < last {
                assert(st2[a] == st[stack_pos(pos, a)] && st2[b] == st[stack_pos(pos, b)]);
                assert(stack_pos(pos, a) < stack_pos(pos, b));
            }
        }
    }
    // `root` stays at the bottom.
    if root < n {
        assert(st[0] == root && !out.contains(root));
        if c > 0 {
            assert(vis[root as int]);
            assert(marker(vis, st, 0));
            assert(st[c] < st[0]);
        }
        assert(j != root);
        assert(pos matches Some(p) ==> p != 0);
        assert(st2[0] == st1[0]);
        assert(st1[0] == st[stack_pos(pos, 0)]);
        assert(stack_pos(pos, 0) == 0);
    } else {
        assert(st[c] < n);
        assert(st.len() <= 1);
    }
    // `j` is reachable from the root.
    assert(reachable(vars, root, cur));
    assert(edge(vars, cur, j));
    lemma_path_extend(vars, root, cur, j);
    assert forall|kk: int| 0 <= kk < st2.len() implies (#[trigger] st2[kk] < n || st2[kk] == root) by {
        if kk < last {
            assert(st2[kk] == st[stack_pos(pos, kk)]);
        }
    }
    assert forall|kk: int| 0 <= kk < st2.len() implies !out.contains(#[trigger] st2[kk]) by {
        if kk < last {
            assert(st2[kk] == st[stack_pos(pos, kk)]);
        } else {
            if out.contains(j) {
                let i = choose|i: int| 0 <= i < out.len() && out[i] == j;
                assert(vis[out[i] as int]);
            }
        }
    }
    assert forall|y: int| 0 <= y < n && #[trigger] vis[y] && !out.contains(y as usize) implies st2.contains(y as usize) by {
        let q = choose|q: int| 0 <= q < st.len() && st[q] == y as usize;
        assert(y as usize != j) by {
            if y as usize == j {
                assert(vis[j as int]);
            }
        }
        assert(st[q] != j);
        let i = choose|i: int| 0 <= i < st1.len() && stack_pos(pos, i) == q;
        assert(st2[i] == y as usize);
    }
    assert forall|p: int, q: int| 0 <= p < q < st2.len() && marker(vis, st2, p) implies #[trigger] st2[q] < #[trigger] st2[p] by {
        assert(p < last);
        assert(st2[p] == st[stack_pos(pos, p)]);
        assert(marker(vis, st, stack_pos(pos, p)));
        assert(stack_pos(pos, p) <= c);
        if q == last {
            if stack_pos(pos, p) < c {
                assert(st[c] < st[stack_pos(pos, p)]);
            }
        } else {
            assert(st2[q] == st[stack_pos(pos, q)]);
            assert(stack_pos(pos, p) < stack_pos(pos, q));
        }
    }
    assert forall|kk: int| 0 <= kk < st2.len() && st2[kk] < n implies reachable(vars, root, #[trigger] st2[kk]) by {
        if kk < last {
            assert(st2[kk] == st[stack_pos(pos, kk)]);
        }
    }
    assert(marker(vis, st2, c1));
    assert forall|q: int| c1 < q < st2.len() implies !#[trigger] marker(vis, st2, q) by {
        if q < last {
            assert(st2[q] == st[stack_pos(pos, q)]);
            assert(stack_pos(pos, q) > c);
            assert(!marker(vis, st, stack_pos(pos, q)));
        } else {
            assert(st2[q] == j);
        }
    }
    // Handled slots carry over: a waiting input either was `j` (now on top) or
    // kept its place above the entry.
    assert forall|p: int, s: int| 0 <= p < last && 0 <= s < 3 && slot_ok(vars, st, out, stack_pos(pos, p), s) implies #[trigger] slot_ok(vars, st2, out, p, s) by {
        assert(st2[p] == st[stack_pos(pos, p)]);
        if let Some(jj) = slot_input(vars[st2[p] as int], s) {
            if !out.contains(jj) {
                let q = choose|q: int| stack_pos(pos, p) < q < st.len() && #[trigger] st[q] == jj;
                if jj == j {
                    assert(st2[last] == j);
                } else {
                    let i = choose|i: int| 0 <= i < st1.len() && stack_pos(pos, i) == q;
                    assert(st2[i] == jj);
                    assert(i > p);
                }
            }
        }
    }
    assert forall|p: int| 0 <= p < st2.len() && p != c1 && marker(vis, st2, p) implies #[trigger] slots_ok(vars, st2, out, p, 3) by {
        assert(p < last);
        assert(st2[p] == st[stack_pos(pos, p)]);
        assert(marker(vis, st, stack_pos(pos, p)));
        assert(stack_pos(pos, p) != c);
        assert(slots_ok(vars, st, out, stack_pos(pos, p), 3));
        assert forall|s: int| 0 <= s < 3 implies #[trigger] slot_ok(vars, st2, out, p, s) by {
            assert(slot_ok(vars, st, out, stack_pos(pos, p), s));
        }
    }
    assert forall|s: int| 0 <= s < k + 1 implies #[trigger] slot_ok(vars, st2, out, c1, s) by {
        if s < k {
            assert(slot_ok(vars, st, out, c, s));
        } else {
            assert(st2[last] == j);
        }
    }
    if root < n && st2.len() > 1 {
        if c == 0 {
            assert(st[0] == root);
        } else {
            assert(st.len() > 1);
        }
    }
}

/// Once the walk has finished expanding entry `c`, the full invariant holds again.
proof fn lemma_walk_expanded(vars: Seq<ModelVar>, root: usize, vis: Seq<bool>, st: Seq<usize>, out: Seq<usize>, c: int)
    requires
        walk_partial(vars, root, vis, st, out, c, vars[st[c] as int].op.arity()),
    ensures
        walk_inv(vars, root, vis, st, out),
{
    assert forall|s: int| 0 <= s < 3 implies #[trigger] slot_ok(vars, st, out, c, s) by {
        if s < vars[st[c] as int].op.arity() {
            assert(slots_ok(vars, st, out, c, vars[st[c] as int].op.arity()));
        }
    }
    assert forall|p: int| 0 <= p < st.len() && marker(vis, st, p) implies #[trigger] slots_ok(vars, st, out, p, 3) by {
        if p == c {
            assert(slots_ok(vars, st, out, c, 3));
        }
    }
}

/// A finished walk lists exactly the vars the root depends on, in an order that
/// puts every var after its inputs, ending with the root.
proof fn lemma_walk_done(vars: Seq<ModelVar>, root: usize, vis: Seq<bool>, out: Seq<usize>)
    requires
        walk_inv(vars, root, vis, Seq::empty(), out),
    ensures
        is_topo_order(vars, out),
        forall|x: usize| out.contains(x) <==> (root < vars.len() && reachable(vars, root, x)),
        root < vars.len() ==> out.len() > 0 && out.last() == root,
        root >= vars.len() ==> out.len() == 0,
{
    assert forall|a: int, j: usize| 0 <= a < out.len() && #[trigger] reads(vars[out[a] as int], j) implies exists|b: int|
        0 <= b < a && #[trigger] out[b] == j by {
        lemma_reads_slot(vars[out[a] as int], j);
        if slot_input(vars[out[a] as int], 0) == Some(j) {
            assert(emitted_after_inputs(vars, out, a, 0));
        } else if slot_input(vars[out[a] as int], 1) == Some(j) {
            assert(emitted_after_inputs(vars, out, a, 1));
        } else {
            assert(emitted_after_inputs(vars, out, a, 2));
        }
    }
    assert forall|x: usize| out.contains(x) <==> (root < vars.len() && reachable(vars, root, x)) by {
        if out.contains(x) {
            let k = choose|k: int| 0 <= k < out.len() && out[k] == x;
            assert(reachable(vars, root, out[k]));
        }
        if root < vars.len() && reachable(vars, root, x) {
            let p = choose|p: Seq<usize>| #[trigger] is_path(vars, p) && p[0] == root && p.last() == x;
            assert(out[out.len() - 1] == root);
            lemma_closed_path(vars, out, p, p.len() - 1);
        }
    }
}

/// `prog` is the evaluation order for `root`: exactly the vars `root` depends on
/// (none when `root` names no var), each after its inputs, ending with `root`.
pub open spec fn is_program_for(vars: Seq<ModelVar>, root: usize, prog: Seq<usize>) -> bool {
    &&& is_topo_order(vars, prog)
    &&& forall|x: usize| prog.contains(x) <==> (root < vars.len() && reachable(vars, root, x))
    &&& root < vars.len() ==> prog.len() > 0 && prog.last() == root
    &&& root >= vars.len() ==> prog.len() == 0
}


/// The state of the ordering walk: which vars are marked, the stack of vars still
/// to handle (its top last), and the order emitted so far.
#[verifier::ext_equal]
pub struct WalkState {
    pub visited: Seq<bool>,
    pub stack: Seq<usize>,
    pub out: Seq<usize>,
}

/// `x` pushed on top of the stack `s`, taken out of where it was first if it is
/// already there.
pub open spec fn push_input(s: Seq<usize>, x: usize) -> Seq<usize> {
    match s.index_of_first(x) {
        Some(p) => s.remove(p).push(x),
        None => s.push(x),
    }
}

/// The stack `s` after the inputs in slots `0 .. k` of var `cur` are pushed, in
/// slot order, each input that exists and is not marked in `vis`.
pub open spec fn push_inputs(vars: Seq<ModelVar>, cur: int, vis: Seq<bool>, s: Seq<usize>, k: nat) -> Seq<usize>
    decreases k,
{
    if k == 0 {
        s
    } else {
        let s1 = push_inputs(vars, cur, vis, s, (k - 1) as nat);
        match slot_input(vars[cur], k - 1) {
            Some(j) => if j < vars.len() && !vis[j as int] {
                push_input(s1, j)
            } else {
                s1
            },
            None => s1,
        }
    }
}

/// One step of the walk: take the top of the stack; drop it if it is no var; emit
/// it if it is marked; else mark it, put it back and push its inputs above it.
pub open spec fn walk_step(vars: Seq<ModelVar>, w: WalkState) -> WalkState {
    if w.stack.len() == 0 {
        w
    } else {
        let cur = w.stack.last();
        let rest = w.stack.drop_last();
        if cur >= vars.len() {
            WalkState { stack: rest, ..w }
        } else if w.visited[cur as int] {
            WalkState { stack: rest, out: w.out.push(cur), ..w }
        } else {
            let vis = w.visited.update(cur as int, true);
            WalkState {
                visited: vis,
                stack: push_inputs(vars, cur as int, vis, rest.push(cur), vars[cur as int].op.arity() as nat),
                out: w.out,
            }
        }
    }
}

/// The walk after `k` steps.
pub open spec fn walk_run(vars: Seq<ModelVar>, w: WalkState, k: nat) -> WalkState
    decreases k,
{
    if k == 0 {
        w
    } else {
        walk_step(vars, walk_run(vars, w, (k - 1) as nat))
    }
}

/// The walk's start: nothing marked, only `root` on the stack, nothing emitted.
pub open spec fn walk_start(vars: Seq<ModelVar>, root: usize) -> WalkState {
    WalkState { visited: Seq::new(vars.len(), |i: int| false), stack: seq![root], out: Seq::empty() }
}

/// The depth-first post-order of the vars `root` depends on: the order the walk
/// emits once its stack is empty (which it is after `4 * n + 1` steps). The last
/// input slot is explored first; an input still waiting on the stack is moved up
/// to be explored under the var that reads it.
pub open spec fn dfs_order(vars: Seq<ModelVar>, root: usize) -> Seq<usize> {
    walk_run(vars, walk_start(vars, root), (4 * vars.len() + 1) as nat).out
}

/// Once the stack is empty the walk stays where it is.
proof fn lemma_walk_stable(vars: Seq<ModelVar>, w: WalkState, k: nat, m: nat)
    requires
        k <= m,
        walk_run(vars, w, k).stack.len() == 0,
    ensures
        walk_run(vars, w, m) == walk_run(vars, w, k),
    decreases m,
{
    if m > k {
        lemma_walk_stable(vars, w, k, (m - 1) as nat);
    }
}

proof fn lemma_count_true_none(s: Seq<bool>)
    requires
        forall|i: int| 0 <= i < s.len() ==> !s[i],
    ensures
        count_true(s) == 0,
    decreases s.len(),
{
    if s.len() > 0 {
        lemma_count_true_none(s.drop_last());
    }
}

/// The first position found by a scan is the one `index_of_first` names.
proof fn lemma_first_position(s: Seq<usize>, x: usize, p: int)
    requires
        0 <= p < s.len(),
        s[p] == x,
        forall|k: int| 0 <= k < p ==> s[k] != x,
    ensures
        s.index_of_first(x) == Some(p),
{
    s.index_of_first_ensures(x);
    assert(s.contains(x));
    let q = s.index_of_first(x).unwrap();
    if q < p {
        assert(s[q] == x);
    }
    if p < q {
        assert(s[p] != x);
    }
}

impl ModelContext {
    /// Orders the vars that `out_var` depends on so that each comes after its
    /// inputs (depth-first, post-order), ending with `out_var`.
    #[verifier::rlimit(40)]
    pub fn prog_create(&self, out_var: usize) -> (prog: ModelProgram)
        requires
            self.wf(),
        ensures
            is_program_for(self.vars@, out_var, prog.vars@),
            prog.vars@ == dfs_order(self.vars@, out_var),
    {
        let ghost vars = self.vars@;
        proof {
            assert forall|i: int, j: usize| 0 <= i < vars.len() && #[trigger] reads(vars[i], j) implies j < i by {
                assert(vars[i].wf_at(i));
            }
        }
        let n = self.vars.len();
        let mut visited: Vec<bool> = vec![false; n];
        let mut stack: Vec<usize> = Vec::with_capacity(n);
        let mut out: Vec<usize> = Vec::with_capacity(n);
        stack.push(out_var);
        let ghost mut steps: int = 0;
        proof {
            lemma_walk_init(vars, out_var, visited@);
            assert(stack@ == seq![out_var]);
            assert(out@ == Seq::<usize>::empty());
            lemma_count_true_none(visited@);
            assert(walk_start(vars, out_var) =~= (WalkState { visited: visited@, stack: stack@, out: out@ }));
        }
        while stack.len() > 0
            invariant
                vars == self.vars@,
                n == vars.len(),
                acyclic(vars),
                walk_inv(vars, out_var, visited@, stack@, out@),
                0 <= steps,
                steps + (n - count_true(visited@)) * 4 + stack@.len() <= 4 * n + 1,
                walk_run(vars, walk_start(vars, out_var), steps as nat) == (WalkState {
                    visited: visited@,
                    stack: stack@,
                    out: out@,
                }),
            decreases (n - count_true(visited@)) * 4 + stack@.len(),
        {
            proof {
                lemma_count_true_le(visited@);
            }
            let ghost st0 = stack@;
            let ghost ct0 = count_true(visited@);
            let ghost vis0 = visited@;
            let ghost out0 = out@;
            let ghost prev = WalkState { visited: visited@, stack: stack@, out: out@ };
            let cur = stack.pop().unwrap();
            proof {
                assert(stack@ == st0.drop_last());
                assert(cur == st0.last());
            }
            if cur >= n {
                proof {
                    lemma_walk_skip(vars, out_var, visited@, st0, out@);
                }
            } else if visited[cur] {
                proof {
                    lemma_walk_emit(vars, out_var, visited@, st0, out@);
                }
                out.push(cur);
            } else {
                proof {
                    lemma_walk_mark(vars, out_var, visited@, st0, out@);
                    lemma_count_true_set(visited@, cur as int);
                }
                visited.set(cur, true);
                stack.push(cur);
                proof {
                    assert(stack@ == st0);
                }
                let num_inputs = self.vars[cur].op.num_inputs();
                let ghost ct = count_true(visited@);
                proof {
                    assert(stack@ == push_inputs(vars, cur as int, visited@, st0, 0));
                }
                let ghost mut c: int = stack@.len() - 1;
                let mut i: usize = 0;
                while i < num_inputs
                    invariant
                        vars == self.vars@,
                        n == vars.len(),
                        acyclic(vars),
                        cur < n,
                        num_inputs == vars[cur as int].op.arity(),
                        i <= num_inputs,
                        num_inputs <= 3,
                        walk_partial(vars, out_var, visited@, stack@, out@, c, i as int),
                        stack@[c] == cur,
                        stack@.len() <= st0.len() + i,
                        count_true(visited@) == ct,
                        ct == count_true(vis0) + 1,
                        visited@ == vis0.update(cur as int, true),
                        out@ == out0,
                        stack@ == push_inputs(vars, cur as int, visited@, st0, i as nat),
                    decreases num_inputs - i,
                {
                    let slot = self.vars[cur].inputs[i];
                    proof {
                        assert(slot_input(vars[cur as int], i as int) == slot);
                    }
                    match slot {
                        Some(input) => {
                            if input >= n || visited[input] {
                                proof {
                                    lemma_reads_slot(vars[cur as int], input);
                                    lemma_walk_slot_done(vars, out_var, visited@, stack@, out@, c, i as int);
                                }
                            } else {
                                let ghost st1 = stack@;
                                let pos = position_of(&stack, input);
                                proof {
                                    match pos {
                                        Some(p) => lemma_first_position(st1, input, p as int),
                                        None => {
                                            st1.index_of_first_ensures(input);
                                        },
                                    }
                                }
                                match pos {
                                    Some(p) => {
                                        proof {
                                            lemma_walk_slot_push(vars, out_var, visited@, st1, out@, c, i as int, input, Some(p as int));
                                            if (p as int) < c {
                                                c = c - 1;
                                            }
                                        }
                                        stack.remove(p);
                                    },
                                    None => {
                                        proof {
                                            lemma_walk_slot_push(vars, out_var, visited@, st1, out@, c, i as int, input, None);
                                        }
                                    },
                                }
                                stack.push(input);
                            }
                        },
                        None => {
                            proof {
                                lemma_walk_slot_done(vars, out_var, visited@, stack@, out@, c, i as int);
                            }
                        },
                    }
                    i = i + 1;
                }
                proof {
                    lemma_walk_expanded(vars, out_var, visited@, stack@, out@, c);
                }
            }
            proof {
                lemma_count_true_le(visited@);
                assert(count_true(visited@) <= n);
                assert((n - count_true(visited@)) * 4 + stack@.len() < (n - ct0) * 4 + st0.len());
                assert(walk_step(vars, prev) =~= (WalkState { visited: visited@, stack: stack@, out: out@ }));
                steps = steps + 1;
            }
        }
        proof {
            assert(stack@ == Seq::<usize>::empty());
            lemma_walk_done(vars, out_var, visited@, out@);
            lemma_count_true_le(visited@);
            assert(visited@.len() == n);
            lemma_walk_stable(vars, walk_start(vars, out_var), steps as nat, (4 * n + 1) as nat);
        }
        ModelProgram { vars: out }
    }

    /// Builds the forward program (for the output var) and the cost program (for
    /// the cost var), where those roles are set.
    pub fn compile(&mut self)
        requires
            old(self).wf(),
        ensures
            final(self).wf(),
            final(self).vars == old(self).vars,
            final(self).input == old(self).input,
            final(self).output == old(self).output,
            final(self).desired_output == old(self).desired_output,
            final(self).cost == old(self).cost,
            final(self).training == old(self).training,
            final(self).rng == old(self).rng,
            match old(self).output {
                Some(o) => is_program_for(old(self).vars@, o, final(self).forward_prog.vars@)
                    && final(self).forward_prog.vars@ == dfs_order(old(self).vars@, o),
                None => final(self).forward_prog == old(self).forward_prog,
            },
            match old(self).cost {
                Some(c) => is_program_for(old(self).vars@, c, final(self).cost_prog.vars@)
                    && final(self).cost_prog.vars@ == dfs_order(old(self).vars@, c),
                None => final(self).cost_prog == old(self).cost_prog,
            },
    {
        if let Some(output) = self.output {
            self.forward_prog = self.prog_create(output);
        }
        if let Some(cost) = self.cost {
            self.cost_prog = self.prog_create(cost);
        }
    }
}

} // verus!
