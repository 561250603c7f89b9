//! Directed cycles of the section graph, found by depth-first search.
use vstd::prelude::*;
use crate::parse::types::{EdgeView, GraphEdge, GraphNode, NodeView, edges_view, nodes_view, strings_view};
use crate::text::{append_vec, join, join_chars, str_chars};

verus! {

/// The search state: nodes visited, the current path, the keys of the
/// cycles reported so far, and those cycles in report order.
pub struct DfsState {
    pub visited: Set<Seq<char>>,
    pub stack: Seq<Seq<char>>,
    pub seen: Set<Seq<char>>,
    pub cycles: Seq<Seq<Seq<char>>>,
}

/// Targets of the edges leaving `n`, in edge order.
pub open spec fn adjacency(edges: Seq<EdgeView>, n: Seq<char>) -> Seq<Seq<char>>
    decreases edges.len(),
{
    if edges.len() == 0 {
        Seq::empty()
    } else {
        let prev = adjacency(edges.drop_last(), n);
        if edges.last().source == n {
            prev.push(edges.last().target)
        } else {
            prev
        }
    }
}

/// Index of the first occurrence of `x` in `s` (the length if none).
pub open spec fn first_index(s: Seq<Seq<char>>, x: Seq<char>) -> int
    decreases s.len(),
{
    if s.len() == 0 || s[0] == x {
        0
    } else {
        1 + first_index(s.drop_first(), x)
    }
}

pub open spec fn arrow() -> Seq<char> {
    seq!['-', '>']
}

/// The path from the first occurrence of `n` on the stack back to `n`.
pub open spec fn cycle_at(stack: Seq<Seq<char>>, n: Seq<char>) -> Seq<Seq<char>> {
    stack.skip(first_index(stack, n)).push(n)
}

/// Reports the cycle closed by an edge to `n`, unless a cycle with the same
/// `"->"`-joined key was reported before.
pub open spec fn record_cycle(st: DfsState, n: Seq<char>) -> DfsState {
    let cycle = cycle_at(st.stack, n);
    let key = join(cycle, arrow());
    if st.seen.contains(key) {
        st
    } else {
        DfsState { seen: st.seen.insert(key), cycles: st.cycles.push(cycle), ..st }
    }
}

/// Depth-first search from `node`, at most `d` calls deep.
pub open spec fn dfs(edges: Seq<EdgeView>, d: nat, node: Seq<char>, st: DfsState) -> DfsState
    decreases d, 1nat, 0nat,
{
    if d == 0 || st.visited.contains(node) {
        st
    } else {
        let st1 = DfsState { visited: st.visited.insert(node), stack: st.stack.push(node), ..st };
        let st2 = dfs_each(edges, d, adjacency(edges, node), 0, st1);
        DfsState { stack: st2.stack.drop_last(), ..st2 }
    }
}

/// The search step for each neighbour `nbrs[i..]` of the node on top of the
/// stack.
pub open spec fn dfs_each(
    edges: Seq<EdgeView>,
    d: nat,
    nbrs: Seq<Seq<char>>,
    i: int,
    st: DfsState,
) -> DfsState
    decreases d, 0nat, nbrs.len() - i,
{
    if i < 0 || i >= nbrs.len() {
        st
    } else {
        let n = nbrs[i];
        let st1 = if !st.visited.contains(n) {
            if d > 0 {
                dfs(edges, (d - 1) as nat, n, st)
            } else {
                st
            }
        } else if st.stack.contains(n) {
            record_cycle(st, n)
        } else {
            st
        };
        dfs_each(edges, d, nbrs, i + 1, st1)
    }
}

/// Every name the graph mentions.
pub open spec fn universe(nodes: Seq<NodeView>, edges: Seq<EdgeView>) -> Set<Seq<char>> {
    nodes.map_values(|n: NodeView| n.id).to_set().union(
        edges.map_values(|e: EdgeView| e.source).to_set(),
    ).union(edges.map_values(|e: EdgeView| e.target).to_set())
}

/// A depth bound no search reaches: one more than the number of names.
pub open spec fn depth_bound(nodes: Seq<NodeView>, edges: Seq<EdgeView>) -> nat {
    nodes.len() + 2 * edges.len() + 1
}

pub open spec fn empty_state() -> DfsState {
    DfsState { visited: Set::empty(), stack: Seq::empty(), seen: Set::empty(), cycles: Seq::empty() }
}

/// The state after searching from each of the first `k` nodes in order.
pub open spec fn search_from(nodes: Seq<NodeView>, edges: Seq<EdgeView>, k: int) -> DfsState
    decreases k,
{
    if k <= 0 {
        empty_state()
    } else {
        dfs(edges, depth_bound(nodes, edges), nodes[k - 1].id, search_from(nodes, edges, k - 1))
    }
}

/// The cycles reported for a graph, in report order.
pub open spec fn cycles_of(nodes: Seq<NodeView>, edges: Seq<EdgeView>) -> Seq<Seq<Seq<char>>> {
    search_from(nodes, edges, nodes.len() as int).cycles
}

// ---------------------------------------------------------------------------
// Executable search
// ---------------------------------------------------------------------------
pub struct Dfs {
    pub visited: Vec<String>,
    pub stack: Vec<String>,
    pub seen: Vec<Vec<char>>,
    pub cycles: Vec<Vec<String>>,
}

pub open spec fn chars_view(v: Seq<Vec<char>>) -> Seq<Seq<char>> {
    v.map_values(|c: Vec<char>| c@)
}

pub open spec fn cycles_view(v: Seq<Vec<String>>) -> Seq<Seq<Seq<char>>> {
    v.map_values(|c: Vec<String>| strings_view(c@))
}

impl View for Dfs {
    type V = DfsState;

    open spec fn view(&self) -> DfsState {
        DfsState {
            visited: strings_view(self.visited@).to_set(),
            stack: strings_view(self.stack@),
            seen: chars_view(self.seen@).to_set(),
            cycles: cycles_view(self.cycles@),
        }
    }
}

/// The facts the search keeps: visited names are names of the graph, and the
/// stack is a duplicate-free list of visited names.
pub open spec fn search_inv(st: DfsState, u: Set<Seq<char>>) -> bool {
    &&& u.finite()
    &&& st.visited.subset_of(u)
    &&& st.stack.no_duplicates()
    &&& st.stack.to_set().subset_of(st.visited)
}

fn contains_string(v: &Vec<String>, x: &str) -> (r: bool)
    ensures
        r == strings_view(v@).contains(x@),
{
    crate::parse::file::contains_name(v, x)
}

fn contains_chars(v: &Vec<Vec<char>>, x: &Vec<char>) -> (r: bool)
    ensures
        r == chars_view(v@).contains(x@),
{
    let mut i: usize = 0;
    while i < v.len()
        invariant
            i <= v.len(),
            forall|j: int| 0 <= j < i ==> v@[j]@ != x@,
        decreases v.len() - i,
    {
        if crate::text::chars_eq(v[i].as_slice(), x.as_slice()) {
            assert(chars_view(v@)[i as int] == x@);
            return true;
        }
        i = i + 1;
    }
    proof {
        if chars_view(v@).contains(x@) {
            let j = choose|j: int| 0 <= j < chars_view(v@).len() && chars_view(v@)[j] == x@;
            assert(v@[j]@ == x@);
        }
    }
    false
}

fn position_of(v: &Vec<String>, x: &str) -> (r: usize)
    ensures
        r as int == first_index(strings_view(v@), x@),
        r <= v.len(),
{
    let ghost sv = strings_view(v@);
    let mut i: usize = 0;
    assert(sv.skip(0) =~= sv);
    while i < v.len() && !crate::text::str_eq(v[i].as_str(), x)
        invariant
            i <= v.len(),
            sv == strings_view(v@),
            first_index(sv, x@) == i + first_index(sv.skip(i as int), x@),
        decreases v.len() - i,
    {
        assert(sv.skip(i as int)[0] == v@[i as int]@);
        assert(sv.skip(i as int).drop_first() =~= sv.skip(i + 1));
        i = i + 1;
    }
    if i < v.len() {
        assert(sv.skip(i as int)[0] == v@[i as int]@);
    }
    i
}

/// Neighbours of `node`: targets of the edges leaving it, in edge order.
fn neighbours(edges: &Vec<GraphEdge>, node: &str) -> (r: Vec<String>)
    ensures
        strings_view(r@) == adjacency(edges_view(edges@), node@),
{
    let ghost ev = edges_view(edges@);
    let mut out: Vec<String> = Vec::new();
    let mut i: usize = 0;
    while i < edges.len()
        invariant
            i <= edges.len(),
            ev == edges_view(edges@),
            strings_view(out@) == adjacency(ev.take(i as int), node@),
        decreases edges.len() - i,
    {
        assert(ev.take(i + 1).drop_last() =~= ev.take(i as int));
        assert(ev.take(i + 1).last() == edges@[i as int]@);
        if crate::text::str_eq(edges[i].source.as_str(), node) {
            let ghost prev = strings_view(out@);
            out.push(edges[i].target.clone());
            assert(strings_view(out@) =~= prev.push(edges@[i as int].target@));
        }
        i = i + 1;
    }
    assert(ev.take(edges.len() as int) =~= ev);
    out
}

proof fn lemma_adjacency_in_universe(edges: Seq<EdgeView>, n: Seq<char>, j: int)
    requires
        0 <= j < adjacency(edges, n).len(),
    ensures
        edges.map_values(|e: EdgeView| e.target).to_set().contains(adjacency(edges, n)[j]),
    decreases edges.len(),
{
    let tg = edges.map_values(|e: EdgeView| e.target);
    if edges.len() > 0 {
        let prev = adjacency(edges.drop_last(), n);
        let ptg = edges.drop_last().map_values(|e: EdgeView| e.target);
        if j < prev.len() {
            lemma_adjacency_in_universe(edges.drop_last(), n, j);
            let k = choose|k: int| 0 <= k < ptg.len() && ptg[k] == prev[j];
            assert(tg[k] == ptg[k]);
            assert(tg.contains(prev[j]));
        } else {
            assert(tg[edges.len() - 1] == edges.last().target);
            assert(tg.contains(edges.last().target));
        }
    }
}

proof fn lemma_depth_room(st: DfsState, u: Set<Seq<char>>, n: Seq<char>)
    requires
        search_inv(st, u),
        u.contains(n),
        !st.visited.contains(n),
    ensures
        st.stack.len() < u.len(),
{
    st.stack.unique_seq_to_set();
    vstd::set_lib::lemma_len_subset(st.visited, u.remove(n));
    vstd::set_lib::lemma_len_subset(st.stack.to_set(), st.visited);
}

/// Search from `node`, as `dfs` at depth `d`.
fn dfs_exec(
    edges: &Vec<GraphEdge>,
    node: &String,
    st: &mut Dfs,
    Ghost(d): Ghost<nat>,
    Ghost(u): Ghost<Set<Seq<char>>>,
    Ghost(bound): Ghost<nat>,
)
    requires
        search_inv(old(st)@, u),
        u.contains(node@),
        edges_view(edges@).map_values(|e: EdgeView| e.target).to_set().subset_of(u),
        u.len() < bound,
        old(st)@.stack.len() + d == bound,
        old(st)@.visited.contains(node@) || d > 0,
    ensures
        final(st)@ == dfs(edges_view(edges@), d, node@, old(st)@),
        search_inv(final(st)@, u),
        final(st)@.stack == old(st)@.stack,
        old(st)@.visited.subset_of(final(st)@.visited),
    decreases d,
{
    let ghost ev = edges_view(edges@);
    if contains_string(&st.visited, node.as_str()) {
        return ;
    }
    let ghost st0 = st@;
    let ghost vbefore = strings_view(st.visited@);
    st.visited.push(node.clone());
    assert(strings_view(st.visited@) =~= vbefore.push(node@));
    let ghost sbefore = strings_view(st.stack@);
    st.stack.push(node.clone());
    assert(strings_view(st.stack@) =~= sbefore.push(node@));
    proof {
        broadcast use vstd::seq_lib::group_seq_properties;
        broadcast use vstd::set::group_set_axioms;

        assert(st@.visited =~= st0.visited.insert(node@));
        assert(st@.stack =~= st0.stack.push(node@));
        assert(!st0.visited.contains(node@));
        if st0.stack.contains(node@) {
            assert(st0.stack.to_set().contains(node@));
        }
        assert(!st0.stack.contains(node@));
        assert(st@.stack.to_set() =~= st0.stack.to_set().insert(node@));
    }
    let ghost st1 = st@;
    let nbrs = neighbours(edges, node.as_str());
    let ghost nv = strings_view(nbrs@);
    let mut i: usize = 0;
    while i < nbrs.len()
        invariant
            i <= nbrs.len(),
            nv == strings_view(nbrs@),
            nv == adjacency(ev, node@),
            ev == edges_view(edges@),
            ev.map_values(|e: EdgeView| e.target).to_set().subset_of(u),
            u.len() < bound,
            st1.stack.len() + d == bound + 1,
            d > 0,
            search_inv(st@, u),
            st@.stack == st1.stack,
            st1.visited.subset_of(st@.visited),
            dfs_each(ev, d, nv, 0, st1) == dfs_each(ev, d, nv, i as int, st@),
        decreases nbrs.len() - i,
    {
        let n = &nbrs[i];
        let ghost sti = st@;
        proof {
            lemma_adjacency_in_universe(ev, node@, i as int);
        }
        if !contains_string(&st.visited, n.as_str()) {
            proof {
                lemma_depth_room(sti, u, n@);
            }
            dfs_exec(edges, n, st, Ghost((d - 1) as nat), Ghost(u), Ghost(bound));
        } else if contains_string(&st.stack, n.as_str()) {
            record_exec(st, n.as_str());
        }
        i = i + 1;
    }
    let ghost st2 = st@;
    let ghost sb2 = strings_view(st.stack@);
    st.stack.pop();
    proof {
        assert(strings_view(st.stack@) =~= sb2.drop_last());
        assert(st@.stack =~= st0.stack);
        assert(st@ == dfs(ev, d, node@, st0));
        assert(st@.stack.to_set().subset_of(st@.stack.push(node@).to_set())) by {
            broadcast use vstd::seq_lib::group_seq_properties;

        }
    }
}

/// Reports the cycle closed by an edge to `n`.
fn record_exec(st: &mut Dfs, n: &str)
    requires
        old(st)@.stack.contains(n@),
    ensures
        final(st)@ == record_cycle(old(st)@, n@),
{
    let ghost s0 = st@;
    let pos = position_of(&st.stack, n);
    let mut cycle: Vec<String> = Vec::new();
    let mut j = pos;
    while j < st.stack.len()
        invariant
            pos <= j <= st.stack.len(),
            st@ == s0,
            strings_view(cycle@) == s0.stack.subrange(pos as int, j as int),
        decreases st.stack.len() - j,
    {
        let ghost prev = strings_view(cycle@);
        let item = st.stack[j].clone();
        assert(item@ == s0.stack[j as int]);
        cycle.push(item);
        assert(strings_view(cycle@) =~= prev.push(item@));
        assert(strings_view(cycle@) =~= s0.stack.subrange(pos as int, j + 1));
        j = j + 1;
    }
    let ghost prev = strings_view(cycle@);
    cycle.push(crate::text::owned(n));
    assert(strings_view(cycle@) =~= cycle_at(s0.stack, n@)) by {
        assert(strings_view(cycle@) =~= prev.push(n@));
        assert(s0.stack.subrange(pos as int, s0.stack.len() as int) =~= s0.stack.skip(pos as int));
    }
    let mut parts: Vec<Vec<char>> = Vec::new();
    let mut k: usize = 0;
    while k < cycle.len()
        invariant
            k <= cycle.len(),
            chars_view(parts@) == strings_view(cycle@).take(k as int),
        decreases cycle.len() - k,
    {
        let ghost pv = chars_view(parts@);
        let item = str_chars(cycle[k].as_str());
        assert(item@ == strings_view(cycle@)[k as int]);
        parts.push(item);
        assert(chars_view(parts@) =~= pv.push(item@));
        assert(chars_view(parts@) =~= strings_view(cycle@).take(k + 1));
        k = k + 1;
    }
    assert(strings_view(cycle@).take(cycle.len() as int) =~= strings_view(cycle@));
    let sep = vec!['-', '>'];
    assert(sep@ =~= arrow());
    let key = join_chars(parts.as_slice(), sep.as_slice());
    assert(key@ == join(cycle_at(s0.stack, n@), arrow()));
    if contains_chars(&st.seen, &key) {
        return ;
    }
    let ghost seen0 = chars_view(st.seen@);
    st.seen.push(key);
    let ghost cy0 = cycles_view(st.cycles@);
    st.cycles.push(cycle);
    proof {
        broadcast use vstd::seq_lib::group_seq_properties;

        assert(chars_view(st.seen@) =~= seen0.push(join(cycle_at(s0.stack, n@), arrow())));
        assert(cycles_view(st.cycles@) =~= cy0.push(cycle_at(s0.stack, n@)));
        assert(st@.seen =~= s0.seen.insert(join(cycle_at(s0.stack, n@), arrow())));
    }
}

proof fn lemma_universe(nodes: Seq<NodeView>, edges: Seq<EdgeView>)
    ensures
        universe(nodes, edges).finite(),
        universe(nodes, edges).len() < depth_bound(nodes, edges),
        edges.map_values(|e: EdgeView| e.target).to_set().subset_of(universe(nodes, edges)),
        forall|k: int| 0 <= k < nodes.len() ==> universe(nodes, edges).contains(#[trigger] nodes[k].id),
{
    let a = nodes.map_values(|n: NodeView| n.id);
    let b = edges.map_values(|e: EdgeView| e.source);
    let c = edges.map_values(|e: EdgeView| e.target);
    a.lemma_cardinality_of_set();
    b.lemma_cardinality_of_set();
    c.lemma_cardinality_of_set();
    broadcast use vstd::seq_lib::seq_to_set_is_finite;

    vstd::set_lib::lemma_len_union(a.to_set(), b.to_set());
    vstd::set_lib::lemma_len_union(a.to_set().union(b.to_set()), c.to_set());
    assert forall|k: int| 0 <= k < nodes.len() implies universe(nodes, edges).contains(
        #[trigger] nodes[k].id,
    ) by {
        assert(a[k] == nodes[k].id);
        assert(a.contains(nodes[k].id));
    }
}

/// `find_cycles`: every directed cycle that the search reports, each as the
/// list of node ids along it, first id repeated at the end.
pub fn find_cycles(nodes: &Vec<GraphNode>, edges: &Vec<GraphEdge>) -> (r: Vec<Vec<String>>)
    ensures
        cycles_view(r@) == cycles_of(nodes_view(nodes@), edges_view(edges@)),
{
    let ghost nv = nodes_view(nodes@);
    let ghost ev = edges_view(edges@);
    let ghost u = universe(nv, ev);
    let ghost bound = depth_bound(nv, ev);
    proof {
        lemma_universe(nv, ev);
    }
    let mut st = Dfs {
        visited: Vec::new(),
        stack: Vec::new(),
        seen: Vec::new(),
        cycles: Vec::new(),
    };
    proof {
        assert(st@.visited =~= Set::<Seq<char>>::empty());
        assert(st@.stack =~= Seq::<Seq<char>>::empty());
        assert(st@.seen =~= Set::<Seq<char>>::empty());
        assert(st@.cycles =~= Seq::<Seq<Seq<char>>>::empty());
        assert(st@.stack.to_set() =~= Set::<Seq<char>>::empty());
    }
    let mut k: usize = 0;
    while k < nodes.len()
        invariant
            k <= nodes.len(),
            nv == nodes_view(nodes@),
            ev == edges_view(edges@),
            u == universe(nv, ev),
            bound == depth_bound(nv, ev),
            u.finite(),
            u.len() < bound,
            ev.map_values(|e: EdgeView| e.target).to_set().subset_of(u),
            forall|q: int| 0 <= q < nv.len() ==> u.contains(#[trigger] nv[q].id),
            search_inv(st@, u),
            st@.stack.len() == 0,
            st@ == search_from(nv, ev, k as int),
        decreases nodes.len() - k,
    {
        assert(nv[k as int].id == nodes@[k as int].id@);
        dfs_exec(edges, &nodes[k].id, &mut st, Ghost(bound), Ghost(u), Ghost(bound));
        k = k + 1;
    }
    st.cycles
}


// ---------------------------------------------------------------------------
// What a reported cycle is
// ---------------------------------------------------------------------------
/// Some edge of the list leads from `a` to `b`.
pub open spec fn has_edge(edges: Seq<EdgeView>, a: Seq<char>, b: Seq<char>) -> bool {
    exists|k: int| 0 <= k < edges.len() && edges[k].source == a && edges[k].target == b
}

/// The `i`-th step of the walk `w` follows an edge.
pub open spec fn step(edges: Seq<EdgeView>, w: Seq<Seq<char>>, i: int) -> bool {
    has_edge(edges, w[i], w[i + 1])
}

/// Every step of `w` follows an edge.
pub open spec fn is_walk(edges: Seq<EdgeView>, w: Seq<Seq<char>>) -> bool {
    forall|i: int| 0 <= i < w.len() - 1 ==> #[trigger] step(edges, w, i)
}

/// A walk of at least one step that ends where it starts.
pub open spec fn is_closed_walk(edges: Seq<EdgeView>, w: Seq<Seq<char>>) -> bool {
    &&& w.len() >= 2
    &&& w[0] == w.last()
    &&& is_walk(edges, w)
}

/// What the search keeps of its state: the stack is a walk, each reported
/// cycle is a closed walk, and the keys seen are exactly the keys of the
/// reported cycles, each once.
pub open spec fn sound(edges: Seq<EdgeView>, st: DfsState) -> bool {
    &&& is_walk(edges, st.stack)
    &&& forall|j: int| 0 <= j < st.cycles.len() ==> is_closed_walk(edges, #[trigger] st.cycles[j])
    &&& st.cycles.map_values(|c: Seq<Seq<char>>| join(c, arrow())).no_duplicates()
    &&& st.seen == st.cycles.map_values(|c: Seq<Seq<char>>| join(c, arrow())).to_set()
}

proof fn lemma_adjacency_edges(edges: Seq<EdgeView>, n: Seq<char>, j: int)
    requires
        0 <= j < adjacency(edges, n).len(),
    ensures
        has_edge(edges, n, adjacency(edges, n)[j]),
    decreases edges.len(),
{
    if edges.len() > 0 {
        let prev = adjacency(edges.drop_last(), n);
        if j < prev.len() {
            lemma_adjacency_edges(edges.drop_last(), n, j);
            let k = choose|k: int|
                0 <= k < edges.drop_last().len() && edges.drop_last()[k].source == n
                    && edges.drop_last()[k].target == prev[j];
            assert(edges[k] == edges.drop_last()[k]);
        } else {
            assert(edges[edges.len() - 1] == edges.last());
        }
    }
}

proof fn lemma_first_index(s: Seq<Seq<char>>, x: Seq<char>)
    requires
        s.contains(x),
    ensures
        0 <= first_index(s, x) < s.len(),
        s[first_index(s, x)] == x,
    decreases s.len(),
{
    if s[0] != x {
        let k = choose|k: int| 0 <= k < s.len() && s[k] == x;
        assert(s.drop_first()[k - 1] == x);
        lemma_first_index(s.drop_first(), x);
    }
}

proof fn lemma_record_sound(edges: Seq<EdgeView>, st: DfsState, n: Seq<char>)
    requires
        sound(edges, st),
        st.stack.contains(n),
        has_edge(edges, st.stack.last(), n),
    ensures
        sound(edges, record_cycle(st, n)),
        record_cycle(st, n).stack == st.stack,
{
    let s = st.stack;
    let p = first_index(s, n);
    lemma_first_index(s, n);
    let c = cycle_at(s, n);
    assert(c.len() == s.len() - p + 1);
    assert forall|i: int| 0 <= i < c.len() - 1 implies #[trigger] step(edges, c, i) by {
        if i < c.len() - 2 {
            assert(step(edges, s, p + i));
            assert(c[i] == s[p + i] && c[i + 1] == s[p + i + 1]);
        } else {
            assert(c[i] == s.last() && c[i + 1] == n);
        }
    }
    assert(c[0] == s[p]);
    let key = join(c, arrow());
    let f = |x: Seq<Seq<char>>| join(x, arrow());
    if !st.seen.contains(key) {
        let st2 = record_cycle(st, n);
        assert(st2.cycles.map_values(f) =~= st.cycles.map_values(f).push(key));
        assert(st2.cycles.map_values(f).to_set() =~= st.cycles.map_values(f).to_set().insert(key))
            by {
            broadcast use vstd::seq_lib::group_seq_properties;

        }
        assert forall|a: int, b: int|
            0 <= a < b < st2.cycles.map_values(f).len() implies st2.cycles.map_values(f)[a]
            != st2.cycles.map_values(f)[b] by {
            if b == st.cycles.len() {
                assert(st.cycles.map_values(f).contains(st.cycles.map_values(f)[a]));
            } else {
                assert(st.cycles.map_values(f)[a] == st2.cycles.map_values(f)[a]);
            }
        }
        assert forall|j: int| 0 <= j < st2.cycles.len() implies is_closed_walk(
            edges,
            #[trigger] st2.cycles[j],
        ) by {
            if j < st.cycles.len() {
                assert(st2.cycles[j] == st.cycles[j]);
            }
        }
    }
}

proof fn lemma_dfs_sound(edges: Seq<EdgeView>, d: nat, node: Seq<char>, st: DfsState)
    requires
        sound(edges, st),
        st.stack.len() > 0 ==> has_edge(edges, st.stack.last(), node),
    ensures
        dfs(edges, d, node, st).stack == st.stack,
        sound(edges, dfs(edges, d, node, st)),
    decreases d, 1nat, 0nat,
{
    if !(d == 0 || st.visited.contains(node)) {
        let st1 = DfsState { visited: st.visited.insert(node), stack: st.stack.push(node), ..st };
        assert forall|i: int| 0 <= i < st1.stack.len() - 1 implies #[trigger] step(
            edges,
            st1.stack,
            i,
        ) by {
            if i < st.stack.len() - 1 {
                assert(step(edges, st.stack, i));
            }
        }
        let nbrs = adjacency(edges, node);
        assert forall|k: int| 0 <= k < nbrs.len() implies has_edge(
            edges,
            st1.stack.last(),
            #[trigger] nbrs[k],
        ) by {
            lemma_adjacency_edges(edges, node, k);
        }
        lemma_dfs_each_sound(edges, d, nbrs, 0, st1);
        let st2 = dfs_each(edges, d, nbrs, 0, st1);
        assert(st2.stack.drop_last() =~= st.stack);
    }
}

proof fn lemma_dfs_each_sound(
    edges: Seq<EdgeView>,
    d: nat,
    nbrs: Seq<Seq<char>>,
    i: int,
    st: DfsState,
)
    requires
        sound(edges, st),
        st.stack.len() > 0,
        forall|k: int| 0 <= k < nbrs.len() ==> has_edge(edges, st.stack.last(), #[trigger] nbrs[k]),
    ensures
        dfs_each(edges, d, nbrs, i, st).stack == st.stack,
        sound(edges, dfs_each(edges, d, nbrs, i, st)),
    decreases d, 0nat, nbrs.len() - i,
{
    if 0 <= i < nbrs.len() {
        let n = nbrs[i];
        assert(has_edge(edges, st.stack.last(), n));
        if !st.visited.contains(n) {
            if d > 0 {
                lemma_dfs_sound(edges, (d - 1) as nat, n, st);
            }
        } else if st.stack.contains(n) {
            lemma_record_sound(edges, st, n);
        }
        let st1 = if !st.visited.contains(n) {
            if d > 0 {
                dfs(edges, (d - 1) as nat, n, st)
            } else {
                st
            }
        } else if st.stack.contains(n) {
            record_cycle(st, n)
        } else {
            st
        };
        lemma_dfs_each_sound(edges, d, nbrs, i + 1, st1);
    }
}

proof fn lemma_search_sound(nodes: Seq<NodeView>, edges: Seq<EdgeView>, k: int)
    ensures
        sound(edges, search_from(nodes, edges, k)),
        search_from(nodes, edges, k).stack.len() == 0,
    decreases k,
{
    if k <= 0 {
        let f = |x: Seq<Seq<char>>| join(x, arrow());
        assert(empty_state().cycles.map_values(f).to_set() =~= Set::<Seq<char>>::empty());
    } else {
        lemma_search_sound(nodes, edges, k - 1);
        lemma_dfs_sound(edges, depth_bound(nodes, edges), nodes[k - 1].id, search_from(nodes, edges, k - 1));
    }
}

/// Every cycle the search reports is a closed walk along the edges: it has
/// at least one step, ends at the node it starts from, and each step goes
/// from a node to a target of one of its outgoing edges. No two reported
/// cycles have the same `->`-joined key.
pub proof fn lemma_reported_cycles_are_closed_walks(nodes: Seq<NodeView>, edges: Seq<EdgeView>)
    ensures
        forall|j: int|
            0 <= j < cycles_of(nodes, edges).len() ==> is_closed_walk(
                edges,
                #[trigger] cycles_of(nodes, edges)[j],
            ),
        cycles_of(nodes, edges).map_values(|c: Seq<Seq<char>>| join(c, arrow())).no_duplicates(),
{
    lemma_search_sound(nodes, edges, nodes.len() as int);
}


// ---------------------------------------------------------------------------
// A cycle through a node is found
// ---------------------------------------------------------------------------
/// The nodes the search has left: visited and no longer on the stack.
pub open spec fn finished(st: DfsState) -> Set<Seq<char>> {
    st.visited.difference(st.stack.to_set())
}

/// Every edge leaving a member of `s` leads to a member of `s`.
pub open spec fn closed_under(edges: Seq<EdgeView>, s: Set<Seq<char>>) -> bool {
    forall|k: int| 0 <= k < edges.len() && s.contains(#[trigger] edges[k].source) ==> s.contains(edges[k].target)
}

/// No closed walk stays inside `s`.
pub open spec fn acyclic_in(edges: Seq<EdgeView>, s: Set<Seq<char>>) -> bool {
    forall|w: Seq<Seq<char>>| #[trigger] is_closed_walk(edges, w) ==> exists|j: int| 0 <= j < w.len() && !s.contains(w[j])
}

/// While no cycle has been reported, nothing has been seen, and the
/// finished nodes are closed under the edges and hold no closed walk.
pub open spec fn none_missed(edges: Seq<EdgeView>, st: DfsState) -> bool {
    ||| st.cycles.len() > 0
    ||| {
        &&& st.seen == Set::<Seq<char>>::empty()
        &&& closed_under(edges, finished(st))
        &&& acyclic_in(edges, finished(st))
    }
}

proof fn lemma_walk_stays(edges: Seq<EdgeView>, s: Set<Seq<char>>, w: Seq<Seq<char>>, j: int)
    requires
        closed_under(edges, s),
        is_walk(edges, w),
        0 <= j < w.len(),
        s.contains(w[0]),
    ensures
        s.contains(w[j]),
    decreases j,
{
    if j > 0 {
        lemma_walk_stays(edges, s, w, j - 1);
        assert(step(edges, w, j - 1));
        let k = choose|k: int|
            0 <= k < edges.len() && edges[k].source == w[j - 1] && edges[k].target == w[j];
        assert(s.contains(edges[k].source));
    }
}

proof fn lemma_edge_in_adjacency(edges: Seq<EdgeView>, n: Seq<char>, k: int)
    requires
        0 <= k < edges.len(),
        edges[k].source == n,
    ensures
        adjacency(edges, n).contains(edges[k].target),
    decreases edges.len(),
{
    let prev = adjacency(edges.drop_last(), n);
    if k == edges.len() - 1 {
        assert(adjacency(edges, n).last() == edges[k].target);
    } else {
        assert(edges.drop_last()[k] == edges[k]);
        lemma_edge_in_adjacency(edges.drop_last(), n, k);
        let j = choose|j: int| 0 <= j < prev.len() && prev[j] == edges[k].target;
        if edges.last().source == n {
            assert(adjacency(edges, n)[j] == prev[j]);
        }
    }
}

/// Finishing `u`, all of whose successors are finished, keeps the finished
/// set closed and free of closed walks.
proof fn lemma_finish(edges: Seq<EdgeView>, f: Set<Seq<char>>, u: Seq<char>)
    requires
        closed_under(edges, f),
        acyclic_in(edges, f),
        !f.contains(u),
        forall|k: int| 0 <= k < edges.len() && #[trigger] edges[k].source == u ==> f.contains(edges[k].target),
    ensures
        closed_under(edges, f.insert(u)),
        acyclic_in(edges, f.insert(u)),
{
    let g = f.insert(u);
    assert forall|k: int| 0 <= k < edges.len() && g.contains(#[trigger] edges[k].source) implies g.contains(
        edges[k].target,
    ) by {
        if edges[k].source == u {
            assert(f.contains(edges[k].target));
        } else {
            assert(f.contains(edges[k].source));
        }
    }
    assert forall|w: Seq<Seq<char>>| #[trigger] is_closed_walk(edges, w) implies exists|j: int|
        0 <= j < w.len() && !g.contains(w[j]) by {
        if forall|j: int| 0 <= j < w.len() ==> g.contains(w[j]) {
            if f.contains(w[0]) {
                assert forall|j: int| 0 <= j < w.len() implies f.contains(w[j]) by {
                    lemma_walk_stays(edges, f, w, j);
                }
                assert(exists|j: int| 0 <= j < w.len() && !f.contains(w[j]));
            } else {
                assert(w[0] == u);
                assert(step(edges, w, 0));
                let k = choose|k: int| 0 <= k < edges.len() && edges[k].source == w[0] && edges[k].target == w[1];
                assert(f.contains(w[1]));
                let v = w.skip(1);
                assert forall|i: int| 0 <= i < v.len() - 1 implies #[trigger] step(edges, v, i) by {
                    assert(step(edges, w, i + 1));
                    assert(v[i] == w[i + 1] && v[i + 1] == w[i + 2]);
                }
                lemma_walk_stays(edges, f, v, v.len() - 1);
                assert(v[v.len() - 1] == w.last());
            }
        }
    }
}

proof fn lemma_stack_room(st: DfsState, u: Set<Seq<char>>, n: Seq<char>)
    requires
        search_inv(st, u),
        u.contains(n),
        !st.visited.contains(n),
    ensures
        st.stack.len() < u.len(),
        !st.stack.contains(n),
{
    lemma_depth_room(st, u, n);
    if st.stack.contains(n) {
        assert(st.stack.to_set().contains(n));
    }
}

proof fn lemma_dfs_complete(
    edges: Seq<EdgeView>,
    d: nat,
    node: Seq<char>,
    st: DfsState,
    u: Set<Seq<char>>,
    bound: nat,
)
    requires
        search_inv(st, u),
        u.contains(node),
        edges.map_values(|e: EdgeView| e.target).to_set().subset_of(u),
        u.len() < bound,
        st.stack.len() + d == bound,
        st.visited.contains(node) || d > 0,
        none_missed(edges, st),
    ensures
        search_inv(dfs(edges, d, node, st), u),
        dfs(edges, d, node, st).stack == st.stack,
        st.visited.subset_of(dfs(edges, d, node, st).visited),
        dfs(edges, d, node, st).visited.contains(node),
        st.cycles.len() <= dfs(edges, d, node, st).cycles.len(),
        none_missed(edges, dfs(edges, d, node, st)),
    decreases d, 1nat, 0nat,
{
    if !(d == 0 || st.visited.contains(node)) {
        broadcast use vstd::seq_lib::group_seq_properties;
        broadcast use vstd::set::group_set_axioms;

        let st1 = DfsState { visited: st.visited.insert(node), stack: st.stack.push(node), ..st };
        lemma_stack_room(st, u, node);
        assert(st1.stack.to_set() =~= st.stack.to_set().insert(node));
        assert(search_inv(st1, u));
        assert(finished(st1) =~= finished(st));
        let nbrs = adjacency(edges, node);
        assert forall|k: int| 0 <= k < nbrs.len() implies u.contains(#[trigger] nbrs[k]) by {
            lemma_adjacency_in_universe(edges, node, k);
        }
        lemma_dfs_each_complete(edges, d, nbrs, 0, st1, u, bound);
        let st2 = dfs_each(edges, d, nbrs, 0, st1);
        let r = DfsState { stack: st2.stack.drop_last(), ..st2 };
        assert(r.stack =~= st.stack);
        assert(r.stack.to_set().subset_of(st2.stack.to_set()));
        assert(search_inv(r, u));
        if r.cycles.len() == 0 {
            let f = finished(st2);
            assert(finished(r) =~= f.insert(node));
            assert forall|k: int| 0 <= k < edges.len() && #[trigger] edges[k].source == node implies f.contains(
                edges[k].target,
            ) by {
                lemma_edge_in_adjacency(edges, node, k);
                let j = choose|j: int| 0 <= j < nbrs.len() && nbrs[j] == edges[k].target;
                assert(st2.visited.contains(nbrs[j]));
                if st2.stack.to_set().contains(nbrs[j]) {
                    assert(st2.stack.contains(nbrs[j]));
                }
            }
            assert(st2.stack.contains(node));
            assert(st2.stack.to_set().contains(node));
            lemma_finish(edges, f, node);
        }
    }
}

proof fn lemma_dfs_each_complete(
    edges: Seq<EdgeView>,
    d: nat,
    nbrs: Seq<Seq<char>>,
    i: int,
    st: DfsState,
    u: Set<Seq<char>>,
    bound: nat,
)
    requires
        search_inv(st, u),
        edges.map_values(|e: EdgeView| e.target).to_set().subset_of(u),
        u.len() < bound,
        st.stack.len() + d == bound + 1,
        d > 0,
        0 <= i,
        forall|k: int| 0 <= k < nbrs.len() ==> u.contains(#[trigger] nbrs[k]),
        none_missed(edges, st),
    ensures
        ({
            let r = dfs_each(edges, d, nbrs, i, st);
            &&& search_inv(r, u)
            &&& r.stack == st.stack
            &&& st.visited.subset_of(r.visited)
            &&& st.cycles.len() <= r.cycles.len()
            &&& none_missed(edges, r)
            &&& forall|k: int|
                i <= k < nbrs.len() ==> r.visited.contains(#[trigger] nbrs[k]) && (r.cycles.len() == 0
                    ==> !r.stack.contains(nbrs[k]))
        }),
    decreases d, 0nat, nbrs.len() - i,
{
    if i < nbrs.len() {
        let n = nbrs[i];
        assert(u.contains(n));
        let st1 = if !st.visited.contains(n) {
            if d > 0 {
                dfs(edges, (d - 1) as nat, n, st)
            } else {
                st
            }
        } else if st.stack.contains(n) {
            record_cycle(st, n)
        } else {
            st
        };
        if !st.visited.contains(n) {
            lemma_stack_room(st, u, n);
            lemma_dfs_complete(edges, (d - 1) as nat, n, st, u, bound);
        } else if st.stack.contains(n) {
            if st.cycles.len() == 0 {
                assert(!st.seen.contains(join(cycle_at(st.stack, n), arrow())));
            }
            assert(st1.cycles.len() > 0);
        }
        lemma_dfs_each_complete(edges, d, nbrs, i + 1, st1, u, bound);
    }
}

proof fn lemma_search_complete(nodes: Seq<NodeView>, edges: Seq<EdgeView>, k: int)
    requires
        0 <= k <= nodes.len(),
    ensures
        search_inv(search_from(nodes, edges, k), universe(nodes, edges)),
        search_from(nodes, edges, k).stack.len() == 0,
        none_missed(edges, search_from(nodes, edges, k)),
        forall|q: int| 0 <= q < k ==> search_from(nodes, edges, k).visited.contains(#[trigger] nodes[q].id),
    decreases k,
{
    lemma_universe(nodes, edges);
    let u = universe(nodes, edges);
    if k == 0 {
        let st = empty_state();
        assert(st.stack.to_set() =~= Set::<Seq<char>>::empty());
        assert(finished(st) =~= Set::<Seq<char>>::empty());
        assert forall|w: Seq<Seq<char>>| #[trigger] is_closed_walk(edges, w) implies exists|j: int|
            0 <= j < w.len() && !finished(st).contains(w[j]) by {
            assert(!finished(st).contains(w[0]));
        }
    } else {
        lemma_search_complete(nodes, edges, k - 1);
        let prev = search_from(nodes, edges, k - 1);
        lemma_dfs_complete(edges, depth_bound(nodes, edges), nodes[k - 1].id, prev, u, depth_bound(nodes, edges));
    }
}

/// A graph with a closed walk through one of its nodes gets at least one
/// cycle reported: the search misses no cycle that a node lies on.
pub proof fn lemma_cycle_through_a_node_is_reported(
    nodes: Seq<NodeView>,
    edges: Seq<EdgeView>,
    w: Seq<Seq<char>>,
    q: int,
)
    requires
        0 <= q < nodes.len(),
        is_closed_walk(edges, w),
        w[0] == nodes[q].id,
    ensures
        cycles_of(nodes, edges).len() > 0,
{
    lemma_search_complete(nodes, edges, nodes.len() as int);
    let st = search_from(nodes, edges, nodes.len() as int);
    if st.cycles.len() == 0 {
        assert(st.stack.to_set() =~= Set::<Seq<char>>::empty());
        assert(finished(st) =~= st.visited);
        assert(st.visited.contains(w[0]));
        assert forall|j: int| 0 <= j < w.len() implies finished(st).contains(w[j]) by {
            lemma_walk_stays(edges, finished(st), w, j);
        }
        assert(exists|j: int| 0 <= j < w.len() && !finished(st).contains(w[j]));
    }
}

/// The ids of a list of nodes.
pub open spec fn node_ids(nodes: Seq<NodeView>) -> Seq<Seq<char>> {
    nodes.map_values(|n: NodeView| n.id)
}

/// In a graph whose edges all start at nodes, the search reports a cycle
/// exactly when the graph has a closed walk.
pub proof fn lemma_cycles_found_iff_closed_walk(nodes: Seq<NodeView>, edges: Seq<EdgeView>)
    requires
        forall|k: int| 0 <= k < edges.len() ==> node_ids(nodes).contains(#[trigger] edges[k].source),
    ensures
        cycles_of(nodes, edges).len() > 0 <==> exists|w: Seq<Seq<char>>| is_closed_walk(edges, w),
{
    if cycles_of(nodes, edges).len() > 0 {
        lemma_reported_cycles_are_closed_walks(nodes, edges);
        assert(is_closed_walk(edges, cycles_of(nodes, edges)[0]));
    }
    if exists|w: Seq<Seq<char>>| is_closed_walk(edges, w) {
        let w = choose|w: Seq<Seq<char>>| is_closed_walk(edges, w);
        assert(step(edges, w, 0));
        let k = choose|k: int| 0 <= k < edges.len() && edges[k].source == w[0] && edges[k].target == w[1];
        assert(node_ids(nodes).contains(edges[k].source));
        let q = choose|q: int| 0 <= q < node_ids(nodes).len() && node_ids(nodes)[q] == w[0];
        lemma_cycle_through_a_node_is_reported(nodes, edges, w, q);
    }
}


// ---------------------------------------------------------------------------
// Cycles reachable from a node, on any graph
// ---------------------------------------------------------------------------
/// Some walk that starts at one of `ids` ends at `x`.
pub open spec fn reachable(edges: Seq<EdgeView>, ids: Seq<Seq<char>>, x: Seq<char>) -> bool {
    exists|v: Seq<Seq<char>>|
        #[trigger] is_walk(edges, v) && v.len() >= 1 && ids.contains(v[0]) && v.last() == x
}

/// The stack starts at one of `ids`, and every reported cycle starts at a
/// node reachable from one of them.
pub open spec fn rooted(edges: Seq<EdgeView>, ids: Seq<Seq<char>>, st: DfsState) -> bool {
    &&& st.stack.len() > 0 ==> ids.contains(st.stack[0])
    &&& forall|j: int| 0 <= j < st.cycles.len() ==> reachable(edges, ids, (#[trigger] st.cycles[j])[0])
}

proof fn lemma_record_rooted(edges: Seq<EdgeView>, ids: Seq<Seq<char>>, st: DfsState, n: Seq<char>)
    requires
        sound(edges, st),
        rooted(edges, ids, st),
        st.stack.contains(n),
    ensures
        rooted(edges, ids, record_cycle(st, n)),
{
    let s = st.stack;
    let p = first_index(s, n);
    lemma_first_index(s, n);
    let c = cycle_at(s, n);
    let v = s.take(p + 1);
    assert forall|i: int| 0 <= i < v.len() - 1 implies #[trigger] step(edges, v, i) by {
        assert(step(edges, s, i));
        assert(v[i] == s[i] && v[i + 1] == s[i + 1]);
    }
    assert(v[0] == s[0]);
    assert(v.last() == s[p]);
    assert(c[0] == s[p]);
    assert(is_walk(edges, v));
    assert(reachable(edges, ids, c[0]));
    let st2 = record_cycle(st, n);
    assert forall|j: int| 0 <= j < st2.cycles.len() implies reachable(edges, ids, (#[trigger] st2.cycles[j])[0]) by {
        if j < st.cycles.len() {
            assert(st2.cycles[j] == st.cycles[j]);
        } else {
            assert(st2.cycles[j] == c);
        }
    }
}

proof fn lemma_dfs_rooted(edges: Seq<EdgeView>, ids: Seq<Seq<char>>, d: nat, node: Seq<char>, st: DfsState)
    requires
        sound(edges, st),
        rooted(edges, ids, st),
        st.stack.len() > 0 ==> has_edge(edges, st.stack.last(), node),
        st.stack.len() == 0 ==> ids.contains(node),
    ensures
        rooted(edges, ids, dfs(edges, d, node, st)),
    decreases d, 1nat, 0nat,
{
    if !(d == 0 || st.visited.contains(node)) {
        let st1 = DfsState { visited: st.visited.insert(node), stack: st.stack.push(node), ..st };
        assert forall|i: int| 0 <= i < st1.stack.len() - 1 implies #[trigger] step(edges, st1.stack, i) by {
            if i < st.stack.len() - 1 {
                assert(step(edges, st.stack, i));
            }
        }
        assert(st1.stack[0] == if st.stack.len() > 0 { st.stack[0] } else { node });
        let nbrs = adjacency(edges, node);
        assert forall|k: int| 0 <= k < nbrs.len() implies has_edge(
            edges,
            st1.stack.last(),
            #[trigger] nbrs[k],
        ) by {
            lemma_adjacency_edges(edges, node, k);
        }
        lemma_dfs_each_rooted(edges, ids, d, nbrs, 0, st1);
        lemma_dfs_each_sound(edges, d, nbrs, 0, st1);
        let st2 = dfs_each(edges, d, nbrs, 0, st1);
        let r = DfsState { stack: st2.stack.drop_last(), ..st2 };
        assert(r.stack =~= st.stack);
    }
}

proof fn lemma_dfs_each_rooted(
    edges: Seq<EdgeView>,
    ids: Seq<Seq<char>>,
    d: nat,
    nbrs: Seq<Seq<char>>,
    i: int,
    st: DfsState,
)
    requires
        sound(edges, st),
        rooted(edges, ids, st),
        st.stack.len() > 0,
        forall|k: int| 0 <= k < nbrs.len() ==> has_edge(edges, st.stack.last(), #[trigger] nbrs[k]),
    ensures
        rooted(edges, ids, dfs_each(edges, d, nbrs, i, st)),
    decreases d, 0nat, nbrs.len() - i,
{
    if 0 <= i < nbrs.len() {
        let n = nbrs[i];
        assert(has_edge(edges, st.stack.last(), n));
        if !st.visited.contains(n) {
            if d > 0 {
                lemma_dfs_sound(edges, (d - 1) as nat, n, st);
                lemma_dfs_rooted(edges, ids, (d - 1) as nat, n, st);
            }
        } else if st.stack.contains(n) {
            lemma_record_sound(edges, st, n);
            lemma_record_rooted(edges, ids, st, n);
        }
        let st1 = if !st.visited.contains(n) {
            if d > 0 {
                dfs(edges, (d - 1) as nat, n, st)
            } else {
                st
            }
        } else if st.stack.contains(n) {
            record_cycle(st, n)
        } else {
            st
        };
        lemma_dfs_each_rooted(edges, ids, d, nbrs, i + 1, st1);
    }
}

proof fn lemma_search_rooted(nodes: Seq<NodeView>, edges: Seq<EdgeView>, k: int)
    requires
        0 <= k <= nodes.len(),
    ensures
        rooted(edges, node_ids(nodes), search_from(nodes, edges, k)),
    decreases k,
{
    if k > 0 {
        lemma_search_rooted(nodes, edges, k - 1);
        lemma_search_sound(nodes, edges, k - 1);
        assert(node_ids(nodes)[k - 1] == nodes[k - 1].id);
        lemma_dfs_rooted(
            edges,
            node_ids(nodes),
            depth_bound(nodes, edges),
            nodes[k - 1].id,
            search_from(nodes, edges, k - 1),
        );
    }
}

/// On any graph, the search reports a cycle exactly when the graph has a
/// closed walk whose start can be reached by a walk from one of its nodes.
pub proof fn lemma_cycles_found_iff_reachable_closed_walk(nodes: Seq<NodeView>, edges: Seq<EdgeView>)
    ensures
        cycles_of(nodes, edges).len() > 0 <==> exists|w: Seq<Seq<char>>|
            #[trigger] is_closed_walk(edges, w) && reachable(edges, node_ids(nodes), w[0]),
{
    let ids = node_ids(nodes);
    if cycles_of(nodes, edges).len() > 0 {
        lemma_reported_cycles_are_closed_walks(nodes, edges);
        lemma_search_rooted(nodes, edges, nodes.len() as int);
        let c = cycles_of(nodes, edges)[0];
        assert(is_closed_walk(edges, c));
        assert(reachable(edges, ids, c[0]));
    }
    if exists|w: Seq<Seq<char>>| #[trigger] is_closed_walk(edges, w) && reachable(edges, ids, w[0]) {
        let w = choose|w: Seq<Seq<char>>| #[trigger] is_closed_walk(edges, w) && reachable(edges, ids, w[0]);
        let v = choose|v: Seq<Seq<char>>|
            #[trigger] is_walk(edges, v) && v.len() >= 1 && ids.contains(v[0]) && v.last() == w[0];
        let q = choose|q: int| 0 <= q < ids.len() && ids[q] == v[0];
        lemma_search_complete(nodes, edges, nodes.len() as int);
        let st = search_from(nodes, edges, nodes.len() as int);
        if st.cycles.len() == 0 {
            assert(st.stack.to_set() =~= Set::<Seq<char>>::empty());
            assert(finished(st) =~= st.visited);
            assert(nodes[q].id == v[0]);
            assert(st.visited.contains(v[0]));
            lemma_walk_stays(edges, finished(st), v, v.len() - 1);
            assert forall|j: int| 0 <= j < w.len() implies finished(st).contains(w[j]) by {
                lemma_walk_stays(edges, finished(st), w, j);
            }
            assert(exists|j: int| 0 <= j < w.len() && !finished(st).contains(w[j]));
        }
    }
}

} // verus!
