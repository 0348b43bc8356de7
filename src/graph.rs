use vstd::prelude::*;

verus! {

/// A dependency graph as an arena: node `i` is the package `names[i]`, and
/// `successors[i]` lists the nodes that it depends on directly.
pub struct DependencyGraph {
    pub names: Vec<String>,
    pub successors: Vec<Vec<usize>>,
}

impl DependencyGraph {
    /// Every node has a list of successors, and every successor is a node.
    pub open spec fn wf(&self) -> bool {
        &&& self.names@.len() == self.successors@.len()
        &&& forall|i: int, k: int|
            0 <= i < self.successors@.len() && 0 <= k < self.successors@[i]@.len()
                ==> #[trigger] self.successors@[i]@[k] < self.names@.len()
    }

    pub open spec fn node_count(&self) -> int {
        self.names@.len() as int
    }

    /// There is an edge from `i` to `j`: `i` depends directly on `j`.
    pub open spec fn has_edge(&self, i: int, j: int) -> bool {
        &&& 0 <= i < self.successors@.len()
        &&& exists|k: int| 0 <= k < self.successors@[i]@.len() && #[trigger] self.successors@[i]@[k] == j
    }

    /// A root is a node that nothing depends on.
    pub open spec fn is_root(&self, j: int) -> bool {
        &&& 0 <= j < self.node_count()
        &&& forall|i: int| !#[trigger] self.has_edge(i, j)
    }

    /// The nodes reached from a root in exactly `level` steps.
    pub open spec fn level_set(&self, level: nat) -> Set<int>
        decreases level,
    {
        if level == 0 {
            Set::new(|j: int| self.is_root(j))
        } else {
            let above = self.level_set((level - 1) as nat);
            Set::new(|j: int| exists|i: int| #[trigger] above.contains(i) && self.has_edge(i, j))
        }
    }

    /// Node `j` is reached from a root in exactly `level` steps.
    pub open spec fn at_level(&self, level: nat, j: int) -> bool {
        self.level_set(level).contains(j)
    }

    /// The package names of the nodes on one level.
    pub open spec fn level_names(&self, level: nat) -> Set<Seq<char>> {
        Set::new(|n: Seq<char>| exists|j: int| #[trigger] self.at_level(level, j) && self.names@[j]@ == n)
    }

    /// The names chosen for a level bound: with a bound, the names on that level
    /// alone; without one, the names on every level from 1 to 255.
    pub open spec fn selected(&self, level_bound: Option<u8>) -> Set<Seq<char>> {
        match level_bound {
            Some(l) => self.level_names(l as nat),
            None => Set::new(
                |n: Seq<char>| exists|k: nat| 1 <= k <= 255 && #[trigger] self.level_names(k).contains(n),
            ),
        }
    }

    /// Checks `wf`.
    pub fn is_well_formed(&self) -> (r: bool)
        ensures
            r == self.wf(),
    {
        let n = self.names.len();
        if n != self.successors.len() {
            return false;
        }
        let mut i: usize = 0;
        while i < n
            invariant
                n == self.names@.len() == self.successors@.len(),
                i <= n,
                forall|a: int, k: int|
                    0 <= a < i && 0 <= k < self.successors@[a]@.len()
                        ==> #[trigger] self.successors@[a]@[k] < n,
            decreases n - i,
        {
            let succ = &self.successors[i];
            let mut k: usize = 0;
            while k < succ.len()
                invariant
                    n == self.names@.len() == self.successors@.len(),
                    i < n,
                    succ == self.successors@[i as int],
                    k <= succ@.len(),
                    forall|a: int, b: int|
                        0 <= a < i && 0 <= b < self.successors@[a]@.len()
                            ==> #[trigger] self.successors@[a]@[b] < n,
                    forall|b: int| 0 <= b < k ==> #[trigger] succ@[b] < n,
                decreases succ@.len() - k,
            {
                if succ[k] >= n {
                    return false;
                }
                k += 1;
            }
            i += 1;
        }
        true
    }
}

/// The set of names held by a list of strings.
pub open spec fn name_set(v: Seq<String>) -> Set<Seq<char>> {
    Set::new(|n: Seq<char>| exists|i: int| 0 <= i < v.len() && #[trigger] v[i]@ == n)
}

/// No name occurs twice.
pub open spec fn distinct_names(v: Seq<String>) -> bool {
    forall|i: int, j: int| 0 <= i < v.len() && 0 <= j < v.len() && i != j ==> #[trigger] v[i]@ != #[trigger] v[j]@
}

/// The set of node indices held by a list.
pub open spec fn node_set(v: Seq<usize>) -> Set<int> {
    Set::new(|j: int| exists|i: int| 0 <= i < v.len() && #[trigger] v[i] == j)
}


/// The roots of the graph, each once.
fn roots(g: &DependencyGraph) -> (r: Vec<usize>)
    requires
        g.wf(),
    ensures
        forall|j: int| node_set(r@).contains(j) <==> g.is_root(j),
        forall|c: int| 0 <= c < r@.len() ==> #[trigger] r@[c] < g.node_count(),
        r@.no_duplicates(),
{
    let n = g.names.len();
    let mut incoming: Vec<bool> = Vec::new();
    let mut j: usize = 0;
    while j < n
        invariant
            j <= n,
            incoming@.len() == j,
            forall|a: int| 0 <= a < j ==> !incoming@[a],
        decreases n - j,
    {
        incoming.push(false);
        j += 1;
    }
    let mut i: usize = 0;
    while i < n
        invariant
            g.wf(),
            n == g.names@.len(),
            i <= n,
            incoming@.len() == n,
            forall|b: int| 0 <= b < n ==> (#[trigger] incoming@[b] <==> exists|a: int| 0 <= a < i && g.has_edge(a, b)),
        decreases n - i,
    {
        let succ = &g.successors[i];
        let mut k: usize = 0;
        while k < succ.len()
            invariant
                g.wf(),
                n == g.names@.len(),
                i < n,
                succ == g.successors@[i as int],
                k <= succ@.len(),
                incoming@.len() == n,
                forall|b: int| 0 <= b < n ==> (#[trigger] incoming@[b] <==> (exists|a: int| 0 <= a < i && g.has_edge(a, b))
                    || exists|c: int| 0 <= c < k && succ@[c] == b),
            decreases succ@.len() - k,
        {
            let t = succ[k];
            incoming.set(t, true);
            k += 1;
        }
        proof {
            assert forall|b: int| 0 <= b < n implies (#[trigger] incoming@[b] <==> exists|a: int| 0 <= a < i + 1 && g.has_edge(a, b)) by {
                if incoming@[b] {
                    if !(exists|a: int| 0 <= a < i && g.has_edge(a, b)) {
                        let c = choose|c: int| 0 <= c < succ@.len() && succ@[c] == b;
                        assert(g.has_edge(i as int, b));
                    }
                }
                if exists|a: int| 0 <= a < i + 1 && g.has_edge(a, b) {
                    let a = choose|a: int| 0 <= a < i + 1 && g.has_edge(a, b);
                    if a == i {
                        let c = choose|c: int| 0 <= c < g.successors@[a]@.len() && #[trigger] g.successors@[a]@[c] == b;
                        assert(succ@[c] == b);
                    }
                }
            }
        }
        i += 1;
    }
    let mut r: Vec<usize> = Vec::new();
    let mut j: usize = 0;
    while j < n
        invariant
            g.wf(),
            n == g.names@.len(),
            j <= n,
            incoming@.len() == n,
            forall|b: int| 0 <= b < n ==> (#[trigger] incoming@[b] <==> exists|a: int| 0 <= a < n && g.has_edge(a, b)),
            forall|b: int| node_set(r@).contains(b) <==> 0 <= b < j && g.is_root(b),
            forall|c: int| 0 <= c < r@.len() ==> #[trigger] r@[c] < j,
            r@.no_duplicates(),
        decreases n - j,
    {
        if !incoming[j] {
            proof {
                assert forall|a: int| !#[trigger] g.has_edge(a, j as int) by {
                    if g.has_edge(a, j as int) {
                        assert(0 <= a < n);
                    }
                }
            }
            let ghost prev = r@;
            r.push(j);
            proof {
                assert(r@ == prev.push(j));
                assert(r@[prev.len() as int] == j);
                assert forall|b: int| node_set(r@).contains(b) <==> 0 <= b < j + 1 && g.is_root(b) by {
                    if 0 <= b < j + 1 && g.is_root(b) {
                        if b == j {
                            assert(node_set(r@).contains(b));
                        } else {
                            assert(node_set(prev).contains(b));
                            let c = choose|c: int| 0 <= c < prev.len() && prev[c] == b;
                            assert(r@[c] == b);
                        }
                    }
                    if node_set(r@).contains(b) && b != j {
                        let c = choose|c: int| 0 <= c < r@.len() && r@[c] == b;
                        assert(prev[c] == b);
                        assert(node_set(prev).contains(b));
                    }
                }
            }
        } else {
            proof {
                let a = choose|a: int| 0 <= a < n && g.has_edge(a, j as int);
                assert(!g.is_root(j as int));
            }
        }
        j += 1;
    }
    r
}


/// The direct successors of the nodes in `frontier`, each once.
fn successors_of(g: &DependencyGraph, frontier: &Vec<usize>) -> (r: Vec<usize>)
    requires
        g.wf(),
        forall|c: int| 0 <= c < frontier@.len() ==> #[trigger] frontier@[c] < g.node_count(),
    ensures
        forall|j: int| node_set(r@).contains(j) <==> exists|i: int| node_set(frontier@).contains(i) && #[trigger] g.has_edge(i, j),
        forall|c: int| 0 <= c < r@.len() ==> #[trigger] r@[c] < g.node_count(),
        r@.no_duplicates(),
{
    let n = g.names.len();
    let mut seen: Vec<bool> = Vec::new();
    let mut j: usize = 0;
    while j < n
        invariant
            j <= n,
            seen@.len() == j,
            forall|a: int| 0 <= a < j ==> !seen@[a],
        decreases n - j,
    {
        seen.push(false);
        j += 1;
    }
    let mut r: Vec<usize> = Vec::new();
    let mut f: usize = 0;
    while f < frontier.len()
        invariant
            g.wf(),
            n == g.names@.len(),
            forall|c: int| 0 <= c < frontier@.len() ==> #[trigger] frontier@[c] < n,
            f <= frontier@.len(),
            seen@.len() == n,
            forall|b: int| 0 <= b < n ==> (#[trigger] seen@[b] <==> node_set(r@).contains(b)),
            forall|b: int| node_set(r@).contains(b) <==> exists|c: int| 0 <= c < f && #[trigger] g.has_edge(frontier@[c] as int, b),
            forall|c: int| 0 <= c < r@.len() ==> #[trigger] r@[c] < n,
            r@.no_duplicates(),
        decreases frontier@.len() - f,
    {
        let i = frontier[f];
        let succ = &g.successors[i];
        let mut k: usize = 0;
        while k < succ.len()
            invariant
                g.wf(),
                n == g.names@.len(),
                forall|c: int| 0 <= c < frontier@.len() ==> #[trigger] frontier@[c] < n,
                f < frontier@.len(),
                i == frontier@[f as int],
                succ == g.successors@[i as int],
                k <= succ@.len(),
                seen@.len() == n,
                forall|b: int| 0 <= b < n ==> (#[trigger] seen@[b] <==> node_set(r@).contains(b)),
                forall|b: int| node_set(r@).contains(b) <==> (exists|c: int| 0 <= c < f && #[trigger] g.has_edge(frontier@[c] as int, b))
                    || exists|e: int| 0 <= e < k && succ@[e] == b,
                forall|c: int| 0 <= c < r@.len() ==> #[trigger] r@[c] < n,
                r@.no_duplicates(),
            decreases succ@.len() - k,
        {
            let t = succ[k];
            let ghost before = r@;
            if !seen[t] {
                let ghost prev = r@;
                seen.set(t, true);
                r.push(t);
                proof {
                    assert(r@ == prev.push(t));
                    assert forall|b: int| node_set(r@).contains(b) <==> node_set(prev).contains(b) || b == t by {
                        if node_set(r@).contains(b) && b != t {
                            let c = choose|c: int| 0 <= c < r@.len() && r@[c] == b;
                            assert(prev[c] == b);
                        }
                        if node_set(prev).contains(b) {
                            let c = choose|c: int| 0 <= c < prev.len() && prev[c] == b;
                            assert(r@[c] == b);
                        }
                        if b == t {
                            assert(r@[prev.len() as int] == b);
                        }
                    }
                }
            }
            proof {
                assert forall|b: int| node_set(r@).contains(b) <==> node_set(before).contains(b) || b == t by {
                    if b == t {
                        assert(seen@[b]);
                    }
                }
                assert forall|b: int| node_set(r@).contains(b) <==> (exists|c: int| 0 <= c < f && #[trigger] g.has_edge(frontier@[c] as int, b))
                    || exists|e: int| 0 <= e < k + 1 && succ@[e] == b by {
                    assert(node_set(before).contains(b) <==> (exists|c: int| 0 <= c < f && #[trigger] g.has_edge(frontier@[c] as int, b))
                        || exists|e: int| 0 <= e < k && succ@[e] == b);
                    if b == t {
                        assert(succ@[k as int] == b);
                    }
                    if exists|e: int| 0 <= e < k + 1 && succ@[e] == b {
                        let e = choose|e: int| 0 <= e < k + 1 && succ@[e] == b;
                        if e < k {
                            assert(exists|e: int| 0 <= e < k && succ@[e] == b);
                        }
                    }
                }
            }
            k += 1;
        }
        proof {
            assert forall|b: int| node_set(r@).contains(b) <==> exists|c: int| 0 <= c < f + 1 && #[trigger] g.has_edge(frontier@[c] as int, b) by {
                if exists|e: int| 0 <= e < succ@.len() && succ@[e] == b {
                    let e = choose|e: int| 0 <= e < succ@.len() && succ@[e] == b;
                    assert(g.has_edge(frontier@[f as int] as int, b));
                }
                if exists|c: int| 0 <= c < f + 1 && #[trigger] g.has_edge(frontier@[c] as int, b) {
                    let c = choose|c: int| 0 <= c < f + 1 && #[trigger] g.has_edge(frontier@[c] as int, b);
                    if c == f {
                        let e = choose|e: int| 0 <= e < g.successors@[i as int]@.len() && #[trigger] g.successors@[i as int]@[e] == b;
                        assert(succ@[e] == b);
                    }
                }
            }
        }
        f += 1;
    }
    proof {
        assert forall|j: int| node_set(r@).contains(j) <==> exists|i: int| node_set(frontier@).contains(i) && #[trigger] g.has_edge(i, j) by {
            if node_set(r@).contains(j) {
                let c = choose|c: int| 0 <= c < frontier@.len() && #[trigger] g.has_edge(frontier@[c] as int, j);
                assert(node_set(frontier@).contains(frontier@[c] as int));
            }
            if exists|i: int| node_set(frontier@).contains(i) && #[trigger] g.has_edge(i, j) {
                let i = choose|i: int| node_set(frontier@).contains(i) && #[trigger] g.has_edge(i, j);
                let c = choose|c: int| 0 <= c < frontier@.len() && frontier@[c] == i;
                assert(g.has_edge(frontier@[c] as int, j));
            }
        }
    }
    r
}

/// Whether `v` holds the name `s`.
fn holds_name(v: &Vec<String>, s: &String) -> (r: bool)
    ensures
        r == name_set(v@).contains(s@),
{
    let mut i: usize = 0;
    while i < v.len()
        invariant
            i <= v@.len(),
            forall|a: int| 0 <= a < i ==> (#[trigger] v@[a])@ != s@,
        decreases v@.len() - i,
    {
        if v[i] == *s {
            assert(name_set(v@).contains(s@));
            return true;
        }
        i += 1;
    }
    false
}

/// Appends `s` to `v` unless `v` holds that name already.
fn push_new_name(v: &mut Vec<String>, s: &String)
    requires
        distinct_names(old(v)@),
    ensures
        distinct_names(final(v)@),
        name_set(final(v)@) == name_set(old(v)@).insert(s@),
{
    if !holds_name(v, s) {
        let ghost prev = v@;
        let t = s.clone();
        v.push(t);
        proof {
            assert(v@ == prev.push(t));
            assert forall|n: Seq<char>| name_set(v@).contains(n) <==> name_set(prev).insert(s@).contains(n) by {
                if name_set(v@).contains(n) {
                    let c = choose|c: int| 0 <= c < v@.len() && v@[c]@ == n;
                    if c < prev.len() {
                        assert(prev[c]@ == n);
                    }
                }
                if name_set(prev).contains(n) {
                    let c = choose|c: int| 0 <= c < prev.len() && prev[c]@ == n;
                    assert(v@[c]@ == n);
                }
                if n == s@ {
                    assert(v@[prev.len() as int]@ == n);
                }
            }
            assert(name_set(v@) =~= name_set(prev).insert(s@));
        }
    } else {
        assert(name_set(v@) =~= name_set(v@).insert(s@));
    }
}

/// The distinct names of the nodes in `nodes`.
fn names_of(g: &DependencyGraph, nodes: &Vec<usize>) -> (r: Vec<String>)
    requires
        g.wf(),
        forall|c: int| 0 <= c < nodes@.len() ==> #[trigger] nodes@[c] < g.node_count(),
    ensures
        name_set(r@) == Set::new(|n: Seq<char>| exists|j: int| node_set(nodes@).contains(j) && g.names@[j]@ == n),
        distinct_names(r@),
{
    let mut r: Vec<String> = Vec::new();
    let mut c: usize = 0;
    while c < nodes.len()
        invariant
            g.wf(),
            forall|d: int| 0 <= d < nodes@.len() ==> #[trigger] nodes@[d] < g.node_count(),
            c <= nodes@.len(),
            distinct_names(r@),
            name_set(r@) == Set::new(|n: Seq<char>| exists|d: int| 0 <= d < c && g.names@[nodes@[d] as int]@ == n),
        decreases nodes@.len() - c,
    {
        push_new_name(&mut r, &g.names[nodes[c]]);
        proof {
            assert(name_set(r@) =~= Set::new(|n: Seq<char>| exists|d: int| 0 <= d < c + 1 && g.names@[nodes@[d] as int]@ == n));
        }
        c += 1;
    }
    proof {
        let target = Set::new(|n: Seq<char>| exists|j: int| node_set(nodes@).contains(j) && g.names@[j]@ == n);
        assert forall|n: Seq<char>| #[trigger] target.contains(n) implies name_set(r@).contains(n) by {
            let j = choose|j: int| node_set(nodes@).contains(j) && g.names@[j]@ == n;
            let d = choose|d: int| 0 <= d < nodes@.len() && nodes@[d] == j;
            assert(g.names@[nodes@[d] as int]@ == n);
        }
        assert forall|n: Seq<char>| #[trigger] name_set(r@).contains(n) implies target.contains(n) by {
            let d = choose|d: int| 0 <= d < c && g.names@[nodes@[d] as int]@ == n;
            assert(node_set(nodes@).contains(nodes@[d] as int));
        }
        assert(name_set(r@) =~= target);
    }
    r
}


/// Appends to `v` each name of `w` that it does not hold yet.
fn extend_new_names(v: &mut Vec<String>, w: &Vec<String>)
    requires
        distinct_names(old(v)@),
    ensures
        distinct_names(final(v)@),
        name_set(final(v)@) == name_set(old(v)@) + name_set(w@),
{
    let mut c: usize = 0;
    while c < w.len()
        invariant
            c <= w@.len(),
            distinct_names(v@),
            name_set(v@) == name_set(old(v)@) + name_set(w@.subrange(0, c as int)),
        decreases w@.len() - c,
    {
        proof {
            let w1 = w@.subrange(0, c as int + 1);
            assert forall|n: Seq<char>| #[trigger] name_set(w1).contains(n) <==> name_set(w@.subrange(0, c as int)).insert(w@[c as int]@).contains(n) by {
                if name_set(w1).contains(n) {
                    let d = choose|d: int| 0 <= d < w1.len() && w1[d]@ == n;
                    if d < c {
                        assert(w@.subrange(0, c as int)[d]@ == n);
                    }
                }
                if name_set(w@.subrange(0, c as int)).contains(n) {
                    let d = choose|d: int| 0 <= d < c && w@.subrange(0, c as int)[d]@ == n;
                    assert(w1[d]@ == n);
                }
                if n == w@[c as int]@ {
                    assert(w1[c as int]@ == n);
                }
            }
            assert(name_set(w1) =~= name_set(w@.subrange(0, c as int)).insert(w@[c as int]@));
        }
        push_new_name(v, &w[c]);
        proof {
            assert(name_set(v@) =~= name_set(old(v)@) + name_set(w@.subrange(0, c as int + 1)));
        }
        c += 1;
    }
    proof {
        assert(w@.subrange(0, w@.len() as int) =~= w@);
    }
}

/// A node is on the next level exactly when a node on this level depends on it.
proof fn lemma_next_level(g: &DependencyGraph, k: nat, j: int)
    ensures
        g.at_level(k + 1, j) <==> exists|i: int| #[trigger] g.at_level(k, i) && g.has_edge(i, j),
{
    let next: nat = k + 1;
    assert((next - 1) as nat == k);
    let above = g.level_set(k);
    assert(g.level_set(next) == Set::new(|j: int| exists|i: int| #[trigger] above.contains(i) && g.has_edge(i, j)));
    assert(g.level_set(next).contains(j) == exists|i: int| #[trigger] above.contains(i) && g.has_edge(i, j));
    if g.level_set(next).contains(j) {
        let i = choose|i: int| #[trigger] above.contains(i) && g.has_edge(i, j);
        assert(g.at_level(k, i));
    }
    if exists|i: int| #[trigger] g.at_level(k, i) && g.has_edge(i, j) {
        let i = choose|i: int| #[trigger] g.at_level(k, i) && g.has_edge(i, j);
        assert(above.contains(i));
    }
}

/// Once a level is empty, so is every deeper one.
proof fn lemma_empty_level_stays_empty(g: &DependencyGraph, k: nat, m: nat)
    requires
        forall|j: int| !#[trigger] g.at_level(k, j),
    ensures
        forall|j: int| !#[trigger] g.at_level(k + m, j),
    decreases m,
{
    if m > 0 {
        lemma_empty_level_stays_empty(g, k, (m - 1) as nat);
        assert forall|j: int| !#[trigger] g.at_level(k + m, j) by {
            lemma_next_level(g, k + (m - 1) as nat, j);
            assert(k + (m - 1) as nat + 1 == k + m);
        }
    }
}

/// The package names of the transitive dependencies, each once: with a level
/// bound, those on that level; without one, those on every level from 1 on
/// (the walk stops after level 255).
#[verifier::loop_isolation(false)]
pub fn get_dependencies(dependency_level: Option<u8>, dependency_tree: &DependencyGraph) -> (r: Vec<String>)
    requires
        dependency_tree.wf(),
        dependency_level != Some(0u8),
    ensures
        name_set(r@) == dependency_tree.selected(dependency_level),
        distinct_names(r@),
{
    let g = dependency_tree;
    let mut crate_names: Vec<String> = Vec::new();
    let mut worklist = roots(g);
    let mut level: u8 = 0;
    while worklist.len() > 0
        invariant
            g.wf(),
            dependency_level != Some(0u8),
            forall|c: int| 0 <= c < worklist@.len() ==> #[trigger] worklist@[c] < g.node_count(),
            forall|j: int| node_set(worklist@).contains(j) <==> g.at_level(level as nat, j),
            distinct_names(crate_names@),
            dependency_level matches Some(l) ==> level <= l && crate_names@.len() == 0,
            dependency_level is None ==> name_set(crate_names@) == Set::new(
                |n: Seq<char>| exists|k: nat| 1 <= k < level && #[trigger] g.level_names(k).contains(n),
            ),
        decreases 256 - level,
    {
        let on_level = names_of(g, &worklist);
        let next = successors_of(g, &worklist);
        proof {
            assert forall|n: Seq<char>| #[trigger] g.level_names(level as nat).contains(n) implies name_set(on_level@).contains(n) by {
                let j = choose|j: int| #[trigger] g.at_level(level as nat, j) && g.names@[j]@ == n;
                assert(node_set(worklist@).contains(j));
            }
            assert forall|n: Seq<char>| #[trigger] name_set(on_level@).contains(n) implies g.level_names(level as nat).contains(n) by {
                let j = choose|j: int| node_set(worklist@).contains(j) && g.names@[j]@ == n;
                assert(g.at_level(level as nat, j));
            }
            assert(name_set(on_level@) =~= g.level_names(level as nat));
            assert forall|j: int| node_set(next@).contains(j) <==> g.at_level(level as nat + 1, j) by {
                lemma_next_level(g, level as nat, j);
                if node_set(next@).contains(j) {
                    let i = choose|i: int| node_set(worklist@).contains(i) && #[trigger] g.has_edge(i, j);
                    assert(g.at_level(level as nat, i));
                }
                if g.at_level(level as nat + 1, j) {
                    let i = choose|i: int| #[trigger] g.at_level(level as nat, i) && g.has_edge(i, j);
                    assert(node_set(worklist@).contains(i));
                }
            }
        }
        let ghost prev_names = crate_names@;
        if level > 0 {
            match dependency_level {
                Some(l) => {
                    if level >= l {
                        assert(name_set(on_level@) == g.selected(dependency_level));
                        return on_level;
                    }
                },
                None => {
                    extend_new_names(&mut crate_names, &on_level);
                },
            }
        }
        proof {
            if dependency_level is None {
                assert(name_set(crate_names@) =~= Set::new(
                    |n: Seq<char>| exists|k: nat| 1 <= k < level + 1 && #[trigger] g.level_names(k).contains(n),
                )) by {
                    assert forall|n: Seq<char>| (exists|k: nat| 1 <= k < level + 1 && #[trigger] g.level_names(k).contains(n))
                        implies #[trigger] name_set(crate_names@).contains(n) by {
                        let k = choose|k: nat| 1 <= k < level + 1 && #[trigger] g.level_names(k).contains(n);
                        if k < level {
                            assert(name_set(prev_names).contains(n));
                        }
                    }
                }
            }
        }
        worklist = next;
        if level == 255 {
            proof {
                assert forall|n: Seq<char>| #[trigger] g.selected(dependency_level).contains(n)
                    implies name_set(crate_names@).contains(n) by {
                    let k = choose|k: nat| 1 <= k <= 255 && #[trigger] g.level_names(k).contains(n);
                    assert(1 <= k < level + 1);
                }
                assert(name_set(crate_names@) =~= g.selected(dependency_level));
            }
            return crate_names;
        }
        level = level + 1;
    }
    proof {
        lemma_empty_level_stays_empty(g, level as nat, (255 - level) as nat);
        match dependency_level {
            Some(l) => {
                lemma_empty_level_stays_empty(g, level as nat, (l - level) as nat);
                assert(name_set(crate_names@) =~= g.selected(dependency_level)) by {
                    assert forall|n: Seq<char>| !#[trigger] g.level_names(l as nat).contains(n) by {
                        if g.level_names(l as nat).contains(n) {
                            let j = choose|j: int| #[trigger] g.at_level(l as nat, j) && g.names@[j]@ == n;
                            assert(g.at_level(level as nat + (l - level) as nat, j));
                        }
                    }
                }
            },
            None => {
                assert(name_set(crate_names@) =~= g.selected(dependency_level)) by {
                    assert forall|n: Seq<char>| #[trigger] g.selected(dependency_level).contains(n)
                        implies name_set(crate_names@).contains(n) by {
                        let k = choose|k: nat| 1 <= k <= 255 && #[trigger] g.level_names(k).contains(n);
                        if k >= level {
                            lemma_empty_level_stays_empty(g, level as nat, (k - level) as nat);
                            let j = choose|j: int| #[trigger] g.at_level(k, j) && g.names@[j]@ == n;
                            assert(g.at_level(level as nat + (k - level) as nat, j));
                        }
                    }
                }
            },
        }
    }
    crate_names
}


/// Below the roots every node has an edge into it, so no root is on a level from 1 on.
pub proof fn lemma_root_only_on_level_zero(g: &DependencyGraph, k: nat, j: int)
    requires
        k >= 1,
        g.at_level(k, j),
    ensures
        !g.is_root(j),
{
    lemma_next_level(g, (k - 1) as nat, j);
    assert((k - 1) as nat + 1 == k);
    let i = choose|i: int| #[trigger] g.at_level((k - 1) as nat, i) && g.has_edge(i, j);
    assert(g.has_edge(i, j));
}

/// The name of a root is never selected, whatever the level bound, where no
/// node other than a root carries that name.
pub proof fn lemma_root_names_not_selected(g: &DependencyGraph, level_bound: Option<u8>, root: int)
    requires
        g.wf(),
        level_bound != Some(0u8),
        g.is_root(root),
        forall|j: int| 0 <= j < g.node_count() && !g.is_root(j) ==> #[trigger] g.names@[j]@ != g.names@[root]@,
    ensures
        !g.selected(level_bound).contains(g.names@[root]@),
{
    let n = g.names@[root]@;
    assert forall|k: nat| k >= 1 implies !#[trigger] g.level_names(k).contains(n) by {
        if g.level_names(k).contains(n) {
            let j = choose|j: int| #[trigger] g.at_level(k, j) && g.names@[j]@ == n;
            lemma_root_only_on_level_zero(g, k, j);
            lemma_next_level(g, (k - 1) as nat, j);
            assert((k - 1) as nat + 1 == k);
            let i = choose|i: int| #[trigger] g.at_level((k - 1) as nat, i) && g.has_edge(i, j);
            let e = choose|e: int| 0 <= e < g.successors@[i]@.len() && #[trigger] g.successors@[i]@[e] == j;
            assert(0 <= j < g.node_count());
        }
    }
}

/// Selecting twice from the same graph with the same bound gives the same set of names.
pub proof fn lemma_selection_deterministic(g: &DependencyGraph, level_bound: Option<u8>, r1: Seq<String>, r2: Seq<String>)
    requires
        name_set(r1) == g.selected(level_bound),
        name_set(r2) == g.selected(level_bound),
    ensures
        name_set(r1) == name_set(r2),
{
}


/// The names of `names`, each once, in the order of their first occurrence.
pub fn unique_names(names: &Vec<String>) -> (r: Vec<String>)
    ensures
        name_set(r@) == name_set(names@),
        distinct_names(r@),
{
    let mut r: Vec<String> = Vec::new();
    proof {
        assert(name_set(r@) =~= Set::<Seq<char>>::empty());
    }
    extend_new_names(&mut r, names);
    proof {
        assert(name_set(r@) =~= name_set(names@));
    }
    r
}


/// Without a level bound, the names selected are those on every level from 1
/// on, wherever the graph has no node 256 steps below a root (the walk stops
/// after level 255).
pub proof fn lemma_unbounded_selection_is_all_levels(g: &DependencyGraph)
    requires
        forall|j: int| !#[trigger] g.at_level(256, j),
    ensures
        g.selected(None) == Set::new(|n: Seq<char>| exists|k: nat| 1 <= k && #[trigger] g.level_names(k).contains(n)),
{
    let all = Set::new(|n: Seq<char>| exists|k: nat| 1 <= k && #[trigger] g.level_names(k).contains(n));
    assert forall|n: Seq<char>| #[trigger] all.contains(n) implies g.selected(None).contains(n) by {
        let k = choose|k: nat| 1 <= k && #[trigger] g.level_names(k).contains(n);
        if k > 255 {
            lemma_empty_level_stays_empty(g, 256, (k - 256) as nat);
            let j = choose|j: int| #[trigger] g.at_level(k, j) && g.names@[j]@ == n;
            assert(g.at_level(256 + (k - 256) as nat, j));
        }
    }
    assert(g.selected(None) =~= all);
}

} // verus!
