//! The CWE weakness taxonomy: a directed graph of "superset" (parent) edges
//! over CWE identifiers, together with the set of top-level classes of the
//! CWE-1000 view and, for every node, the precomputed subset of those classes
//! that cover it.
//!
//! The taxonomy induces a partial order: `a` is `Less` than `b` when `b` is
//! reachable from `a` along parent edges (`a` is the more specific weakness),
//! `Greater` in the opposite direction, `Equal` when the identifiers are the
//! same, and incomparable otherwise.  The graph may be an arbitrary DAG
//! (a node can have several parents); reachability, not distance, decides
//! the relation, and the search below also terminates on (defensively
//! assumed) cyclic inputs.

use core::cmp::Ordering;
use vstd::prelude::*;
use vstd::seq_lib::*;
use vstd::set_lib::lemma_len_subset;

use crate::truth::CWE;

verus! {

/// A taxonomy definition version, e.g. `"4.14"`.
#[derive(Debug)]
pub struct TaxonomyVersion(pub String);

/// An association list from a CWE to a collection of CWEs, with unique keys.
pub type CweMap = Vec<(CWE, Vec<CWE>)>;

/// First-match lookup in an association list.
pub open spec fn lookup(entries: Seq<(CWE, Vec<CWE>)>, key: CWE) -> Option<Seq<CWE>>
    decreases entries.len(),
{
    if entries.len() == 0 {
        None
    } else if entries[0].0 == key {
        Some(entries[0].1@)
    } else {
        lookup(entries.drop_first(), key)
    }
}

/// No key occurs twice.
pub open spec fn keys_unique(entries: Seq<(CWE, Vec<CWE>)>) -> bool {
    forall|i: int, j: int| 0 <= i < j < entries.len() ==> (#[trigger] entries[i]).0 != (
    #[trigger] entries[j]).0
}

/// `b` is a direct parent (superset) of `a`.
pub open spec fn parent_edge(entries: Seq<(CWE, Vec<CWE>)>, a: CWE, b: CWE) -> bool {
    match lookup(entries, a) {
        Some(ps) => ps.contains(b),
        None => false,
    }
}

/// Every step of `p` follows a parent edge.
pub open spec fn is_parent_path(entries: Seq<(CWE, Vec<CWE>)>, p: Seq<CWE>) -> bool {
    forall|i: int| 0 <= i < p.len() - 1 ==> parent_edge(entries, #[trigger] p[i], p[i + 1])
}

/// `b` is reachable from `a` along parent edges (reflexively).
pub open spec fn reaches(entries: Seq<(CWE, Vec<CWE>)>, a: CWE, b: CWE) -> bool {
    exists|p: Seq<CWE>|
        p.len() >= 1 && p[0] == a && p.last() == b && #[trigger] is_parent_path(entries, p)
}

/// The taxonomy order on two CWEs: `Equal` for the same identifier, `Less`
/// when `a` is a descendant of `b` (more specific), `Greater` when `a` is an
/// ancestor of `b`, `None` when the hierarchy relates them in neither
/// direction.  When the graph relates two distinct nodes both ways (a cycle),
/// the descendant test wins, as the search order of `cwe_partial_cmp` has it.
pub open spec fn cwe_cmp(entries: Seq<(CWE, Vec<CWE>)>, a: CWE, b: CWE) -> Option<Ordering> {
    if a == b {
        Some(Ordering::Equal)
    } else if reaches(entries, a, b) {
        Some(Ordering::Less)
    } else if reaches(entries, b, a) {
        Some(Ordering::Greater)
    } else {
        None
    }
}

/// The class `k` covers `c`: it is `c` itself or an ancestor of it.
pub open spec fn class_covers(entries: Seq<(CWE, Vec<CWE>)>, k: CWE, c: CWE) -> bool {
    cwe_cmp(entries, k, c) == Some(Ordering::Equal) || cwe_cmp(entries, k, c) == Some(
        Ordering::Greater,
    )
}

/// The CWE-1000 classes among `roots` that cover `c`, in the order of
/// `roots`, defined whenever `c` is a node of the taxonomy.
pub open spec fn spec_classes_of(
    entries: Seq<(CWE, Vec<CWE>)>,
    roots: Seq<CWE>,
    c: CWE,
) -> Option<Seq<CWE>> {
    if lookup(entries, c) is Some {
        Some(roots.filter(|k: CWE| class_covers(entries, k, c)))
    } else {
        None
    }
}

/// Reachability is reflexive: the one-element path is a witness.
pub proof fn lemma_reaches_refl(entries: Seq<(CWE, Vec<CWE>)>, a: CWE)
    ensures
        reaches(entries, a, a),
{
    let p: Seq<CWE> = seq![a];
    assert(p.len() >= 1 && p[0] == a && p.last() == a && is_parent_path(entries, p));
}

/// Reachability extends along one more parent edge.
pub proof fn lemma_reaches_step(entries: Seq<(CWE, Vec<CWE>)>, a: CWE, b: CWE, c: CWE)
    requires
        reaches(entries, a, b),
        parent_edge(entries, b, c),
    ensures
        reaches(entries, a, c),
{
    let p = choose|p: Seq<CWE>|
        p.len() >= 1 && p[0] == a && p.last() == b && #[trigger] is_parent_path(entries, p);
    let q = p.push(c);
    assert forall|i: int| 0 <= i < q.len() - 1 implies parent_edge(entries, #[trigger] q[i], q[i + 1]) by {
        if i < p.len() - 1 {
            assert(q[i] == p[i] && q[i + 1] == p[i + 1]);
            assert(parent_edge(entries, p[i], p[i + 1]));
        } else {
            assert(q[i] == p.last() && q[i + 1] == c);
        }
    }
    assert(q.len() >= 1 && q[0] == a && q.last() == c && is_parent_path(entries, q));
}

/// A parent path starting inside an edge-closed collection ends inside it.
proof fn lemma_path_stays_in_closed(
    entries: Seq<(CWE, Vec<CWE>)>,
    closed: Seq<CWE>,
    p: Seq<CWE>,
)
    requires
        p.len() >= 1,
        is_parent_path(entries, p),
        closed.contains(p[0]),
        forall|v: CWE, q: CWE|
            closed.contains(v) && #[trigger] parent_edge(entries, v, q) ==> closed.contains(q),
    ensures
        closed.contains(p.last()),
    decreases p.len(),
{
    if p.len() > 1 {
        assert(parent_edge(entries, p[0], p[1]));
        let rest = p.drop_first();
        assert(rest[0] == p[1]);
        assert forall|i: int| 0 <= i < rest.len() - 1 implies parent_edge(
            entries,
            #[trigger] rest[i],
            rest[i + 1],
        ) by {
            assert(rest[i] == p[i + 1] && rest[i + 1] == p[i + 2]);
            assert(parent_edge(entries, p[i + 1], p[i + 2]));
        }
        lemma_path_stays_in_closed(entries, closed, rest);
        assert(rest.last() == p.last());
    }
}

/// If a collection contains `a`, is closed under parent edges, and misses
/// `b`, then `b` is not reachable from `a`.
proof fn lemma_closed_has_no_path(
    entries: Seq<(CWE, Vec<CWE>)>,
    closed: Seq<CWE>,
    a: CWE,
    b: CWE,
)
    requires
        closed.contains(a),
        !closed.contains(b),
        forall|v: CWE, q: CWE|
            closed.contains(v) && #[trigger] parent_edge(entries, v, q) ==> closed.contains(q),
    ensures
        !reaches(entries, a, b),
{
    if reaches(entries, a, b) {
        let p = choose|p: Seq<CWE>|
            p.len() >= 1 && p[0] == a && p.last() == b && #[trigger] is_parent_path(entries, p);
        lemma_path_stays_in_closed(entries, closed, p);
    }
}

/// Every identifier that occurs in an association list, as a key or inside a
/// value, in the order of the list.
pub open spec fn universe_seq(entries: Seq<(CWE, Vec<CWE>)>) -> Seq<CWE>
    decreases entries.len(),
{
    if entries.len() == 0 {
        Seq::empty()
    } else {
        seq![entries[0].0] + entries[0].1@ + universe_seq(entries.drop_first())
    }
}

/// What a lookup returns is drawn from the universe of the list.
proof fn lemma_lookup_values_in_universe(entries: Seq<(CWE, Vec<CWE>)>, key: CWE, x: CWE)
    requires
        match lookup(entries, key) {
            Some(v) => v.contains(x),
            None => false,
        },
    ensures
        universe_seq(entries).contains(x),
    decreases entries.len(),
{
    if entries.len() > 0 {
        if entries[0].0 == key {
            let i = choose|i: int| 0 <= i < entries[0].1@.len() && entries[0].1@[i] == x;
            assert(universe_seq(entries)[1 + i] == x);
        } else {
            lemma_lookup_values_in_universe(entries.drop_first(), key, x);
            let u = universe_seq(entries.drop_first());
            let i = choose|i: int| 0 <= i < u.len() && u[i] == x;
            assert(universe_seq(entries)[1 + entries[0].1@.len() + i] == x);
        }
    }
}

/// Skipping over entries whose keys all differ from `key` keeps the lookup.
proof fn lemma_lookup_skip(entries: Seq<(CWE, Vec<CWE>)>, key: CWE, i: int)
    requires
        0 <= i <= entries.len(),
        forall|j: int| 0 <= j < i ==> (#[trigger] entries[j]).0 != key,
    ensures
        lookup(entries, key) == lookup(entries.skip(i), key),
    decreases i,
{
    if i > 0 {
        assert(lookup(entries, key) == lookup(entries.drop_first(), key));
        assert forall|j: int| 0 <= j < i - 1 implies (#[trigger] entries.drop_first()[j]).0
            != key by {
            assert(entries.drop_first()[j] == entries[j + 1]);
        }
        lemma_lookup_skip(entries.drop_first(), key, i - 1);
        assert(entries.drop_first().skip(i - 1) =~= entries.skip(i));
    } else {
        assert(entries.skip(0) =~= entries);
    }
}

/// Popping a node off the worklist, marking it visited, and pushing its
/// parents preserves the invariants of the reachability walk.
proof fn lemma_expand_maintains(
    entries: Seq<(CWE, Vec<CWE>)>,
    uni: Set<CWE>,
    from: CWE,
    target: CWE,
    node: CWE,
    visited_old: Seq<CWE>,
    visited_new: Seq<CWE>,
    stack_old: Seq<CWE>,
    stack_new: Seq<CWE>,
    ps: Seq<CWE>,
)
    requires
        forall|w: CWE| universe_seq(entries).contains(w) ==> uni.contains(w),
        stack_old.len() > 0,
        stack_old.last() == node,
        node != target,
        visited_new == visited_old.push(node),
        stack_new == stack_old.drop_last() + ps,
        match lookup(entries, node) {
            Some(v) => v == ps,
            None => ps == Seq::<CWE>::empty(),
        },
        forall|v: CWE| visited_old.contains(v) ==> uni.contains(v),
        forall|w: CWE| stack_old.contains(w) ==> uni.contains(w),
        forall|v: CWE| visited_old.contains(v) ==> reaches(entries, from, v) && v != target,
        forall|w: CWE| stack_old.contains(w) ==> reaches(entries, from, w),
        visited_old.contains(from) || stack_old.contains(from),
        forall|v: CWE, q: CWE|
            visited_old.contains(v) && #[trigger] parent_edge(entries, v, q)
                ==> visited_old.contains(q) || stack_old.contains(q),
    ensures
        forall|v: CWE| visited_new.contains(v) ==> uni.contains(v),
        forall|w: CWE| stack_new.contains(w) ==> uni.contains(w),
        forall|v: CWE| visited_new.contains(v) ==> reaches(entries, from, v) && v != target,
        forall|w: CWE| stack_new.contains(w) ==> reaches(entries, from, w),
        visited_new.contains(from) || stack_new.contains(from),
        forall|v: CWE, q: CWE|
            visited_new.contains(v) && #[trigger] parent_edge(entries, v, q)
                ==> visited_new.contains(q) || stack_new.contains(q),
{
    assert(stack_old.contains(node));
    assert(reaches(entries, from, node));
    assert(visited_new.last() == node);
    assert(visited_new.contains(node)) by {
        assert(visited_new[visited_new.len() - 1] == node);
    }
    assert forall|v: CWE| visited_old.contains(v) implies visited_new.contains(v) by {
        let k = choose|k: int| 0 <= k < visited_old.len() && visited_old[k] == v;
        assert(visited_new[k] == v);
    }
    assert forall|v: CWE| visited_new.contains(v) implies v == node || visited_old.contains(v) by {
        let k = choose|k: int| 0 <= k < visited_new.len() && visited_new[k] == v;
        if k < visited_new.len() - 1 {
            assert(visited_old[k] == v);
        }
    }
    assert forall|w: CWE| stack_new.contains(w) implies stack_old.contains(w) || ps.contains(
        w,
    ) by {
        let k = choose|k: int| 0 <= k < stack_new.len() && stack_new[k] == w;
        if k < stack_old.len() - 1 {
            assert(stack_old[k] == w);
        } else {
            assert(ps[k - (stack_old.len() - 1)] == w);
        }
    }
    assert forall|w: CWE| ps.contains(w) implies reaches(entries, from, w) && uni.contains(w) by {
        assert(parent_edge(entries, node, w));
        lemma_reaches_step(entries, from, node, w);
        lemma_lookup_values_in_universe(entries, node, w);
        assert(universe_seq(entries).contains(w));
    }
    assert forall|v: CWE, q: CWE|
        visited_new.contains(v) && #[trigger] parent_edge(entries, v, q) implies visited_new
        .contains(q) || stack_new.contains(q) by {
        if v == node {
            assert(ps.contains(q));
            let k = choose|k: int| 0 <= k < ps.len() && ps[k] == q;
            assert(stack_new[stack_old.len() - 1 + k] == q);
        } else {
            assert(visited_old.contains(v));
            assert(visited_old.contains(q) || stack_old.contains(q));
            if visited_old.contains(q) {
                assert(visited_new.contains(q));
            } else if q == node {
                assert(visited_new.contains(q));
            } else {
                lemma_drop_last_contains(stack_old, q);
                let k = choose|k: int|
                    0 <= k < stack_old.drop_last().len() && stack_old.drop_last()[k] == q;
                assert(stack_new[k] == q);
            }
        }
    }
    assert(visited_new.contains(from) || stack_new.contains(from)) by {
        if !visited_old.contains(from) && from != node {
            lemma_drop_last_contains(stack_old, from);
            let k = choose|k: int|
                0 <= k < stack_old.drop_last().len() && stack_old.drop_last()[k] == from;
            assert(stack_new[k] == from);
        }
    }
}

/// An element other than the last survives dropping the last.
proof fn lemma_drop_last_contains(s: Seq<CWE>, w: CWE)
    requires
        s.len() > 0,
        s.contains(w),
        w != s.last(),
    ensures
        s.drop_last().contains(w),
{
    let k = choose|k: int| 0 <= k < s.len() && s[k] == w;
    assert(k < s.len() - 1);
    assert(s.drop_last()[k] == w);
}

/// Whether `v` holds `c`.
fn vec_contains_cwe(v: &Vec<CWE>, c: CWE) -> (r: bool)
    ensures
        r == v@.contains(c),
{
    let mut i: usize = 0;
    while i < v.len()
        invariant
            i <= v.len(),
            forall|j: int| 0 <= j < i ==> v@[j] != c,
        decreases v.len() - i,
    {
        if v[i] == c {
            return true;
        }
        i += 1;
    }
    false
}

/// First-match lookup in an association list.
fn map_get<'a>(entries: &'a CweMap, key: CWE) -> (r: Option<&'a Vec<CWE>>)
    ensures
        match r {
            Some(v) => lookup(entries@, key) == Some(v@),
            None => lookup(entries@, key) is None,
        },
{
    let mut i: usize = 0;
    while i < entries.len()
        invariant
            i <= entries.len(),
            forall|j: int| 0 <= j < i ==> (#[trigger] entries@[j]).0 != key,
        decreases entries.len() - i,
    {
        if entries[i].0 == key {
            proof {
                lemma_lookup_skip(entries@, key, i as int);
                assert(entries@.skip(i as int)[0] == entries@[i as int]);
            }
            return Some(&entries[i].1);
        }
        i += 1;
    }
    proof {
        lemma_lookup_skip(entries@, key, entries@.len() as int);
        assert(entries@.skip(entries@.len() as int).len() == 0);
    }
    None
}

/// The CWE hierarchy, loaded once and read-only afterwards.
#[derive(Debug)]
pub struct Taxonomy {
    pub version: TaxonomyVersion,
    pub parents: CweMap,
    pub cwe_1000: Vec<CWE>,
    pub cwe_to_cwe_classes: CweMap,
}

impl Taxonomy {
    /// The class table matches what `spec_classes_of` computes from the
    /// parent edges and the CWE-1000 roots.
    pub open spec fn wf(self) -> bool {
        &&& keys_unique(self.parents@)
        &&& self.cwe_to_cwe_classes@.len() == self.parents@.len()
        &&& forall|i: int|
            0 <= i < self.parents@.len() ==> (#[trigger] self.cwe_to_cwe_classes@[i]).0
                == self.parents@[i].0
        &&& forall|i: int|
            0 <= i < self.parents@.len() ==> (#[trigger] self.cwe_to_cwe_classes@[i]).1@
                == self.cwe_1000@.filter(
                |k: CWE| class_covers(self.parents@, k, self.parents@[i].0),
            )
    }

    /// Walk up the parent edges from `from`, reporting whether `target` is
    /// reachable.  A visited list keeps the walk linear and guards against
    /// cycles.
    #[verifier::rlimit(60)]
    fn search_up(&self, from: CWE, target: CWE) -> (r: bool)
        ensures
            r == reaches(self.parents@, from, target),
    {
        let ghost uni: Set<CWE> = universe_seq(self.parents@).to_set().insert(from);
        proof {
            broadcast use seq_to_set_is_finite;

        }
        let mut visited: Vec<CWE> = Vec::new();
        let mut stack: Vec<CWE> = Vec::new();
        stack.push(from);
        proof {
            lemma_reaches_refl(self.parents@, from);
            assert(stack@ =~= Seq::empty().push(from));
            assert(stack@[0] == from);
            assert(stack@.contains(from));
            assert forall|w: CWE| stack@.contains(w) implies w == from by {
                let k = choose|k: int| 0 <= k < stack@.len() && stack@[k] == w;
            }
            assert(uni.contains(from));
        }
        while stack.len() > 0
            invariant
                uni == universe_seq(self.parents@).to_set().insert(from),
                visited@.no_duplicates(),
                forall|v: CWE| visited@.contains(v) ==> uni.contains(v),
                forall|w: CWE| stack@.contains(w) ==> uni.contains(w),
                forall|v: CWE|
                    visited@.contains(v) ==> reaches(self.parents@, from, v) && v != target,
                forall|w: CWE| stack@.contains(w) ==> reaches(self.parents@, from, w),
                visited@.contains(from) || stack@.contains(from),
                forall|v: CWE, q: CWE|
                    visited@.contains(v) && #[trigger] parent_edge(self.parents@, v, q)
                        ==> visited@.contains(q) || stack@.contains(q),
                uni.finite(),
            decreases uni.len() - visited@.len(), stack@.len(),
        {
            proof {
                visited@.unique_seq_to_set();
                lemma_len_subset(visited@.to_set(), uni);
            }
            let ghost stack_at_top = stack@;
            let ghost visited_at_top = visited@;
            let node: CWE = stack.pop().unwrap();
            proof {
                assert(stack_at_top.last() == node && stack_at_top.contains(node));
                assert(stack@ =~= stack_at_top.drop_last());
            }
            if node == target {
                return true;
            }
            if !vec_contains_cwe(&visited, node) {
                visited.push(node);
                proof {
                    assert(visited@ =~= visited_at_top.push(node));
                    visited@.unique_seq_to_set();
                    lemma_len_subset(visited@.to_set(), uni);
                }
                match map_get(&self.parents, node) {
                    Some(ps) => {
                        let ghost stack_before = stack@;
                        let mut j: usize = 0;
                        while j < ps.len()
                            invariant
                                j <= ps.len(),
                                stack@ == stack_before + ps@.take(j as int),
                            decreases ps.len() - j,
                        {
                            let p: CWE = ps[j];
                            stack.push(p);
                            proof {
                                assert(stack_before + ps@.take(j as int).push(p) =~= stack_before
                                    + ps@.take(j + 1 as int));
                            }
                            j += 1;
                        }
                        proof {
                            assert(ps@.take(ps@.len() as int) =~= ps@);
                            assert(stack@ =~= stack_at_top.drop_last() + ps@);
                            lemma_expand_maintains(
                                self.parents@,
                                uni,
                                from,
                                target,
                                node,
                                visited_at_top,
                                visited@,
                                stack_at_top,
                                stack@,
                                ps@,
                            );
                            assert(forall|w: CWE|
                                stack@.contains(w) ==> reaches(self.parents@, from, w));
                        }
                    },
                    None => {
                        proof {
                            assert(stack@ =~= stack_at_top.drop_last() + Seq::<CWE>::empty());
                            lemma_expand_maintains(
                                self.parents@,
                                uni,
                                from,
                                target,
                                node,
                                visited_at_top,
                                visited@,
                                stack_at_top,
                                stack@,
                                Seq::empty(),
                            );
                            assert(forall|w: CWE|
                                stack@.contains(w) ==> reaches(self.parents@, from, w));
                        }
                    },
                }
            } else {
                proof {
                    assert(visited@.contains(node));
                    assert forall|w: CWE| stack@.contains(w) implies reaches(
                        self.parents@,
                        from,
                        w,
                    ) by {
                        let k = choose|k: int| 0 <= k < stack@.len() && stack@[k] == w;
                        assert(stack_at_top[k] == w);
                        assert(stack_at_top.contains(w));
                    }
                    assert forall|w: CWE| stack@.contains(w) implies uni.contains(w) by {
                        let k = choose|k: int| 0 <= k < stack@.len() && stack@[k] == w;
                        assert(stack_at_top[k] == w);
                        assert(stack_at_top.contains(w));
                    }
                    assert forall|v: CWE, q: CWE|
                        visited@.contains(v) && #[trigger] parent_edge(
                            self.parents@,
                            v,
                            q,
                        ) implies visited@.contains(q) || stack@.contains(q) by {
                        assert(visited@.contains(q) || stack_at_top.contains(q));
                        if stack_at_top.contains(q) && !visited@.contains(q) {
                            assert(q != node);
                            lemma_drop_last_contains(stack_at_top, q);
                        }
                    }
                    assert(visited@.contains(from) || stack@.contains(from)) by {
                        if !visited@.contains(from) {
                            assert(stack_at_top.contains(from));
                            assert(from != node);
                            lemma_drop_last_contains(stack_at_top, from);
                        }
                    }
                }
            }
        }
        proof {
            assert(visited@.contains(from));
            assert(!visited@.contains(target));
            lemma_closed_has_no_path(self.parents@, visited@, from, target);
        }
        false
    }

    /// Compare two CWEs under the taxonomy order: `Equal` for the same
    /// identifier, `Less` when `left` is a descendant of `right`, `Greater`
    /// when it is an ancestor, `None` when unrelated.
    pub fn cwe_partial_cmp(&self, left: &CWE, right: &CWE) -> (r: Option<Ordering>)
        ensures
            r == cwe_cmp(self.parents@, *left, *right),
    {
        if left == right {
            return Some(Ordering::Equal);
        }
        if self.search_up(*left, *right) {
            Some(Ordering::Less)
        } else if self.search_up(*right, *left) {
            Some(Ordering::Greater)
        } else {
            None
        }
    }

    /// The CWE-1000 classes covering `cwe`, or `None` when the taxonomy does
    /// not know `cwe`.
    pub fn to_cwe_1000<'a>(&'a self, cwe: &CWE) -> (r: Option<&'a Vec<CWE>>)
        requires
            self.wf(),
        ensures
            match r {
                Some(v) => spec_classes_of(self.parents@, self.cwe_1000@, *cwe) == Some(v@),
                None => spec_classes_of(self.parents@, self.cwe_1000@, *cwe) is None,
            },
    {
        let mut i: usize = 0;
        while i < self.cwe_to_cwe_classes.len()
            invariant
                self.wf(),
                i <= self.cwe_to_cwe_classes@.len(),
                forall|j: int| 0 <= j < i ==> (#[trigger] self.cwe_to_cwe_classes@[j]).0 != *cwe,
            decreases self.cwe_to_cwe_classes@.len() - i,
        {
            if self.cwe_to_cwe_classes[i].0 == *cwe {
                proof {
                    assert forall|j: int| 0 <= j < i implies (#[trigger] self.parents@[j]).0
                        != *cwe by {
                        assert(self.cwe_to_cwe_classes@[j].0 == self.parents@[j].0);
                    }
                    lemma_lookup_skip(self.parents@, *cwe, i as int);
                    assert(self.parents@.skip(i as int)[0] == self.parents@[i as int]);
                }
                return Some(&self.cwe_to_cwe_classes[i].1);
            }
            i += 1;
        }
        proof {
            assert forall|j: int| 0 <= j < self.parents@.len() implies (
            #[trigger] self.parents@[j]).0 != *cwe by {
                assert(self.cwe_to_cwe_classes@[j].0 == self.parents@[j].0);
            }
            lemma_lookup_skip(self.parents@, *cwe, self.parents@.len() as int);
            assert(self.parents@.skip(self.parents@.len() as int).len() == 0);
        }
        None
    }

    /// Build a taxonomy from parent edges and the CWE-1000 roots,
    /// precomputing for every node the classes that cover it.
    pub fn new(version: TaxonomyVersion, parents: CweMap, cwe_1000: Vec<CWE>) -> (r: Taxonomy)
        requires
            keys_unique(parents@),
        ensures
            r.wf(),
            r.version == version,
            r.parents == parents,
            r.cwe_1000 == cwe_1000,
    {
        let mut tax = Taxonomy { version, parents, cwe_1000, cwe_to_cwe_classes: Vec::new() };
        let n: usize = tax.parents.len();
        let mut i: usize = 0;
        while i < n
            invariant
                n == tax.parents@.len(),
                i <= n,
                keys_unique(tax.parents@),
                tax.cwe_to_cwe_classes@.len() == i,
                forall|k: int|
                    0 <= k < i ==> (#[trigger] tax.cwe_to_cwe_classes@[k]).0 == tax.parents@[k].0,
                forall|k: int|
                    0 <= k < i ==> (#[trigger] tax.cwe_to_cwe_classes@[k]).1@
                        == tax.cwe_1000@.filter(
                        |c: CWE| class_covers(tax.parents@, c, tax.parents@[k].0),
                    ),
                tax.version == version,
                tax.parents == parents,
                tax.cwe_1000 == cwe_1000,
            decreases n - i,
        {
            let key: CWE = tax.parents[i].0;
            let ghost pred = |c: CWE| class_covers(tax.parents@, c, tax.parents@[i as int].0);
            let mut classes: Vec<CWE> = Vec::new();
            let mut j: usize = 0;
            while j < tax.cwe_1000.len()
                invariant
                    j <= tax.cwe_1000@.len(),
                    i < tax.parents@.len(),
                    key == tax.parents@[i as int].0,
                    pred == (|c: CWE| class_covers(tax.parents@, c, tax.parents@[i as int].0)),
                    classes@ == tax.cwe_1000@.take(j as int).filter(pred),
                decreases tax.cwe_1000@.len() - j,
            {
                let root: CWE = tax.cwe_1000[j];
                let matched: bool = match tax.cwe_partial_cmp(&root, &key) {
                    Some(Ordering::Equal) => true,
                    Some(Ordering::Greater) => true,
                    _ => false,
                };
                proof {
                    reveal(Seq::filter);
                    assert(tax.cwe_1000@.take(j + 1 as int).drop_last() =~= tax.cwe_1000@.take(
                        j as int,
                    ));
                    assert(tax.cwe_1000@.take(j + 1 as int).last() == root);
                    assert(matched == pred(root));
                }
                if matched {
                    classes.push(root);
                }
                j += 1;
            }
            proof {
                assert(tax.cwe_1000@.take(tax.cwe_1000@.len() as int) =~= tax.cwe_1000@);
            }
            tax.cwe_to_cwe_classes.push((key, classes));
            i += 1;
        }
        tax
    }
}

/// The taxonomy order is reflexive: every CWE compares `Equal` to itself.
pub proof fn lemma_cwe_cmp_reflexive(entries: Seq<(CWE, Vec<CWE>)>, x: CWE)
    ensures
        cwe_cmp(entries, x, x) == Some(Ordering::Equal),
{
}

/// The taxonomy order is antisymmetric: whenever `a` compares `Greater` to
/// `b`, `b` compares `Less` to `a`, and conversely.
pub proof fn lemma_cwe_cmp_antisymmetric(entries: Seq<(CWE, Vec<CWE>)>, a: CWE, b: CWE)
    requires
        cwe_cmp(entries, a, b) == Some(Ordering::Greater),
    ensures
        cwe_cmp(entries, b, a) == Some(Ordering::Less),
{
}

} // verus!
