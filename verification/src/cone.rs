//! Cone hashing: a Merkle hash over each event's causal history.
//!
//! ```text
//! cone_hash(e) = hex(sha256(e.payload_bytes ++ sorted(cone_hash(p) for p in e.parents)))
//! ```
//!
//! Two events whose cones (the event and all its ancestors) are isomorphic get
//! equal hashes.

use vstd::prelude::*;
use vstd::relations::{sorted_by, total_ordering};
use crate::ids::{EventId, IdSet, Order3, ids_view, id_lt, compare_ids, strictly_sorted, lemma_id_lt_irrefl,
    lemma_id_lt_trans, lemma_id_lt_total, lemma_id_lt_asym};
use crate::idmap::IdMap;
use crate::event::{Event, EventView, concat_id_bytes};
use crate::digest::{digest_hex, digest_to_hex};
use crate::dag::{CausalDag, depth, is_topological_order, lemma_topological_order_parents_first};

verus! {

/// Non-strict `str` order on identifiers and hashes.
pub open spec fn id_le(a: Seq<char>, b: Seq<char>) -> bool {
    a == b || id_lt(a, b)
}

/// `id_le` as a relation.
pub open spec fn id_le_rel() -> spec_fn(Seq<char>, Seq<char>) -> bool {
    |a: Seq<char>, b: Seq<char>| id_le(a, b)
}

pub proof fn lemma_id_le_total()
    ensures
        total_ordering(id_le_rel()),
{
    let r = id_le_rel();
    assert forall|x: Seq<char>, y: Seq<char>| #[trigger] r(x, y) && #[trigger] r(y, x) implies x == y by {
        if x != y {
            lemma_id_lt_asym(x, y);
        }
    }
    assert forall|x: Seq<char>, y: Seq<char>, z: Seq<char>| #[trigger] r(x, y) && #[trigger] r(y, z) implies r(
        x,
        z,
    ) by {
        if x != y && y != z {
            lemma_id_lt_trans(x, y, z);
        }
    }
    assert forall|x: Seq<char>, y: Seq<char>| #[trigger] r(x, y) || #[trigger] r(y, x) by {
        lemma_id_lt_total(x, y);
    }
}

/// Sorts identifiers (or hashes) in `str` order, keeping duplicates.
pub fn sort_ids(v: &Vec<String>) -> (r: Vec<String>)
    ensures
        ids_view(r@) == ids_view(v@).sort_by(id_le_rel()),
{
    let ghost le = id_le_rel();
    let mut out: Vec<String> = Vec::new();
    let n = v.len();
    assert(ids_view(v@).subrange(0, 0) =~= ids_view(out@));
    for i in 0..n
        invariant
            n == v@.len(),
            le == id_le_rel(),
            sorted_by(ids_view(out@), le),
            ids_view(out@).to_multiset() == ids_view(v@).subrange(0, i as int).to_multiset(),
    {
        let x = v[i].clone();
        let mut pos: usize = 0;
        while pos < out.len() && compare_ids(&x, &out[pos]) != Order3::Less
            invariant
                pos <= out@.len(),
                le == id_le_rel(),
                sorted_by(ids_view(out@), le),
                forall|k: int| 0 <= k < pos ==> id_le(#[trigger] ids_view(out@)[k], x@),
            decreases out@.len() - pos,
        {
            proof {
                lemma_id_lt_total(x@, ids_view(out@)[pos as int]);
            }
            pos = pos + 1;
        }
        let ghost s = ids_view(out@);
        out.insert(pos, x);
        proof {
            let t = ids_view(out@);
            assert(t =~= s.insert(pos as int, x@));
            assert forall|a: int, b: int| 0 <= a < b < t.len() implies #[trigger] le(t[a], t[b]) by {
                if b < pos {
                    assert(le(s[a], s[b]));
                } else if a > pos {
                    assert(le(s[a - 1], s[b - 1]));
                } else if a == pos {
                    // x < s[pos] <= s[b - 1]
                    assert(id_lt(x@, s[pos as int]));
                    if b - 1 > pos {
                        assert(le(s[pos as int], s[b - 1]));
                        if s[pos as int] != s[b - 1] {
                            lemma_id_lt_trans(x@, s[pos as int], s[b - 1]);
                        }
                    }
                } else if b == pos {
                    assert(id_le(s[a], x@));
                } else {
                    assert(id_le(s[a], x@));
                    assert(id_lt(x@, s[pos as int]));
                    assert(le(s[pos as int], s[b - 1]) || b - 1 == pos);
                    assert(id_lt(x@, s[b - 1])) by {
                        if b - 1 > pos && s[pos as int] != s[b - 1] {
                            lemma_id_lt_trans(x@, s[pos as int], s[b - 1]);
                        }
                    }
                    if s[a] != x@ {
                        lemma_id_lt_trans(s[a], x@, s[b - 1]);
                    }
                }
            }
            assert(t.remove(pos as int) =~= s);
            t.to_multiset_ensures();
            v@.subrange(0, i as int).to_multiset_ensures();
            let pre = ids_view(v@).subrange(0, i as int);
            assert(ids_view(v@).subrange(0, i + 1) =~= pre.push(x@));
            pre.to_multiset_ensures();
            assert(t.to_multiset().count(x@) > 0) by {
                assert(t[pos as int] == x@);
                assert(t.contains(x@));
            }
            assert(t.to_multiset() =~= s.to_multiset().insert(x@));
        }
    }
    proof {
        assert(ids_view(v@).subrange(0, n as int) =~= ids_view(v@));
        lemma_id_le_total();
        ids_view(v@).lemma_sort_by_ensures(le);
        vstd::seq_lib::lemma_sorted_unique(ids_view(out@), ids_view(v@).sort_by(le), le);
    }
    out
}

/// The cached hashes of those of `ps` that have one, in order.
pub open spec fn parent_hashes(c: Map<Seq<char>, Seq<char>>, ps: Seq<Seq<char>>) -> Seq<Seq<char>>
    decreases ps.len(),
{
    if ps.len() == 0 {
        Seq::empty()
    } else if c.contains_key(ps.last()) {
        parent_hashes(c, ps.drop_last()).push(c[ps.last()])
    } else {
        parent_hashes(c, ps.drop_last())
    }
}

/// The cone digest from payload bytes and parent hashes.
pub open spec fn cone_digest(bytes: Seq<u8>, hs: Seq<Seq<char>>) -> Seq<char> {
    digest_hex(bytes + concat_id_bytes(hs.sort_by(id_le_rel())))
}

/// The cached hash of `k` is the digest of its payload bytes followed by the
/// cached hashes of its parents.
pub open spec fn hashed_right(m: Map<Seq<char>, EventView>, c: Map<Seq<char>, Seq<char>>, k: Seq<char>) -> bool {
    c[k] == cone_digest(m[k].payload_bytes, parent_hashes(c, m[k].parents))
}

/// The cone-hash table of a DAG: a hash for each event of defined depth (every
/// ancestor present), computed from its parents' hashes.
pub open spec fn is_cone_table(m: Map<Seq<char>, EventView>, c: Map<Seq<char>, Seq<char>>) -> bool {
    &&& forall|k: Seq<char>| #[trigger] c.contains_key(k) <==> depth(m, k) is Some
    &&& forall|k: Seq<char>| #[trigger] c.contains_key(k) ==> hashed_right(m, c, k)
}

/// Parent hashes only depend on the entries for the parents.
pub proof fn lemma_parent_hashes_agree(c1: Map<Seq<char>, Seq<char>>, c2: Map<Seq<char>, Seq<char>>, ps: Seq<Seq<char>>)
    requires
        forall|i: int|
            0 <= i < ps.len() ==> (c1.contains_key(#[trigger] ps[i]) <==> c2.contains_key(ps[i])) && (
            c1.contains_key(ps[i]) ==> c1[ps[i]] == c2[ps[i]]),
    ensures
        parent_hashes(c1, ps) == parent_hashes(c2, ps),
    decreases ps.len(),
{
    if ps.len() > 0 {
        assert forall|i: int| 0 <= i < ps.drop_last().len() implies (c1.contains_key(
            #[trigger] ps.drop_last()[i],
        ) <==> c2.contains_key(ps.drop_last()[i])) && (c1.contains_key(ps.drop_last()[i])
            ==> c1[ps.drop_last()[i]] == c2[ps.drop_last()[i]]) by {
            assert(ps.drop_last()[i] == ps[i]);
        }
        lemma_parent_hashes_agree(c1, c2, ps.drop_last());
        assert(ps.last() == ps[ps.len() - 1]);
    }
}

/// A step from `u` to a child `v` of it whose hash is in `cached`.
pub open spec fn child_step(m: Map<Seq<char>, EventView>, cached: Set<Seq<char>>, u: Seq<char>, v: Seq<char>) -> bool {
    crate::dag::parent_of(m, u, v) && cached.contains(v)
}

/// The `i`-th link of `p` is a child step.
pub open spec fn child_link(m: Map<Seq<char>, EventView>, cached: Set<Seq<char>>, p: Seq<Seq<char>>, i: int) -> bool {
    child_step(m, cached, p[i], p[i + 1])
}

/// A path of one or more child steps.
pub open spec fn is_child_path(m: Map<Seq<char>, EventView>, cached: Set<Seq<char>>, p: Seq<Seq<char>>) -> bool {
    &&& p.len() >= 2
    &&& forall|i: int| 0 <= i < p.len() - 1 ==> #[trigger] child_link(m, cached, p, i)
}

/// `b` is reached from `a` by one or more child steps through cached events.
pub open spec fn reaches_down(m: Map<Seq<char>, EventView>, cached: Set<Seq<char>>, a: Seq<char>, b: Seq<char>) -> bool {
    exists|p: Seq<Seq<char>>| #[trigger] is_child_path(m, cached, p) && p[0] == a && p.last() == b
}

/// What invalidating `changed` removes: the changed identifiers and every
/// cached descendant reached from them through cached events.
pub open spec fn invalidated(m: Map<Seq<char>, EventView>, c: Map<Seq<char>, Seq<char>>, changed: Set<Seq<char>>) -> Set<Seq<char>> {
    Set::new(
        |k: Seq<char>|
            changed.contains(k) || exists|x: Seq<char>| changed.contains(x) && #[trigger] reaches_down(m, c.dom(), x, k),
    )
}

pub proof fn lemma_reaches_down_step(m: Map<Seq<char>, EventView>, cached: Set<Seq<char>>, a: Seq<char>, b: Seq<char>)
    requires
        child_step(m, cached, a, b),
    ensures
        reaches_down(m, cached, a, b),
{
    let p = seq![a, b];
    assert(child_link(m, cached, p, 0));
    assert(is_child_path(m, cached, p));
}

pub proof fn lemma_reaches_down_extend(
    m: Map<Seq<char>, EventView>,
    cached: Set<Seq<char>>,
    a: Seq<char>,
    b: Seq<char>,
    c: Seq<char>,
)
    requires
        reaches_down(m, cached, a, b),
        child_step(m, cached, b, c),
    ensures
        reaches_down(m, cached, a, c),
{
    let p = choose|p: Seq<Seq<char>>| #[trigger] is_child_path(m, cached, p) && p[0] == a && p.last() == b;
    let q = p.push(c);
    assert forall|i: int| 0 <= i < q.len() - 1 implies #[trigger] child_link(m, cached, q, i) by {
        if i < p.len() - 1 {
            assert(q[i] == p[i] && q[i + 1] == p[i + 1]);
            assert(child_link(m, cached, p, i));
        }
    }
    assert(is_child_path(m, cached, q));
}

proof fn lemma_child_path_stays(
    m: Map<Seq<char>, EventView>,
    cached: Set<Seq<char>>,
    p: Seq<Seq<char>>,
    r: Set<Seq<char>>,
    k: int,
)
    requires
        is_child_path(m, cached, p),
        0 <= k <= p.len() - 1,
        r.contains(p[k]),
        forall|u: Seq<char>, v: Seq<char>| r.contains(u) && #[trigger] child_step(m, cached, u, v) ==> r.contains(v),
    ensures
        r.contains(p.last()),
    decreases p.len() - k,
{
    if k < p.len() - 1 {
        assert(child_link(m, cached, p, k));
        lemma_child_path_stays(m, cached, p, r, k + 1);
    }
}

/// A set closed under child steps holds everything reached from its members.
pub proof fn lemma_reaches_down_closed(m: Map<Seq<char>, EventView>, cached: Set<Seq<char>>, a: Seq<char>, b: Seq<char>, r: Set<Seq<char>>)
    requires
        r.contains(a),
        reaches_down(m, cached, a, b),
        forall|u: Seq<char>, v: Seq<char>| r.contains(u) && #[trigger] child_step(m, cached, u, v) ==> r.contains(v),
    ensures
        r.contains(b),
{
    let p = choose|p: Seq<Seq<char>>| #[trigger] is_child_path(m, cached, p) && p[0] == a && p.last() == b;
    lemma_child_path_stays(m, cached, p, r, 0);
}

/// Every present parent of `k` is in `c`.
pub open spec fn parents_cached(m: Map<Seq<char>, EventView>, c: Set<Seq<char>>, k: Seq<char>) -> bool {
    forall|p: Seq<char>| #[trigger] m[k].parents.contains(p) && m.contains_key(p) ==> c.contains(p)
}

/// The `i`-th entry of `l` is present, not clean, and each present parent of
/// it is clean or listed earlier.
pub open spec fn dirty_at(m: Map<Seq<char>, EventView>, clean: Set<Seq<char>>, l: Seq<Seq<char>>, i: int) -> bool {
    &&& m.contains_key(l[i])
    &&& !clean.contains(l[i])
    &&& parents_cached(m, clean.union(l.subrange(0, i).to_set()), l[i])
}

/// `l` lists events outside `clean`, each after its present parents outside
/// `clean`.
pub open spec fn dirty_order(m: Map<Seq<char>, EventView>, clean: Set<Seq<char>>, l: Seq<Seq<char>>) -> bool {
    forall|i: int| 0 <= i < l.len() ==> #[trigger] dirty_at(m, clean, l, i)
}

/// `k` can be rehashed from the clean hashes: it heads no endless chain of
/// present parents outside `clean`.
pub open spec fn dirty_ready(m: Map<Seq<char>, EventView>, clean: Set<Seq<char>>, k: Seq<char>) -> bool {
    exists|l: Seq<Seq<char>>| #[trigger] dirty_order(m, clean, l) && l.contains(k)
}

/// `k` has a cached hash that some other event shares.
pub open spec fn shares_hash(c: Map<Seq<char>, Seq<char>>, k: Seq<char>) -> bool {
    &&& c.contains_key(k)
    &&& exists|k2: Seq<char>| k2 != k && #[trigger] c.contains_key(k2) && c[k2] == c[k]
}

/// `g` is a whole class of events with one cached hash, in increasing order,
/// with more than one member.
pub open spec fn is_hash_group(c: Map<Seq<char>, Seq<char>>, g: Seq<Seq<char>>) -> bool {
    &&& g.len() > 1
    &&& strictly_sorted(g)
    &&& c.contains_key(g[0])
    &&& forall|k: Seq<char>| #[trigger] g.contains(k) <==> c.contains_key(k) && c[k] == c[g[0]]
}

/// `c1` is what recomputing the missing hashes of `c0` gives: every hash of
/// `c0` kept, the dirty-ready events added, each computed from its parents'
/// hashes.
pub open spec fn dirty_recomputed(m: Map<Seq<char>, EventView>, c0: Map<Seq<char>, Seq<char>>, c1: Map<Seq<char>, Seq<char>>) -> bool {
    &&& forall|k: Seq<char>| #[trigger] c0.contains_key(k) ==> c1.contains_key(k) && c1[k] == c0[k]
    &&& forall|k: Seq<char>| #[trigger] c1.contains_key(k) <==> c0.contains_key(k) || dirty_ready(m, c0.dom(), k)
    &&& forall|k: Seq<char>| #[trigger] c1.contains_key(k) && !c0.contains_key(k) ==> hashed_right(m, c1, k)
}

/// Computes and caches cone hashes for a causal DAG.
pub struct ConeHasher {
    cache: IdMap<String>,
}

impl View for ConeHasher {
    type V = Map<Seq<char>, Seq<char>>;

    closed spec fn view(&self) -> Map<Seq<char>, Seq<char>> {
        self.cache@
    }
}

impl ConeHasher {
    /// Well-formedness of the cache.
    pub closed spec fn wf(&self) -> bool {
        self.cache.wf()
    }

    /// An empty hasher.
    pub fn new() -> (r: Self)
        ensures
            r.wf(),
            r@ == Map::<Seq<char>, Seq<char>>::empty(),
    {
        ConeHasher { cache: IdMap::new() }
    }

    /// The cone hash cached for `id`.
    pub fn get(&self, id: &String) -> (r: Option<&String>)
        requires
            self.wf(),
        ensures
            match r {
                Some(h) => self@.contains_key(id@) && h@ == self@[id@],
                None => !self@.contains_key(id@),
            },
    {
        self.cache.get(id)
    }

    /// The groups of events that share a cone hash (more than one event
    /// each), every group in increasing order and the groups ordered by
    /// their first member.
    pub fn isomorphic_groups(&self) -> (r: Vec<Vec<EventId>>)
        requires
            self.wf(),
        ensures
            forall|i: int| 0 <= i < r@.len() ==> is_hash_group(self@, #[trigger] ids_view(r@[i]@)),
            forall|k: Seq<char>|
                #[trigger] shares_hash(self@, k) ==> exists|i: int|
                    0 <= i < r@.len() && #[trigger] ids_view(r@[i]@).contains(k),
            forall|i: int, j: int|
                0 <= i < j < r@.len() ==> id_lt(ids_view(r@[i]@)[0], ids_view(r@[j]@)[0]),
    {
        let ghost c = self@;
        let ghost ks = self.cache.keys_view();
        proof {
            self.cache.lemma_view();
        }
        let n = self.cache.len();
        let mut r: Vec<Vec<EventId>> = Vec::new();
        let mut i: usize = 0;
        while i < n
            invariant
                i <= n,
                self.wf(),
                c == self@,
                ks == self.cache.keys_view(),
                n == ks.len(),
                n == c.len(),
                strictly_sorted(ks),
                c.dom() == ks.to_set(),
                forall|q: int| 0 <= q < ks.len() ==> #[trigger] c.contains_key(ks[q]),
                forall|i: int| 0 <= i < r@.len() ==> is_hash_group(c, #[trigger] ids_view(r@[i]@)),
                forall|a: int| 0 <= a < r@.len() ==> exists|q: int|
                    0 <= q < i && ks[q] == #[trigger] ids_view(r@[a]@)[0],
                forall|a: int, b: int|
                    0 <= a < b < r@.len() ==> id_lt(ids_view(r@[a]@)[0], ids_view(r@[b]@)[0]),
                forall|q: int, j: int|
                    0 <= q < n && 0 <= j < i && shares_hash(c, #[trigger] ks[q]) && #[trigger] c[ks[j]] == c[ks[q]]
                        ==> exists|gi: int| 0 <= gi < r@.len() && #[trigger] ids_view(r@[gi]@).contains(ks[q]),
            decreases n - i,
        {
            let h = self.cache.val_at(i);
            let mut earlier = false;
            for j in 0..i
                invariant
                    self.wf(),
                    c == self@,
                    ks == self.cache.keys_view(),
                    n == ks.len(),
                    n == c.len(),
                    i < n,
                    h@ == c[ks[i as int]],
                    earlier == exists|q: int| 0 <= q < j && #[trigger] c[ks[q]] == h@,
            {
                if compare_ids(self.cache.val_at(j), h) == Order3::Equal {
                    earlier = true;
                }
            }
            if !earlier {
                let mut g: Vec<EventId> = Vec::new();
                for j in i..n
                    invariant
                        self.wf(),
                        c == self@,
                        ks == self.cache.keys_view(),
                        n == ks.len(),
                        n == c.len(),
                        strictly_sorted(ks),
                        i < n,
                        i <= j,
                        h@ == c[ks[i as int]],
                        strictly_sorted(ids_view(g@)),
                        j > i ==> ids_view(g@).len() >= 1 && ids_view(g@)[0] == ks[i as int],
                        forall|t: int| 0 <= t < ids_view(g@).len() ==> exists|q: int|
                            i <= q < j && ks[q] == #[trigger] ids_view(g@)[t],
                        forall|k: Seq<char>| #[trigger] ids_view(g@).contains(k) <==> exists|q: int|
                            i <= q < j && ks[q] == k && c[ks[q]] == h@,
                {
                    let v = self.cache.val_at(j);
                    if compare_ids(v, h) == Order3::Equal {
                        let ghost gb = ids_view(g@);
                        let k = self.cache.key_at(j);
                        g.push(k.clone());
                        proof {
                            let gn = ids_view(g@);
                            assert(gn =~= gb.push(ks[j as int]));
                            assert forall|a: int, b: int| 0 <= a < b < gn.len() implies id_lt(#[trigger] gn[a], #[trigger] gn[b]) by {
                                if b == gb.len() {
                                    let q = choose|q: int| i <= q < j && ks[q] == #[trigger] gb[a];
                                    assert(id_lt(ks[q], ks[j as int]));
                                } else {
                                    assert(id_lt(gb[a], gb[b]));
                                }
                            }
                            assert forall|t: int| 0 <= t < gn.len() implies exists|q: int|
                                i <= q < j + 1 && ks[q] == #[trigger] gn[t] by {
                                if t < gb.len() {
                                    let q = choose|q: int| i <= q < j && ks[q] == #[trigger] gb[t];
                                    assert(ks[q] == gn[t]);
                                } else {
                                    assert(ks[j as int] == gn[t]);
                                }
                            }
                            assert forall|k: Seq<char>| #[trigger] gn.contains(k) <==> exists|q: int|
                                i <= q < j + 1 && ks[q] == k && c[ks[q]] == h@ by {
                                if gn.contains(k) {
                                    let t = choose|t: int| 0 <= t < gn.len() && gn[t] == k;
                                    if t < gb.len() {
                                        assert(gb.contains(k));
                                    } else {
                                        assert(ks[j as int] == k && c[ks[j as int]] == h@);
                                    }
                                }
                                if exists|q: int| i <= q < j + 1 && ks[q] == k && c[ks[q]] == h@ {
                                    let q = choose|q: int| i <= q < j + 1 && ks[q] == k && c[ks[q]] == h@;
                                    if q < j {
                                        assert(gb.contains(k));
                                        let t = choose|t: int| 0 <= t < gb.len() && gb[t] == k;
                                        assert(gn[t] == k);
                                    } else {
                                        assert(gn[gb.len() as int] == k);
                                    }
                                }
                            }
                            if j == i {
                                assert(gb.len() == 0) by {
                                    if gb.len() > 0 {
                                        let q = choose|q: int| i <= q < j && ks[q] == #[trigger] gb[0];
                                    }
                                }
                                assert(gn[0] == ks[i as int]);
                            } else {
                                assert(gn[0] == gb[0]);
                            }
                        }
                    } else {
                        proof {
                            let gn = ids_view(g@);
                            assert forall|k: Seq<char>| #[trigger] gn.contains(k) <==> exists|q: int|
                                i <= q < j + 1 && ks[q] == k && c[ks[q]] == h@ by {
                                if exists|q: int| i <= q < j + 1 && ks[q] == k && c[ks[q]] == h@ {
                                    let q = choose|q: int| i <= q < j + 1 && ks[q] == k && c[ks[q]] == h@;
                                    assert(q < j);
                                }
                            }
                            if j == i {
                                assert(false);
                            }
                        }
                    }
                }
                let ghost gv = ids_view(g@);
                proof {
                    // the class of `h` starts at `i`
                    assert forall|k: Seq<char>| #[trigger] gv.contains(k) <==> c.contains_key(k) && c[k] == h@ by {
                        if c.contains_key(k) && c[k] == h@ {
                            assert(ks.to_set().contains(k));
                            let q = choose|q: int| 0 <= q < ks.len() && ks[q] == k;
                            if q < i {
                                assert(c[ks[q]] == h@);
                                assert(false);
                            }
                        }
                        if gv.contains(k) {
                            let q = choose|q: int| i <= q < n && ks[q] == k && c[ks[q]] == h@;
                        }
                    }
                }
                let ghost rb = r@;
                if g.len() > 1 {
                    r.push(g);
                    proof {
                        assert(ids_view(r@[rb.len() as int]@) == gv);
                        assert forall|a: int| 0 <= a < r@.len() implies is_hash_group(c, #[trigger] ids_view(r@[a]@)) by {
                            if a < rb.len() {
                                assert(r@[a] == rb[a]);
                            }
                        }
                        assert forall|a: int| 0 <= a < r@.len() implies exists|q: int|
                            0 <= q < i + 1 && ks[q] == #[trigger] ids_view(r@[a]@)[0] by {
                            if a < rb.len() {
                                assert(r@[a] == rb[a]);
                                let q = choose|q: int| 0 <= q < i && ks[q] == #[trigger] ids_view(rb[a]@)[0];
                            } else {
                                assert(ks[i as int] == ids_view(r@[a]@)[0]);
                            }
                        }
                        assert forall|a: int, b: int|
                            0 <= a < b < r@.len() implies id_lt(ids_view(r@[a]@)[0], ids_view(r@[b]@)[0]) by {
                            assert(r@[a] == rb[a]);
                            if b < rb.len() {
                                assert(r@[b] == rb[b]);
                            } else {
                                let q = choose|q: int| 0 <= q < i && ks[q] == #[trigger] ids_view(rb[a]@)[0];
                                assert(id_lt(ks[q], ks[i as int]));
                            }
                        }
                        assert forall|q: int, j: int|
                            0 <= q < n && 0 <= j < i + 1 && shares_hash(c, #[trigger] ks[q]) && #[trigger] c[ks[j]]
                                == c[ks[q]] implies exists|gi: int|
                            0 <= gi < r@.len() && #[trigger] ids_view(r@[gi]@).contains(ks[q]) by {
                            if j < i {
                                let gi = choose|gi: int| 0 <= gi < rb.len() && #[trigger] ids_view(rb[gi]@).contains(ks[q]);
                                assert(r@[gi] == rb[gi]);
                            } else {
                                assert(gv.contains(ks[q]));
                                assert(ids_view(r@[rb.len() as int]@).contains(ks[q]));
                            }
                        }
                    }
                } else {
                    proof {
                        assert forall|q: int, j: int|
                            0 <= q < n && 0 <= j < i + 1 && shares_hash(c, #[trigger] ks[q]) && #[trigger] c[ks[j]]
                                == c[ks[q]] implies exists|gi: int|
                            0 <= gi < r@.len() && #[trigger] ids_view(r@[gi]@).contains(ks[q]) by {
                            if j == i {
                                let k2 = choose|k2: Seq<char>| k2 != ks[q] && #[trigger] c.contains_key(k2) && c[k2] == c[ks[q]];
                                assert(gv.contains(ks[q]));
                                assert(gv.contains(k2));
                                let t1 = choose|t: int| 0 <= t < gv.len() && gv[t] == ks[q];
                                let t2 = choose|t: int| 0 <= t < gv.len() && gv[t] == k2;
                                assert(false);
                            }
                        }
                        assert forall|a: int| 0 <= a < r@.len() implies exists|q: int|
                            0 <= q < i + 1 && ks[q] == #[trigger] ids_view(r@[a]@)[0] by {
                            let q = choose|q: int| 0 <= q < i && ks[q] == #[trigger] ids_view(r@[a]@)[0];
                        }
                    }
                }
            } else {
                proof {
                    let q0 = choose|q: int| 0 <= q < i && #[trigger] c[ks[q]] == h@;
                    assert forall|q: int, j: int|
                        0 <= q < n && 0 <= j < i + 1 && shares_hash(c, #[trigger] ks[q]) && #[trigger] c[ks[j]]
                            == c[ks[q]] implies exists|gi: int|
                        0 <= gi < r@.len() && #[trigger] ids_view(r@[gi]@).contains(ks[q]) by {
                        if j == i {
                            assert(c[ks[q0]] == c[ks[q]]);
                        }
                    }
                    assert forall|a: int| 0 <= a < r@.len() implies exists|q: int|
                        0 <= q < i + 1 && ks[q] == #[trigger] ids_view(r@[a]@)[0] by {
                        let q = choose|q: int| 0 <= q < i && ks[q] == #[trigger] ids_view(r@[a]@)[0];
                    }
                }
            }
            i = i + 1;
        }
        proof {
            assert forall|k: Seq<char>| #[trigger] shares_hash(c, k) implies exists|i: int|
                0 <= i < r@.len() && #[trigger] ids_view(r@[i]@).contains(k) by {
                assert(ks.to_set().contains(k));
                let q = choose|q: int| 0 <= q < ks.len() && ks[q] == k;
                assert(c[ks[q]] == c[ks[q]]);
            }
        }
        r
    }

    /// Discards all cached hashes.
    pub fn clear(&mut self)
        ensures
            final(self).wf(),
            final(self)@ == Map::<Seq<char>, Seq<char>>::empty(),
    {
        self.cache.clear();
    }

    /// The cone digest of `e` from the hashes now cached for its parents.
    fn hash_event(&self, e: &Event) -> (r: String)
        requires
            self.wf(),
        ensures
            r@ == cone_digest(e@.payload_bytes, parent_hashes(self@, e@.parents)),
            r@.len() == 64,
    {
        let mut hs: Vec<String> = Vec::new();
        let n = e.parents.len();
        let ghost ps = e.parents@;
        for j in 0..n
            invariant
                n == ps.len(),
                ps == e.parents@,
                self.wf(),
                ids_view(hs@) == parent_hashes(self@, ps.subrange(0, j as int)),
        {
            let p = e.parents.get(j);
            proof {
                let pre = ps.subrange(0, j + 1);
                assert(pre.drop_last() =~= ps.subrange(0, j as int));
                assert(pre.last() == p@);
            }
            match self.cache.get(p) {
                Some(h) => {
                    let ghost before = ids_view(hs@);
                    hs.push(h.clone());
                    assert(ids_view(hs@) =~= before.push(h@));
                },
                None => {},
            }
        }
        assert(ps.subrange(0, n as int) =~= ps);
        let sorted = sort_ids(&hs);
        let mut buf: Vec<u8> = Vec::new();
        let pb = e.payload_bytes();
        let nb = pb.len();
        for i in 0..nb
            invariant
                nb == pb@.len(),
                buf@ == pb@.subrange(0, i as int),
        {
            buf.push(pb[i]);
            assert(pb@.subrange(0, i + 1) =~= pb@.subrange(0, i as int).push(pb@[i as int]));
        }
        assert(pb@.subrange(0, nb as int) =~= pb@);
        let ns = sorted.len();
        let ghost sv = ids_view(sorted@);
        for i in 0..ns
            invariant
                ns == sorted@.len(),
                sv == ids_view(sorted@),
                buf@ == pb@ + concat_id_bytes(sv.subrange(0, i as int)),
        {
            let hb = sorted[i].as_str().as_bytes();
            let ghost before = buf@;
            let m = hb.len();
            for j in 0..m
                invariant
                    m == hb@.len(),
                    buf@ == before + hb@.subrange(0, j as int),
            {
                buf.push(hb[j]);
                assert(hb@.subrange(0, j + 1) =~= hb@.subrange(0, j as int).push(hb@[j as int]));
                assert(buf@ =~= before + hb@.subrange(0, j + 1));
            }
            proof {
                assert(hb@.subrange(0, m as int) =~= hb@);
                let s = sv.subrange(0, i + 1);
                assert(s.drop_last() =~= sv.subrange(0, i as int));
                assert(s.last() == sv[i as int]);
                assert(buf@ =~= pb@ + concat_id_bytes(sv.subrange(0, i + 1)));
            }
        }
        assert(sv.subrange(0, ns as int) =~= sv);
        digest_to_hex(buf.as_slice())
    }

    /// Removes the hashes of `changed` and of every cached descendant reached
    /// from them through cached events.
    pub fn invalidate(&mut self, changed: &IdSet, dag: &CausalDag)
        requires
            old(self).wf(),
            changed.wf(),
            dag.wf(),
        ensures
            final(self).wf(),
            final(self)@ == old(self)@.remove_keys(invalidated(dag@, old(self)@, changed.set())),
    {
        let ghost m = dag@;
        let ghost c0 = self@;
        let ghost cd = c0.dom();
        let ghost inv = invalidated(m, c0, changed.set());
        let ghost u = changed.set().union(cd);
        proof {
            self.cache.lemma_view();
            changed.lemma_len();
        }
        let mut w: Vec<String> = changed.to_vec();
        let mut seen = IdSet::new();
        proof {
            assert forall|k: Seq<char>| changed.set().contains(k) implies seen.set().contains(k)
                || #[trigger] ids_view(w@).contains(k) by {
                assert(ids_view(w@) == changed@);
            }
        }
        while w.len() > 0
            invariant
                self.wf(),
                dag.wf(),
                m == dag@,
                cd == c0.dom(),
                cd.finite(),
                inv == invalidated(m, c0, changed.set()),
                u == changed.set().union(cd),
                u.finite(),
                seen.wf(),
                self@ == c0.remove_keys(seen.set()),
                forall|k: Seq<char>| #[trigger] seen.set().contains(k) ==> inv.contains(k),
                forall|i: int| 0 <= i < ids_view(w@).len() ==> inv.contains(#[trigger] ids_view(w@)[i]),
                forall|k: Seq<char>|
                    changed.set().contains(k) ==> seen.set().contains(k) || #[trigger] ids_view(w@).contains(k),
                forall|a: Seq<char>, v: Seq<char>|
                    seen.set().contains(a) && #[trigger] child_step(m, cd, a, v) ==> seen.set().contains(v)
                        || ids_view(w@).contains(v),
            decreases u.len() - seen@.len(), w@.len(),
        {
            let ghost w_before = ids_view(w@);
            let x = w.pop().unwrap();
            proof {
                assert(w_before =~= ids_view(w@).push(x@));
                assert(w_before[w_before.len() - 1] == x@);
                seen.lemma_len();
                assert forall|k: Seq<char>| seen.set().contains(k) implies u.contains(k) by {
                    assert(inv.contains(k));
                    if !changed.set().contains(k) {
                        let y = choose|y: Seq<char>| changed.set().contains(y) && #[trigger] reaches_down(m, cd, y, k);
                        let p = choose|p: Seq<Seq<char>>| #[trigger] is_child_path(m, cd, p) && p[0] == y && p.last() == k;
                        assert(child_link(m, cd, p, p.len() - 2));
                    }
                }
                vstd::set_lib::lemma_len_subset(seen.set(), u);
                assert forall|k: Seq<char>|
                    changed.set().contains(k) implies seen.set().contains(k) || #[trigger] ids_view(w@).contains(k)
                    || k == x@ by {
                    if w_before.contains(k) && k != x@ {
                        let i = choose|i: int| 0 <= i < w_before.len() && w_before[i] == k;
                        assert(ids_view(w@)[i] == k);
                    }
                }
                assert forall|a: Seq<char>, v: Seq<char>|
                    seen.set().contains(a) && #[trigger] child_step(m, cd, a, v) implies seen.set().contains(v)
                    || ids_view(w@).contains(v) || v == x@ by {
                    if w_before.contains(v) && v != x@ {
                        let i = choose|i: int| 0 <= i < w_before.len() && w_before[i] == v;
                        assert(ids_view(w@)[i] == v);
                    }
                }
                assert forall|i: int| 0 <= i < ids_view(w@).len() implies inv.contains(#[trigger] ids_view(w@)[i]) by {
                    assert(ids_view(w@)[i] == w_before[i]);
                }
            }
            if !seen.contains(&x) {
                let ghost seen_before = seen.set();
                seen.insert(x.clone());
                self.cache.remove(&x);
                proof {
                    assert(self@ =~= c0.remove_keys(seen.set()));
                    assert forall|k: Seq<char>| seen.set().contains(k) implies u.contains(k) by {
                        assert(inv.contains(k));
                        if !changed.set().contains(k) {
                            let y = choose|y: Seq<char>| changed.set().contains(y) && #[trigger] reaches_down(m, cd, y, k);
                            let p = choose|p: Seq<Seq<char>>| #[trigger] is_child_path(m, cd, p) && p[0] == y && p.last() == k;
                            assert(child_link(m, cd, p, p.len() - 2));
                        }
                    }
                    seen.lemma_len();
                    vstd::set_lib::lemma_len_subset(seen.set(), u);
                }
                let kids = dag.children_of(&x);
                let nk = kids.len();
                let ghost w_mid = ids_view(w@);
                for j in 0..nk
                    invariant
                        nk == kids@.len(),
                        kids.wf(),
                        kids.set() == crate::dag::children_set(m, x@),
                        self.wf(),
                        self@ == c0.remove_keys(seen.set()),
                        seen.set().contains(x@),
                        inv == invalidated(m, c0, changed.set()),
                        inv.contains(x@),
                        cd == c0.dom(),
                        ids_view(w@).len() >= w_mid.len(),
                        ids_view(w@).subrange(0, w_mid.len() as int) == w_mid,
                        forall|i: int| 0 <= i < ids_view(w@).len() ==> inv.contains(#[trigger] ids_view(w@)[i]),
                        forall|q: int|
                            0 <= q < j && child_step(m, cd, x@, #[trigger] kids@[q]) ==> seen.set().contains(
                                kids@[q],
                            ) || ids_view(w@).contains(kids@[q]),
                {
                    let c = kids.get(j);
                    let ghost wb = ids_view(w@);
                    if self.cache.contains_key(c) {
                        w.push(c.clone());
                        proof {
                            assert(ids_view(w@) =~= wb.push(c@));
                            assert(kids.set().contains(c@));
                            assert(child_step(m, cd, x@, c@));
                            if changed.set().contains(x@) {
                                lemma_reaches_down_step(m, cd, x@, c@);
                            } else {
                                let y = choose|y: Seq<char>| changed.set().contains(y) && #[trigger] reaches_down(m, cd, y, x@);
                                lemma_reaches_down_extend(m, cd, y, x@, c@);
                            }
                            assert(inv.contains(c@));
                            assert forall|q: int|
                                0 <= q < j + 1 && child_step(m, cd, x@, #[trigger] kids@[q]) implies seen.set().contains(
                                kids@[q],
                            ) || ids_view(w@).contains(kids@[q]) by {
                                if q < j {
                                    if wb.contains(kids@[q]) {
                                        let i = choose|i: int| 0 <= i < wb.len() && wb[i] == kids@[q];
                                        assert(ids_view(w@)[i] == kids@[q]);
                                    }
                                } else {
                                    assert(ids_view(w@)[wb.len() as int] == kids@[q]);
                                }
                            }
                            assert(ids_view(w@).subrange(0, w_mid.len() as int) =~= w_mid);
                        }
                    }
                }
                proof {
                    assert forall|v: Seq<char>| #[trigger] child_step(m, cd, x@, v) implies seen.set().contains(v)
                        || ids_view(w@).contains(v) by {
                        assert(kids.set().contains(v));
                        let q = choose|q: int| 0 <= q < nk && kids@[q] == v;
                    }
                    assert forall|v: Seq<char>| w_mid.contains(v) implies #[trigger] ids_view(w@).contains(v) by {
                        let i = choose|i: int| 0 <= i < w_mid.len() && w_mid[i] == v;
                        assert(ids_view(w@)[i] == v);
                    }
                }
            }
        }
        proof {
            assert(ids_view(w@).len() == 0);
            assert forall|k: Seq<char>| changed.set().contains(k) implies #[trigger] seen.set().contains(k) by {
                if !seen.set().contains(k) {
                    assert(ids_view(w@).contains(k));
                }
            }
            assert forall|a: Seq<char>, v: Seq<char>|
                seen.set().contains(a) && #[trigger] child_step(m, cd, a, v) implies seen.set().contains(v) by {
                if !seen.set().contains(v) {
                    assert(ids_view(w@).contains(v));
                }
            }
            assert forall|k: Seq<char>| inv.contains(k) implies #[trigger] seen.set().contains(k) by {
                if !changed.set().contains(k) {
                    let y = choose|y: Seq<char>| changed.set().contains(y) && #[trigger] reaches_down(m, cd, y, k);
                    assert(seen.set().contains(y));
                    lemma_reaches_down_closed(m, cd, y, k, seen.set());
                }
            }
            assert(seen.set() =~= inv);
        }
    }

    /// True iff every parent of `e` present in `dag` has a cached hash.
    fn parents_all_cached(&self, e: &Event, dag: &CausalDag) -> (b: bool)
        requires
            self.wf(),
            dag.wf(),
            e.wf(),
        ensures
            b == forall|p: Seq<char>|
                #[trigger] e@.parents.contains(p) && dag@.contains_key(p) ==> self@.contains_key(p),
    {
        let n = e.parents.len();
        let ghost ps = e.parents@;
        for j in 0..n
            invariant
                n == ps.len(),
                ps == e.parents@,
                self.wf(),
                dag.wf(),
                forall|q: int| 0 <= q < j && dag@.contains_key(#[trigger] ps[q]) ==> self@.contains_key(ps[q]),
        {
            let p = e.parents.get(j);
            if dag.contains(p) && !self.cache.contains_key(p) {
                assert(ps[j as int] == p@);
                assert(ps.contains(p@));
                assert(e@.parents.contains(p@) && dag@.contains_key(p@) && !self@.contains_key(p@));
                return false;
            }
        }
        proof {
            assert forall|p: Seq<char>| #[trigger] ps.contains(p) && dag@.contains_key(p) implies self@.contains_key(p) by {
                let q = choose|q: int| 0 <= q < ps.len() && ps[q] == p;
            }
        }
        true
    }

    /// Hashes every event that is missing from the cache and whose present
    /// parents are cached or get hashed first; cached hashes stay as they are.
    pub fn compute_dirty(&mut self, dag: &CausalDag)
        requires
            old(self).wf(),
            dag.wf(),
        ensures
            final(self).wf(),
            dirty_recomputed(dag@, old(self)@, final(self)@),
    {
        let ghost m = dag@;
        let ghost c0 = self@;
        let ghost clean = c0.dom();
        let ghost mut l: Seq<Seq<char>> = Seq::empty();
        proof {
            dag.lemma_view();
        }
        let n = dag.len();
        let mut progress = true;
        while progress
            invariant
                self.wf(),
                dag.wf(),
                m == dag@,
                n == m.len(),
                m.dom().finite(),
                clean == c0.dom(),
                forall|k: Seq<char>| #[trigger] c0.contains_key(k) ==> self@.contains_key(k) && self@[k] == c0[k],
                forall|k: Seq<char>| #[trigger] self@.contains_key(k) <==> c0.contains_key(k) || l.contains(k),
                dirty_order(m, clean, l),
                l.no_duplicates(),
                forall|k: Seq<char>|
                    #[trigger] l.contains(k) ==> hashed_right(m, self@, k) && parents_cached(m, self@.dom(), k),
                l.len() <= m.len(),
                !progress ==> forall|k: Seq<char>|
                    #[trigger] m.contains_key(k) && !self@.contains_key(k) ==> !parents_cached(m, self@.dom(), k),
            decreases (m.len() - l.len()) + if progress { 1int } else { 0int },
        {
            let ghost l0 = l;
            progress = false;
            for i in 0..n
                invariant
                    self.wf(),
                    dag.wf(),
                    m == dag@,
                    n == m.len(),
                    m.dom().finite(),
                    clean == c0.dom(),
                    forall|k: Seq<char>| #[trigger] c0.contains_key(k) ==> self@.contains_key(k) && self@[k] == c0[k],
                    forall|k: Seq<char>| #[trigger] self@.contains_key(k) <==> c0.contains_key(k) || l.contains(k),
                    dirty_order(m, clean, l),
                    l.no_duplicates(),
                    forall|k: Seq<char>|
                        #[trigger] l.contains(k) ==> hashed_right(m, self@, k) && parents_cached(m, self@.dom(), k),
                    l.len() >= l0.len(),
                    l.len() <= m.len(),
                    l.subrange(0, l0.len() as int) == l0,
                    progress == (l.len() > l0.len()),
                    !progress ==> forall|q: int|
                        0 <= q < i ==> self@.contains_key(#[trigger] dag.keys_view()[q]) || !parents_cached(
                            m,
                            self@.dom(),
                            dag.keys_view()[q],
                        ),
            {
                let id = dag.key_at(i);
                if !self.cache.contains_key(id) {
                    let e = dag.event_at(i);
                    if self.parents_all_cached(e, dag) {
                        let h = self.hash_event(e);
                        let ghost cb = self@;
                        let ghost lb = l;
                        proof {
                            assert(parents_cached(m, cb.dom(), id@));
                            assert(!e@.parents.contains(id@));
                        }
                        self.cache.insert(id.clone(), h);
                        proof {
                            l = lb.push(id@);
                            let c1 = self@;
                            assert(c1 == cb.insert(id@, h@));
                            // the new entry is computed from the cached parents
                            assert forall|q: int| 0 <= q < e@.parents.len() implies (c1.contains_key(
                                #[trigger] e@.parents[q],
                            ) <==> cb.contains_key(e@.parents[q])) && (c1.contains_key(e@.parents[q])
                                ==> c1[e@.parents[q]] == cb[e@.parents[q]]) by {
                                assert(e@.parents.contains(e@.parents[q]));
                            }
                            lemma_parent_hashes_agree(c1, cb, e@.parents);
                            // earlier entries keep their parents' hashes
                            assert forall|k: Seq<char>| #[trigger] l.contains(k) implies hashed_right(m, c1, k)
                                && parents_cached(m, c1.dom(), k) by {
                                if k != id@ {
                                    assert(lb.contains(k)) by {
                                        let j = choose|j: int| 0 <= j < l.len() && l[j] == k;
                                        assert(lb[j] == k);
                                    }
                                    let ps = m[k].parents;
                                    assert forall|q: int| 0 <= q < ps.len() implies (c1.contains_key(#[trigger] ps[q])
                                        <==> cb.contains_key(ps[q])) && (c1.contains_key(ps[q]) ==> c1[ps[q]]
                                        == cb[ps[q]]) by {
                                        assert(ps.contains(ps[q]));
                                    }
                                    lemma_parent_hashes_agree(c1, cb, ps);
                                } else {
                                    assert(l[lb.len() as int] == k);
                                }
                            }
                            assert(!lb.contains(id@));
                            assert(!c0.contains_key(id@));
                            assert forall|j: int| 0 <= j < l.len() implies #[trigger] dirty_at(m, clean, l, j) by {
                                if j < lb.len() {
                                    assert(dirty_at(m, clean, lb, j));
                                    assert(l.subrange(0, j) =~= lb.subrange(0, j));
                                } else {
                                    assert(l.subrange(0, j) =~= lb);
                                    assert forall|p: Seq<char>| #[trigger] m[l[j]].parents.contains(p) && m.contains_key(p)
                                        implies clean.union(l.subrange(0, j).to_set()).contains(p) by {
                                        assert(cb.contains_key(p));
                                        if !c0.contains_key(p) {
                                            assert(lb.contains(p));
                                        }
                                    }
                                }
                            }
                            assert(l.subrange(0, l0.len() as int) =~= l0) by {
                                assert(lb.subrange(0, l0.len() as int) == l0);
                            }
                            assert forall|k: Seq<char>| #[trigger] c1.contains_key(k) <==> c0.contains_key(k)
                                || l.contains(k) by {
                                if lb.contains(k) {
                                    let j = choose|j: int| 0 <= j < lb.len() && lb[j] == k;
                                    assert(l[j] == k);
                                }
                                if l.contains(k) && k != id@ {
                                    let j = choose|j: int| 0 <= j < l.len() && l[j] == k;
                                    assert(lb[j] == k);
                                }
                                if k == id@ {
                                    assert(l[lb.len() as int] == k);
                                }
                            }
                            // every listed event is present, so the list fits in the DAG
                            assert forall|k: Seq<char>| l.to_set().contains(k) implies m.dom().contains(k) by {
                                let j = choose|j: int| 0 <= j < l.len() && l[j] == k;
                                assert(dirty_at(m, clean, l, j));
                            }
                            assert(l.no_duplicates()) by {
                                assert forall|a: int, b: int| 0 <= a < l.len() && 0 <= b < l.len() && a != b
                                    implies l[a] != l[b] by {
                                    if a < lb.len() && b < lb.len() {
                                        assert(lb[a] != lb[b]);
                                    } else if a < lb.len() {
                                        assert(lb.contains(lb[a]));
                                    } else {
                                        assert(lb.contains(lb[b]));
                                    }
                                }
                            }
                            l.unique_seq_to_set();
                            vstd::set_lib::lemma_len_subset(l.to_set(), m.dom());
                        }
                        progress = true;
                    }
                }
            }
            proof {
                dag.lemma_view();
                if !progress {
                    assert forall|k: Seq<char>| #[trigger] m.contains_key(k) && !self@.contains_key(k) implies !parents_cached(
                        m,
                        self@.dom(),
                        k,
                    ) by {
                        assert(dag.keys_view().to_set().contains(k));
                        let q = choose|q: int| 0 <= q < dag.keys_view().len() && dag.keys_view()[q] == k;
                    }
                }
            }
        }
        proof {
            assert forall|k: Seq<char>| #[trigger] self@.contains_key(k) <==> c0.contains_key(k) || dirty_ready(
                m,
                clean,
                k,
            ) by {
                if l.contains(k) && !c0.contains_key(k) {
                    assert(dirty_order(m, clean, l) && l.contains(k));
                }
                if dirty_ready(m, clean, k) && !c0.contains_key(k) {
                    let w = choose|w: Seq<Seq<char>>| #[trigger] dirty_order(m, clean, w) && w.contains(k);
                    lemma_dirty_order_cached(m, clean, w, self@.dom());
                }
            }
        }
    }

    /// Recomputes the cone hash of every event of `dag` whose ancestors are
    /// all present, from scratch, in topological order.
    pub fn compute_all(&mut self, dag: &CausalDag)
        requires
            dag.wf(),
        ensures
            final(self).wf(),
            is_cone_table(dag@, final(self)@),
            forall|k: Seq<char>| #[trigger] final(self)@.contains_key(k) ==> final(self)@[k].len() == 64,
    {
        self.cache.clear();
        let order = dag.topological_order();
        let ghost m = dag@;
        let ghost r = ids_view(order@);
        let n = order.len();
        for i in 0..n
            invariant
                n == r.len(),
                r == ids_view(order@),
                m == dag@,
                dag.wf(),
                is_topological_order(m, r),
                self.wf(),
                forall|k: Seq<char>| #[trigger] self@.contains_key(k) <==> exists|j: int|
                    0 <= j < i && r[j] == k,
                forall|k: Seq<char>| #[trigger] self@.contains_key(k) ==> hashed_right(m, self@, k),
                forall|k: Seq<char>, p: Seq<char>|
                    #[trigger] self@.contains_key(k) && m[k].parents.contains(p) ==> #[trigger] self@.contains_key(p),
                forall|k: Seq<char>| #[trigger] self@.contains_key(k) ==> self@[k].len() == 64,
        {
            let id = &order[i];
            assert(id@ == r[i as int]);
            proof {
                assert(r.contains(r[i as int]));
            }
            match dag.get(id) {
                Some(e) => {
                    let h = self.hash_event(e);
                    let ghost c0 = self@;
                    proof {
                        assert forall|p: Seq<char>| m[id@].parents.contains(p) implies #[trigger] c0.contains_key(p) by {
                            lemma_topological_order_parents_first(m, r, i as int, p);
                        }
                        assert(!c0.contains_key(id@)) by {
                            if c0.contains_key(id@) {
                                let j = choose|j: int| 0 <= j < i && r[j] == id@;
                            }
                        }
                    }
                    self.cache.insert(id.clone(), h);
                    proof {
                        let c1 = self@;
                        assert(c1 == c0.insert(id@, h@));
                        assert forall|k: Seq<char>| #[trigger] c1.contains_key(k) implies hashed_right(m, c1, k) by {
                            let ps = m[k].parents;
                            assert forall|q: int| 0 <= q < ps.len() implies (c1.contains_key(#[trigger] ps[q])
                                <==> c0.contains_key(ps[q])) && (c1.contains_key(ps[q]) ==> c1[ps[q]]
                                == c0[ps[q]]) by {
                                if k == id@ {
                                    assert(m[id@].parents.contains(ps[q]));
                                } else {
                                    assert(c0.contains_key(k));
                                    assert(m[k].parents.contains(ps[q]));
                                }
                            }
                            lemma_parent_hashes_agree(c1, c0, ps);
                        }
                        assert forall|k: Seq<char>| #[trigger] c1.contains_key(k) <==> exists|j: int|
                            0 <= j < i + 1 && r[j] == k by {
                            if k == id@ {
                                assert(r[i as int] == k);
                            } else if c0.contains_key(k) {
                                let j = choose|j: int| 0 <= j < i && r[j] == k;
                            }
                        }
                    }
                },
                None => {
                    proof {
                        lemma_topological_order_in_dag(m, r, i as int);
                    }
                },
            }
        }
        proof {
            assert forall|k: Seq<char>| #[trigger] self@.contains_key(k) <==> depth(m, k) is Some by {
                if depth(m, k) is Some {
                    assert(r.contains(k));
                    let j = choose|j: int| 0 <= j < r.len() && r[j] == k;
                }
                if self@.contains_key(k) {
                    let j = choose|j: int| 0 <= j < n && r[j] == k;
                    assert(r.contains(k));
                }
            }
        }
    }
}

impl Default for ConeHasher {
    fn default() -> (r: Self)
        ensures
            r.wf(),
            r@ == Map::<Seq<char>, Seq<char>>::empty(),
    {
        ConeHasher::new()
    }
}

/// Every event listed in a topological order is present.
pub proof fn lemma_topological_order_in_dag(m: Map<Seq<char>, EventView>, r: Seq<Seq<char>>, i: int)
    requires
        is_topological_order(m, r),
        0 <= i < r.len(),
    ensures
        m.contains_key(r[i]),
{
    assert(r.contains(r[i]));
    assert(depth(m, r[i]) is Some);
}


/// A cache that holds every clean event and is stuck (no present event
/// outside it has all its present parents in it) holds every event of a
/// dirty order.
pub proof fn lemma_dirty_order_cached(
    m: Map<Seq<char>, EventView>,
    clean: Set<Seq<char>>,
    l: Seq<Seq<char>>,
    c: Set<Seq<char>>,
)
    requires
        dirty_order(m, clean, l),
        forall|k: Seq<char>| #[trigger] clean.contains(k) ==> c.contains(k),
        forall|k: Seq<char>| #[trigger] m.contains_key(k) && !c.contains(k) ==> !parents_cached(m, c, k),
    ensures
        forall|i: int| 0 <= i < l.len() ==> c.contains(#[trigger] l[i]),
    decreases l.len(),
{
    if l.len() > 0 {
        let l1 = l.drop_last();
        assert forall|i: int| 0 <= i < l1.len() implies #[trigger] dirty_at(m, clean, l1, i) by {
            assert(dirty_at(m, clean, l, i));
            assert(l1.subrange(0, i) =~= l.subrange(0, i));
        }
        lemma_dirty_order_cached(m, clean, l1, c);
        let j = l.len() - 1;
        assert(dirty_at(m, clean, l, j));
        assert(l.subrange(0, j) =~= l1);
        assert forall|p: Seq<char>| #[trigger] m[l[j]].parents.contains(p) && m.contains_key(p) implies c.contains(p) by {
            assert(clean.union(l1.to_set()).contains(p));
            if !clean.contains(p) {
                let q = choose|q: int| 0 <= q < l1.len() && l1[q] == p;
                assert(c.contains(l1[q]));
            }
        }
        assert(parents_cached(m, c, l[j]));
        assert forall|i: int| 0 <= i < l.len() implies c.contains(#[trigger] l[i]) by {
            if i < j {
                assert(l[i] == l1[i]);
            }
        }
    }
}


/// The events of a dirty order all have a depth, in a causally closed DAG
/// whose clean events have one.
proof fn lemma_dirty_order_depth(m: Map<Seq<char>, EventView>, clean: Set<Seq<char>>, l: Seq<Seq<char>>)
    requires
        m.dom().finite(),
        crate::dag::causally_closed(m),
        forall|x: Seq<char>| #[trigger] clean.contains(x) ==> depth(m, x) is Some,
        dirty_order(m, clean, l),
    ensures
        forall|i: int| 0 <= i < l.len() ==> depth(m, #[trigger] l[i]) is Some,
    decreases l.len(),
{
    if l.len() > 0 {
        let p = l.drop_last();
        assert forall|i: int| 0 <= i < p.len() implies #[trigger] dirty_at(m, clean, p, i) by {
            assert(dirty_at(m, clean, l, i));
            assert(p.subrange(0, i) =~= l.subrange(0, i));
        }
        lemma_dirty_order_depth(m, clean, p);
        let j = l.len() - 1;
        assert(dirty_at(m, clean, l, j));
        assert(l.subrange(0, j) =~= p);
        assert forall|q: Seq<char>| #[trigger] m[l[j]].parents.contains(q) implies depth(m, q) is Some by {
            assert(crate::dag::parent_of(m, q, l[j]));
            assert(m.contains_key(q));
            if !clean.contains(q) {
                let t = choose|t: int| 0 <= t < p.len() && p[t] == q;
                assert(depth(m, p[t]) is Some);
            }
        }
        crate::dag::lemma_depth_from_parents(m, l[j]);
        assert forall|i: int| 0 <= i < l.len() implies depth(m, #[trigger] l[i]) is Some by {
            if i < j {
                assert(l[i] == p[i]);
            }
        }
    }
}

proof fn lemma_rehashed_values(
    m: Map<Seq<char>, EventView>,
    c: Map<Seq<char>, Seq<char>>,
    c1: Map<Seq<char>, Seq<char>>,
    c2: Map<Seq<char>, Seq<char>>,
    k: Seq<char>,
)
    requires
        is_cone_table(m, c),
        dirty_recomputed(m, c1, c2),
        forall|x: Seq<char>| #[trigger] c1.contains_key(x) ==> c.contains_key(x) && c1[x] == c[x],
        forall|x: Seq<char>| #[trigger] c2.contains_key(x) <==> c.contains_key(x),
        c.contains_key(k),
    ensures
        c2[k] == c[k],
    decreases depth(m, k).unwrap(),
{
    if !c1.contains_key(k) {
        let ps = m[k].parents;
        assert forall|i: int| 0 <= i < ps.len() implies (c2.contains_key(#[trigger] ps[i]) <==> c.contains_key(ps[i])) && (
        c2.contains_key(ps[i]) ==> c2[ps[i]] == c[ps[i]]) by {
            if c.contains_key(ps[i]) {
                assert(ps.contains(ps[i]));
                crate::dag::lemma_depth_parent(m, k, ps[i]);
                lemma_rehashed_values(m, c, c1, c2, ps[i]);
            }
        }
        lemma_parent_hashes_agree(c2, c, ps);
        assert(c2.contains_key(k));
        assert(hashed_right(m, c2, k));
        assert(hashed_right(m, c, k));
    }
}

/// Law: in a causally closed DAG, invalidating some cone hashes (with their
/// cached descendants) and recomputing the missing ones gives back exactly
/// the table a full recomputation gives.
pub proof fn lemma_incremental_matches_full(
    m: Map<Seq<char>, EventView>,
    c: Map<Seq<char>, Seq<char>>,
    changed: Set<Seq<char>>,
    c2: Map<Seq<char>, Seq<char>>,
)
    requires
        m.dom().finite(),
        crate::dag::causally_closed(m),
        is_cone_table(m, c),
        dirty_recomputed(m, c.remove_keys(invalidated(m, c, changed)), c2),
    ensures
        c2 == c,
{
    let inv = invalidated(m, c, changed);
    let c1 = c.remove_keys(inv);
    let cd = c.dom();
    // every key of the table has a depth, and only those
    assert forall|x: Seq<char>| #[trigger] c.contains_key(x) implies depth(m, x) is Some by {}
    // what stays cached keeps its parents cached
    assert forall|k: Seq<char>, p: Seq<char>| c1.contains_key(k) && #[trigger] m[k].parents.contains(p) implies c1.contains_key(
        p,
    ) by {
        crate::dag::lemma_depth_parent(m, k, p);
        assert(c.contains_key(p));
        if inv.contains(p) {
            assert(child_step(m, cd, p, k));
            if changed.contains(p) {
                lemma_reaches_down_step(m, cd, p, k);
            } else {
                let x = choose|x: Seq<char>| changed.contains(x) && #[trigger] reaches_down(m, cd, x, p);
                lemma_reaches_down_extend(m, cd, x, p, k);
            }
            assert(inv.contains(k));
        }
    }
    assert forall|x: Seq<char>| #[trigger] c1.contains_key(x) implies c.contains_key(x) && c1[x] == c[x] by {}
    lemma_rehash_matches_full(m, c, c1, c2);
}


/// Law: in a causally closed DAG, where every hash still cached is the one
/// the full table holds and every cached event has its parents cached (the
/// uncached events are closed under children), recomputing the missing
/// hashes gives back exactly the full table.
pub proof fn lemma_rehash_matches_full(
    m: Map<Seq<char>, EventView>,
    c: Map<Seq<char>, Seq<char>>,
    c0: Map<Seq<char>, Seq<char>>,
    c2: Map<Seq<char>, Seq<char>>,
)
    requires
        m.dom().finite(),
        crate::dag::causally_closed(m),
        is_cone_table(m, c),
        forall|x: Seq<char>| #[trigger] c0.contains_key(x) ==> c.contains_key(x) && c0[x] == c[x],
        forall|k: Seq<char>, p: Seq<char>| c0.contains_key(k) && #[trigger] m[k].parents.contains(p) ==> c0.contains_key(p),
        dirty_recomputed(m, c0, c2),
    ensures
        c2 == c,
{
    let cd = c.dom();
    // the recomputed keys are keys of the table
    assert forall|k: Seq<char>| #[trigger] c2.contains_key(k) implies c.contains_key(k) by {
        if !c0.contains_key(k) {
            assert(dirty_ready(m, c0.dom(), k));
            let l = choose|l: Seq<Seq<char>>| #[trigger] dirty_order(m, c0.dom(), l) && l.contains(k);
            assert forall|x: Seq<char>| #[trigger] c0.dom().contains(x) implies depth(m, x) is Some by {
                assert(c.contains_key(x));
            }
            lemma_dirty_order_depth(m, c0.dom(), l);
            let i = choose|i: int| 0 <= i < l.len() && l[i] == k;
            assert(depth(m, l[i]) is Some);
        }
    }
    // every key of the table is recomputed
    let s = cd.difference(c0.dom());
    assert(s.finite()) by {
        assert(cd.subset_of(m.dom())) by {
            assert forall|x: Seq<char>| cd.contains(x) implies m.dom().contains(x) by {
                assert(depth(m, x) is Some);
            }
        }
        vstd::set_lib::lemma_len_subset(cd, m.dom());
    }
    assert forall|x: Seq<char>| #[trigger] s.contains(x) implies depth(m, x) is Some by {
        assert(c.contains_key(x));
    }
    let l = crate::dag::lemma_depth_sorted_listing(m, s);
    assert forall|i: int| 0 <= i < l.len() implies #[trigger] dirty_at(m, c0.dom(), l, i) by {
        let x = l[i];
        assert(l.to_set().contains(x));
        assert(s.contains(x));
        assert(depth(m, x) is Some);
        assert(m.contains_key(x));
        assert forall|p: Seq<char>| #[trigger] m[x].parents.contains(p) && m.contains_key(p) implies c0.dom().union(
            l.subrange(0, i).to_set(),
        ).contains(p) by {
            if !c0.contains_key(p) {
                crate::dag::lemma_depth_parent(m, x, p);
                assert(c.contains_key(p));
                assert(s.contains(p));
                assert(l.to_set().contains(p));
                let j = choose|j: int| 0 <= j < l.len() && l[j] == p;
                if j >= i {
                    if j > i {
                        assert(depth(m, l[i]).unwrap() <= depth(m, l[j]).unwrap());
                    }
                    assert(false);
                }
                assert(l.subrange(0, i)[j] == p);
                assert(l.subrange(0, i).to_set().contains(p));
            }
        }
    }
    assert forall|k: Seq<char>| #[trigger] c.contains_key(k) implies c2.contains_key(k) by {
        if !c0.contains_key(k) {
            assert(s.contains(k));
            assert(l.to_set().contains(k));
            assert(dirty_order(m, c0.dom(), l) && l.contains(k));
            assert(dirty_ready(m, c0.dom(), k));
        }
    }
    assert forall|k: Seq<char>| #[trigger] c2.contains_key(k) <==> c.contains_key(k) by {}
    assert forall|k: Seq<char>| #[trigger] c.contains_key(k) implies c2[k] == c[k] by {
        lemma_rehashed_values(m, c, c0, c2, k);
    }
    assert(c2 =~= c);
}

/// Whether `l` is a dirty order does not depend on clean entries for events
/// that are not in the DAG.
proof fn lemma_dirty_order_ignores_absent(m: Map<Seq<char>, EventView>, clean: Set<Seq<char>>, l: Seq<Seq<char>>)
    requires
        crate::dag::causally_closed(m),
    ensures
        dirty_order(m, clean, l) <==> dirty_order(m, clean.intersect(m.dom()), l),
{
    let cl2 = clean.intersect(m.dom());
    assert forall|i: int| 0 <= i < l.len() implies (dirty_at(m, clean, l, i) <==> #[trigger] dirty_at(m, cl2, l, i)) by {
        let pre = l.subrange(0, i).to_set();
        assert(parents_cached(m, clean.union(pre), l[i]) <==> parents_cached(m, cl2.union(pre), l[i])) by {
            assert forall|p: Seq<char>| #[trigger] m[l[i]].parents.contains(p) && m.contains_key(p) implies (clean.union(
                pre,
            ).contains(p) <==> cl2.union(pre).contains(p)) by {}
        }
    }
    if dirty_order(m, clean, l) {
        assert forall|i: int| 0 <= i < l.len() implies #[trigger] dirty_at(m, cl2, l, i) by {
            assert(dirty_at(m, clean, l, i));
        }
    }
    if dirty_order(m, cl2, l) {
        assert forall|i: int| 0 <= i < l.len() implies #[trigger] dirty_at(m, clean, l, i) by {
            assert(dirty_at(m, cl2, l, i));
        }
    }
}

/// Law: in a causally closed DAG, where every hash still cached for an event
/// of the DAG is the one the full table holds, every such event has its
/// parents cached (the uncached events are closed under children), and the
/// cache may still hold hashes of events no longer in the DAG, recomputing
/// the missing hashes gives, on the events of the DAG, exactly the full
/// table.
pub proof fn lemma_rehash_matches_full_on_dag(
    m: Map<Seq<char>, EventView>,
    c: Map<Seq<char>, Seq<char>>,
    c0: Map<Seq<char>, Seq<char>>,
    c2: Map<Seq<char>, Seq<char>>,
)
    requires
        m.dom().finite(),
        crate::dag::causally_closed(m),
        is_cone_table(m, c),
        forall|x: Seq<char>| #[trigger] c0.contains_key(x) && m.contains_key(x) ==> c.contains_key(x) && c0[x] == c[x],
        forall|k: Seq<char>, p: Seq<char>|
            c0.contains_key(k) && m.contains_key(k) && #[trigger] m[k].parents.contains(p) ==> c0.contains_key(p),
        dirty_recomputed(m, c0, c2),
    ensures
        c2.restrict(m.dom()) == c,
{
    let d0 = c0.restrict(m.dom());
    let d2 = c2.restrict(m.dom());
    assert(d0.dom() =~= c0.dom().intersect(m.dom()));
    assert forall|k: Seq<char>| m.contains_key(k) implies (dirty_ready(m, c0.dom(), k) <==> #[trigger] dirty_ready(m, d0.dom(), k)) by {
        if dirty_ready(m, c0.dom(), k) {
            let l = choose|l: Seq<Seq<char>>| #[trigger] dirty_order(m, c0.dom(), l) && l.contains(k);
            lemma_dirty_order_ignores_absent(m, c0.dom(), l);
        }
        if dirty_ready(m, d0.dom(), k) {
            let l = choose|l: Seq<Seq<char>>| #[trigger] dirty_order(m, d0.dom(), l) && l.contains(k);
            lemma_dirty_order_ignores_absent(m, c0.dom(), l);
        }
    }
    assert forall|k: Seq<char>| !m.contains_key(k) implies !#[trigger] dirty_ready(m, d0.dom(), k) by {
        if dirty_ready(m, d0.dom(), k) {
            let l = choose|l: Seq<Seq<char>>| #[trigger] dirty_order(m, d0.dom(), l) && l.contains(k);
            let i = choose|i: int| 0 <= i < l.len() && l[i] == k;
            assert(dirty_at(m, d0.dom(), l, i));
        }
    }
    assert forall|k: Seq<char>| #[trigger] d2.contains_key(k) && !d0.contains_key(k) implies hashed_right(m, d2, k) by {
        assert(hashed_right(m, c2, k));
        let ps = m[k].parents;
        assert forall|i: int| 0 <= i < ps.len() implies (d2.contains_key(#[trigger] ps[i]) <==> c2.contains_key(ps[i])) && (
        d2.contains_key(ps[i]) ==> d2[ps[i]] == c2[ps[i]]) by {
            assert(ps.contains(ps[i]));
            assert(crate::dag::parent_of(m, ps[i], k));
        }
        lemma_parent_hashes_agree(d2, c2, ps);
    }
    assert(dirty_recomputed(m, d0, d2));
    assert forall|k: Seq<char>, p: Seq<char>| d0.contains_key(k) && #[trigger] m[k].parents.contains(p) implies d0.contains_key(p) by {
        assert(crate::dag::parent_of(m, p, k));
    }
    lemma_rehash_matches_full(m, c, d0, d2);
}

/// The table built by hashing the events listed in `order` one after the
/// other, each from the hashes already built for its parents; an identifier
/// that is not an event is skipped.
pub open spec fn built_in_order(m: Map<Seq<char>, EventView>, order: Seq<Seq<char>>) -> Map<Seq<char>, Seq<char>>
    decreases order.len(),
{
    if order.len() == 0 {
        Map::empty()
    } else {
        let c = built_in_order(m, order.drop_last());
        let k = order.last();
        if m.contains_key(k) {
            c.insert(k, cone_digest(m[k].payload_bytes, parent_hashes(c, m[k].parents)))
        } else {
            c
        }
    }
}

/// `order` lists each parent of a listed event before that event.
pub open spec fn parents_listed_first(m: Map<Seq<char>, EventView>, order: Seq<Seq<char>>) -> bool {
    forall|i: int, p: Seq<char>|
        0 <= i < order.len() && m.contains_key(order[i]) && #[trigger] m[order[i]].parents.contains(p)
            ==> exists|j: int| 0 <= j < i && #[trigger] order[j] == p
}

proof fn lemma_built_in_order_shape(m: Map<Seq<char>, EventView>, r: Seq<Seq<char>>)
    requires
        r.no_duplicates(),
        parents_listed_first(m, r),
    ensures
        forall|k: Seq<char>| #[trigger] built_in_order(m, r).contains_key(k) <==> r.contains(k) && m.contains_key(k),
        forall|k: Seq<char>| #[trigger] built_in_order(m, r).contains_key(k) ==> hashed_right(m, built_in_order(m, r), k),
        forall|k: Seq<char>, p: Seq<char>|
            built_in_order(m, r).contains_key(k) && #[trigger] m[k].parents.contains(p) ==> r.contains(p),
    decreases r.len(),
{
    if r.len() > 0 {
        let q = r.drop_last();
        let n = q.len() as int;
        let k = r.last();
        assert(r[n] == k);
        assert forall|i: int, p: Seq<char>|
            0 <= i < q.len() && m.contains_key(q[i]) && #[trigger] m[q[i]].parents.contains(p) implies exists|j: int|
            0 <= j < i && #[trigger] q[j] == p by {
            assert(r[i] == q[i]);
            let j = choose|j: int| 0 <= j < i && #[trigger] r[j] == p;
            assert(q[j] == p);
        }
        lemma_built_in_order_shape(m, q);
        let c = built_in_order(m, q);
        assert(!q.contains(k)) by {
            if q.contains(k) {
                let j = choose|j: int| 0 <= j < q.len() && q[j] == k;
                assert(r[j] == r[n]);
            }
        }
        assert forall|x: Seq<char>| #[trigger] r.contains(x) <==> q.contains(x) || x == k by {
            if r.contains(x) {
                let i = choose|i: int| 0 <= i < r.len() && r[i] == x;
                if i < n {
                    assert(q[i] == x);
                }
            }
            if q.contains(x) {
                let i = choose|i: int| 0 <= i < q.len() && q[i] == x;
                assert(r[i] == x);
            }
        }
        if m.contains_key(k) {
            let b = built_in_order(m, r);
            // the parents of `k` are listed before it, so already built, and
            // `k` is none of them
            assert forall|p: Seq<char>| #[trigger] m[k].parents.contains(p) implies q.contains(p) by {
                let j = choose|j: int| 0 <= j < n && #[trigger] r[j] == p;
                assert(q[j] == p);
            }
            assert forall|x: Seq<char>| #[trigger] b.contains_key(x) implies hashed_right(m, b, x) by {
                let ps = m[x].parents;
                assert forall|i: int| 0 <= i < ps.len() implies (b.contains_key(#[trigger] ps[i]) <==> c.contains_key(ps[i])) && (
                b.contains_key(ps[i]) ==> b[ps[i]] == c[ps[i]]) by {
                    assert(ps.contains(ps[i]));
                    if ps[i] == k {
                        if x == k {
                            assert(q.contains(k));
                        } else {
                            assert(c.contains_key(x));
                            assert(q.contains(k));
                        }
                    }
                }
                lemma_parent_hashes_agree(b, c, ps);
            }
        }
    }
}

/// Law: hashing the events of a DAG in any order that lists each event after
/// its parents (level by level, for one, in any order within a level) builds
/// exactly the cone-hash table, the one `compute_all` gives.
pub proof fn lemma_built_in_order_is_table(m: Map<Seq<char>, EventView>, r: Seq<Seq<char>>)
    requires
        r.no_duplicates(),
        parents_listed_first(m, r),
        forall|k: Seq<char>| #[trigger] r.contains(k) <==> depth(m, k) is Some,
    ensures
        is_cone_table(m, built_in_order(m, r)),
        forall|d: Map<Seq<char>, Seq<char>>| #[trigger] is_cone_table(m, d) ==> d == built_in_order(m, r),
{
    lemma_built_in_order_shape(m, r);
    assert forall|k: Seq<char>| #[trigger] built_in_order(m, r).contains_key(k) <==> depth(m, k) is Some by {
        if depth(m, k) is Some {
            assert(crate::dag::depth_within(m, k, m.len()) is Some);
        }
    }
    assert forall|d: Map<Seq<char>, Seq<char>>| #[trigger] is_cone_table(m, d) implies d == built_in_order(m, r) by {
        lemma_cone_table_unique(m, d, built_in_order(m, r));
    }
}

/// With every parent cached, the cached parent hashes are the parents'
/// hashes, one per parent, in order.
proof fn lemma_parent_hashes_all(c: Map<Seq<char>, Seq<char>>, ps: Seq<Seq<char>>)
    requires
        forall|i: int| 0 <= i < ps.len() ==> c.contains_key(#[trigger] ps[i]),
    ensures
        parent_hashes(c, ps) == ps.map_values(|p: Seq<char>| c[p]),
    decreases ps.len(),
{
    if ps.len() > 0 {
        let q = ps.drop_last();
        assert forall|i: int| 0 <= i < q.len() implies c.contains_key(#[trigger] q[i]) by {
            assert(q[i] == ps[i]);
        }
        lemma_parent_hashes_all(c, q);
        assert(c.contains_key(ps[ps.len() - 1]));
        assert(ps.map_values(|p: Seq<char>| c[p]) =~= q.map_values(|p: Seq<char>| c[p]).push(c[ps.last()]));
    }
}

/// Law: a cone hash is a Merkle hash over the causal history. The hash of
/// an event in the table is the SHA-256 hex digest of its payload bytes
/// followed by the bytes of the hashes of all its parents (one per parent,
/// in increasing order), so it depends on every ancestor.
pub proof fn lemma_cone_hash_is_merkle(m: Map<Seq<char>, EventView>, c: Map<Seq<char>, Seq<char>>, k: Seq<char>) -> (hs: Seq<Seq<char>>)
    requires
        is_cone_table(m, c),
        c.contains_key(k),
    ensures
        hs.len() == m[k].parents.len(),
        hs.to_multiset() == m[k].parents.map_values(|p: Seq<char>| c[p]).to_multiset(),
        forall|i: int, j: int| 0 <= i < j < hs.len() ==> #[trigger] id_le(hs[i], hs[j]),
        forall|i: int| 0 <= i < m[k].parents.len() ==> c.contains_key(#[trigger] m[k].parents[i]),
        c[k] == digest_hex(m[k].payload_bytes + concat_id_bytes(hs)),
{
    let ps = m[k].parents;
    assert(depth(m, k) is Some);
    assert forall|i: int| 0 <= i < ps.len() implies c.contains_key(#[trigger] ps[i]) by {
        assert(ps.contains(ps[i]));
        crate::dag::lemma_depth_parent(m, k, ps[i]);
    }
    lemma_parent_hashes_all(c, ps);
    let raw = parent_hashes(c, ps);
    let hs = raw.sort_by(id_le_rel());
    lemma_id_le_total();
    raw.lemma_sort_by_ensures(id_le_rel());
    raw.to_multiset_ensures();
    hs.to_multiset_ensures();
    assert(hashed_right(m, c, k));
    assert forall|i: int, j: int| 0 <= i < j < hs.len() implies #[trigger] id_le(hs[i], hs[j]) by {
        assert(id_le_rel()(hs[i], hs[j]));
    }
    hs
}

proof fn lemma_cone_values_agree(m: Map<Seq<char>, EventView>, c: Map<Seq<char>, Seq<char>>, d: Map<Seq<char>, Seq<char>>, k: Seq<char>)
    requires
        is_cone_table(m, c),
        is_cone_table(m, d),
        c.contains_key(k),
    ensures
        d[k] == c[k],
    decreases depth(m, k).unwrap(),
{
    let ps = m[k].parents;
    assert forall|i: int| 0 <= i < ps.len() implies (d.contains_key(#[trigger] ps[i]) <==> c.contains_key(ps[i])) && (
    d.contains_key(ps[i]) ==> d[ps[i]] == c[ps[i]]) by {
        if c.contains_key(ps[i]) {
            assert(ps.contains(ps[i]));
            crate::dag::lemma_depth_parent(m, k, ps[i]);
            lemma_cone_values_agree(m, c, d, ps[i]);
        }
    }
    lemma_parent_hashes_agree(d, c, ps);
    assert(d.contains_key(k));
}

/// Law: in a causally closed, acyclic history the cone-hash table holds a
/// hash for every event, and for nothing else.
pub proof fn lemma_cone_table_covers(m: Map<Seq<char>, EventView>, c: Map<Seq<char>, Seq<char>>)
    requires
        m.dom().finite(),
        crate::dag::causally_closed(m),
        crate::dag::acyclic(m),
        is_cone_table(m, c),
    ensures
        c.dom() == m.dom(),
{
    assert forall|k: Seq<char>| #[trigger] c.contains_key(k) <==> m.contains_key(k) by {
        if m.contains_key(k) {
            crate::dag::lemma_closed_acyclic_depth(m, k);
        }
        if c.contains_key(k) {
            assert(depth(m, k) is Some);
            assert(crate::dag::depth_within(m, k, m.len()) is Some);
        }
    }
    assert(c.dom() =~= m.dom());
}

/// Law: cone hashing is deterministic: a DAG has one cone-hash table, so
/// every full recomputation gives the same hashes.
pub proof fn lemma_cone_table_unique(m: Map<Seq<char>, EventView>, c: Map<Seq<char>, Seq<char>>, d: Map<Seq<char>, Seq<char>>)
    requires
        is_cone_table(m, c),
        is_cone_table(m, d),
    ensures
        c == d,
{
    assert forall|k: Seq<char>| #[trigger] c.contains_key(k) <==> d.contains_key(k) by {}
    assert forall|k: Seq<char>| #[trigger] c.contains_key(k) implies d[k] == c[k] by {
        lemma_cone_values_agree(m, c, d, k);
    }
    assert(c =~= d);
}

} // verus!
