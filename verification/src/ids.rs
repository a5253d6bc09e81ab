//! Event identifiers and sorted identifier sets.
//!
//! Identifiers are strings ordered like `str`'s `Ord`: lexicographically by
//! their UTF-8 bytes.

use vstd::prelude::*;
use vstd::utf8::encode_utf8;
use vstd::utf8::decode_utf8;
use vstd::utf8::encode_utf8_decode_utf8;

verus! {

/// Content-addressed event identifier.
pub type EventId = String;

/// Three-way comparison result.
#[derive(Debug, Clone, Copy, PartialEq, Eq, Structural)]
pub enum Order3 {
    Less,
    Equal,
    Greater,
}

/// Lexicographic strict order on byte strings.
pub open spec fn bytes_lt(a: Seq<u8>, b: Seq<u8>) -> bool
    decreases a.len(),
{
    if b.len() == 0 {
        false
    } else if a.len() == 0 {
        true
    } else if a[0] < b[0] {
        true
    } else if a[0] > b[0] {
        false
    } else {
        bytes_lt(a.drop_first(), b.drop_first())
    }
}

/// The bytes by which identifiers are ordered.
pub open spec fn id_bytes(id: Seq<char>) -> Seq<u8> {
    encode_utf8(id)
}

/// Strict order on identifiers: `str`'s order, byte-lexicographic.
pub open spec fn id_lt(a: Seq<char>, b: Seq<char>) -> bool {
    bytes_lt(id_bytes(a), id_bytes(b))
}

/// A sequence of identifiers in strictly increasing order.
pub open spec fn strictly_sorted(s: Seq<Seq<char>>) -> bool {
    forall|i: int, j: int| 0 <= i < j < s.len() ==> id_lt(#[trigger] s[i], #[trigger] s[j])
}

pub proof fn lemma_bytes_lt_irrefl(a: Seq<u8>)
    ensures
        !bytes_lt(a, a),
    decreases a.len(),
{
    if a.len() > 0 {
        lemma_bytes_lt_irrefl(a.drop_first());
    }
}

pub proof fn lemma_bytes_lt_trans(a: Seq<u8>, b: Seq<u8>, c: Seq<u8>)
    requires
        bytes_lt(a, b),
        bytes_lt(b, c),
    ensures
        bytes_lt(a, c),
    decreases a.len(),
{
    if a.len() > 0 && b.len() > 0 && c.len() > 0 {
        if a[0] == b[0] && b[0] == c[0] {
            lemma_bytes_lt_trans(a.drop_first(), b.drop_first(), c.drop_first());
        }
    }
}

pub proof fn lemma_bytes_lt_total(a: Seq<u8>, b: Seq<u8>)
    ensures
        a == b || bytes_lt(a, b) || bytes_lt(b, a),
    decreases a.len(),
{
    if a.len() > 0 && b.len() > 0 && a[0] == b[0] {
        lemma_bytes_lt_total(a.drop_first(), b.drop_first());
        if a.drop_first() == b.drop_first() {
            assert(a =~= seq![a[0]] + a.drop_first());
            assert(b =~= seq![b[0]] + b.drop_first());
        }
    } else if a.len() == 0 && b.len() == 0 {
        assert(a =~= b);
    }
}

pub proof fn lemma_bytes_lt_asym(a: Seq<u8>, b: Seq<u8>)
    requires
        bytes_lt(a, b),
    ensures
        !bytes_lt(b, a),
{
    if bytes_lt(b, a) {
        lemma_bytes_lt_trans(a, b, a);
        lemma_bytes_lt_irrefl(a);
    }
}

/// Distinct identifiers have distinct byte encodings.
pub proof fn lemma_id_bytes_injective(a: Seq<char>, b: Seq<char>)
    requires
        id_bytes(a) == id_bytes(b),
    ensures
        a == b,
{
    encode_utf8_decode_utf8(a);
    encode_utf8_decode_utf8(b);
}

pub proof fn lemma_id_lt_irrefl(a: Seq<char>)
    ensures
        !id_lt(a, a),
{
    lemma_bytes_lt_irrefl(id_bytes(a));
}

pub proof fn lemma_id_lt_trans(a: Seq<char>, b: Seq<char>, c: Seq<char>)
    requires
        id_lt(a, b),
        id_lt(b, c),
    ensures
        id_lt(a, c),
{
    lemma_bytes_lt_trans(id_bytes(a), id_bytes(b), id_bytes(c));
}

pub proof fn lemma_id_lt_total(a: Seq<char>, b: Seq<char>)
    ensures
        a == b || id_lt(a, b) || id_lt(b, a),
{
    lemma_bytes_lt_total(id_bytes(a), id_bytes(b));
    if id_bytes(a) == id_bytes(b) {
        lemma_id_bytes_injective(a, b);
    }
}

pub proof fn lemma_id_lt_asym(a: Seq<char>, b: Seq<char>)
    requires
        id_lt(a, b),
    ensures
        !id_lt(b, a),
{
    lemma_bytes_lt_asym(id_bytes(a), id_bytes(b));
}

/// Compares two byte slices lexicographically.
pub fn compare_bytes(a: &[u8], b: &[u8]) -> (c: Order3)
    ensures
        c == Order3::Less <==> bytes_lt(a@, b@),
        c == Order3::Greater <==> bytes_lt(b@, a@),
        c == Order3::Equal <==> a@ == b@,
{
    let n = a.len();
    let m = b.len();
    let mut i: usize = 0;
    assert(a@.skip(0) =~= a@);
    assert(b@.skip(0) =~= b@);
    while i < n && i < m
        invariant
            n == a@.len(),
            m == b@.len(),
            i <= n,
            i <= m,
            a@.subrange(0, i as int) == b@.subrange(0, i as int),
            bytes_lt(a@, b@) == bytes_lt(a@.skip(i as int), b@.skip(i as int)),
            bytes_lt(b@, a@) == bytes_lt(b@.skip(i as int), a@.skip(i as int)),
        decreases n - i,
    {
        if a[i] < b[i] {
            proof {
                lemma_bytes_lt_total(a@, b@);
                lemma_bytes_lt_asym(a@, b@);
            }
            return Order3::Less;
        }
        if a[i] > b[i] {
            proof {
                lemma_bytes_lt_asym(b@, a@);
            }
            return Order3::Greater;
        }
        proof {
            assert(a@.skip(i as int).drop_first() =~= a@.skip(i + 1));
            assert(b@.skip(i as int).drop_first() =~= b@.skip(i + 1));
            assert(a@.subrange(0, i + 1) =~= a@.subrange(0, i as int).push(a@[i as int]));
            assert(b@.subrange(0, i + 1) =~= b@.subrange(0, i as int).push(b@[i as int]));
        }
        i = i + 1;
    }
    if n == m {
        proof {
            assert(a@ =~= a@.subrange(0, i as int));
            assert(b@ =~= b@.subrange(0, i as int));
            lemma_bytes_lt_irrefl(a@);
        }
        Order3::Equal
    } else if n < m {
        proof {
            assert(a@.skip(i as int).len() == 0);
            if a@ == b@ {
                assert(false);
            }
            lemma_bytes_lt_asym(a@, b@);
        }
        Order3::Less
    } else {
        proof {
            assert(b@.skip(i as int).len() == 0);
            lemma_bytes_lt_asym(b@, a@);
        }
        Order3::Greater
    }
}

/// Compares two identifiers in `str` order.
pub fn compare_ids(a: &String, b: &String) -> (c: Order3)
    ensures
        c == Order3::Less <==> id_lt(a@, b@),
        c == Order3::Greater <==> id_lt(b@, a@),
        c == Order3::Equal <==> a@ == b@,
{
    let c = compare_bytes(a.as_str().as_bytes(), b.as_str().as_bytes());
    proof {
        if c == Order3::Equal {
            lemma_id_bytes_injective(a@, b@);
        }
    }
    c
}


/// Pushing an element adds it to the set of elements.
pub proof fn lemma_push_to_set<A>(s: Seq<A>, x: A)
    ensures
        s.push(x).to_set() == s.to_set().insert(x),
{
    assert forall|y| s.push(x).to_set().contains(y) implies s.to_set().insert(x).contains(y) by {
        let k = choose|k: int| 0 <= k < s.push(x).len() && s.push(x)[k] == y;
        if k < s.len() {
            assert(s[k] == y);
        }
    }
    assert forall|y| s.to_set().insert(x).contains(y) implies s.push(x).to_set().contains(y) by {
        if y == x {
            assert(s.push(x)[s.len() as int] == y);
        } else {
            let k = choose|k: int| 0 <= k < s.len() && s[k] == y;
            assert(s.push(x)[k] == y);
        }
    }
    assert(s.push(x).to_set() =~= s.to_set().insert(x));
}

/// Strict sortedness implies that no identifier occurs twice.
pub proof fn lemma_sorted_no_duplicates(s: Seq<Seq<char>>)
    requires
        strictly_sorted(s),
    ensures
        s.no_duplicates(),
{
    assert forall|i: int, j: int| 0 <= i < s.len() && 0 <= j < s.len() && i != j implies s[i]
        != s[j] by {
        if i < j {
            lemma_id_lt_irrefl(s[i]);
        } else {
            lemma_id_lt_irrefl(s[j]);
        }
    }
}

/// Two strictly sorted sequences with the same elements are equal.
pub proof fn lemma_sorted_unique(a: Seq<Seq<char>>, b: Seq<Seq<char>>)
    requires
        strictly_sorted(a),
        strictly_sorted(b),
        a.to_set() == b.to_set(),
    ensures
        a == b,
    decreases a.len(),
{
    if a.len() == 0 {
        if b.len() > 0 {
            assert(b.to_set().contains(b[0]));
        }
    } else if b.len() == 0 {
        assert(a.to_set().contains(a[0]));
    } else {
        // The first elements are the minima of the same set.
        assert(b.to_set().contains(a[0]));
        assert(a.to_set().contains(b[0]));
        let i = choose|i: int| 0 <= i < b.len() && b[i] == a[0];
        let j = choose|j: int| 0 <= j < a.len() && a[j] == b[0];
        if i > 0 && j > 0 {
            lemma_id_lt_asym(b[0], a[0]);
        } else if i > 0 {
            lemma_id_lt_irrefl(a[0]);
        } else if j > 0 {
            lemma_id_lt_irrefl(b[0]);
        }
        assert(a[0] == b[0]);
        let a1 = a.drop_first();
        let b1 = b.drop_first();
        assert forall|x| a1.to_set().contains(x) implies b1.to_set().contains(x) by {
            let k = choose|k: int| 0 <= k < a1.len() && a1[k] == x;
            assert(a[k + 1] == x);
            lemma_id_lt_irrefl(a[0]);
            assert(b.to_set().contains(x));
            let l = choose|l: int| 0 <= l < b.len() && b[l] == x;
            if l == 0 {
                assert(id_lt(a[0], a[k + 1]));
            }
            assert(b1[l - 1] == x);
        }
        assert forall|x| b1.to_set().contains(x) implies a1.to_set().contains(x) by {
            let k = choose|k: int| 0 <= k < b1.len() && b1[k] == x;
            assert(b[k + 1] == x);
            lemma_id_lt_irrefl(b[0]);
            assert(a.to_set().contains(x));
            let l = choose|l: int| 0 <= l < a.len() && a[l] == x;
            if l == 0 {
                assert(id_lt(b[0], b[k + 1]));
            }
            assert(a1[l - 1] == x);
        }
        assert(a1.to_set() =~= b1.to_set());
        lemma_sorted_unique(a1, b1);
        assert(a =~= seq![a[0]] + a1);
        assert(b =~= seq![b[0]] + b1);
    }
}

/// The strictly sorted sequence of a finite set of identifiers.
pub open spec fn sorted_of(s: Set<Seq<char>>) -> Seq<Seq<char>> {
    choose|q: Seq<Seq<char>>| strictly_sorted(q) && q.to_set() == s
}

/// A strictly sorted sequence is the sorted sequence of its elements.
pub proof fn lemma_sorted_of(q: Seq<Seq<char>>)
    requires
        strictly_sorted(q),
    ensures
        sorted_of(q.to_set()) == q,
{
    let c = sorted_of(q.to_set());
    assert(strictly_sorted(c) && c.to_set() == q.to_set());
    lemma_sorted_unique(c, q);
}

/// A finite non-empty set of identifiers has a least element.
pub proof fn lemma_least_exists(s: Set<Seq<char>>)
    requires
        s.finite(),
        s.len() > 0,
    ensures
        exists|x: Seq<char>| s.contains(x) && forall|y: Seq<char>| #[trigger] s.contains(y) && y != x ==> id_lt(x, y),
    decreases s.len(),
{
    let a = s.choose();
    assert(s.contains(a));
    let r = s.remove(a);
    if r.len() == 0 {
        assert forall|y: Seq<char>| #[trigger] s.contains(y) && y != a implies id_lt(a, y) by {
            assert(r.contains(y));
        }
    } else {
        lemma_least_exists(r);
        let b = choose|x: Seq<char>| r.contains(x) && forall|y: Seq<char>| #[trigger] r.contains(y) && y != x ==> id_lt(x, y);
        lemma_id_lt_total(a, b);
        if id_lt(a, b) {
            assert forall|y: Seq<char>| #[trigger] s.contains(y) && y != a implies id_lt(a, y) by {
                if y != b {
                    assert(r.contains(y));
                    lemma_id_lt_trans(a, b, y);
                }
            }
        } else {
            assert forall|y: Seq<char>| #[trigger] s.contains(y) && y != b implies id_lt(b, y) by {
                if y != a {
                    assert(r.contains(y));
                }
            }
        }
    }
}

/// A finite set of identifiers has a strictly sorted listing.
pub proof fn lemma_sorted_of_finite(s: Set<Seq<char>>)
    requires
        s.finite(),
    ensures
        strictly_sorted(sorted_of(s)),
        sorted_of(s).to_set() == s,
    decreases s.len(),
{
    if s.len() == 0 {
        let q = Seq::<Seq<char>>::empty();
        assert(s =~= Set::empty());
        assert(q.to_set() =~= s);
        assert(strictly_sorted(q));
    } else {
        lemma_least_exists(s);
        let x = choose|x: Seq<char>| s.contains(x) && forall|y: Seq<char>| #[trigger] s.contains(y) && y != x ==> id_lt(x, y);
        let r = s.remove(x);
        lemma_sorted_of_finite(r);
        let t = sorted_of(r);
        let q = seq![x] + t;
        assert forall|i: int, j: int| 0 <= i < j < q.len() implies id_lt(#[trigger] q[i], #[trigger] q[j]) by {
            if i == 0 {
                assert(q[j] == t[j - 1]);
                assert(t.to_set().contains(t[j - 1]));
                assert(r.contains(q[j]));
            } else {
                assert(q[i] == t[i - 1] && q[j] == t[j - 1]);
            }
        }
        assert forall|y: Seq<char>| q.to_set().contains(y) <==> s.contains(y) by {
            if s.contains(y) && y != x {
                assert(r.contains(y));
                assert(t.to_set().contains(y));
                let k = choose|k: int| 0 <= k < t.len() && t[k] == y;
                assert(q[k + 1] == y);
            }
            if s.contains(y) && y == x {
                assert(q[0] == y);
            }
            if q.to_set().contains(y) {
                let k = choose|k: int| 0 <= k < q.len() && q[k] == y;
                if k > 0 {
                    assert(t[k - 1] == y);
                    assert(t.to_set().contains(y));
                }
            }
        }
        assert(q.to_set() =~= s);
        assert(strictly_sorted(q) && q.to_set() == s);
    }
}

/// The identifiers held by a vector of strings.
pub open spec fn ids_view(v: Seq<String>) -> Seq<Seq<char>> {
    v.map_values(|s: String| s@)
}

/// Inserting at a position between smaller and larger identifiers keeps the
/// sequence strictly sorted and adds exactly that identifier.
pub proof fn lemma_sorted_insert(s: Seq<Seq<char>>, pos: int, x: Seq<char>)
    requires
        strictly_sorted(s),
        0 <= pos <= s.len(),
        forall|k: int| 0 <= k < pos ==> id_lt(#[trigger] s[k], x),
        forall|k: int| pos <= k < s.len() ==> id_lt(x, #[trigger] s[k]),
    ensures
        strictly_sorted(s.insert(pos, x)),
        s.insert(pos, x).to_set() == s.to_set().insert(x),
{
    let t = s.insert(pos, x);
    assert forall|i: int, j: int| 0 <= i < j < t.len() implies id_lt(
        #[trigger] t[i],
        #[trigger] t[j],
    ) by {
        if j < pos {
        } else if i > pos {
            assert(t[i] == s[i - 1]);
            assert(t[j] == s[j - 1]);
        } else if i == pos {
            assert(t[j] == s[j - 1]);
        } else if j == pos {
        } else {
            assert(t[j] == s[j - 1]);
            lemma_id_lt_trans(s[i], x, s[j - 1]);
        }
    }
    assert forall|y| t.to_set().contains(y) implies s.to_set().insert(x).contains(y) by {
        let k = choose|k: int| 0 <= k < t.len() && t[k] == y;
        if k < pos {
            assert(s[k] == y);
        } else if k > pos {
            assert(s[k - 1] == y);
        }
    }
    assert forall|y| s.to_set().insert(x).contains(y) implies t.to_set().contains(y) by {
        if y == x {
            assert(t[pos] == y);
        } else {
            let k = choose|k: int| 0 <= k < s.len() && s[k] == y;
            if k < pos {
                assert(t[k] == y);
            } else {
                assert(t[k + 1] == y);
            }
        }
    }
    assert(t.to_set() =~= s.to_set().insert(x));
}

/// Removing a position keeps the sequence strictly sorted and removes exactly
/// that identifier.
pub proof fn lemma_sorted_remove(s: Seq<Seq<char>>, pos: int)
    requires
        strictly_sorted(s),
        0 <= pos < s.len(),
    ensures
        strictly_sorted(s.remove(pos)),
        s.remove(pos).to_set() == s.to_set().remove(s[pos]),
{
    let t = s.remove(pos);
    assert forall|i: int, j: int| 0 <= i < j < t.len() implies id_lt(
        #[trigger] t[i],
        #[trigger] t[j],
    ) by {
        if j < pos {
        } else if i >= pos {
            assert(t[i] == s[i + 1]);
            assert(t[j] == s[j + 1]);
        } else {
            assert(t[j] == s[j + 1]);
        }
    }
    lemma_sorted_no_duplicates(s);
    assert forall|y| t.to_set().contains(y) implies s.to_set().remove(s[pos]).contains(y) by {
        let k = choose|k: int| 0 <= k < t.len() && t[k] == y;
        if k < pos {
            assert(s[k] == y);
        } else {
            assert(s[k + 1] == y);
        }
    }
    assert forall|y| s.to_set().remove(s[pos]).contains(y) implies t.to_set().contains(y) by {
        let k = choose|k: int| 0 <= k < s.len() && s[k] == y;
        if k < pos {
            assert(t[k] == y);
        } else {
            assert(t[k - 1] == y);
        }
    }
    assert(t.to_set() =~= s.to_set().remove(s[pos]));
}

/// Binary search in a strictly sorted vector of identifiers: whether `id` is
/// present, and its position or insertion point.
pub fn search_sorted(v: &Vec<String>, id: &String) -> (r: (bool, usize))
    requires
        strictly_sorted(ids_view(v@)),
    ensures
        r.1 <= v@.len(),
        r.0 ==> r.1 < v@.len() && ids_view(v@)[r.1 as int] == id@,
        !r.0 ==> (forall|k: int| 0 <= k < r.1 ==> id_lt(#[trigger] ids_view(v@)[k], id@)) && (
        forall|k: int| r.1 <= k < v@.len() ==> id_lt(id@, #[trigger] ids_view(v@)[k])),
        r.0 == ids_view(v@).contains(id@),
{
    let ghost s = ids_view(v@);
    let mut lo: usize = 0;
    let mut hi: usize = v.len();
    while lo < hi
        invariant
            s == ids_view(v@),
            strictly_sorted(s),
            hi <= s.len(),
            lo <= hi,
            forall|k: int| 0 <= k < lo ==> id_lt(#[trigger] s[k], id@),
            forall|k: int| hi <= k < s.len() ==> id_lt(id@, #[trigger] s[k]),
        decreases hi - lo,
    {
        let mid = lo + (hi - lo) / 2;
        let c = compare_ids(&v[mid], id);
        match c {
            Order3::Equal => {
                return (true, mid);
            },
            Order3::Less => {
                proof {
                    assert forall|k: int| 0 <= k < mid + 1 implies id_lt(#[trigger] s[k], id@) by {
                        if k < mid {
                            lemma_id_lt_trans(s[k], s[mid as int], id@);
                        }
                    }
                }
                lo = mid + 1;
            },
            Order3::Greater => {
                proof {
                    assert forall|k: int| mid <= k < s.len() implies id_lt(id@, #[trigger] s[k]) by {
                        if k > mid {
                            lemma_id_lt_trans(id@, s[mid as int], s[k]);
                        }
                    }
                }
                hi = mid;
            },
        }
    }
    proof {
        if s.contains(id@) {
            let k = choose|k: int| 0 <= k < s.len() && s[k] == id@;
            lemma_id_lt_irrefl(id@);
        }
    }
    (false, lo)
}

/// A set of identifiers kept in strictly increasing `str` order; the model of
/// a `BTreeSet<EventId>`.
#[derive(Debug, Clone, PartialEq, Eq)]
pub struct IdSet {
    ids: Vec<String>,
}

impl View for IdSet {
    type V = Seq<Seq<char>>;

    closed spec fn view(&self) -> Seq<Seq<char>> {
        self.ids@.map_values(|s: String| s@)
    }
}

impl IdSet {
    /// Well-formedness: identifiers in strictly increasing order.
    pub open spec fn wf(&self) -> bool {
        strictly_sorted(self@)
    }

    /// The identifiers as a mathematical set.
    pub open spec fn set(&self) -> Set<Seq<char>> {
        self@.to_set()
    }

    /// A sorted set holds as many identifiers as its sequence.
    pub proof fn lemma_len(&self)
        requires
            self.wf(),
        ensures
            self.set().finite(),
            self.set().len() == self@.len(),
    {
        lemma_sorted_no_duplicates(self@);
        self@.unique_seq_to_set();
    }

    /// The empty set.
    pub fn new() -> (r: Self)
        ensures
            r.wf(),
            r@ == Seq::<Seq<char>>::empty(),
    {
        let r = IdSet { ids: Vec::new() };
        assert(r@ =~= Seq::<Seq<char>>::empty());
        r
    }

    /// A copy with the same identifiers.
    pub fn duplicate(&self) -> (r: Self)
        ensures
            r@ == self@,
    {
        let mut v: Vec<String> = Vec::new();
        let n = self.ids.len();
        for i in 0..n
            invariant
                n == self.ids@.len(),
                v@.len() == i,
                forall|k: int| 0 <= k < i ==> #[trigger] v@[k]@ == self.ids@[k]@,
        {
            v.push(self.ids[i].clone());
        }
        let r = IdSet { ids: v };
        assert(r@ =~= self@);
        r
    }

    /// Number of identifiers.
    pub fn len(&self) -> (n: usize)
        ensures
            n == self@.len(),
    {
        self.ids.len()
    }

    /// True iff the set is empty.
    pub fn is_empty(&self) -> (b: bool)
        ensures
            b == (self@.len() == 0),
    {
        self.ids.len() == 0
    }

    /// The `i`-th identifier in increasing order.
    pub fn get(&self, i: usize) -> (r: &String)
        requires
            i < self@.len(),
        ensures
            r@ == self@[i as int],
    {
        &self.ids[i]
    }

    /// True iff the identifiers are in strictly increasing order.
    pub fn is_sorted(&self) -> (b: bool)
        ensures
            b == self.wf(),
    {
        let n = self.ids.len();
        if n == 0 {
            assert(strictly_sorted(self@));
            return true;
        }
        for i in 1..n
            invariant
                n == self@.len(),
                n > 0,
                strictly_sorted(self@.subrange(0, i as int)),
        {
            if compare_ids(&self.ids[i - 1], &self.ids[i]) != Order3::Less {
                proof {
                    assert(self@[i - 1] == self.ids@[i - 1]@);
                    assert(self@[i as int] == self.ids@[i as int]@);
                    if strictly_sorted(self@) {
                        assert(id_lt(self@[i - 1], self@[i as int]));
                    }
                }
                return false;
            }
            proof {
                let s = self@.subrange(0, i + 1);
                assert(id_lt(self@[i - 1], self@[i as int]));
                assert forall|a: int, b: int| 0 <= a < b < s.len() implies id_lt(#[trigger] s[a], #[trigger] s[b]) by {
                    if b < i {
                        assert(self@.subrange(0, i as int)[a] == s[a]);
                        assert(self@.subrange(0, i as int)[b] == s[b]);
                    } else if a < i - 1 {
                        assert(id_lt(self@.subrange(0, i as int)[a], self@.subrange(0, i as int)[i - 1]));
                        lemma_id_lt_trans(s[a], self@[i - 1], s[b]);
                    }
                }
            }
        }
        assert(self@.subrange(0, n as int) =~= self@);
        true
    }

    /// Binary search: whether `id` is present, and its position or insertion point.
    pub fn search(&self, id: &String) -> (r: (bool, usize))
        requires
            self.wf(),
        ensures
            r.1 <= self@.len(),
            r.0 ==> r.1 < self@.len() && self@[r.1 as int] == id@,
            !r.0 ==> (forall|k: int| 0 <= k < r.1 ==> id_lt(#[trigger] self@[k], id@)) && (
            forall|k: int| r.1 <= k < self@.len() ==> id_lt(id@, #[trigger] self@[k])),
            r.0 == self@.contains(id@),
    {
        let mut lo: usize = 0;
        let mut hi: usize = self.ids.len();
        while lo < hi
            invariant
                self.wf(),
                hi <= self@.len(),
                lo <= hi,
                forall|k: int| 0 <= k < lo ==> id_lt(#[trigger] self@[k], id@),
                forall|k: int| hi <= k < self@.len() ==> id_lt(id@, #[trigger] self@[k]),
            decreases hi - lo,
        {
            let mid = lo + (hi - lo) / 2;
            let c = compare_ids(&self.ids[mid], id);
            assert(self.ids@[mid as int]@ == self@[mid as int]);
            match c {
                Order3::Equal => {
                    return (true, mid);
                },
                Order3::Less => {
                    proof {
                        assert forall|k: int| 0 <= k < mid + 1 implies id_lt(
                            #[trigger] self@[k],
                            id@,
                        ) by {
                            if k < mid {
                                lemma_id_lt_trans(self@[k], self@[mid as int], id@);
                            }
                        }
                    }
                    lo = mid + 1;
                },
                Order3::Greater => {
                    proof {
                        assert forall|k: int| mid <= k < self@.len() implies id_lt(
                            id@,
                            #[trigger] self@[k],
                        ) by {
                            if k > mid {
                                lemma_id_lt_trans(id@, self@[mid as int], self@[k]);
                            }
                        }
                    }
                    hi = mid;
                },
            }
        }
        proof {
            if self@.contains(id@) {
                let k = choose|k: int| 0 <= k < self@.len() && self@[k] == id@;
                lemma_id_lt_irrefl(id@);
            }
        }
        (false, lo)
    }

    /// Membership test.
    pub fn contains(&self, id: &String) -> (b: bool)
        requires
            self.wf(),
        ensures
            b == self@.contains(id@),
    {
        self.search(id).0
    }

    /// Inserts `id`; returns true iff it was absent.
    pub fn insert(&mut self, id: String) -> (added: bool)
        requires
            old(self).wf(),
        ensures
            final(self).wf(),
            added == !old(self)@.contains(id@),
            final(self).set() == old(self).set().insert(id@),
            !added ==> final(self)@ == old(self)@,
    {
        let (found, pos) = self.search(&id);
        if found {
            return false;
        }
        let ghost before = self@;
        let ghost idv = id@;
        self.ids.insert(pos, id);
        proof {
            assert(self@ =~= before.insert(pos as int, idv));
            assert forall|i: int, j: int| 0 <= i < j < self@.len() implies id_lt(
                #[trigger] self@[i],
                #[trigger] self@[j],
            ) by {
                if j < pos {
                } else if i > pos {
                    assert(self@[i] == before[i - 1]);
                    assert(self@[j] == before[j - 1]);
                } else if i == pos {
                    assert(self@[j] == before[j - 1]);
                } else if j == pos {
                } else {
                    assert(self@[j] == before[j - 1]);
                    lemma_id_lt_trans(before[i], idv, before[j - 1]);
                }
            }
            assert(self@.to_set() =~= before.to_set().insert(idv)) by {
                assert forall|x| self@.to_set().contains(x) implies before.to_set().insert(
                    idv,
                ).contains(x) by {
                    let k = choose|k: int| 0 <= k < self@.len() && self@[k] == x;
                    if k < pos {
                        assert(before[k] == x);
                    } else if k > pos {
                        assert(before[k - 1] == x);
                    }
                }
                assert forall|x| before.to_set().insert(idv).contains(x) implies self@.to_set().contains(
                    x,
                ) by {
                    if x == idv {
                        assert(self@[pos as int] == x);
                    } else {
                        let k = choose|k: int| 0 <= k < before.len() && before[k] == x;
                        if k < pos {
                            assert(self@[k] == x);
                        } else {
                            assert(self@[k + 1] == x);
                        }
                    }
                }
            }
        }
        true
    }

    /// Removes `id`; returns true iff it was present.
    pub fn remove(&mut self, id: &String) -> (removed: bool)
        requires
            old(self).wf(),
        ensures
            final(self).wf(),
            removed == old(self)@.contains(id@),
            final(self).set() == old(self).set().remove(id@),
            !removed ==> final(self)@ == old(self)@,
    {
        let (found, pos) = self.search(id);
        if !found {
            proof {
                assert(old(self).set().remove(id@) =~= old(self).set());
            }
            return false;
        }
        let ghost before = self@;
        self.ids.remove(pos);
        proof {
            assert(self@ =~= before.remove(pos as int));
            assert forall|i: int, j: int| 0 <= i < j < self@.len() implies id_lt(
                #[trigger] self@[i],
                #[trigger] self@[j],
            ) by {
                if j < pos {
                } else if i >= pos {
                    assert(self@[i] == before[i + 1]);
                    assert(self@[j] == before[j + 1]);
                } else {
                    assert(self@[j] == before[j + 1]);
                }
            }
            lemma_sorted_no_duplicates(before);
            assert(self@.to_set() =~= before.to_set().remove(id@)) by {
                assert forall|x| self@.to_set().contains(x) implies before.to_set().remove(
                    id@,
                ).contains(x) by {
                    let k = choose|k: int| 0 <= k < self@.len() && self@[k] == x;
                    if k < pos {
                        assert(before[k] == x);
                    } else {
                        assert(before[k + 1] == x);
                    }
                }
                assert forall|x| before.to_set().remove(id@).contains(x) implies self@.to_set().contains(
                    x,
                ) by {
                    let k = choose|k: int| 0 <= k < before.len() && before[k] == x;
                    if k < pos {
                        assert(self@[k] == x);
                    } else {
                        assert(self@[k - 1] == x);
                    }
                }
            }
        }
        true
    }

    /// The set holding one identifier.
    pub fn singleton(id: String) -> (r: Self)
        ensures
            r.wf(),
            r@ == seq![id@],
    {
        let mut r = IdSet::new();
        r.insert(id);
        proof {
            assert(r@.len() == 1) by {
                lemma_sorted_no_duplicates(r@);
                assert(r.set() =~= set![id@]);
                r@.unique_seq_to_set();
            }
            assert(r.set().contains(r@[0]));
            assert(r@ =~= seq![id@]);
        }
        r
    }

    /// Adds every identifier of `other`.
    pub fn union_with(&mut self, other: &IdSet)
        requires
            old(self).wf(),
        ensures
            final(self).wf(),
            final(self).set() == old(self).set().union(other.set()),
    {
        let n = other.ids.len();
        for i in 0..n
            invariant
                n == other@.len(),
                self.wf(),
                self.set() == old(self).set().union(other@.subrange(0, i as int).to_set()),
        {
            let id = other.ids[i].clone();
            assert(other.ids@[i as int]@ == other@[i as int]);
            self.insert(id);
            assert(other@.subrange(0, i + 1) =~= other@.subrange(0, i as int).push(other@[i as int]));
            proof { lemma_push_to_set(other@.subrange(0, i as int), other@[i as int]); }
            assert(self.set() =~= old(self).set().union(other@.subrange(0, i + 1).to_set()));
        }
        assert(other@.subrange(0, n as int) =~= other@);
    }

    /// The identifiers in increasing order.
    pub fn to_vec(&self) -> (v: Vec<String>)
        ensures
            v@.map_values(|s: String| s@) == self@,
    {
        let mut v: Vec<String> = Vec::new();
        let n = self.ids.len();
        for i in 0..n
            invariant
                n == self.ids@.len(),
                v@.len() == i,
                forall|k: int| 0 <= k < i ==> #[trigger] v@[k]@ == self.ids@[k]@,
        {
            v.push(self.ids[i].clone());
        }
        assert(v@.map_values(|s: String| s@) =~= self@);
        v
    }

    /// Builds the set of the given identifiers.
    pub fn from_vec(v: Vec<String>) -> (r: Self)
        ensures
            r.wf(),
            r.set() == v@.map_values(|s: String| s@).to_set(),
    {
        let mut r = IdSet::new();
        let n = v.len();
        let ghost vv = v@.map_values(|s: String| s@);
        for i in 0..n
            invariant
                n == v@.len(),
                vv == v@.map_values(|s: String| s@),
                r.wf(),
                r.set() == vv.subrange(0, i as int).to_set(),
        {
            r.insert(v[i].clone());
            assert(vv.subrange(0, i + 1) =~= vv.subrange(0, i as int).push(vv[i as int]));
            proof { lemma_push_to_set(vv.subrange(0, i as int), vv[i as int]); }
            assert(r.set() =~= vv.subrange(0, i + 1).to_set());
        }
        assert(vv.subrange(0, n as int) =~= vv);
        r
    }
}

} // verus!
