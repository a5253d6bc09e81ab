//! Immutable, content-addressed events.
//!
//! An event's identifier is derived from its payload and its parent set:
//!
//! ```text
//! id = hex(sha256(hex(sha256(payload_json)) ++ hex(sha256(parent_1 ++ … ++ parent_n))))
//! ```
//!
//! where the parents are taken in increasing order and `payload_json` is the
//! serde_json text of the payload (`"Genesis"`, `"Noop"` or
//! `{"Data":{"kind":…,"value":…}}`).

use vstd::prelude::*;
use vstd::string::StringExecFns;
use vstd::string::StrSliceExecFns;
use vstd::utf8::encode_utf8;
pub use crate::ids::EventId;
use crate::ids::IdSet;
use crate::json::{JsonValue, quote, json_quote};
use crate::digest::{digest_hex, digest_to_hex};

verus! {

/// Mathematical model of a payload.
pub enum PayloadView {
    Data { kind: Seq<char>, value: Seq<char> },
    Noop,
    Genesis,
}

/// Arbitrary payload: the semantic content of an event.
#[derive(Debug, Clone, PartialEq, Eq)]
pub enum Payload {
    /// A typed domain event with a kind tag and a JSON value.
    Data { kind: String, value: JsonValue },
    /// A no-op event (eliminated during normalization).
    Noop,
    /// Genesis / root event.
    Genesis,
}

impl View for Payload {
    type V = PayloadView;

    open spec fn view(&self) -> PayloadView {
        match self {
            Payload::Data { kind, value } => PayloadView::Data { kind: kind@, value: value@ },
            Payload::Noop => PayloadView::Noop,
            Payload::Genesis => PayloadView::Genesis,
        }
    }
}

/// `"Genesis"`
pub open spec fn genesis_json() -> Seq<char> {
    seq!['"', 'G', 'e', 'n', 'e', 's', 'i', 's', '"']
}

/// `"Noop"`
pub open spec fn noop_json() -> Seq<char> {
    seq!['"', 'N', 'o', 'o', 'p', '"']
}

/// `{"Data":{"kind":`
pub open spec fn data_open_json() -> Seq<char> {
    seq!['{', '"', 'D', 'a', 't', 'a', '"', ':', '{', '"', 'k', 'i', 'n', 'd', '"', ':']
}

/// `,"value":`
pub open spec fn value_sep_json() -> Seq<char> {
    seq![',', '"', 'v', 'a', 'l', 'u', 'e', '"', ':']
}

/// `}}`
pub open spec fn data_close_json() -> Seq<char> {
    seq!['}', '}']
}

/// The serde_json text of a payload (externally tagged enum encoding).
pub open spec fn payload_json(p: PayloadView) -> Seq<char> {
    match p {
        PayloadView::Genesis => genesis_json(),
        PayloadView::Noop => noop_json(),
        PayloadView::Data { kind, value } => data_open_json() + json_quote(kind) + value_sep_json()
            + value + data_close_json(),
    }
}

/// The bytes of a payload's serde_json text.
pub open spec fn payload_bytes_of(p: PayloadView) -> Seq<u8> {
    encode_utf8(payload_json(p))
}

/// Concatenation of the UTF-8 bytes of the identifiers, in order.
pub open spec fn concat_id_bytes(ps: Seq<Seq<char>>) -> Seq<u8>
    decreases ps.len(),
{
    if ps.len() == 0 {
        Seq::empty()
    } else {
        concat_id_bytes(ps.drop_last()) + encode_utf8(ps.last())
    }
}

/// Hash of a payload.
pub open spec fn payload_hash(p: PayloadView) -> Seq<char> {
    digest_hex(payload_bytes_of(p))
}

/// Hash of a parent set given in increasing order.
pub open spec fn parents_hash(ps: Seq<Seq<char>>) -> Seq<char> {
    digest_hex(concat_id_bytes(ps))
}

/// Identifier from the two partial hashes.
pub open spec fn id_from_hashes(ph: Seq<char>, pa: Seq<char>) -> Seq<char> {
    digest_hex(encode_utf8(ph) + encode_utf8(pa))
}

/// The content-addressed identifier of an event with this payload and parents.
pub open spec fn event_id(p: PayloadView, ps: Seq<Seq<char>>) -> Seq<char> {
    id_from_hashes(payload_hash(p), parents_hash(ps))
}

impl Payload {
    /// True iff this is a no-op.
    pub fn is_noop(&self) -> (b: bool)
        ensures
            b == (self@ is Noop),
    {
        match self {
            Payload::Noop => true,
            _ => false,
        }
    }

    /// A copy of this payload.
    pub fn duplicate(&self) -> (r: Payload)
        ensures
            r@ == self@,
    {
        match self {
            Payload::Data { kind, value } => Payload::Data {
                kind: kind.clone(),
                value: value.duplicate(),
            },
            Payload::Noop => Payload::Noop,
            Payload::Genesis => Payload::Genesis,
        }
    }

    /// The serde_json text of this payload.
    pub fn to_json(&self) -> (r: String)
        ensures
            r@ == payload_json(self@),
    {
        match self {
            Payload::Genesis => {
                let s = String::from_str("\"Genesis\"");
                proof {
                    reveal_strlit("\"Genesis\"");
                    assert(s@ =~= genesis_json());
                }
                s
            },
            Payload::Noop => {
                let s = String::from_str("\"Noop\"");
                proof {
                    reveal_strlit("\"Noop\"");
                    assert(s@ =~= noop_json());
                }
                s
            },
            Payload::Data { kind, value } => {
                let mut s = String::from_str("{\"Data\":{\"kind\":");
                proof {
                    reveal_strlit("{\"Data\":{\"kind\":");
                    reveal_strlit(",\"value\":");
                    reveal_strlit("}}");
                }
                let q = quote(kind.as_str());
                s.append(q.as_str());
                s.append(",\"value\":");
                s.append(value.text());
                s.append("}}");
                proof {
                    assert(s@ =~= payload_json(self@));
                }
                s
            },
        }
    }

    /// The bytes of this payload's serde_json text.
    pub fn json_bytes(&self) -> (r: Vec<u8>)
        ensures
            r@ == payload_bytes_of(self@),
    {
        let s = self.to_json();
        s.as_str().as_bytes_vec()
    }
}

/// Mathematical model of an event.
pub struct EventView {
    pub id: Seq<char>,
    pub payload: PayloadView,
    pub parents: Seq<Seq<char>>,
    pub payload_bytes: Seq<u8>,
    pub cached_payload_hash: Seq<char>,
    pub cached_parent_set_hash: Seq<char>,
}

/// An immutable, content-addressed causal event.
#[derive(Debug, Clone, PartialEq, Eq)]
pub struct Event {
    /// Content-addressed identifier.
    pub id: EventId,
    /// Payload carried by this event.
    pub payload: Payload,
    /// Direct causal predecessors.
    pub parents: IdSet,
    /// Cached serde_json bytes of `payload`, used by cone hashing.
    pub payload_bytes: Vec<u8>,
    /// Payload hash that `id` was last computed from.
    pub cached_payload_hash: String,
    /// Parent-set hash that `id` was last computed from.
    pub cached_parent_set_hash: String,
}

impl View for Event {
    type V = EventView;

    open spec fn view(&self) -> EventView {
        EventView {
            id: self.id@,
            payload: self.payload@,
            parents: self.parents@,
            payload_bytes: self.payload_bytes@,
            cached_payload_hash: self.cached_payload_hash@,
            cached_parent_set_hash: self.cached_parent_set_hash@,
        }
    }
}

/// The event after `recompute_id`: unchanged where the payload and parent
/// hashes equal the cached ones, else with identifier, caches and payload
/// bytes computed from its payload and parents.
pub open spec fn rehashed(e: EventView) -> EventView {
    let ph = payload_hash(e.payload);
    let pa = parents_hash(e.parents);
    if ph == e.cached_payload_hash && pa == e.cached_parent_set_hash {
        e
    } else {
        EventView {
            id: id_from_hashes(ph, pa),
            payload: e.payload,
            parents: e.parents,
            payload_bytes: payload_bytes_of(e.payload),
            cached_payload_hash: ph,
            cached_parent_set_hash: pa,
        }
    }
}

/// An event as built by `Event::new`: identifier, byte cache and hash caches
/// all computed from the payload and the parents.
pub open spec fn content_addressed(e: EventView) -> bool {
    &&& e.id == event_id(e.payload, e.parents)
    &&& e.payload_bytes == payload_bytes_of(e.payload)
    &&& e.cached_payload_hash == payload_hash(e.payload)
    &&& e.cached_parent_set_hash == parents_hash(e.parents)
}

/// The event `Event::new` builds from a payload and parents.
pub open spec fn built(p: PayloadView, ps: Seq<Seq<char>>) -> EventView {
    EventView {
        id: event_id(p, ps),
        payload: p,
        parents: ps,
        payload_bytes: payload_bytes_of(p),
        cached_payload_hash: payload_hash(p),
        cached_parent_set_hash: parents_hash(ps),
    }
}

/// The genesis event.
pub open spec fn genesis_view() -> EventView {
    built(PayloadView::Genesis, Seq::empty())
}

/// Content addressing: two content-addressed events with the same payload
/// and parents are the same event, identifier included.
pub proof fn lemma_same_content_same_id(a: EventView, b: EventView)
    requires
        content_addressed(a),
        content_addressed(b),
        a.payload == b.payload,
        a.parents == b.parents,
    ensures
        a.id == b.id,
        a == b,
{
}

/// A content-addressed event is the one built from its payload and parents.
pub proof fn lemma_built(e: EventView)
    requires
        content_addressed(e),
    ensures
        e == built(e.payload, e.parents),
{
}

fn hash_payload(payload: &Payload) -> (r: String)
    ensures
        r@ == payload_hash(payload@),
        r@.len() == 64,
{
    let bytes = payload.json_bytes();
    digest_to_hex(bytes.as_slice())
}

fn hash_parents(parents: &IdSet) -> (r: String)
    ensures
        r@ == parents_hash(parents@),
        r@.len() == 64,
{
    let mut buf: Vec<u8> = Vec::new();
    let n = parents.len();
    for i in 0..n
        invariant
            n == parents@.len(),
            buf@ == concat_id_bytes(parents@.subrange(0, i as int)),
    {
        let p = parents.get(i);
        let pb = p.as_str().as_bytes();
        let ghost before = buf@;
        let m = pb.len();
        for j in 0..m
            invariant
                m == pb@.len(),
                buf@ == before + pb@.subrange(0, j as int),
        {
            buf.push(pb[j]);
            assert(pb@.subrange(0, j + 1) =~= pb@.subrange(0, j as int).push(pb@[j as int]));
            assert(buf@ =~= before + pb@.subrange(0, j + 1));
        }
        proof {
            assert(pb@.subrange(0, m as int) =~= pb@);
            let s = parents@.subrange(0, i + 1);
            assert(s.drop_last() =~= parents@.subrange(0, i as int));
            assert(s.last() == parents@[i as int]);
        }
    }
    assert(parents@.subrange(0, n as int) =~= parents@);
    digest_to_hex(buf.as_slice())
}

fn id_from_hash_strings(payload_hash: &String, parent_hash: &String) -> (r: String)
    ensures
        r@ == id_from_hashes(payload_hash@, parent_hash@),
        r@.len() == 64,
{
    let a = payload_hash.as_str().as_bytes();
    let b = parent_hash.as_str().as_bytes();
    let mut buf: Vec<u8> = Vec::new();
    let n = a.len();
    for i in 0..n
        invariant
            n == a@.len(),
            buf@ == a@.subrange(0, i as int),
    {
        buf.push(a[i]);
        assert(a@.subrange(0, i + 1) =~= a@.subrange(0, i as int).push(a@[i as int]));
    }
    let m = b.len();
    for j in 0..m
        invariant
            m == b@.len(),
            n == a@.len(),
            buf@ == a@ + b@.subrange(0, j as int),
    {
        buf.push(b[j]);
        assert(b@.subrange(0, j + 1) =~= b@.subrange(0, j as int).push(b@[j as int]));
        assert(buf@ =~= a@ + b@.subrange(0, j + 1));
    }
    assert(a@.subrange(0, n as int) =~= a@);
    assert(b@.subrange(0, m as int) =~= b@);
    digest_to_hex(buf.as_slice())
}

impl Event {
    /// Well-formedness: the parent set is sorted.
    pub open spec fn wf(&self) -> bool {
        self.parents.wf()
    }

    /// Creates an event, computing its identifier from its content.
    pub fn new(payload: Payload, parents: IdSet) -> (r: Event)
        ensures
            r@.payload == payload@,
            r@.parents == parents@,
            content_addressed(r@),
            r@ == built(payload@, parents@),
            r.id@.len() == 64,
            parents.wf() ==> r.wf(),
    {
        let ph = hash_payload(&payload);
        let pa = hash_parents(&parents);
        let id = id_from_hash_strings(&ph, &pa);
        let payload_bytes = payload.json_bytes();
        Event {
            id,
            payload,
            parents,
            payload_bytes,
            cached_payload_hash: ph,
            cached_parent_set_hash: pa,
        }
    }

    /// The genesis event: no parents.
    pub fn genesis() -> (r: Event)
        ensures
            r@.payload == PayloadView::Genesis,
            r@.parents == Seq::<Seq<char>>::empty(),
            content_addressed(r@),
            r@ == genesis_view(),
            r.wf(),
    {
        Event::new(Payload::Genesis, IdSet::new())
    }

    /// A data event.
    pub fn data(kind: String, value: JsonValue, parents: IdSet) -> (r: Event)
        ensures
            r@.payload == (PayloadView::Data { kind: kind@, value: value@ }),
            r@.parents == parents@,
            content_addressed(r@),
            parents.wf() ==> r.wf(),
    {
        Event::new(Payload::Data { kind, value }, parents)
    }

    /// A no-op event, eligible for elimination.
    pub fn noop(parents: IdSet) -> (r: Event)
        ensures
            r@.payload == PayloadView::Noop,
            r@.parents == parents@,
            content_addressed(r@),
            parents.wf() ==> r.wf(),
    {
        Event::new(Payload::Noop, parents)
    }

    /// The content-addressed identifier for the given payload and parents.
    pub fn compute_id(payload: &Payload, parents: &IdSet) -> (r: EventId)
        ensures
            r@ == event_id(payload@, parents@),
    {
        let ph = hash_payload(payload);
        let pa = hash_parents(parents);
        id_from_hash_strings(&ph, &pa)
    }

    /// The cached serde_json bytes of the payload.
    pub fn payload_bytes(&self) -> (r: &[u8])
        ensures
            r@ == self.payload_bytes@,
    {
        self.payload_bytes.as_slice()
    }

    /// Recomputes the identifier after a change of payload or parents.
    ///
    /// Where the payload and parent hashes equal the cached ones nothing
    /// changes; otherwise the caches, the identifier and the payload bytes are
    /// recomputed.
    pub fn recompute_id(&mut self)
        ensures
            final(self)@ == rehashed(old(self)@),
            final(self).parents == old(self).parents,
    {
        let ph = hash_payload(&self.payload);
        let pa = hash_parents(&self.parents);
        if ph == self.cached_payload_hash && pa == self.cached_parent_set_hash {
            return;
        }
        self.id = id_from_hash_strings(&ph, &pa);
        self.cached_payload_hash = ph;
        self.cached_parent_set_hash = pa;
        self.payload_bytes = self.payload.json_bytes();
    }

    /// A copy of this event.
    pub fn duplicate(&self) -> (r: Event)
        ensures
            r@ == self@,
            self.wf() ==> r.wf(),
    {
        Event {
            id: self.id.clone(),
            payload: self.payload.duplicate(),
            parents: self.parents.duplicate(),
            payload_bytes: self.payload_bytes.clone(),
            cached_payload_hash: self.cached_payload_hash.clone(),
            cached_parent_set_hash: self.cached_parent_set_hash.clone(),
        }
    }
}

} // verus!
