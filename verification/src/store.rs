//! The per-peer event store: a set of signed events with at most one
//! retained event per `(verifying key, name)`, kept sorted by the byte order
//! of the envelope encoding so that every peer lists and hashes the same set
//! the same way.

use vstd::prelude::*;
use vstd::map::*;
use vstd::bytes::spec_u64_to_le_bytes;

use crate::codec::{lex_lt, lex_less, bytes_eq};
use crate::codec::{lemma_lex_connex, lemma_lex_asym, lemma_lex_trans, lemma_lex_irrefl};
use crate::events::{Event, EventV};
use crate::models::{Name, StateHash};
use crate::keys::VerifyingKey;
use crate::hashing::blake3_of;
use crate::signed::{Signed, SignedV, wf_env, enc_env, encode_env, lemma_enc_env_injective};

verus! {

/// The storage key of an envelope: who wrote it, and under which name.
pub type KeyV = (Seq<u8>, Seq<char>);

/// The mathematical image of one stored envelope.
pub type EnvV = SignedV<EventV>;

pub open spec fn key_of(v: EnvV) -> KeyV {
    (v.verifying_key, v.inner.name())
}

/// Strict dominance in the resolution order: higher priority wins, and equal
/// priorities fall back to the byte order of the envelope encodings.
pub open spec fn beats(a: EnvV, b: EnvV) -> bool {
    ||| a.inner.priority() > b.inner.priority()
    ||| (a.inner.priority() == b.inner.priority() && lex_lt(enc_env(b), enc_env(a)))
}

/// Whether an event is past its expiry at time `now`; a deletion never is.
pub open spec fn expired_at(v: EnvV, now: u64) -> bool {
    match v.inner.expires_at() {
        Some(t) => t <= now,
        None => false,
    }
}

// ---------------------------------------------------------------------------
// From a sequence of stored envelopes to a map keyed by (key, name)
// ---------------------------------------------------------------------------

pub open spec fn keys_unique(s: Seq<EnvV>) -> bool {
    forall|i: int, j: int|
        0 <= i < s.len() && 0 <= j < s.len() && i != j
            ==> key_of(#[trigger] s[i]) != key_of(#[trigger] s[j])
}

pub open spec fn all_wf(s: Seq<EnvV>) -> bool {
    forall|i: int| 0 <= i < s.len() ==> wf_env(#[trigger] s[i])
}

/// Strictly ascending in the byte order of the envelope encodings.
pub open spec fn sorted_env(s: Seq<EnvV>) -> bool {
    forall|i: int, j: int|
        0 <= i < j < s.len() ==> lex_lt(enc_env(#[trigger] s[i]), enc_env(#[trigger] s[j]))
}

/// The map that a key-unique sequence of envelopes represents.
pub open spec fn seq_key_map(s: Seq<EnvV>) -> Map<KeyV, EnvV> {
    Map::new(
        |k: KeyV| exists|i: int| 0 <= i < s.len() && key_of(s[i]) == k,
        |k: KeyV| s[choose|i: int| 0 <= i < s.len() && key_of(s[i]) == k],
    )
}

/// In a key-unique sequence, each element is its key's map entry.
pub proof fn lemma_seq_key_map_index(s: Seq<EnvV>, i: int)
    requires
        keys_unique(s),
        0 <= i < s.len(),
    ensures
        seq_key_map(s).contains_key(key_of(s[i])),
        seq_key_map(s)[key_of(s[i])] == s[i],
{
    let k = key_of(s[i]);
    assert(exists|j: int| 0 <= j < s.len() && key_of(s[j]) == k);
    let j = choose|j: int| 0 <= j < s.len() && key_of(s[j]) == k;
    assert(j == i);
}

/// Inserting an envelope under a fresh key inserts its map entry.
pub proof fn lemma_seq_key_map_insert(s: Seq<EnvV>, p: int, e: EnvV)
    requires
        keys_unique(s),
        0 <= p <= s.len(),
        forall|i: int| 0 <= i < s.len() ==> key_of(#[trigger] s[i]) != key_of(e),
    ensures
        keys_unique(s.insert(p, e)),
        seq_key_map(s.insert(p, e)) == seq_key_map(s).insert(key_of(e), e),
{
    let t = s.insert(p, e);
    s.insert_ensures(p, e);
    assert forall|i: int, j: int|
        0 <= i < t.len() && 0 <= j < t.len() && i != j implies key_of(#[trigger] t[i])
        != key_of(#[trigger] t[j]) by {
        let oi: int = if i < p { i } else { i - 1 };
        let oj: int = if j < p { j } else { j - 1 };
        if i != p && j != p {
            assert(t[i] == s[oi]);
            assert(t[j] == s[oj]);
        } else if i == p {
            assert(t[j] == s[oj]);
        } else {
            assert(t[i] == s[oi]);
        }
    }
    assert_maps_equal!(seq_key_map(t), seq_key_map(s).insert(key_of(e), e), k => {
        if k == key_of(e) {
            assert(t[p] == e);
            lemma_seq_key_map_index(t, p);
        } else {
            if seq_key_map(s).contains_key(k) {
                let i = choose|i: int| 0 <= i < s.len() && key_of(s[i]) == k;
                lemma_seq_key_map_index(s, i);
                let ni: int = if i < p { i } else { i + 1 };
                assert(t[ni] == s[i]);
                lemma_seq_key_map_index(t, ni);
            }
            if seq_key_map(t).contains_key(k) {
                let i = choose|i: int| 0 <= i < t.len() && key_of(t[i]) == k;
                lemma_seq_key_map_index(t, i);
                let oi: int = if i < p { i } else { i - 1 };
                assert(i != p);
                assert(t[i] == s[oi]);
                lemma_seq_key_map_index(s, oi);
            }
        }
    });
}

/// Removing an envelope removes its map entry.
pub proof fn lemma_seq_key_map_remove(s: Seq<EnvV>, p: int)
    requires
        keys_unique(s),
        0 <= p < s.len(),
    ensures
        keys_unique(s.remove(p)),
        seq_key_map(s.remove(p)) == seq_key_map(s).remove(key_of(s[p])),
{
    let t = s.remove(p);
    s.remove_ensures(p);
    assert forall|i: int, j: int|
        0 <= i < t.len() && 0 <= j < t.len() && i != j implies key_of(#[trigger] t[i])
        != key_of(#[trigger] t[j]) by {
        let oi: int = if i < p { i } else { i + 1 };
        let oj: int = if j < p { j } else { j + 1 };
        assert(t[i] == s[oi]);
        assert(t[j] == s[oj]);
    }
    assert_maps_equal!(seq_key_map(t), seq_key_map(s).remove(key_of(s[p])), k => {
        if seq_key_map(t).contains_key(k) {
            let i = choose|i: int| 0 <= i < t.len() && key_of(t[i]) == k;
            lemma_seq_key_map_index(t, i);
            let oi: int = if i < p { i } else { i + 1 };
            assert(t[i] == s[oi]);
            lemma_seq_key_map_index(s, oi);
        }
        if k != key_of(s[p]) && seq_key_map(s).contains_key(k) {
            let i = choose|i: int| 0 <= i < s.len() && key_of(s[i]) == k;
            lemma_seq_key_map_index(s, i);
            assert(i != p);
            let ni: int = if i < p { i } else { i - 1 };
            assert(t[ni] == s[i]);
            lemma_seq_key_map_index(t, ni);
        }
    });
}

// ---------------------------------------------------------------------------
// How one insertion changes the represented map
// ---------------------------------------------------------------------------

/// The effect of offering `e` to a store state `m`: the entry under `e`'s
/// key becomes whichever of the present entry and `e` dominates.
pub open spec fn absorb(m: Map<KeyV, EnvV>, e: EnvV) -> Map<KeyV, EnvV> {
    let k = key_of(e);
    if m.contains_key(k) && !beats(e, m[k]) {
        m
    } else {
        m.insert(k, e)
    }
}

/// Whether offering `e` changes the state: it does exactly when no present
/// entry under its key dominates or equals it.
pub open spec fn absorbs(m: Map<KeyV, EnvV>, e: EnvV) -> bool {
    !(m.contains_key(key_of(e)) && !beats(e, m[key_of(e)]))
}

// ---------------------------------------------------------------------------
// Views of event vectors, and filtering helpers
// ---------------------------------------------------------------------------

/// The mathematical images of a vector of envelopes, in order.
pub open spec fn views_of(s: Seq<Signed<Event>>) -> Seq<EnvV> {
    Seq::new(s.len() as nat, |i: int| s[i]@)
}

/// The liveness test at time `now`, as a named predicate so that every
/// contract filters by the same function.
pub open spec fn live_pred(now: u64) -> spec_fn(EnvV) -> bool {
    |e: EnvV| !expired_at(e, now)
}

/// Liveness and key match, for the per-key query.
pub open spec fn key_live_pred(vk: Seq<u8>, name: Seq<char>, now: u64) -> spec_fn(EnvV) -> bool {
    |e: EnvV| key_of(e) == (vk, name) && !expired_at(e, now)
}

/// Liveness and name match, for the namespace query.
pub open spec fn name_live_pred(name: Seq<char>, now: u64) -> spec_fn(EnvV) -> bool {
    |e: EnvV| e.inner.name() == name && !expired_at(e, now)
}

/// The entries of `m` that are live at `now`.
pub open spec fn live_map(m: Map<KeyV, EnvV>, now: u64) -> Map<KeyV, EnvV> {
    Map::new(
        |k: KeyV| m.contains_key(k) && !expired_at(m[k], now),
        |k: KeyV| m[k],
    )
}

/// `t` selects its elements from the first `n` places of `s0`.
pub open spec fn picked_from(t: Seq<EnvV>, s0: Seq<EnvV>, n: int) -> bool {
    forall|a: int|
        #![trigger t[a]]
        0 <= a < t.len() ==> exists|b: int| 0 <= b < n && t[a] == s0[b]
}

pub proof fn lemma_filter_singleton(x: EnvV, pred: spec_fn(EnvV) -> bool)
    ensures
        seq![x].filter(pred) == if pred(x) {
            seq![x]
        } else {
            Seq::<EnvV>::empty()
        },
{
    reveal(Seq::filter);
    assert(seq![x].drop_last() =~= Seq::<EnvV>::empty());
    assert(seq![x].last() == x);
    assert(Seq::<EnvV>::empty().filter(pred) =~= Seq::<EnvV>::empty());
    if pred(x) {
        assert(seq![x].filter(pred) =~= seq![x]);
    }
}

/// Filtering one more element appends it exactly when it passes.
pub proof fn lemma_filter_take_step(s: Seq<EnvV>, i: int, pred: spec_fn(EnvV) -> bool)
    requires
        0 <= i < s.len(),
    ensures
        s.take(i + 1).filter(pred) == if pred(s[i]) {
            s.take(i).filter(pred).push(s[i])
        } else {
            s.take(i).filter(pred)
        },
{
    assert(s.take(i + 1) =~= s.take(i) + seq![s[i]]);
    Seq::filter_distributes_over_add(s.take(i), seq![s[i]], pred);
    lemma_filter_singleton(s[i], pred);
    if pred(s[i]) {
        assert(s.take(i).filter(pred) + seq![s[i]] =~= s.take(i).filter(pred).push(s[i]));
    } else {
        assert(s.take(i).filter(pred) + Seq::<EnvV>::empty() =~= s.take(i).filter(pred));
    }
}

// ---------------------------------------------------------------------------
// The store
// ---------------------------------------------------------------------------

struct PeerRecord {
    url: String,
    last_hash: crate::models::Hash,
}

spec fn urls_unique(s: Seq<PeerRecord>) -> bool {
    forall|i: int, j: int|
        0 <= i < s.len() && 0 <= j < s.len() && i != j
            ==> #[trigger] s[i].url@ != #[trigger] s[j].url@
}

spec fn peer_map_of(s: Seq<PeerRecord>) -> Map<Seq<char>, Seq<u8>> {
    Map::new(
        |u: Seq<char>| exists|i: int| 0 <= i < s.len() && s[i].url@ == u,
        |u: Seq<char>| s[choose|i: int| 0 <= i < s.len() && s[i].url@ == u].last_hash@,
    )
}

proof fn lemma_peer_map_index(s: Seq<PeerRecord>, i: int)
    requires
        urls_unique(s),
        0 <= i < s.len(),
    ensures
        peer_map_of(s).contains_key(s[i].url@),
        peer_map_of(s)[s[i].url@] == s[i].last_hash@,
{
    let u = s[i].url@;
    assert(exists|j: int| 0 <= j < s.len() && s[j].url@ == u);
    let j = choose|j: int| 0 <= j < s.len() && s[j].url@ == u;
    assert(j == i);
}

proof fn lemma_peer_map_remove(s: Seq<PeerRecord>, p: int)
    requires
        urls_unique(s),
        0 <= p < s.len(),
    ensures
        urls_unique(s.remove(p)),
        peer_map_of(s.remove(p)) == peer_map_of(s).remove(s[p].url@),
{
    let t = s.remove(p);
    s.remove_ensures(p);
    assert forall|i: int, j: int|
        0 <= i < t.len() && 0 <= j < t.len() && i != j implies #[trigger] t[i].url@
        != #[trigger] t[j].url@ by {
        let oi: int = if i < p { i } else { i + 1 };
        let oj: int = if j < p { j } else { j + 1 };
        assert(t[i] == s[oi]);
        assert(t[j] == s[oj]);
    }
    assert_maps_equal!(peer_map_of(t), peer_map_of(s).remove(s[p].url@), u => {
        if peer_map_of(t).contains_key(u) {
            let i = choose|i: int| 0 <= i < t.len() && t[i].url@ == u;
            lemma_peer_map_index(t, i);
            let oi: int = if i < p { i } else { i + 1 };
            assert(t[i] == s[oi]);
            lemma_peer_map_index(s, oi);
        }
        if u != s[p].url@ && peer_map_of(s).contains_key(u) {
            let i = choose|i: int| 0 <= i < s.len() && s[i].url@ == u;
            lemma_peer_map_index(s, i);
            assert(i != p);
            let ni: int = if i < p { i } else { i - 1 };
            assert(t[ni] == s[i]);
            lemma_peer_map_index(t, ni);
        }
    });
}

proof fn lemma_peer_map_push(s: Seq<PeerRecord>, rec: PeerRecord)
    requires
        urls_unique(s),
        forall|i: int| 0 <= i < s.len() ==> #[trigger] s[i].url@ != rec.url@,
    ensures
        urls_unique(s.push(rec)),
        peer_map_of(s.push(rec)) == peer_map_of(s).insert(rec.url@, rec.last_hash@),
{
    let t = s.push(rec);
    assert forall|i: int, j: int|
        0 <= i < t.len() && 0 <= j < t.len() && i != j implies #[trigger] t[i].url@
        != #[trigger] t[j].url@ by {
        if i < s.len() && j < s.len() {
            assert(t[i] == s[i]);
            assert(t[j] == s[j]);
        } else if i < s.len() {
            assert(t[i] == s[i]);
            assert(t[j] == rec);
        } else {
            assert(t[i] == rec);
            assert(t[j] == s[j]);
        }
    }
    assert_maps_equal!(peer_map_of(t), peer_map_of(s).insert(rec.url@, rec.last_hash@), u => {
        if u == rec.url@ {
            assert(t[s.len() as int] == rec);
            lemma_peer_map_index(t, s.len() as int);
        } else {
            if peer_map_of(t).contains_key(u) {
                let i = choose|i: int| 0 <= i < t.len() && t[i].url@ == u;
                lemma_peer_map_index(t, i);
                assert(i != s.len());
                assert(t[i] == s[i]);
                lemma_peer_map_index(s, i);
            }
            if peer_map_of(s).contains_key(u) {
                let i = choose|i: int| 0 <= i < s.len() && s[i].url@ == u;
                lemma_peer_map_index(s, i);
                assert(t[i] == s[i]);
                lemma_peer_map_index(t, i);
            }
        }
    });
}

/// The per-peer event store, with the peer bookkeeping that anti-entropy
/// needs. Events are unique per key and sorted by envelope encoding.
pub struct EventStore {
    events: Vec<Signed<Event>>,
    peers: Vec<PeerRecord>,
}

impl EventStore {
    /// The mathematical images of the stored envelopes, in storage order.
    pub closed spec fn evs(self) -> Seq<EnvV> {
        Seq::new(self.events@.len(), |i: int| self.events@[i]@)
    }

    /// The retained entry per key.
    pub open spec fn as_map(self) -> Map<KeyV, EnvV> {
        seq_key_map(self.evs())
    }

    /// The remembered last state hash per peer URL.
    pub closed spec fn peer_map(self) -> Map<Seq<char>, Seq<u8>> {
        peer_map_of(self.peers@)
    }

    pub open spec fn wf(self) -> bool {
        &&& all_wf(self.evs())
        &&& sorted_env(self.evs())
        &&& keys_unique(self.evs())
        &&& self.peers_unique()
    }

    pub closed spec fn peers_unique(self) -> bool {
        urls_unique(self.peers@)
    }

    /// An empty store.
    pub fn new() -> (r: EventStore)
        ensures
            r.wf(),
            r.as_map() == Map::<KeyV, EnvV>::empty(),
            r.peer_map() == Map::<Seq<char>, Seq<u8>>::empty(),
            r.evs() == Seq::<EnvV>::empty(),
    {
        let r = EventStore { events: Vec::new(), peers: Vec::new() };
        proof {
            assert(r.evs() =~= Seq::<EnvV>::empty());
            assert(r.as_map() =~= Map::<KeyV, EnvV>::empty());
            assert(r.peer_map() =~= Map::<Seq<char>, Seq<u8>>::empty());
        }
        r
    }

    /// How many events are stored, expired ones included until they are
    /// swept.
    pub fn event_count(&self) -> (r: usize)
        ensures
            r == self.evs().len(),
    {
        self.events.len()
    }

    /// Finds the index of the stored event under the given key, if any.
    fn find_key(&self, vk: &Vec<u8>, name: &crate::models::Name) -> (r: Option<usize>)
        ensures
            match r {
                Some(i) => i < self.evs().len() && key_of(self.evs()[i as int]) == (vk@, name@),
                None => forall|i: int|
                    0 <= i < self.evs().len() ==> key_of(#[trigger] self.evs()[i]) != (vk@, name@),
            },
    {
        let mut i: usize = 0;
        while i < self.events.len()
            invariant
                i <= self.evs().len(),
                forall|j: int| 0 <= j < i ==> key_of(#[trigger] self.evs()[j]) != (vk@, name@),
            decreases self.evs().len() - i,
        {
            let same_vk = bytes_eq(&self.events[i].verifying_key, vk);
            let same_name = self.events[i].inner.name().same_name(name);
            if same_vk && same_name {
                assert(key_of(self.evs()[i as int]) == (vk@, name@));
                return Some(i);
            }
            assert(key_of(self.evs()[i as int]) != (vk@, name@));
            i = i + 1;
        }
        None
    }

    /// The first storage index whose envelope encoding does not sort before
    /// `enc_new`.
    fn lower_bound(&self, enc_new: &Vec<u8>) -> (p: usize)
        requires
            all_wf(self.evs()),
        ensures
            p <= self.evs().len(),
            forall|j: int| 0 <= j < p ==> lex_lt(enc_env(#[trigger] self.evs()[j]), enc_new@),
            p < self.evs().len() ==> !lex_lt(enc_env(self.evs()[p as int]), enc_new@),
    {
        let mut p: usize = 0;
        loop
            invariant
                all_wf(self.evs()),
                p <= self.evs().len(),
                forall|j: int| 0 <= j < p ==> lex_lt(enc_env(#[trigger] self.evs()[j]), enc_new@),
            decreases self.evs().len() - p,
        {
            if p >= self.events.len() {
                return p;
            }
            assert(self.evs()[p as int] == self.events@[p as int]@);
            let enc_there = encode_env(&self.events[p]);
            if !lex_less(&enc_there, enc_new) {
                return p;
            }
            p = p + 1;
        }
    }

    /// Inserts `event` at its sorted position. The caller has ruled out any
    /// stored event under the same key.
    fn sorted_insert(&mut self, event: Signed<Event>)
        requires
            old(self).wf(),
            wf_env(event@),
            forall|i: int|
                0 <= i < old(self).evs().len()
                    ==> key_of(#[trigger] old(self).evs()[i]) != key_of(event@),
        ensures
            final(self).wf(),
            final(self).as_map() == old(self).as_map().insert(key_of(event@), event@),
            final(self).peer_map() == old(self).peer_map(),
            final(self).evs().len() == old(self).evs().len() + 1,
    {
        let ghost s0 = self.evs();
        let enc_new = encode_env(&event);

        proof {
            assert forall|i: int| 0 <= i < s0.len() implies enc_env(#[trigger] s0[i])
                != enc_env(event@) by {
                if enc_env(s0[i]) == enc_env(event@) {
                    lemma_enc_env_injective(s0[i], event@);
                }
            }
        }

        let p = self.lower_bound(&enc_new);

        proof {
            // Everything at or past p sorts after the new event.
            if (p as int) < s0.len() {
                assert(!lex_lt(enc_env(s0[p as int]), enc_env(event@)));
                lemma_lex_connex(enc_env(s0[p as int]), enc_env(event@));
                assert(lex_lt(enc_env(event@), enc_env(s0[p as int])));
            }
            assert forall|j: int| p <= j < s0.len() implies lex_lt(
                enc_env(event@),
                enc_env(#[trigger] s0[j]),
            ) by {
                if j > p {
                    lemma_lex_trans(
                        enc_env(event@),
                        enc_env(s0[p as int]),
                        enc_env(s0[j]),
                    );
                }
            }
        }

        self.events.insert(p, event);

        proof {
            let s1 = self.evs();
            s0.insert_ensures(p as int, event@);
            assert(s1 =~= s0.insert(p as int, event@));
            // well-formed
            assert forall|i: int| 0 <= i < s1.len() implies wf_env(#[trigger] s1[i]) by {
                if i < p {
                    assert(s1[i] == s0[i]);
                } else if i == p {
                    assert(s1[i] == event@);
                } else {
                    assert(s1[i] == s0[i - 1]);
                }
            }
            // sorted
            assert forall|i: int, j: int| 0 <= i < j < s1.len() implies lex_lt(
                enc_env(#[trigger] s1[i]),
                enc_env(#[trigger] s1[j]),
            ) by {
                let oi: int = if i < p { i } else { i - 1 };
                let oj: int = if j < p { j } else { j - 1 };
                if i == p {
                    assert(s1[j] == s0[oj]);
                } else if j == p {
                    assert(s1[i] == s0[oi]);
                } else {
                    assert(s1[i] == s0[oi]);
                    assert(s1[j] == s0[oj]);
                }
            }
            lemma_seq_key_map_insert(s0, p as int, event@);
        }
    }

    /// Offers a signed event to the store. The caller has already verified
    /// the signature. Returns how many events were inserted: `0` when the
    /// event is a duplicate or is dominated by a stored event under its key
    /// (it is then dropped), `1` otherwise; in the latter case the event
    /// replaces whatever its key held.
    pub fn insert_event(&mut self, event: Signed<Event>) -> (r: usize)
        requires
            old(self).wf(),
            wf_env(event@),
        ensures
            final(self).wf(),
            final(self).as_map() == absorb(old(self).as_map(), event@),
            final(self).peer_map() == old(self).peer_map(),
            r == if absorbs(old(self).as_map(), event@) { 1int } else { 0int },
    {
        let ghost m0 = self.as_map();
        let ghost k = key_of(event@);

        let found = self.find_key(&event.verifying_key, event.inner.name());

        match found {
            None => {
                proof {
                    assert(!m0.contains_key(k)) by {
                        if m0.contains_key(k) {
                            let i = choose|i: int|
                                0 <= i < self.evs().len() && key_of(self.evs()[i]) == k;
                        }
                    }
                }
                self.sorted_insert(event);
                1
            }
            Some(i) => {
                let ghost stored_v = self.evs()[i as int];
                proof {
                    lemma_seq_key_map_index(self.evs(), i as int);
                    assert(m0.contains_key(k) && m0[k] == stored_v);
                }
                let stored_priority = self.events[i].inner.priority();
                let new_priority = event.inner.priority();
                if stored_priority > new_priority {
                    // The stored event dominates: drop the offer.
                    proof {
                        assert(beats(stored_v, event@));
                        assert(!beats(event@, stored_v));
                        assert(absorb(m0, event@) =~= m0);
                    }
                    0
                } else if stored_priority < new_priority {
                    proof {
                        assert(beats(event@, stored_v));
                    }
                    self.replace_at(i, event);
                    1
                } else {
                    let enc_old = encode_env(&self.events[i]);
                    let enc_new = encode_env(&event);
                    if bytes_eq(&enc_old, &enc_new) {
                        // Exact duplicate: silently deduplicate.
                        proof {
                            lemma_enc_env_injective(stored_v, event@);
                            assert(stored_v == event@);
                            lemma_lex_irrefl(enc_env(event@));
                            assert(!beats(event@, stored_v));
                            assert(absorb(m0, event@) =~= m0);
                        }
                        0
                    } else if lex_less(&enc_new, &enc_old) {
                        // The stored encoding is the tiebreak winner.
                        proof {
                            lemma_lex_asym(enc_env(event@), enc_env(stored_v));
                            assert(beats(stored_v, event@));
                            assert(!beats(event@, stored_v));
                            assert(absorb(m0, event@) =~= m0);
                        }
                        0
                    } else {
                        proof {
                            lemma_lex_connex(enc_env(event@), enc_env(stored_v));
                            assert(lex_lt(enc_env(stored_v), enc_env(event@)));
                            assert(beats(event@, stored_v));
                        }
                        self.replace_at(i, event);
                        1
                    }
                }
            }
        }
    }

    /// Replaces the stored event at `i`, which holds `event`'s key, with
    /// `event`.
    fn replace_at(&mut self, i: usize, event: Signed<Event>)
        requires
            old(self).wf(),
            wf_env(event@),
            i < old(self).evs().len(),
            key_of(old(self).evs()[i as int]) == key_of(event@),
        ensures
            final(self).wf(),
            final(self).as_map() == old(self).as_map().insert(key_of(event@), event@),
            final(self).peer_map() == old(self).peer_map(),
    {
        let ghost s0 = self.evs();
        let ghost k = key_of(event@);
        proof {
            lemma_seq_key_map_index(s0, i as int);
        }
        let _removed = self.events.remove(i);
        proof {
            let s1 = self.evs();
            assert(s1 =~= s0.remove(i as int));
            s0.remove_ensures(i as int);
            lemma_seq_key_map_remove(s0, i as int);
            assert forall|j: int| 0 <= j < s1.len() implies wf_env(#[trigger] s1[j])
                && key_of(s1[j]) != k by {
                let oj: int = if j < i { j } else { j + 1 };
                assert(s1[j] == s0[oj]);
            }
            assert forall|a: int, b: int| 0 <= a < b < s1.len() implies lex_lt(
                enc_env(#[trigger] s1[a]),
                enc_env(#[trigger] s1[b]),
            ) by {
                let oa: int = if a < i { a } else { a + 1 };
                let ob: int = if b < i { b } else { b + 1 };
                assert(s1[a] == s0[oa]);
                assert(s1[b] == s0[ob]);
            }
        }
        self.sorted_insert(event);
        proof {
            assert(seq_key_map(s0).remove(k).insert(k, event@)
                =~= seq_key_map(s0).insert(k, event@));
        }
    }

    /// Lists the events that are live at `now`, sorted by envelope-byte
    /// order: the deterministic listing that peers exchange and hash.
    pub fn signed_events(&self, now: u64) -> (r: Vec<Signed<Event>>)
        requires
            self.wf(),
        ensures
            views_of(r@) == self.evs().filter(live_pred(now)),
            all_wf(views_of(r@)),
            sorted_env(views_of(r@)),
            keys_unique(views_of(r@)),
            picked_from(views_of(r@), self.evs(), self.evs().len() as int),
    {
        let ghost s0 = self.evs();
        let ghost pred = live_pred(now);
        let mut out: Vec<Signed<Event>> = Vec::new();
        proof {
            reveal(Seq::filter);
            assert(s0.take(0) =~= Seq::<EnvV>::empty());
            assert(views_of(out@) =~= Seq::<EnvV>::empty());
            assert(views_of(out@) =~= s0.take(0).filter(pred));
        }
        let mut i: usize = 0;
        while i < self.events.len()
            invariant
                self.wf(),
                s0 == self.evs(),
                pred == live_pred(now),
                i <= s0.len(),
                views_of(out@) == s0.take(i as int).filter(pred),
                all_wf(views_of(out@)),
                sorted_env(views_of(out@)),
                keys_unique(views_of(out@)),
                picked_from(views_of(out@), s0, i as int),
            decreases s0.len() - i,
        {
            proof {
                assert(self.evs()[i as int] == self.events@[i as int]@);
                lemma_filter_take_step(s0, i as int, pred);
            }
            let is_expired = match self.events[i].inner.expires_at() {
                Some(t) => t <= now,
                None => false,
            };
            if !is_expired {
                let ghost t = views_of(out@);
                proof {
                    lemma_subseq_push(s0, views_of(out@), i as int);
                    assert(t == views_of(out@));
                }
                out.push(self.events[i].clone());
                proof {
                    assert(views_of(out@) =~= t.push(s0[i as int]));
                }
            }
            i = i + 1;
        }
        proof {
            assert(s0.take(s0.len() as int) =~= s0);
        }
        out
    }

    /// Removes every event whose expiry is at or before `unix_timestamp` and
    /// reports how many were removed. Deletions are never swept.
    pub fn delete_expired_events(&mut self, unix_timestamp: u64) -> (r: usize)
        requires
            old(self).wf(),
        ensures
            final(self).wf(),
            final(self).evs() == old(self).evs().filter(live_pred(unix_timestamp)),
            final(self).as_map() == live_map(old(self).as_map(), unix_timestamp),
            final(self).peer_map() == old(self).peer_map(),
            r == old(self).evs().len() - final(self).evs().len(),
    {
        let ghost s0 = self.evs();
        let ghost pred = live_pred(unix_timestamp);
        let survivors = self.signed_events(unix_timestamp);
        let before = self.events.len();
        let after = survivors.len();
        proof {
            broadcast use Seq::lemma_filter_len;

            assert(views_of(survivors@).len() == survivors@.len());
            assert(s0.filter(pred).len() <= s0.len());
        }
        self.events = survivors;
        proof {
            let s1 = self.evs();
            assert(s1 =~= views_of(self.events@));
            assert(s1 == s0.filter(pred));
            broadcast use Seq::lemma_filter_pred;

            assert_maps_equal!(seq_key_map(s1), live_map(seq_key_map(s0), unix_timestamp), k => {
                if seq_key_map(s1).contains_key(k) {
                    let i = choose|i: int| 0 <= i < s1.len() && key_of(s1[i]) == k;
                    lemma_seq_key_map_index(s1, i);
                    assert(picked_from(s1, s0, s0.len() as int));
                    assert(s1[i] == s1[i]);
                    let b = choose|b: int| 0 <= b < s0.len() && s1[i] == s0[b];
                    assert(s1[i] == s0[b]);
                    lemma_seq_key_map_index(s0, b);
                    assert(pred(s1[i]));
                }
                if seq_key_map(s0).contains_key(k)
                    && !expired_at(seq_key_map(s0)[k], unix_timestamp) {
                    let i = choose|i: int| 0 <= i < s0.len() && key_of(s0[i]) == k;
                    lemma_seq_key_map_index(s0, i);
                    assert(pred(s0[i]));
                    s0.lemma_filter_contains(pred, i);
                    assert(s1.contains(s0[i]));
                    let j = choose|j: int| 0 <= j < s1.len() && s1[j] == s0[i];
                    lemma_seq_key_map_index(s1, j);
                }
            });
        }
        before - after
    }

    /// Runs the query loop shared by the filtered listings.
    fn filtered_events(&self, which: u8, vk: &Vec<u8>, name: &Name, now: u64) -> (r: Vec<
        Signed<Event>,
    >)
        requires
            self.wf(),
            which == 1 || which == 2,
        ensures
            views_of(r@) == self.evs().filter(
                if which == 1 {
                    key_live_pred(vk@, name@, now)
                } else {
                    name_live_pred(name@, now)
                },
            ),
            all_wf(views_of(r@)),
            sorted_env(views_of(r@)),
            keys_unique(views_of(r@)),
            picked_from(views_of(r@), self.evs(), self.evs().len() as int),
    {
        let ghost s0 = self.evs();
        let ghost pred = if which == 1 {
            key_live_pred(vk@, name@, now)
        } else {
            name_live_pred(name@, now)
        };
        let mut out: Vec<Signed<Event>> = Vec::new();
        proof {
            reveal(Seq::filter);
            assert(s0.take(0) =~= Seq::<EnvV>::empty());
            assert(views_of(out@) =~= Seq::<EnvV>::empty());
            assert(views_of(out@) =~= s0.take(0).filter(pred));
        }
        let mut i: usize = 0;
        while i < self.events.len()
            invariant
                self.wf(),
                s0 == self.evs(),
                which == 1 || which == 2,
                pred == (if which == 1 {
                    key_live_pred(vk@, name@, now)
                } else {
                    name_live_pred(name@, now)
                }),
                i <= s0.len(),
                views_of(out@) == s0.take(i as int).filter(pred),
                all_wf(views_of(out@)),
                sorted_env(views_of(out@)),
                keys_unique(views_of(out@)),
                picked_from(views_of(out@), s0, i as int),
            decreases s0.len() - i,
        {
            proof {
                assert(self.evs()[i as int] == self.events@[i as int]@);
                lemma_filter_take_step(s0, i as int, pred);
            }
            let is_expired = match self.events[i].inner.expires_at() {
                Some(t) => t <= now,
                None => false,
            };
            let matches_query = if which == 1 {
                bytes_eq(&self.events[i].verifying_key, vk)
                    && self.events[i].inner.name().same_name(name)
            } else {
                self.events[i].inner.name().same_name(name)
            };
            if matches_query && !is_expired {
                let ghost t = views_of(out@);
                proof {
                    assert(pred(s0[i as int]));
                    lemma_subseq_push(s0, views_of(out@), i as int);
                    assert(t == views_of(out@));
                }
                out.push(self.events[i].clone());
                proof {
                    assert(views_of(out@) =~= t.push(s0[i as int]));
                }
            } else {
                proof {
                    assert(!pred(s0[i as int]));
                }
            }
            i = i + 1;
        }
        proof {
            assert(s0.take(s0.len() as int) =~= s0);
        }
        out
    }

    /// The events a read of `(verifying_key, name)` sees: the retained entry
    /// under that key, if it is live; at most one event.
    pub fn events_by_key_and_name(
        &self,
        verifying_key: &VerifyingKey,
        name: &Name,
        now: u64,
    ) -> (r: Vec<Signed<Event>>)
        requires
            self.wf(),
        ensures
            views_of(r@) == self.evs().filter(key_live_pred(verifying_key@, name@, now)),
            r@.len() <= 1,
            ({
                let k = (verifying_key@, name@);
                &&& (self.as_map().contains_key(k) && !expired_at(self.as_map()[k], now))
                    <==> views_of(r@).len() == 1
                &&& views_of(r@).len() == 1 ==> views_of(r@)[0] == self.as_map()[k]
            }),
    {
        let r = self.filtered_events(1u8, verifying_key.as_bytes(), name, now);
        proof {
            let ghost k = (verifying_key@, name@);
            let ghost pred = key_live_pred(verifying_key@, name@, now);
            let f = views_of(r@);
            broadcast use Seq::lemma_filter_pred;

            if f.len() >= 2 {
                assert(pred(f[0]) && pred(f[1]));
                assert(key_of(f[0]) == k && key_of(f[1]) == k);
                assert(false);
            }
            if f.len() == 1 {
                assert(pred(f[0]));
                let b = choose|b: int| 0 <= b < self.evs().len() && f[0] == self.evs()[b];
                lemma_seq_key_map_index(self.evs(), b);
            }
            if self.as_map().contains_key(k) && !expired_at(self.as_map()[k], now) {
                let i = choose|i: int|
                    0 <= i < self.evs().len() && key_of(self.evs()[i]) == k;
                lemma_seq_key_map_index(self.evs(), i);
                assert(pred(self.evs()[i]));
                self.evs().lemma_filter_contains(pred, i);
                assert(f.contains(self.evs()[i]));
            }
        }
        r
    }

    /// The cross-principal view of one name: every live event carrying it,
    /// from any author.
    pub fn events_by_namespace(&self, name: &Name, now: u64) -> (r: Vec<Signed<Event>>)
        requires
            self.wf(),
        ensures
            views_of(r@) == self.evs().filter(name_live_pred(name@, now)),
            all_wf(views_of(r@)),
            sorted_env(views_of(r@)),
            keys_unique(views_of(r@)),
    {
        let empty_vk: Vec<u8> = Vec::new();
        self.filtered_events(2u8, &empty_vk, name, now)
    }

    /// Offers a batch of events in order, as the pull path of a sync does.
    pub fn insert_events(&mut self, events: Vec<Signed<Event>>)
        requires
            old(self).wf(),
            all_wf(views_of(events@)),
        ensures
            final(self).wf(),
            final(self).as_map() == absorb_all(old(self).as_map(), views_of(events@)),
            final(self).peer_map() == old(self).peer_map(),
    {
        let ghost m0 = self.as_map();
        let ghost vs = views_of(events@);
        proof {
            assert(vs.take(0) =~= Seq::<EnvV>::empty());
            lemma_absorb_all_empty(m0);
        }
        let mut i: usize = 0;
        while i < events.len()
            invariant
                self.wf(),
                vs == views_of(events@),
                all_wf(vs),
                i <= vs.len(),
                events@.len() == vs.len(),
                self.as_map() == absorb_all(m0, vs.take(i as int)),
                self.peer_map() == old(self).peer_map(),
            decreases vs.len() - i,
        {
            proof {
                assert(vs[i as int] == events@[i as int]@);
                lemma_absorb_all_snoc(m0, vs, i as int);
            }
            let _ = self.insert_event(events[i].clone());
            i = i + 1;
        }
        proof {
            assert(vs.take(vs.len() as int) =~= vs);
        }
    }

    /// The index of the record for a peer URL, if one exists.
    fn find_peer(&self, peer_url: &str) -> (r: Option<usize>)
        ensures
            match r {
                Some(i) => i < self.peers@.len() && self.peers@[i as int].url@ == peer_url@,
                None => forall|j: int|
                    0 <= j < self.peers@.len() ==> #[trigger] self.peers@[j].url@ != peer_url@,
            },
    {
        let mut i: usize = 0;
        loop
            invariant
                i <= self.peers@.len(),
                forall|j: int| 0 <= j < i ==> #[trigger] self.peers@[j].url@ != peer_url@,
            decreases self.peers@.len() - i,
        {
            if i >= self.peers.len() {
                return None;
            }
            if crate::models::same_str(self.peers[i].url.as_str(), peer_url) {
                return Some(i);
            }
            i = i + 1;
        }
    }

    /// Remembers the last state hash observed from a peer, upserting by URL.
    pub fn set_peer_last_hash(&mut self, peer_url: &str, hash: StateHash)
        requires
            old(self).wf(),
        ensures
            final(self).wf(),
            final(self).peer_map() == old(self).peer_map().insert(peer_url@, hash@),
            final(self).evs() == old(self).evs(),
            final(self).as_map() == old(self).as_map(),
    {
        let found_opt = self.find_peer(peer_url);
        proof {
            assert(self.evs() == old(self).evs());
        }
        if let Some(found) = found_opt {
            let ghost p0 = self.peers@;
            proof {
                lemma_peer_map_remove(p0, found as int);
            }
            let removed = self.peers.remove(found);
            let ghost p1 = self.peers@;
            proof {
                p0.remove_ensures(found as int);
                assert forall|j: int| 0 <= j < p1.len() implies #[trigger] p1[j].url@
                    != removed.url@ by {
                    let oj: int = if j < found { j } else { j + 1 };
                    assert(p1[j] == p0[oj]);
                }
            }
            let record = PeerRecord { url: removed.url, last_hash: hash.hash };
            proof {
                lemma_peer_map_push(p1, record);
            }
            self.peers.push(record);
            proof {
                assert(record.url@ == peer_url@);
                assert(peer_map_of(p0).remove(record.url@).insert(record.url@, hash@)
                    =~= peer_map_of(p0).insert(peer_url@, hash@));
            }
        } else {
            let ghost p0 = self.peers@;
            let record = PeerRecord { url: peer_url.to_owned(), last_hash: hash.hash };
            proof {
                lemma_peer_map_push(p0, record);
            }
            self.peers.push(record);
        }
    }

    /// The last state hash remembered for a peer, if any.
    pub fn get_peer_last_hash(&self, peer_url: &str) -> (r: Option<StateHash>)
        requires
            self.wf(),
        ensures
            match r {
                Some(h) => self.peer_map().contains_key(peer_url@)
                    && h@ == self.peer_map()[peer_url@],
                None => !self.peer_map().contains_key(peer_url@),
            },
    {
        match self.find_peer(peer_url) {
            Some(i) => {
                proof {
                    lemma_peer_map_index(self.peers@, i as int);
                }
                Some(StateHash { hash: self.peers[i].last_hash.clone() })
            }
            None => {
                proof {
                    if self.peer_map().contains_key(peer_url@) {
                        let j = choose|j: int|
                            0 <= j < self.peers@.len() && self.peers@[j].url@ == peer_url@;
                    }
                }
                None
            }
        }
    }

    /// The Blake3 digest of the canonical encoding of the live, sorted event
    /// listing: the equality test that anti-entropy uses.
    pub fn current_state_hash(&self, now: u64) -> (r: StateHash)
        requires
            self.wf(),
        ensures
            r@ == blake3_of(enc_env_list(self.evs().filter(live_pred(now)))),
            r.hash.wf(),
    {
        let listing = self.signed_events(now);
        events_hash(&listing)
    }
}

/// The effect of offering a batch of events in order.
pub open spec fn absorb_all(m: Map<KeyV, EnvV>, s: Seq<EnvV>) -> Map<KeyV, EnvV>
    decreases s.len(),
{
    if s.len() == 0 {
        m
    } else {
        absorb_all(absorb(m, s[0]), s.drop_first())
    }
}

proof fn lemma_absorb_all_empty(m: Map<KeyV, EnvV>)
    ensures
        absorb_all(m, Seq::<EnvV>::empty()) == m,
{
}

/// Folding one more event applies one more absorption.
proof fn lemma_absorb_all_push(m: Map<KeyV, EnvV>, s: Seq<EnvV>, e: EnvV)
    ensures
        absorb_all(m, s.push(e)) == absorb(absorb_all(m, s), e),
    decreases s.len(),
{
    if s.len() == 0 {
        assert(s.push(e)[0] == e);
        assert(s.push(e).drop_first() =~= Seq::<EnvV>::empty());
        assert(absorb_all(absorb(m, e), Seq::<EnvV>::empty()) == absorb(m, e));
        assert(absorb_all(m, s) == m);
        assert(absorb_all(m, s.push(e)) == absorb_all(absorb(m, e), s.push(e).drop_first()));
    } else {
        assert(s.push(e)[0] == s[0]);
        assert(s.push(e).drop_first() =~= s.drop_first().push(e));
        lemma_absorb_all_push(absorb(m, s[0]), s.drop_first(), e);
        assert(absorb_all(m, s.push(e)) == absorb_all(absorb(m, s[0]), s.drop_first().push(e)));
        assert(absorb_all(m, s) == absorb_all(absorb(m, s[0]), s.drop_first()));
    }
}

proof fn lemma_absorb_all_snoc(m: Map<KeyV, EnvV>, s: Seq<EnvV>, i: int)
    requires
        0 <= i < s.len(),
    ensures
        absorb_all(m, s.take(i + 1)) == absorb(absorb_all(m, s.take(i)), s[i]),
{
    assert(s.take(i + 1) =~= s.take(i).push(s[i]));
    lemma_absorb_all_push(m, s.take(i), s[i]);
}

// ---------------------------------------------------------------------------
// Canonical encoding of event listings, and their digest
// ---------------------------------------------------------------------------

/// The concatenated canonical encodings of a listing.
pub open spec fn enc_env_cat(s: Seq<EnvV>) -> Seq<u8>
    decreases s.len(),
{
    if s.len() == 0 {
        Seq::<u8>::empty()
    } else {
        enc_env(s[0]) + enc_env_cat(s.drop_first())
    }
}

/// The canonical encoding of an event listing: a 64-bit count, then each
/// envelope's encoding in listing order.
pub open spec fn enc_env_list(s: Seq<EnvV>) -> Seq<u8> {
    spec_u64_to_le_bytes(s.len() as u64) + enc_env_cat(s)
}

proof fn lemma_enc_cat_append(a: Seq<EnvV>, b: Seq<EnvV>)
    ensures
        enc_env_cat(a + b) == enc_env_cat(a) + enc_env_cat(b),
    decreases a.len(),
{
    if a.len() == 0 {
        assert(a + b =~= b);
        assert(enc_env_cat(a) + enc_env_cat(b) =~= enc_env_cat(b));
    } else {
        assert((a + b)[0] == a[0]);
        assert((a + b).len() > 0);
        assert((a + b).drop_first() =~= a.drop_first() + b);
        lemma_enc_cat_append(a.drop_first(), b);
        assert(enc_env(a[0]) + (enc_env_cat(a.drop_first()) + enc_env_cat(b))
            =~= (enc_env(a[0]) + enc_env_cat(a.drop_first())) + enc_env_cat(b));
    }
}

/// Produces the canonical encoding of an event listing.
pub fn encode_env_list(events: &Vec<Signed<Event>>) -> (r: Vec<u8>)
    requires
        all_wf(views_of(events@)),
    ensures
        r@ == enc_env_list(views_of(events@)),
{
    let ghost vs = views_of(events@);
    let mut out: Vec<u8> = Vec::new();
    crate::codec::push_u64(&mut out, events.len() as u64);
    let mut i: usize = 0;
    while i < events.len()
        invariant
            vs == views_of(events@),
            all_wf(vs),
            events@.len() == vs.len(),
            i <= vs.len(),
            out@ == spec_u64_to_le_bytes(vs.len() as u64) + enc_env_cat(vs.take(i as int)),
        decreases vs.len() - i,
    {
        proof {
            assert(vs[i as int] == events@[i as int]@);
        }
        let piece = encode_env(&events[i]);
        let ghost out0 = out@;
        crate::codec::push_bytes(&mut out, piece.as_slice());
        proof {
            assert(vs.take(i + 1) =~= vs.take(i as int).push(vs[i as int]));
            lemma_enc_cat_snoc(vs, i as int);
            assert(out@ =~= spec_u64_to_le_bytes(vs.len() as u64) + enc_env_cat(
                vs.take(i + 1),
            ));
        }
        i = i + 1;
    }
    proof {
        assert(vs.take(vs.len() as int) =~= vs);
    }
    out
}

proof fn lemma_enc_cat_snoc(s: Seq<EnvV>, i: int)
    requires
        0 <= i < s.len(),
    ensures
        enc_env_cat(s.take(i + 1)) == enc_env_cat(s.take(i)) + enc_env(s[i]),
{
    assert(s.take(i + 1) =~= s.take(i) + seq![s[i]]);
    lemma_enc_cat_append(s.take(i), seq![s[i]]);
    assert(seq![s[i]].drop_first() =~= Seq::<EnvV>::empty());
    assert(seq![s[i]][0] == s[i]);
    assert(enc_env_cat(Seq::<EnvV>::empty()) == Seq::<u8>::empty());
    assert(enc_env_cat(seq![s[i]]) == enc_env(s[i]) + enc_env_cat(Seq::<EnvV>::empty()));
    assert(enc_env(s[i]) + Seq::<u8>::empty() =~= enc_env(s[i]));
}

/// The digest of an event listing's canonical encoding.
pub fn events_hash(events: &Vec<Signed<Event>>) -> (r: StateHash)
    requires
        all_wf(views_of(events@)),
    ensures
        r@ == blake3_of(enc_env_list(views_of(events@))),
        r.hash.wf(),
{
    let bytes = encode_env_list(events);
    StateHash { hash: crate::hashing::hash_bytes(&bytes) }
}


/// Pushing an element of the source keeps the collected subsequence a
/// well-formed, sorted, key-unique selection of a prefix.
proof fn lemma_subseq_push(s0: Seq<EnvV>, t: Seq<EnvV>, i: int)
    requires
        all_wf(s0),
        sorted_env(s0),
        keys_unique(s0),
        0 <= i < s0.len(),
        picked_from(t, s0, i),
        all_wf(t),
        sorted_env(t),
        keys_unique(t),
    ensures
        all_wf(t.push(s0[i])),
        sorted_env(t.push(s0[i])),
        keys_unique(t.push(s0[i])),
        picked_from(t.push(s0[i]), s0, i + 1),
{
    let u = t.push(s0[i]);
    assert forall|a: int| 0 <= a < u.len() implies wf_env(#[trigger] u[a]) by {
        if a < t.len() {
            assert(u[a] == t[a]);
        } else {
            assert(u[a] == s0[i]);
        }
    }
    assert forall|a1: int, a2: int| 0 <= a1 < a2 < u.len() implies lex_lt(
        enc_env(#[trigger] u[a1]),
        enc_env(#[trigger] u[a2]),
    ) by {
        if a2 == t.len() {
            let b1 = choose|b: int| 0 <= b < i && t[a1] == s0[b];
            assert(u[a1] == s0[b1]);
            assert(u[a2] == s0[i]);
        } else {
            assert(u[a1] == t[a1]);
            assert(u[a2] == t[a2]);
        }
    }
    assert forall|a1: int, a2: int|
        0 <= a1 < u.len() && 0 <= a2 < u.len() && a1 != a2 implies key_of(#[trigger] u[a1])
        != key_of(#[trigger] u[a2]) by {
        let lo = if a1 < a2 { a1 } else { a2 };
        let hi = if a1 < a2 { a2 } else { a1 };
        if hi == t.len() {
            let b = choose|b: int| 0 <= b < i && t[lo] == s0[b];
            assert(u[lo] == s0[b]);
            assert(u[hi] == s0[i]);
        } else {
            assert(u[lo] == t[lo]);
            assert(u[hi] == t[hi]);
        }
    }
    assert forall|a: int| 0 <= a < u.len() implies exists|b: int|
        0 <= b < i + 1 && #[trigger] u[a] == s0[b] by {
        if a < t.len() {
            assert(u[a] == t[a]);
            let b = choose|b: int| 0 <= b < i && t[a] == s0[b];
            assert(u[a] == s0[b]);
        } else {
            assert(u[a] == s0[i]);
        }
    }
}

// ---------------------------------------------------------------------------
// Laws of the store
// ---------------------------------------------------------------------------

proof fn lemma_beats_irrefl(e: EnvV)
    ensures
        !beats(e, e),
{
    lemma_lex_irrefl(enc_env(e));
}

/// Offering the same event twice is idempotent: the second offer changes
/// nothing and reports no insertion, so `count` grows by at most one.
pub proof fn lemma_insert_idempotent(m: Map<KeyV, EnvV>, e: EnvV)
    ensures
        absorb(absorb(m, e), e) == absorb(m, e),
        !absorbs(absorb(m, e), e),
{
    lemma_beats_irrefl(e);
    let k = key_of(e);
    let m1 = absorb(m, e);
    if m.contains_key(k) && !beats(e, m[k]) {
    } else {
        assert(m1 == m.insert(k, e));
        assert(m1[k] == e);
    }
}

/// After two events for one key arrive in either order over an absent entry,
/// exactly the dominant one is retained, deterministically.
pub proof fn lemma_staleness_dominance(m: Map<KeyV, EnvV>, e1: EnvV, e2: EnvV)
    requires
        key_of(e1) == key_of(e2),
        !m.contains_key(key_of(e1)),
    ensures
        absorb(absorb(m, e1), e2) == m.insert(
            key_of(e1),
            if beats(e2, e1) {
                e2
            } else {
                e1
            },
        ),
{
    let k = key_of(e1);
    let m1 = absorb(m, e1);
    assert(m1 == m.insert(k, e1));
    assert(m1[k] == e1);
    if beats(e2, e1) {
        assert(absorb(m1, e2) == m1.insert(k, e2));
        assert(m.insert(k, e1).insert(k, e2) =~= m.insert(k, e2));
    }
}

/// The store holds at most one copy of any envelope: all stored encodings
/// are pairwise distinct, however many paths delivered the envelope.
pub proof fn lemma_at_most_one_copy(st: EventStore, i: int, j: int)
    requires
        st.wf(),
        0 <= i < st.evs().len(),
        0 <= j < st.evs().len(),
        i != j,
    ensures
        enc_env(st.evs()[i]) != enc_env(st.evs()[j]),
        st.evs()[i] != st.evs()[j],
{
    let lo = if i < j { i } else { j };
    let hi = if i < j { j } else { i };
    assert(lex_lt(enc_env(st.evs()[lo]), enc_env(st.evs()[hi])));
    if enc_env(st.evs()[i]) == enc_env(st.evs()[j]) {
        lemma_lex_irrefl(enc_env(st.evs()[i]));
    }
}

/// Two sorted listings with the same elements are the same listing, so two
/// stores that hold the same set of live events agree byte for byte on their
/// canonical listing encodings and hence on their state hashes.
pub proof fn lemma_equal_sets_equal_listing(s1: Seq<EnvV>, s2: Seq<EnvV>)
    requires
        sorted_env(s1),
        sorted_env(s2),
        forall|e: EnvV| s1.contains(e) <==> s2.contains(e),
    ensures
        s1 == s2,
    decreases s1.len(),
{
    if s1.len() == 0 {
        if s2.len() > 0 {
            assert(s2.contains(s2[0]));
            assert(s1.contains(s2[0]));
        }
        assert(s1 =~= s2);
    } else {
        assert(s1.contains(s1[0]));
        assert(s2.contains(s1[0]));
        let j = choose|j: int| 0 <= j < s2.len() && s2[j] == s1[0];
        assert(s2.contains(s2[0]));
        assert(s1.contains(s2[0]));
        let i = choose|i: int| 0 <= i < s1.len() && s1[i] == s2[0];
        if j > 0 {
            assert(lex_lt(enc_env(s2[0]), enc_env(s2[j])));
            if i > 0 {
                assert(lex_lt(enc_env(s1[0]), enc_env(s1[i])));
                lemma_lex_asym(enc_env(s1[0]), enc_env(s2[0]));
            } else {
                assert(s2[0] == s1[0]);
                lemma_lex_irrefl(enc_env(s2[0]));
            }
        }
        assert(s1[0] == s2[0]);
        let t1 = s1.drop_first();
        let t2 = s2.drop_first();
        assert forall|a: int, b: int| 0 <= a < b < t1.len() implies lex_lt(
            enc_env(#[trigger] t1[a]),
            enc_env(#[trigger] t1[b]),
        ) by {
            assert(t1[a] == s1[a + 1]);
            assert(t1[b] == s1[b + 1]);
        }
        assert forall|a: int, b: int| 0 <= a < b < t2.len() implies lex_lt(
            enc_env(#[trigger] t2[a]),
            enc_env(#[trigger] t2[b]),
        ) by {
            assert(t2[a] == s2[a + 1]);
            assert(t2[b] == s2[b + 1]);
        }
        assert forall|e: EnvV| t1.contains(e) implies t2.contains(e) by {
            let a = choose|a: int| 0 <= a < t1.len() && t1[a] == e;
            assert(t1[a] == s1[a + 1]);
            assert(lex_lt(enc_env(s1[0]), enc_env(s1[a + 1])));
            if e == s1[0] {
                lemma_lex_irrefl(enc_env(e));
            }
            assert(s1.contains(e));
            assert(s2.contains(e));
            let b = choose|b: int| 0 <= b < s2.len() && s2[b] == e;
            assert(b != 0);
            assert(t2[b - 1] == s2[b]);
        }
        assert forall|e: EnvV| t2.contains(e) implies t1.contains(e) by {
            let a = choose|a: int| 0 <= a < t2.len() && t2[a] == e;
            assert(t2[a] == s2[a + 1]);
            assert(lex_lt(enc_env(s2[0]), enc_env(s2[a + 1])));
            if e == s2[0] {
                lemma_lex_irrefl(enc_env(e));
            }
            assert(s2.contains(e));
            assert(s1.contains(e));
            let b = choose|b: int| 0 <= b < s1.len() && s1[b] == e;
            assert(b != 0);
            assert(t1[b - 1] == s1[b]);
        }
        lemma_equal_sets_equal_listing(t1, t2);
        assert(t1 == t2);
        assert(s1.len() == s2.len());
        assert(t1 =~= s1.subrange(1, s1.len() as int));
        assert(t2 =~= s2.subrange(1, s2.len() as int));
        assert forall|a: int| 0 <= a < s1.len() implies s1[a] == s2[a] by {
            if a > 0 {
                assert(s1.subrange(1, s1.len() as int)[a - 1] == s1[a]);
                assert(s2.subrange(1, s2.len() as int)[a - 1] == s2[a]);
                assert(t1[a - 1] == t2[a - 1]);
            }
        }
        assert(s1 =~= s2);
    }
}

/// State hashes converge: stores that hold the same set of live events hash
/// identically, because both hash the same canonical listing.
pub proof fn lemma_state_hash_convergence(s1: Seq<EnvV>, s2: Seq<EnvV>)
    requires
        sorted_env(s1),
        sorted_env(s2),
        forall|e: EnvV| s1.contains(e) <==> s2.contains(e),
    ensures
        enc_env_list(s1) == enc_env_list(s2),
        blake3_of(enc_env_list(s1)) == blake3_of(enc_env_list(s2)),
{
    lemma_equal_sets_equal_listing(s1, s2);
}

/// Filtering keeps each kept element an element of the source, and keeps a
/// sorted listing sorted.
pub proof fn lemma_filter_subseq(s: Seq<EnvV>, pred: spec_fn(EnvV) -> bool)
    ensures
        forall|i: int|
            0 <= i < s.filter(pred).len() ==> s.contains(#[trigger] s.filter(pred)[i]),
        sorted_env(s) ==> sorted_env(s.filter(pred)),
    decreases s.len(),
{
    reveal(Seq::filter);
    if s.len() == 0 {
    } else {
        let d = s.drop_last();
        lemma_filter_subseq(d, pred);
        let fd = d.filter(pred);
        let f = s.filter(pred);
        assert forall|a: int| 0 <= a < d.len() implies d[a] == s[a] by {}
        assert forall|e: EnvV| d.contains(e) implies s.contains(e) by {
            let a = choose|a: int| 0 <= a < d.len() && d[a] == e;
            assert(s[a] == e);
        }
        if pred(s.last()) {
            assert(f == fd.push(s.last()));
            assert forall|i: int| 0 <= i < f.len() implies s.contains(#[trigger] f[i]) by {
                if i < fd.len() {
                    assert(f[i] == fd[i]);
                    assert(d.contains(fd[i]));
                } else {
                    assert(f[i] == s.last());
                    assert(s[s.len() - 1] == s.last());
                }
            }
            if sorted_env(s) {
                assert forall|a: int, b: int| 0 <= a < d.len() && 0 <= b < d.len() && a < b
                    implies lex_lt(enc_env(d[a]), enc_env(d[b])) by {}
                assert forall|i: int, j: int| 0 <= i < j < f.len() implies lex_lt(
                    enc_env(#[trigger] f[i]),
                    enc_env(#[trigger] f[j]),
                ) by {
                    if j < fd.len() {
                        assert(f[i] == fd[i]);
                        assert(f[j] == fd[j]);
                    } else {
                        assert(f[i] == fd[i]);
                        assert(f[j] == s.last());
                        assert(d.contains(fd[i]));
                        let a = choose|a: int| 0 <= a < d.len() && d[a] == fd[i];
                        assert(s[a] == fd[i]);
                        assert(lex_lt(enc_env(s[a]), enc_env(s[s.len() - 1])));
                    }
                }
            }
        } else {
            assert(f == fd);
            assert forall|i: int| 0 <= i < f.len() implies s.contains(#[trigger] f[i]) by {
                assert(d.contains(fd[i]));
            }
            if sorted_env(s) {
                assert forall|a: int, b: int| 0 <= a < d.len() && 0 <= b < d.len() && a < b
                    implies lex_lt(enc_env(d[a]), enc_env(d[b])) by {}
            }
        }
    }
}

/// Stores that retain the same map list and hash identically at any time:
/// the live listings hold the same events, so their canonical encodings and
/// digests agree.
pub proof fn lemma_equal_maps_equal_hash(s1: EventStore, s2: EventStore, now: u64)
    requires
        s1.wf(),
        s2.wf(),
        s1.as_map() == s2.as_map(),
    ensures
        enc_env_list(s1.evs().filter(live_pred(now))) == enc_env_list(
            s2.evs().filter(live_pred(now)),
        ),
        blake3_of(enc_env_list(s1.evs().filter(live_pred(now)))) == blake3_of(
            enc_env_list(s2.evs().filter(live_pred(now))),
        ),
{
    let pred = live_pred(now);
    lemma_filter_subseq(s1.evs(), pred);
    lemma_filter_subseq(s2.evs(), pred);
    broadcast use Seq::lemma_filter_pred;

    let f1 = s1.evs().filter(pred);
    let f2 = s2.evs().filter(pred);
    assert forall|e: EnvV| f1.contains(e) implies f2.contains(e) by {
        lemma_live_member(s1, s2, now, e);
    }
    assert forall|e: EnvV| f2.contains(e) implies f1.contains(e) by {
        lemma_live_member(s2, s1, now, e);
    }
    lemma_state_hash_convergence(f1, f2);
}

/// An element of one store's live listing appears in the live listing of any
/// store that retains the same map.
proof fn lemma_live_member(a: EventStore, b: EventStore, now: u64, e: EnvV)
    requires
        a.wf(),
        b.wf(),
        a.as_map() == b.as_map(),
        a.evs().filter(live_pred(now)).contains(e),
    ensures
        b.evs().filter(live_pred(now)).contains(e),
{
    let pred = live_pred(now);
    lemma_filter_subseq(a.evs(), pred);
    broadcast use Seq::lemma_filter_pred;

    let fa = a.evs().filter(pred);
    let i = choose|i: int| 0 <= i < fa.len() && fa[i] == e;
    assert(pred(fa[i]));
    assert(a.evs().contains(e));
    let j = choose|j: int| 0 <= j < a.evs().len() && a.evs()[j] == e;
    lemma_seq_key_map_index(a.evs(), j);
    assert(b.as_map().contains_key(key_of(e)) && b.as_map()[key_of(e)] == e);
    let k = choose|k: int| 0 <= k < b.evs().len() && key_of(b.evs()[k]) == key_of(e);
    lemma_seq_key_map_index(b.evs(), k);
    assert(b.evs()[k] == e);
    b.evs().lemma_filter_contains(pred, k);
}

} // verus!
