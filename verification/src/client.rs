//! The client facade's decision core: building events for a mutation,
//! resolving the union of fetched events, and folding namespace responses.

use vstd::prelude::*;

use crate::crdt::{merge_spec, merge_events};
use crate::errors::Error;
use crate::events::{Event, EventV, SetEvent, SetEventV, DeletionEvent, DeletionEventV};
use crate::keys::VerifyingKey;
use crate::models::{Name, Value};
use crate::signed::Signed;
use crate::store::{EnvV, all_wf, views_of, live_pred, lemma_filter_take_step};

verus! {

/// When a set should stop being visible: at a given Unix-epoch second, or a
/// number of seconds after it is issued.
pub enum Expiry {
    ExpiresAt(u64),
    Ttl(u64),
}

/// The events a keyspace read returns.
pub struct RelevantEvents {
    pub events: Vec<Signed<Event>>,
}

/// The full event listing the synchronization endpoint serves.
pub struct SyncEvents {
    pub events: Vec<Signed<Event>>,
}

/// A namespace response: one name, and the events carrying it that one peer
/// holds.
pub struct NamespaceResponse {
    pub namespace: String,
    pub events: Vec<Signed<Event>>,
}

/// The resolved cross-principal view of one name.
pub struct NamespaceValues {
    pub namespace: String,
    pub mapping: Vec<(VerifyingKey, Value)>,
}

// ---------------------------------------------------------------------------
// Building events
// ---------------------------------------------------------------------------

/// Builds the set event a mutation signs: the priority defaults to the
/// current epoch second, and a time-to-live counts from it.
pub fn build_set_event(
    name: Name,
    value: Value,
    expiry: Option<Expiry>,
    priority: Option<u64>,
    now: u64,
) -> (r: Event)
    requires
        match expiry {
            Some(Expiry::Ttl(ttl)) => now + ttl <= u64::MAX,
            _ => true,
        },
    ensures
        r@ == EventV::Put(
            SetEventV {
                name: name@,
                value: value@,
                priority: match priority {
                    Some(p) => p,
                    None => now,
                },
                expires_at: match expiry {
                    None => None,
                    Some(Expiry::ExpiresAt(t)) => Some(t),
                    Some(Expiry::Ttl(ttl)) => Some((now + ttl) as u64),
                },
            },
        ),
{
    let chosen_priority = match priority {
        Some(p) => p,
        None => now,
    };
    let expires_at = match expiry {
        None => None,
        Some(Expiry::ExpiresAt(t)) => Some(t),
        Some(Expiry::Ttl(ttl)) => Some(now + ttl),
    };
    Event::Put(SetEvent { name, value, priority: chosen_priority, expires_at })
}

/// Builds the deletion event a removal signs; the priority defaults to the
/// current epoch second, so a removal dominates earlier writes.
pub fn build_deletion_event(name: Name, priority: Option<u64>, now: u64) -> (r: Event)
    ensures
        r@ == EventV::Delete(
            DeletionEventV {
                name: name@,
                priority: match priority {
                    Some(p) => p,
                    None => now,
                },
            },
        ),
{
    let chosen_priority = match priority {
        Some(p) => p,
        None => now,
    };
    Event::Delete(DeletionEvent { name, priority: chosen_priority })
}

// ---------------------------------------------------------------------------
// Resolving a read
// ---------------------------------------------------------------------------

/// Resolves the union of the events fetched for one key. Nothing fetched is
/// not found; events that have all expired are an expired value; a winning
/// deletion is not found; a winning set is its value.
pub fn resolve_events(events: Vec<Signed<Event>>, now: u64) -> (r: Result<Value, Error>)
    requires
        all_wf(views_of(events@)),
    ensures
        r matches Ok(v) ==> merge_spec(views_of(events@), now) == Some(v@),
        merge_spec(views_of(events@), now) is Some ==> r is Ok,
        events@.len() == 0 ==> r == Err::<Value, Error>(Error::NotFound),
        (events@.len() > 0 && views_of(events@).filter(live_pred(now)).len() == 0) ==> r
            == Err::<Value, Error>(Error::ValueExpired),
        (views_of(events@).filter(live_pred(now)).len() > 0 && merge_spec(
            views_of(events@),
            now,
        ) is None) ==> r == Err::<Value, Error>(Error::NotFound),
{
    let ghost vs = views_of(events@);
    let ghost pred = live_pred(now);
    let any = events.len() > 0;
    let mut any_live = false;
    let mut i: usize = 0;
    proof {
        reveal(Seq::filter);
        assert(vs.take(0) =~= Seq::<EnvV>::empty());
    }
    while i < events.len()
        invariant
            vs == views_of(events@),
            events@.len() == vs.len(),
            i <= vs.len(),
            any_live == (vs.take(i as int).filter(pred).len() > 0),
            pred == live_pred(now),
        decreases vs.len() - i,
    {
        proof {
            assert(vs[i as int] == events@[i as int]@);
            lemma_filter_take_step(vs, i as int, pred);
        }
        let is_expired = match events[i].inner.expires_at() {
            Some(t) => t <= now,
            None => false,
        };
        if !is_expired {
            any_live = true;
        }
        i = i + 1;
    }
    proof {
        assert(vs.take(vs.len() as int) =~= vs);
    }
    match merge_events(events, now) {
        Some(value) => Ok(value),
        None => {
            if !any {
                Err(Error::NotFound)
            } else if !any_live {
                Err(Error::ValueExpired)
            } else {
                Err(Error::NotFound)
            }
        }
    }
}

// ---------------------------------------------------------------------------
// Namespace responses
// ---------------------------------------------------------------------------

impl NamespaceResponse {
    /// Folds another peer's response for the same name into this one by
    /// appending its events.
    pub fn merge(&mut self, other: NamespaceResponse)
        ensures
            final(self).namespace@ == old(self).namespace@,
            views_of(final(self).events@) == views_of(old(self).events@) + views_of(
                other.events@,
            ),
    {
        let mut incoming = other.events;
        self.events.append(&mut incoming);
        proof {
            assert(views_of(self.events@) =~= views_of(old(self).events@) + views_of(
                other.events@,
            ));
        }
    }

    /// Folds a batch of responses into one, keeping the first name and the
    /// concatenation of all events; an empty batch folds to nothing.
    pub fn merge_vec(namespace_responses: Vec<NamespaceResponse>) -> (r: Option<
        NamespaceResponse,
    >)
        ensures
            r is Some <==> namespace_responses@.len() > 0,
            r matches Some(m) ==> {
                &&& m.namespace@ == namespace_responses@[0].namespace@
                &&& views_of(m.events@) == flatten_responses(namespace_responses@)
            },
    {
        let ghost rs = namespace_responses@;
        let mut responses = namespace_responses;
        if responses.len() == 0 {
            proof {
                assert(rs.len() == 0);
            }
            return None;
        }
        let mut merged = responses.remove(0);
        proof {
            assert(merged == rs[0]);
            assert(responses@ =~= rs.skip(1));
            assert(flatten_responses_prefix(rs, 0) == Seq::<EnvV>::empty());
            assert(flatten_responses_prefix(rs, 1) == flatten_responses_prefix(rs, 0)
                + views_of(rs[0].events@));
            assert(Seq::<EnvV>::empty() + views_of(rs[0].events@) =~= views_of(rs[0].events@));
        }
        let mut i: usize = 0;
        while i < responses.len()
            invariant
                responses@ == rs.skip(1),
                rs.len() == responses@.len() + 1,
                i <= responses@.len(),
                merged.namespace@ == rs[0].namespace@,
                views_of(merged.events@) == flatten_responses_prefix(rs, i + 1),
            decreases responses@.len() - i,
        {
            proof {
                assert(rs.skip(1)[i as int] == rs[i + 1]);
            }
            let next = responses[i].duplicate();
            merged.merge(next);
            i = i + 1;
        }
        proof {
            assert(flatten_responses_prefix(rs, rs.len() as int) == flatten_responses(rs));
        }
        Some(merged)
    }

    /// An owned copy of this response.
    pub fn duplicate(&self) -> (r: NamespaceResponse)
        ensures
            r.namespace@ == self.namespace@,
            views_of(r.events@) == views_of(self.events@),
            r.events@.len() == self.events@.len(),
    {
        let mut events: Vec<Signed<Event>> = Vec::new();
        let mut i: usize = 0;
        while i < self.events.len()
            invariant
                i <= self.events@.len(),
                events@.len() == i,
                forall|j: int| 0 <= j < i ==> #[trigger] events@[j]@ == self.events@[j]@,
            decreases self.events@.len() - i,
        {
            events.push(self.events[i].clone());
            i = i + 1;
        }
        proof {
            assert(views_of(events@) =~= views_of(self.events@));
        }
        NamespaceResponse { namespace: self.namespace.clone(), events }
    }
}

/// The event views of the first `n` responses, concatenated.
pub open spec fn flatten_responses_prefix(rs: Seq<NamespaceResponse>, n: int) -> Seq<EnvV>
    decreases n,
{
    if n <= 0 || n > rs.len() {
        Seq::empty()
    } else {
        flatten_responses_prefix(rs, n - 1) + views_of(rs[n - 1].events@)
    }
}

/// The event views of all responses, concatenated in order.
pub open spec fn flatten_responses(rs: Seq<NamespaceResponse>) -> Seq<EnvV> {
    flatten_responses_prefix(rs, rs.len() as int)
}

// ---------------------------------------------------------------------------
// Resolving a namespace
// ---------------------------------------------------------------------------

/// The events written by one author.
pub open spec fn author_pred(vk: Seq<u8>) -> spec_fn(EnvV) -> bool {
    |e: EnvV| e.verifying_key == vk
}

/// Whether the mapping already carries an entry for an author.
fn mapping_has_key(mapping: &Vec<(VerifyingKey, Value)>, vk: &Vec<u8>) -> (r: bool)
    ensures
        r == exists|a: int| 0 <= a < mapping@.len() && (#[trigger] mapping@[a]).0@ == vk@,
{
    let mut a: usize = 0;
    loop
        invariant
            a <= mapping@.len(),
            forall|b: int| 0 <= b < a ==> (#[trigger] mapping@[b]).0@ != vk@,
        decreases mapping@.len() - a,
    {
        if a >= mapping.len() {
            return false;
        }
        if crate::codec::bytes_eq(mapping[a].0.as_bytes(), vk) {
            return true;
        }
        a = a + 1;
    }
}

/// Resolves the cross-principal view of one name: group the fetched events
/// by author, resolve each author's group, and keep the authors whose group
/// resolves to a value. Every entry is exact, entries are unique per author,
/// and no author with a resolvable group is missed.
pub fn namespace_values(namespace: String, events: Vec<Signed<Event>>, now: u64) -> (r:
    NamespaceValues)
    requires
        all_wf(views_of(events@)),
    ensures
        r.namespace@ == namespace@,
        forall|a: int|
            #![trigger r.mapping@[a]]
            0 <= a < r.mapping@.len() ==> merge_spec(
                views_of(events@).filter(author_pred(r.mapping@[a].0@)),
                now,
            ) == Some(r.mapping@[a].1@),
        forall|a: int, b: int|
            0 <= a < r.mapping@.len() && 0 <= b < r.mapping@.len() && a != b
                ==> (#[trigger] r.mapping@[a]).0@ != (#[trigger] r.mapping@[b]).0@,
        forall|i: int|
            #![trigger views_of(events@)[i]]
            0 <= i < views_of(events@).len() ==> (merge_spec(
                views_of(events@).filter(author_pred(views_of(events@)[i].verifying_key)),
                now,
            ) is Some ==> exists|a: int|
                0 <= a < r.mapping@.len() && (#[trigger] r.mapping@[a]).0@ == views_of(
                    events@,
                )[i].verifying_key),
{
    let ghost vs = views_of(events@);
    let mut mapping: Vec<(VerifyingKey, Value)> = Vec::new();
    let mut i: usize = 0;
    while i < events.len()
        invariant
            vs == views_of(events@),
            all_wf(vs),
            events@.len() == vs.len(),
            i <= vs.len(),
            forall|a: int|
                #![trigger mapping@[a]]
                0 <= a < mapping@.len() ==> merge_spec(
                    vs.filter(author_pred(mapping@[a].0@)),
                    now,
                ) == Some(mapping@[a].1@),
            forall|a: int, b: int|
                0 <= a < mapping@.len() && 0 <= b < mapping@.len() && a != b
                    ==> (#[trigger] mapping@[a]).0@ != (#[trigger] mapping@[b]).0@,
            forall|j: int|
                #![trigger vs[j]]
                0 <= j < i ==> (merge_spec(
                    vs.filter(author_pred(vs[j].verifying_key)),
                    now,
                ) is Some ==> exists|a: int|
                    0 <= a < mapping@.len()
                        && (#[trigger] mapping@[a]).0@ == vs[j].verifying_key),
        decreases vs.len() - i,
    {
        proof {
            assert(vs[i as int] == events@[i as int]@);
        }
        let already = mapping_has_key(&mapping, &events[i].verifying_key);
        if !already {
            let ghost apred = author_pred(vs[i as int].verifying_key);
            let mut group: Vec<Signed<Event>> = Vec::new();
            proof {
                reveal(Seq::filter);
                assert(vs.take(0) =~= Seq::<EnvV>::empty());
                assert(views_of(group@) =~= Seq::<EnvV>::empty());
            }
            let mut j: usize = 0;
            while j < events.len()
                invariant
                    vs == views_of(events@),
                    all_wf(vs),
                    events@.len() == vs.len(),
                    i < vs.len(),
                    j <= vs.len(),
                    apred == author_pred(vs[i as int].verifying_key),
                    views_of(group@) == vs.take(j as int).filter(apred),
                    all_wf(views_of(group@)),
                decreases vs.len() - j,
            {
                proof {
                    assert(vs[j as int] == events@[j as int]@);
                    lemma_filter_take_step(vs, j as int, apred);
                }
                if crate::codec::bytes_eq(&events[j].verifying_key, &events[i].verifying_key) {
                    let ghost t = views_of(group@);
                    group.push(events[j].clone());
                    proof {
                        assert(views_of(group@) =~= t.push(vs[j as int]));
                        assert forall|k: int| 0 <= k < views_of(group@).len() implies
                            crate::signed::wf_env(#[trigger] views_of(group@)[k]) by {
                            if k < t.len() {
                                assert(views_of(group@)[k] == t[k]);
                            } else {
                                assert(views_of(group@)[k] == vs[j as int]);
                            }
                        }
                    }
                }
                j = j + 1;
            }
            proof {
                assert(vs.take(vs.len() as int) =~= vs);
            }
            let ghost group_views = views_of(group@);
            match merge_events(group, now) {
                Some(value) => {
                    let author = events[i].verifying_key();
                    let ghost m0 = mapping@;
                    mapping.push((author, value));
                    proof {
                        assert(mapping@ =~= m0.push((author, value)));
                        assert forall|b: int| 0 <= b < m0.len() implies #[trigger] mapping@[b]
                            == m0[b] by {}
                        assert(mapping@[m0.len() as int].0@ == vs[i as int].verifying_key);
                        assert(merge_spec(vs.filter(author_pred(vs[i as int].verifying_key)), now)
                            == Some(value@));
                        assert forall|j: int|
                            #![trigger vs[j]]
                            0 <= j < i + 1 && merge_spec(
                            vs.filter(author_pred(vs[j].verifying_key)),
                            now,
                        ) is Some implies exists|a: int|
                            0 <= a < mapping@.len()
                                && (#[trigger] mapping@[a]).0@ == vs[j].verifying_key by {
                            if j < i {
                                let a = choose|a: int|
                                    0 <= a < m0.len()
                                        && (#[trigger] m0[a]).0@ == vs[j].verifying_key;
                                assert(mapping@[a].0@ == vs[j].verifying_key);
                            } else {
                                assert(mapping@[m0.len() as int].0@ == vs[j].verifying_key);
                            }
                        }
                    }
                }
                None => {
                    proof {
                        assert(merge_spec(vs.filter(author_pred(vs[i as int].verifying_key)), now)
                            is None);
                    }
                }
            }
        }
        proof {
            if already {
                let a = choose|a: int|
                    0 <= a < mapping@.len()
                        && (#[trigger] mapping@[a]).0@ == vs[i as int].verifying_key;
            }
        }
        i = i + 1;
    }
    NamespaceValues { namespace, mapping }
}

} // verus!
