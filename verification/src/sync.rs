//! Pairwise anti-entropy: the skip decision, the verified pull path, and
//! the proof that mutual pulls converge.

use vstd::prelude::*;
use vstd::map::*;

use crate::codec::{lemma_lex_connex};
use crate::crdt::lemma_beats_asym;
use crate::events::{Event, EventV, enc_event};
use crate::hashing::blake3_of;
use crate::keys::sig_valid;
use crate::models::StateHash;
use crate::signed::{Signed, wf_env, enc_env, lemma_enc_env_injective};
use crate::store::{EventStore, EnvV, KeyV, key_of, beats, absorb, absorb_all, keys_unique,
    all_wf, seq_key_map, lemma_seq_key_map_index, views_of, lemma_filter_take_step, events_hash,
    enc_env_list};

verus! {

/// An envelope the pull path accepts: structurally well formed, with a
/// signature that verifies against its own declared key.
pub open spec fn valid_env(e: EnvV) -> bool {
    wf_env(e) && sig_valid(e.verifying_key, enc_event(e.inner), e.signature)
}

pub open spec fn valid_pred() -> spec_fn(EnvV) -> bool {
    |e: EnvV| valid_env(e)
}

/// Whether a sync round must pull: only a remembered last hash equal to the
/// remote's current state hash allows skipping.
pub fn sync_needed(last: &Option<StateHash>, remote: &StateHash) -> (r: bool)
    ensures
        r == !(last matches Some(h) && h@ == remote@),
{
    match last {
        Some(h) => !h.matches(remote),
        None => true,
    }
}

/// One pull of anti-entropy: re-verifies every pulled envelope, offers the
/// valid ones to the store in order, and remembers the digest of the
/// accepted listing for this peer. Invalid envelopes are dropped; whatever
/// the remote sent, the store stays well formed. Returns how many envelopes
/// were accepted for insertion.
pub fn apply_remote_events(
    store: &mut EventStore,
    peer_url: &str,
    events: Vec<Signed<Event>>,
) -> (r: usize)
    requires
        old(store).wf(),
    ensures
        final(store).wf(),
        final(store).as_map() == absorb_all(
            old(store).as_map(),
            views_of(events@).filter(valid_pred()),
        ),
        final(store).peer_map() == old(store).peer_map().insert(
            peer_url@,
            blake3_of(enc_env_list(views_of(events@).filter(valid_pred()))),
        ),
        r == views_of(events@).filter(valid_pred()).len(),
{
    let ghost vs = views_of(events@);
    let ghost pred = valid_pred();
    let mut valid: Vec<Signed<Event>> = Vec::new();
    proof {
        reveal(Seq::filter);
        assert(vs.take(0) =~= Seq::<EnvV>::empty());
        assert(views_of(valid@) =~= Seq::<EnvV>::empty());
    }
    let mut i: usize = 0;
    while i < events.len()
        invariant
            vs == views_of(events@),
            events@.len() == vs.len(),
            i <= vs.len(),
            views_of(valid@) == vs.take(i as int).filter(pred),
            pred == valid_pred(),
        decreases vs.len() - i,
    {
        proof {
            assert(vs[i as int] == events@[i as int]@);
            lemma_filter_take_step(vs, i as int, pred);
        }
        let structurally_ok = events[i].check_wf();
        let ok = if structurally_ok {
            let key = events[i].verifying_key();
            events[i].verify(&key)
        } else {
            false
        };
        proof {
            assert(ok == pred(vs[i as int]));
        }
        if ok {
            let ghost t = views_of(valid@);
            valid.push(events[i].clone());
            proof {
                assert(views_of(valid@) =~= t.push(vs[i as int]));
            }
        }
        i = i + 1;
    }
    proof {
        assert(vs.take(vs.len() as int) =~= vs);
        let f = vs.filter(pred);
        assert forall|a: int| 0 <= a < f.len() implies wf_env(#[trigger] f[a]) by {
            vs.lemma_filter_pred(pred, a);
        }
    }
    let digest = events_hash(&valid);
    let accepted = valid.len();
    store.insert_events(valid);
    store.set_peer_last_hash(peer_url, digest);
    accepted
}

// ---------------------------------------------------------------------------
// Convergence of mutual pulls
// ---------------------------------------------------------------------------

/// The dominant of two envelopes.
pub open spec fn max_env(a: EnvV, b: EnvV) -> EnvV {
    if beats(b, a) {
        b
    } else {
        a
    }
}

/// Dominance is total on well-formed envelopes: two that do not dominate
/// each other are the same envelope.
pub proof fn lemma_beats_total(a: EnvV, b: EnvV)
    requires
        wf_env(a),
        wf_env(b),
        !beats(a, b),
        !beats(b, a),
    ensures
        a == b,
{
    assert(a.inner.priority() == b.inner.priority());
    lemma_lex_connex(enc_env(a), enc_env(b));
    if enc_env(a) == enc_env(b) {
        lemma_enc_env_injective(a, b);
    }
}

proof fn lemma_max_env_comm(a: EnvV, b: EnvV)
    requires
        wf_env(a),
        wf_env(b),
    ensures
        max_env(a, b) == max_env(b, a),
{
    if beats(a, b) && beats(b, a) {
        lemma_beats_asym(a, b);
    }
    if !beats(a, b) && !beats(b, a) {
        lemma_beats_total(a, b);
    }
}

/// A batch without `k` leaves the entry under `k` alone.
proof fn lemma_absorb_all_frame(m: Map<KeyV, EnvV>, s: Seq<EnvV>, k: KeyV)
    requires
        forall|i: int| 0 <= i < s.len() ==> key_of(#[trigger] s[i]) != k,
    ensures
        absorb_all(m, s).contains_key(k) == m.contains_key(k),
        m.contains_key(k) ==> absorb_all(m, s)[k] == m[k],
    decreases s.len(),
{
    if s.len() > 0 {
        let m1 = absorb(m, s[0]);
        assert(m1.contains_key(k) == m.contains_key(k));
        assert(m.contains_key(k) ==> m1[k] == m[k]);
        assert forall|i: int| 0 <= i < s.drop_first().len() implies key_of(
            #[trigger] s.drop_first()[i],
        ) != k by {
            assert(s.drop_first()[i] == s[i + 1]);
        }
        lemma_absorb_all_frame(m1, s.drop_first(), k);
    }
}

/// A key-unique batch sets the entry under each of its keys to the dominant
/// of the present entry and the batch's one.
proof fn lemma_absorb_all_hit(m: Map<KeyV, EnvV>, s: Seq<EnvV>, i: int)
    requires
        keys_unique(s),
        0 <= i < s.len(),
    ensures
        absorb_all(m, s).contains_key(key_of(s[i])),
        absorb_all(m, s)[key_of(s[i])] == if m.contains_key(key_of(s[i])) {
            max_env(m[key_of(s[i])], s[i])
        } else {
            s[i]
        },
    decreases s.len(),
{
    let k = key_of(s[i]);
    let m1 = absorb(m, s[0]);
    assert forall|a: int, b: int|
        0 <= a < s.drop_first().len() && 0 <= b < s.drop_first().len() && a != b implies key_of(
        #[trigger] s.drop_first()[a],
    ) != key_of(#[trigger] s.drop_first()[b]) by {
        assert(s.drop_first()[a] == s[a + 1]);
        assert(s.drop_first()[b] == s[b + 1]);
    }
    if i == 0 {
        assert(m1.contains_key(k));
        assert(m1[k] == if m.contains_key(k) {
            max_env(m[k], s[0])
        } else {
            s[0]
        });
        assert forall|j: int| 0 <= j < s.drop_first().len() implies key_of(
            #[trigger] s.drop_first()[j],
        ) != k by {
            assert(s.drop_first()[j] == s[j + 1]);
        }
        lemma_absorb_all_frame(m1, s.drop_first(), k);
    } else {
        assert(key_of(s[0]) != k);
        assert(m1.contains_key(k) == m.contains_key(k));
        assert(m.contains_key(k) ==> m1[k] == m[k]);
        assert(s.drop_first()[i - 1] == s[i]);
        lemma_absorb_all_hit(m1, s.drop_first(), i - 1);
    }
}

/// Pairwise anti-entropy converges: two stores that each ingest the other's
/// full listing retain, for every key, the same dominant event, whatever
/// either held before. The listings enumerate the two states.
pub proof fn lemma_sync_convergence(la: Seq<EnvV>, lb: Seq<EnvV>)
    requires
        keys_unique(la),
        keys_unique(lb),
        all_wf(la),
        all_wf(lb),
    ensures
        absorb_all(seq_key_map(la), lb) == absorb_all(seq_key_map(lb), la),
{
    let ma = seq_key_map(la);
    let mb = seq_key_map(lb);
    assert_maps_equal!(absorb_all(ma, lb), absorb_all(mb, la), k => {
        let a_has = ma.contains_key(k);
        let b_has = mb.contains_key(k);
        if a_has {
            let i = choose|i: int| 0 <= i < la.len() && key_of(la[i]) == k;
            lemma_seq_key_map_index(la, i);
            lemma_absorb_all_hit(mb, la, i);
            if b_has {
                let j = choose|j: int| 0 <= j < lb.len() && key_of(lb[j]) == k;
                lemma_seq_key_map_index(lb, j);
                lemma_absorb_all_hit(ma, lb, j);
                lemma_max_env_comm(la[i], lb[j]);
            } else {
                assert forall|j: int| 0 <= j < lb.len() implies key_of(#[trigger] lb[j])
                    != k by {
                    if key_of(lb[j]) == k {
                        lemma_seq_key_map_index(lb, j);
                    }
                }
                lemma_absorb_all_frame(ma, lb, k);
            }
        } else {
            assert forall|i: int| 0 <= i < la.len() implies key_of(#[trigger] la[i]) != k by {
                if key_of(la[i]) == k {
                    lemma_seq_key_map_index(la, i);
                }
            }
            lemma_absorb_all_frame(mb, la, k);
            if b_has {
                let j = choose|j: int| 0 <= j < lb.len() && key_of(lb[j]) == k;
                lemma_seq_key_map_index(lb, j);
                lemma_absorb_all_hit(ma, lb, j);
            } else {
                assert forall|j: int| 0 <= j < lb.len() implies key_of(#[trigger] lb[j])
                    != k by {
                    if key_of(lb[j]) == k {
                        lemma_seq_key_map_index(lb, j);
                    }
                }
                lemma_absorb_all_frame(ma, lb, k);
            }
        }
    });
}

} // verus!
