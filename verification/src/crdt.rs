//! The resolver: folds the events held for one `(verifying key, name)` into
//! the single observable value, as a last-writer-wins register with
//! tombstones.

use vstd::prelude::*;

use crate::codec::{lex_less, lemma_lex_asym};
use crate::events::{Event, EventV};
use crate::models::Value;
use crate::signed::{Signed, wf_env, enc_env, encode_env};
use crate::store::{EnvV, beats, expired_at, live_pred, views_of, all_wf};
use crate::store::{lemma_filter_take_step};

verus! {

/// The dominant event of a nonempty collection under the total resolution
/// order: highest priority, with the byte order of the envelope encodings
/// breaking ties.
pub open spec fn winner(s: Seq<EnvV>) -> EnvV
    recommends
        s.len() > 0,
    decreases s.len(),
{
    if s.len() <= 1 {
        s[0]
    } else {
        let rest = winner(s.drop_last());
        if beats(s.last(), rest) {
            s.last()
        } else {
            rest
        }
    }
}

/// What a collection of events resolves to at time `now`: drop the expired
/// ones; nothing left means no value; a winning deletion means no value; a
/// winning set means its value.
pub open spec fn merge_spec(s: Seq<EnvV>, now: u64) -> Option<Seq<u8>> {
    let live = s.filter(live_pred(now));
    if live.len() == 0 {
        None
    } else {
        winner(live).inner.value()
    }
}

/// Decides the strict dominance order on two envelopes.
fn env_beats(a: &Signed<Event>, b: &Signed<Event>) -> (r: bool)
    requires
        wf_env(a@),
        wf_env(b@),
    ensures
        r == beats(a@, b@),
{
    let pa = a.inner.priority();
    let pb = b.inner.priority();
    if pa > pb {
        true
    } else if pa < pb {
        false
    } else {
        let ea = encode_env(a);
        let eb = encode_env(b);
        lex_less(&eb, &ea)
    }
}

/// Resolves a collection of events to its observable value: the value of the
/// dominant live set event, or nothing when none survives or a deletion
/// dominates.
pub fn merge_events(events: Vec<Signed<Event>>, now: u64) -> (r: Option<Value>)
    requires
        all_wf(views_of(events@)),
    ensures
        r is Some <==> merge_spec(views_of(events@), now) is Some,
        r matches Some(v) ==> merge_spec(views_of(events@), now) == Some(v@),
{
    let ghost vs = views_of(events@);
    let ghost pred = live_pred(now);
    let mut best: Option<usize> = None;
    let mut i: usize = 0;
    proof {
        reveal(Seq::filter);
        assert(vs.take(0) =~= Seq::<EnvV>::empty());
    }
    while i < events.len()
        invariant
            vs == views_of(events@),
            all_wf(vs),
            events@.len() == vs.len(),
            i <= vs.len(),
            match best {
                Some(b) => {
                    &&& b < i
                    &&& vs.take(i as int).filter(pred).len() > 0
                    &&& winner(vs.take(i as int).filter(pred)) == vs[b as int]
                    &&& !expired_at(vs[b as int], now)
                },
                None => vs.take(i as int).filter(pred).len() == 0,
            },
            pred == live_pred(now),
        decreases vs.len() - i,
    {
        proof {
            assert(vs[i as int] == events@[i as int]@);
            lemma_filter_take_step(vs, i as int, pred);
        }
        let is_expired = match events[i].inner.expires_at() {
            Some(t) => t <= now,
            None => false,
        };
        if !is_expired {
            proof {
                assert(pred(vs[i as int]));
            }
            let ghost fl = vs.take(i as int).filter(pred);
            proof {
                assert(fl.push(vs[i as int]).drop_last() =~= fl);
                assert(fl.push(vs[i as int]).last() == vs[i as int]);
            }
            match best {
                None => {
                    proof {
                        assert(fl.push(vs[i as int]).len() == 1);
                        assert(winner(fl.push(vs[i as int])) == vs[i as int]);
                    }
                    best = Some(i);
                }
                Some(b) => {
                    proof {
                        assert(fl.len() > 0);
                        assert(winner(fl.push(vs[i as int])) == if beats(
                            vs[i as int],
                            winner(fl),
                        ) {
                            vs[i as int]
                        } else {
                            winner(fl)
                        });
                    }
                    if env_beats(&events[i], &events[b]) {
                        best = Some(i);
                    }
                }
            }
        } else {
            proof {
                assert(!pred(vs[i as int]));
            }
        }
        i = i + 1;
    }
    proof {
        assert(vs.take(vs.len() as int) =~= vs);
    }
    match best {
        None => None,
        Some(b) => events[b].inner.value(),
    }
}

// ---------------------------------------------------------------------------
// The tombstone behaviour of the resolver
// ---------------------------------------------------------------------------

/// A deletion that dominates a live set event nulls the value out.
pub proof fn lemma_merge_tombstone(set_e: EnvV, del_e: EnvV, now: u64)
    requires
        set_e.inner is Put,
        del_e.inner is Delete,
        !expired_at(set_e, now),
        beats(del_e, set_e),
    ensures
        merge_spec(seq![set_e, del_e], now) == None::<Seq<u8>>,
{
    let s = seq![set_e, del_e];
    let live = lemma_two_live(set_e, del_e, now);
    assert(winner(live) == del_e);
}

/// A set event that dominates the deletion keeps its value observable.
pub proof fn lemma_merge_set_wins(set_e: EnvV, del_e: EnvV, now: u64)
    requires
        set_e.inner is Put,
        del_e.inner is Delete,
        !expired_at(set_e, now),
        beats(set_e, del_e),
    ensures
        merge_spec(seq![set_e, del_e], now) == set_e.inner.value(),
        merge_spec(seq![set_e, del_e], now) is Some,
{
    let live = lemma_two_live(set_e, del_e, now);
    lemma_beats_asym(set_e, del_e);
    assert(winner(live) == set_e);
}

/// Dominance is asymmetric.
pub proof fn lemma_beats_asym(a: EnvV, b: EnvV)
    requires
        beats(a, b),
    ensures
        !beats(b, a),
{
    if beats(b, a) {
        lemma_lex_asym(enc_env(a), enc_env(b));
    }
}

/// A live set event and a deletion both survive the expiry filter.
proof fn lemma_two_live(set_e: EnvV, del_e: EnvV, now: u64) -> (live: Seq<EnvV>)
    requires
        del_e.inner is Delete,
        !expired_at(set_e, now),
    ensures
        live == seq![set_e, del_e].filter(live_pred(now)),
        live == seq![set_e, del_e],
        live.len() == 2,
        live[0] == set_e,
        live[1] == del_e,
        live.drop_last() == seq![set_e],
        winner(live) == if beats(del_e, set_e) {
            del_e
        } else {
            set_e
        },
{
    reveal(Seq::filter);
    let s = seq![set_e, del_e];
    let pred = live_pred(now);
    assert(!expired_at(del_e, now));
    assert(s.drop_last() =~= seq![set_e]);
    assert(s.last() == del_e);
    assert(seq![set_e].drop_last() =~= Seq::<EnvV>::empty());
    assert(seq![set_e].last() == set_e);
    assert(Seq::<EnvV>::empty().filter(pred) =~= Seq::<EnvV>::empty());
    assert(seq![set_e].filter(pred) =~= seq![set_e]);
    assert(s.filter(pred) =~= s);
    assert(winner(seq![set_e]) == set_e);
    assert(winner(s) == if beats(s.last(), winner(s.drop_last())) {
        s.last()
    } else {
        winner(s.drop_last())
    });
    s
}

} // verus!
