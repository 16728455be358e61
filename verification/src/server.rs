//! The server facade's decision core: what an inbound signed write must
//! satisfy before it reaches the store, and the self-description a peer
//! renders.

use vstd::prelude::*;

use crate::encode::hex_of;
use crate::errors::Error;
use crate::events::{Event, enc_event};
use crate::hashing::blake3_of;
use crate::keys::{VerifyingKey, sig_valid};
use crate::models::Dashboard;
use crate::signed::{Signed, wf_env};
use crate::store::{EventStore, absorb, absorbs, enc_env_list, live_pred};

verus! {

/// Handles an inbound signed write for the keyspace of `path_key`: the
/// envelope must be well formed, declare exactly that key, and carry a
/// signature that verifies against it. Only then is it offered to the store;
/// a bad structure is a malformed encoding, anything else that fails is a
/// bad signature, and in both cases the store is untouched.
pub fn ingest_signed_event(
    store: &mut EventStore,
    event: Signed<Event>,
    path_key: &VerifyingKey,
) -> (r: Result<usize, Error>)
    requires
        old(store).wf(),
        path_key.wf(),
    ensures
        final(store).wf(),
        final(store).peer_map() == old(store).peer_map(),
        !wf_env(event@) ==> r == Err::<usize, Error>(Error::BadEncoding),
        (wf_env(event@) && !(event@.verifying_key == path_key@ && sig_valid(
            path_key@,
            enc_event(event@.inner),
            event@.signature,
        ))) ==> r == Err::<usize, Error>(Error::BadSignature),
        r is Err ==> final(store).as_map() == old(store).as_map(),
        (wf_env(event@) && event@.verifying_key == path_key@ && sig_valid(
            path_key@,
            enc_event(event@.inner),
            event@.signature,
        )) ==> {
            &&& final(store).as_map() == absorb(old(store).as_map(), event@)
            &&& r == Ok::<usize, Error>(
                if absorbs(old(store).as_map(), event@) {
                    1usize
                } else {
                    0usize
                },
            )
        },
{
    if !event.check_wf() {
        return Err(Error::BadEncoding);
    }
    let declared = event.verifying_key();
    if !declared.same_key(path_key) {
        return Err(Error::BadSignature);
    }
    if !event.verify(path_key) {
        return Err(Error::BadSignature);
    }
    Ok(store.insert_event(event))
}

/// Computes the peer's self-description: event count, peer count, version,
/// and the first twelve hex characters of the current state hash.
pub fn dashboard(store: &EventStore, peer_count: usize, version: String, now: u64) -> (r:
    Dashboard)
    requires
        store.wf(),
    ensures
        r.event_count == store.evs().len(),
        r.peer_count == peer_count,
        r.version@ == version@,
        r.state_hash@ == hex_of(
            blake3_of(enc_env_list(store.evs().filter(live_pred(now)))),
        ).take(12),
{
    let state = store.current_state_hash(now);
    let full = state.hash.to_hex();
    proof {
        assert(full@.len() == 64);
    }
    let truncated = vstd::string::StrSliceExecFns::substring_char(full.as_str(), 0, 12)
        .to_owned();
    proof {
        assert(truncated@ =~= full@.take(12));
    }
    Dashboard {
        event_count: store.event_count(),
        state_hash: truncated,
        peer_count,
        version,
    }
}

} // verus!
