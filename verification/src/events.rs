//! The event model and its canonical binary encoding.
//!
//! The encoding is frozen: it is the input of signatures, of the state hash
//! and of the storage payload, so any change would break compatibility
//! between peers. Variable-length fields are length-prefixed, integers are
//! little-endian and fixed-width, an option is a `0`/`1` tag byte, and the
//! event sum carries a leading tag byte (`0` = set, `1` = delete).

use vstd::prelude::*;
use vstd::bytes::*;
use vstd::utf8::{encode_utf8, decode_utf8, valid_utf8};
use vstd::utf8::{encode_utf8_valid_utf8, encode_utf8_decode_utf8, decode_utf8_encode_utf8};

use crate::codec::{push_u16, push_u64, push_bytes, read_u16, read_u64, read_bytes, string_from_utf8};
use crate::models::{Name, Value};

verus! {

// ---------------------------------------------------------------------------
// Events
// ---------------------------------------------------------------------------

/// A signed-for mutation that binds a name to a value, with a priority and an
/// optional expiry in Unix-epoch seconds.
pub struct SetEvent {
    pub name: Name,
    pub value: Value,
    pub priority: u64,
    pub expires_at: Option<u64>,
}

/// A tombstone for a name. It carries no value and never expires.
pub struct DeletionEvent {
    pub name: Name,
    pub priority: u64,
}

/// The event sum: either a set or a deletion.
pub enum Event {
    Put(SetEvent),
    Delete(DeletionEvent),
}

// ---------------------------------------------------------------------------
// Mathematical images of the events
// ---------------------------------------------------------------------------

pub struct SetEventV {
    pub name: Seq<char>,
    pub value: Seq<u8>,
    pub priority: u64,
    pub expires_at: Option<u64>,
}

pub struct DeletionEventV {
    pub name: Seq<char>,
    pub priority: u64,
}

pub enum EventV {
    Put(SetEventV),
    Delete(DeletionEventV),
}

impl View for SetEvent {
    type V = SetEventV;

    open spec fn view(&self) -> SetEventV {
        SetEventV {
            name: self.name@,
            value: self.value@,
            priority: self.priority,
            expires_at: self.expires_at,
        }
    }
}

impl View for DeletionEvent {
    type V = DeletionEventV;

    open spec fn view(&self) -> DeletionEventV {
        DeletionEventV { name: self.name@, priority: self.priority }
    }
}

impl View for Event {
    type V = EventV;

    open spec fn view(&self) -> EventV {
        match self {
            Event::Put(s) => EventV::Put(s@),
            Event::Delete(d) => EventV::Delete(d@),
        }
    }
}

impl EventV {
    pub open spec fn name(self) -> Seq<char> {
        match self {
            EventV::Put(s) => s.name,
            EventV::Delete(d) => d.name,
        }
    }

    pub open spec fn priority(self) -> u64 {
        match self {
            EventV::Put(s) => s.priority,
            EventV::Delete(d) => d.priority,
        }
    }

    pub open spec fn expires_at(self) -> Option<u64> {
        match self {
            EventV::Put(s) => s.expires_at,
            EventV::Delete(_) => None,
        }
    }

    pub open spec fn value(self) -> Option<Seq<u8>> {
        match self {
            EventV::Put(s) => Some(s.value),
            EventV::Delete(_) => None,
        }
    }

    /// An event fits the canonical encoding when its name fits the 16-bit
    /// length prefix and its value the 64-bit one.
    pub open spec fn wf(self) -> bool {
        &&& encode_utf8(self.name()).len() <= 0xffff
        &&& match self {
            EventV::Put(s) => s.value.len() < 0x1_0000_0000_0000_0000,
            EventV::Delete(_) => true,
        }
    }
}

impl Event {
    /// The name the event addresses.
    pub fn name(&self) -> (r: &Name)
        ensures
            r@ == self@.name(),
    {
        match self {
            Event::Put(event) => &event.name,
            Event::Delete(event) => &event.name,
        }
    }

    /// The resolution priority; higher wins.
    pub fn priority(&self) -> (r: u64)
        ensures
            r == self@.priority(),
    {
        match self {
            Event::Put(event) => event.priority,
            Event::Delete(event) => event.priority,
        }
    }

    /// The expiry, if any; a deletion never expires.
    pub fn expires_at(&self) -> (r: Option<u64>)
        ensures
            r == self@.expires_at(),
    {
        match self {
            Event::Put(event) => event.expires_at,
            Event::Delete(_) => None,
        }
    }

    /// The carried value; a deletion carries none.
    pub fn value(&self) -> (r: Option<Value>)
        ensures
            r is Some <==> self@.value() is Some,
            r matches Some(v) ==> self@.value() == Some(v@),
    {
        match self {
            Event::Put(event) => Some(event.value.clone()),
            Event::Delete(_) => None,
        }
    }
}

impl Clone for SetEvent {
    fn clone(&self) -> (r: Self)
        ensures
            r@ == self@,
    {
        SetEvent {
            name: self.name.clone(),
            value: self.value.clone(),
            priority: self.priority,
            expires_at: self.expires_at,
        }
    }
}

impl Clone for DeletionEvent {
    fn clone(&self) -> (r: Self)
        ensures
            r@ == self@,
    {
        DeletionEvent { name: self.name.clone(), priority: self.priority }
    }
}

impl Clone for Event {
    fn clone(&self) -> (r: Self)
        ensures
            r@ == self@,
    {
        match self {
            Event::Put(s) => Event::Put(s.clone()),
            Event::Delete(d) => Event::Delete(d.clone()),
        }
    }
}

// ---------------------------------------------------------------------------
// Canonical encoding
// ---------------------------------------------------------------------------

/// A name encodes as a 16-bit length prefix followed by its UTF-8 bytes.
pub open spec fn enc_name(name: Seq<char>) -> Seq<u8> {
    spec_u16_to_le_bytes(encode_utf8(name).len() as u16) + encode_utf8(name)
}

/// A byte run encodes as a 64-bit length prefix followed by the bytes.
pub open spec fn enc_run64(data: Seq<u8>) -> Seq<u8> {
    spec_u64_to_le_bytes(data.len() as u64) + data
}

/// An optional integer encodes as a `0` byte, or a `1` byte and the value.
pub open spec fn enc_opt_u64(x: Option<u64>) -> Seq<u8> {
    match x {
        None => seq![0u8],
        Some(v) => seq![1u8] + spec_u64_to_le_bytes(v),
    }
}

/// The canonical binary image of an event.
pub open spec fn enc_event(e: EventV) -> Seq<u8> {
    match e {
        EventV::Put(s) => seq![0u8] + enc_name(s.name) + enc_run64(s.value)
            + spec_u64_to_le_bytes(s.priority) + enc_opt_u64(s.expires_at),
        EventV::Delete(d) => seq![1u8] + enc_name(d.name) + spec_u64_to_le_bytes(d.priority),
    }
}

/// Appends the canonical encoding of `event`.
pub fn encode_event(event: &Event, out: &mut Vec<u8>)
    requires
        event@.wf(),
    ensures
        final(out)@ == old(out)@ + enc_event(event@),
{
    match event {
        Event::Put(s) => {
            out.push(0u8);
            let nb = s.name.to_bytes();
            push_u16(out, nb.len() as u16);
            push_bytes(out, nb.as_slice());
            let vb = s.value.as_bytes();
            push_u64(out, vb.len() as u64);
            push_bytes(out, vb);
            push_u64(out, s.priority);
            match s.expires_at {
                None => out.push(0u8),
                Some(t) => {
                    out.push(1u8);
                    push_u64(out, t);
                }
            }
            proof {
                assert(out@ =~= old(out)@ + enc_event(event@));
            }
        }
        Event::Delete(d) => {
            out.push(1u8);
            let nb = d.name.to_bytes();
            push_u16(out, nb.len() as u16);
            push_bytes(out, nb.as_slice());
            push_u64(out, d.priority);
            proof {
                assert(out@ =~= old(out)@ + enc_event(event@));
            }
        }
    }
}

// ---------------------------------------------------------------------------
// Canonical decoding
// ---------------------------------------------------------------------------

/// Parses a 16-bit little-endian integer off the front of `s`.
pub open spec fn sd_u16(s: Seq<u8>) -> Option<(u16, Seq<u8>)> {
    if s.len() >= 2 {
        Some((spec_u16_from_le_bytes(s.take(2)), s.skip(2)))
    } else {
        None
    }
}

/// Parses a 64-bit little-endian integer off the front of `s`.
pub open spec fn sd_u64(s: Seq<u8>) -> Option<(u64, Seq<u8>)> {
    if s.len() >= 8 {
        Some((spec_u64_from_le_bytes(s.take(8)), s.skip(8)))
    } else {
        None
    }
}

/// Takes a run of `n` raw bytes off the front of `s`.
pub open spec fn sd_run(s: Seq<u8>, n: int) -> Option<(Seq<u8>, Seq<u8>)> {
    if 0 <= n <= s.len() {
        Some((s.take(n), s.skip(n)))
    } else {
        None
    }
}

/// Parses a length-prefixed name and insists on valid UTF-8.
pub open spec fn sd_name(s: Seq<u8>) -> Option<(Seq<char>, Seq<u8>)> {
    match sd_u16(s) {
        Some((n, r)) => match sd_run(r, n as int) {
            Some((bs, r2)) => if valid_utf8(bs) {
                Some((decode_utf8(bs), r2))
            } else {
                None
            },
            None => None,
        },
        None => None,
    }
}

/// Parses a 64-bit-length-prefixed byte run.
pub open spec fn sd_run64(s: Seq<u8>) -> Option<(Seq<u8>, Seq<u8>)> {
    match sd_u64(s) {
        Some((n, r)) => sd_run(r, n as int),
        None => None,
    }
}

/// Parses an optional 64-bit integer behind its presence tag.
pub open spec fn sd_opt_u64(s: Seq<u8>) -> Option<(Option<u64>, Seq<u8>)> {
    if s.len() < 1 {
        None
    } else if s[0] == 0u8 {
        Some((None, s.skip(1)))
    } else if s[0] == 1u8 {
        match sd_u64(s.skip(1)) {
            Some((v, r)) => Some((Some(v), r)),
            None => None,
        }
    } else {
        None
    }
}

/// Parses one event off the front of `s`.
pub open spec fn sd_event(s: Seq<u8>) -> Option<(EventV, Seq<u8>)> {
    if s.len() < 1 {
        None
    } else if s[0] == 0u8 {
        match sd_name(s.skip(1)) {
            Some((name, r1)) => match sd_run64(r1) {
                Some((value, r2)) => match sd_u64(r2) {
                    Some((priority, r3)) => match sd_opt_u64(r3) {
                        Some((expires_at, r4)) => Some((
                            EventV::Put(SetEventV { name, value, priority, expires_at }),
                            r4,
                        )),
                        None => None,
                    },
                    None => None,
                },
                None => None,
            },
            None => None,
        }
    } else if s[0] == 1u8 {
        match sd_name(s.skip(1)) {
            Some((name, r1)) => match sd_u64(r1) {
                Some((priority, r2)) => Some((
                    EventV::Delete(DeletionEventV { name, priority }),
                    r2,
                )),
                None => None,
            },
            None => None,
        }
    } else {
        None
    }
}

// ---------------------------------------------------------------------------
// Decode round-trips the encoding
// ---------------------------------------------------------------------------

proof fn lemma_take_skip_concat(a: Seq<u8>, b: Seq<u8>)
    ensures
        (a + b).take(a.len() as int) == a,
        (a + b).skip(a.len() as int) == b,
{
    assert((a + b).take(a.len() as int) =~= a);
    assert((a + b).skip(a.len() as int) =~= b);
}

proof fn lemma_sd_u16_roundtrip(x: u16, rest: Seq<u8>)
    ensures
        sd_u16(spec_u16_to_le_bytes(x) + rest) == Some((x, rest)),
{
    lemma_auto_spec_u16_to_from_le_bytes();
    lemma_take_skip_concat(spec_u16_to_le_bytes(x), rest);
}

pub proof fn lemma_sd_u64_roundtrip(x: u64, rest: Seq<u8>)
    ensures
        sd_u64(spec_u64_to_le_bytes(x) + rest) == Some((x, rest)),
{
    lemma_auto_spec_u64_to_from_le_bytes();
    lemma_take_skip_concat(spec_u64_to_le_bytes(x), rest);
}

proof fn lemma_sd_name_roundtrip(name: Seq<char>, rest: Seq<u8>)
    requires
        encode_utf8(name).len() <= 0xffff,
    ensures
        sd_name(enc_name(name) + rest) == Some((name, rest)),
{
    broadcast use encode_utf8_valid_utf8, encode_utf8_decode_utf8;

    let nb = encode_utf8(name);
    let prefix = spec_u16_to_le_bytes(nb.len() as u16);
    assert(enc_name(name) + rest =~= prefix + (nb + rest));
    lemma_sd_u16_roundtrip(nb.len() as u16, nb + rest);
    lemma_take_skip_concat(nb, rest);
    assert((nb.len() as u16) as int == nb.len() as int);
}

pub proof fn lemma_sd_run64_roundtrip(data: Seq<u8>, rest: Seq<u8>)
    requires
        data.len() < 0x1_0000_0000_0000_0000,
    ensures
        sd_run64(enc_run64(data) + rest) == Some((data, rest)),
{
    let prefix = spec_u64_to_le_bytes(data.len() as u64);
    assert(enc_run64(data) + rest =~= prefix + (data + rest));
    lemma_sd_u64_roundtrip(data.len() as u64, data + rest);
    lemma_take_skip_concat(data, rest);
    assert((data.len() as u64) as int == data.len() as int);
}

proof fn lemma_sd_opt_u64_roundtrip(x: Option<u64>, rest: Seq<u8>)
    ensures
        sd_opt_u64(enc_opt_u64(x) + rest) == Some((x, rest)),
{
    match x {
        None => {
            let s = enc_opt_u64(x) + rest;
            assert(s[0] == 0u8);
            assert(s.skip(1) =~= rest);
        }
        Some(v) => {
            let s = enc_opt_u64(x) + rest;
            assert(s[0] == 1u8);
            assert(s.skip(1) =~= spec_u64_to_le_bytes(v) + rest);
            lemma_sd_u64_roundtrip(v, rest);
        }
    }
}

/// Decoding inverts encoding: the canonical image of a well-formed event,
/// followed by anything, parses back to exactly that event.
pub proof fn lemma_sd_event_roundtrip(e: EventV, rest: Seq<u8>)
    requires
        e.wf(),
    ensures
        sd_event(enc_event(e) + rest) == Some((e, rest)),
{
    let s = enc_event(e) + rest;
    match e {
        EventV::Put(v) => {
            assert(s[0] == 0u8);
            let tail1 = enc_run64(v.value) + (spec_u64_to_le_bytes(v.priority)
                + (enc_opt_u64(v.expires_at) + rest));
            assert(s.skip(1) =~= enc_name(v.name) + tail1);
            lemma_sd_name_roundtrip(v.name, tail1);
            let tail2 = spec_u64_to_le_bytes(v.priority) + (enc_opt_u64(v.expires_at) + rest);
            lemma_sd_run64_roundtrip(v.value, tail2);
            lemma_sd_u64_roundtrip(v.priority, enc_opt_u64(v.expires_at) + rest);
            lemma_sd_opt_u64_roundtrip(v.expires_at, rest);
        }
        EventV::Delete(v) => {
            assert(s[0] == 1u8);
            let tail1 = spec_u64_to_le_bytes(v.priority) + rest;
            assert(s.skip(1) =~= enc_name(v.name) + tail1);
            lemma_sd_name_roundtrip(v.name, tail1);
            lemma_sd_u64_roundtrip(v.priority, rest);
        }
    }
}

// ---------------------------------------------------------------------------
// Decoding is sound: whatever parses is the encoding of its result
// ---------------------------------------------------------------------------

proof fn lemma_sd_u16_sound(s: Seq<u8>)
    ensures
        sd_u16(s) matches Some((x, r)) ==> s == spec_u16_to_le_bytes(x) + r,
{
    if s.len() >= 2 {
        lemma_auto_spec_u16_to_from_le_bytes();
        assert(s =~= s.take(2) + s.skip(2));
    }
}

proof fn lemma_sd_u64_sound(s: Seq<u8>)
    ensures
        sd_u64(s) matches Some((x, r)) ==> s == spec_u64_to_le_bytes(x) + r,
{
    if s.len() >= 8 {
        lemma_auto_spec_u64_to_from_le_bytes();
        assert(s =~= s.take(8) + s.skip(8));
    }
}

proof fn lemma_sd_name_sound(s: Seq<u8>)
    ensures
        sd_name(s) matches Some((name, r)) ==> {
            &&& encode_utf8(name).len() <= 0xffff
            &&& s == enc_name(name) + r
        },
{
    broadcast use decode_utf8_encode_utf8;

    if let Some((n, r1)) = sd_u16(s) {
        lemma_sd_u16_sound(s);
        if let Some((bs, r2)) = sd_run(r1, n as int) {
            if valid_utf8(bs) {
                let name = decode_utf8(bs);
                assert(encode_utf8(name) == bs);
                assert(r1 =~= bs + r2);
                assert(s =~= spec_u16_to_le_bytes(n) + (bs + r2));
                assert((bs.len() as u16) == n);
                assert(s =~= enc_name(name) + r2);
            }
        }
    }
}

proof fn lemma_sd_run64_sound(s: Seq<u8>)
    ensures
        sd_run64(s) matches Some((data, r)) ==> {
            &&& data.len() < 0x1_0000_0000_0000_0000
            &&& s == enc_run64(data) + r
        },
{
    if let Some((n, r1)) = sd_u64(s) {
        lemma_sd_u64_sound(s);
        if let Some((data, r2)) = sd_run(r1, n as int) {
            assert(r1 =~= data + r2);
            assert((data.len() as u64) == n);
            assert(s =~= enc_run64(data) + r2);
        }
    }
}

proof fn lemma_sd_opt_u64_sound(s: Seq<u8>)
    ensures
        sd_opt_u64(s) matches Some((x, r)) ==> s == enc_opt_u64(x) + r,
{
    if s.len() >= 1 {
        if s[0] == 0u8 {
            assert(s =~= seq![0u8] + s.skip(1));
        } else if s[0] == 1u8 {
            lemma_sd_u64_sound(s.skip(1));
            if let Some((v, r)) = sd_u64(s.skip(1)) {
                assert(s =~= seq![1u8] + (spec_u64_to_le_bytes(v) + r));
                assert(seq![1u8] + (spec_u64_to_le_bytes(v) + r)
                    =~= (seq![1u8] + spec_u64_to_le_bytes(v)) + r);
            }
        }
    }
}

/// Whatever parses as an event is well formed and is followed by exactly the
/// unconsumed remainder: parsing never invents or drops bytes.
#[verifier::spinoff_prover]
#[verifier::rlimit(50)]
pub proof fn lemma_sd_event_sound(s: Seq<u8>)
    ensures
        sd_event(s) matches Some((e, r)) ==> {
            &&& e.wf()
            &&& s == enc_event(e) + r
        },
{
    if s.len() >= 1 && (s[0] == 0u8 || s[0] == 1u8) {
        lemma_sd_name_sound(s.skip(1));
        if s[0] == 0u8 {
            if let Some((name, r1)) = sd_name(s.skip(1)) {
                lemma_sd_run64_sound(r1);
                if let Some((value, r2)) = sd_run64(r1) {
                    lemma_sd_u64_sound(r2);
                    if let Some((priority, r3)) = sd_u64(r2) {
                        lemma_sd_opt_u64_sound(r3);
                        if let Some((expires_at, r4)) = sd_opt_u64(r3) {
                            let e = EventV::Put(SetEventV { name, value, priority, expires_at });
                            assert(s =~= seq![0u8] + s.skip(1));
                            assert(s =~= enc_event(e) + r4);
                        }
                    }
                }
            }
        } else {
            if let Some((name, r1)) = sd_name(s.skip(1)) {
                lemma_sd_u64_sound(r1);
                if let Some((priority, r2)) = sd_u64(r1) {
                    let e = EventV::Delete(DeletionEventV { name, priority });
                    assert(s =~= seq![1u8] + s.skip(1));
                    assert(s =~= enc_event(e) + r2);
                }
            }
        }
    }
}

/// The canonical encoding is injective on well-formed events.
pub proof fn lemma_enc_event_injective(a: EventV, b: EventV)
    requires
        a.wf(),
        b.wf(),
        enc_event(a) == enc_event(b),
    ensures
        a == b,
{
    let empty = Seq::<u8>::empty();
    lemma_sd_event_roundtrip(a, empty);
    lemma_sd_event_roundtrip(b, empty);
}

// ---------------------------------------------------------------------------
// The executable decoder
// ---------------------------------------------------------------------------

/// Parses one event out of `bytes` starting at `at`; on success also returns
/// the offset just past the consumed bytes.
pub fn decode_event(bytes: &Vec<u8>, at: usize) -> (r: Option<(Event, usize)>)
    requires
        at <= bytes@.len(),
    ensures
        match r {
            Some((e, next)) => {
                &&& at <= next <= bytes@.len()
                &&& sd_event(bytes@.skip(at as int)) == Some((e@, bytes@.skip(next as int)))
            },
            None => sd_event(bytes@.skip(at as int)) is None,
        },
{
    let ghost s = bytes@.skip(at as int);
    let total = bytes.len();
    if at >= total {
        return None;
    }
    let tag = bytes[at];
    assert(s[0] == tag);
    if tag == 0 {
        proof {
            assert(bytes@.skip(at + 1) =~= s.skip(1));
        }
        let (name, at1) = match decode_name(bytes, at + 1) {
            Some(x) => x,
            None => {
                return None;
            }
        };
        let (value, at2) = match decode_run64(bytes, at1) {
            Some(x) => x,
            None => {
                return None;
            }
        };
        if total - at2 < 8 {
            return None;
        }
        let priority = crate::codec::read_u64(bytes.as_slice(), at2);
        proof {
            assert(bytes@.skip(at2 as int).take(8) =~= bytes@.subrange(at2 as int, at2 + 8));
            assert(bytes@.skip(at2 as int).skip(8) =~= bytes@.skip(at2 + 8));
        }
        let at3 = at2 + 8;
        let (expires_at, at4) = match decode_opt_u64(bytes, at3) {
            Some(x) => x,
            None => {
                return None;
            }
        };
        let event = Event::Put(SetEvent {
            name,
            value: Value::new(value),
            priority,
            expires_at,
        });
        Some((event, at4))
    } else if tag == 1 {
        proof {
            assert(bytes@.skip(at + 1) =~= s.skip(1));
        }
        let (name, at1) = match decode_name(bytes, at + 1) {
            Some(x) => x,
            None => {
                return None;
            }
        };
        if total - at1 < 8 {
            return None;
        }
        let priority = crate::codec::read_u64(bytes.as_slice(), at1);
        proof {
            assert(bytes@.skip(at1 as int).take(8) =~= bytes@.subrange(at1 as int, at1 + 8));
            assert(bytes@.skip(at1 as int).skip(8) =~= bytes@.skip(at1 + 8));
        }
        let event = Event::Delete(DeletionEvent { name, priority });
        Some((event, at1 + 8))
    } else {
        None
    }
}

/// Parses a length-prefixed UTF-8 name.
fn decode_name(bytes: &Vec<u8>, at: usize) -> (r: Option<(Name, usize)>)
    requires
        at <= bytes@.len(),
    ensures
        match r {
            Some((name, next)) => {
                &&& at <= next <= bytes@.len()
                &&& sd_name(bytes@.skip(at as int)) == Some((name@, bytes@.skip(next as int)))
            },
            None => sd_name(bytes@.skip(at as int)) is None,
        },
{
    let ghost s = bytes@.skip(at as int);
    let total = bytes.len();
    if total - at < 2 {
        return None;
    }
    let n = crate::codec::read_u16(bytes.as_slice(), at);
    proof {
        assert(s.take(2) =~= bytes@.subrange(at as int, at + 2));
        assert(s.skip(2) =~= bytes@.skip(at + 2));
    }
    let at1 = at + 2;
    let n_us = n as usize;
    if n_us > total - at1 {
        return None;
    }
    let run = crate::codec::read_bytes(bytes.as_slice(), at1, n_us);
    proof {
        assert(bytes@.skip(at1 as int).take(n as int)
            =~= bytes@.subrange(at1 as int, at1 + n_us));
        assert(bytes@.skip(at1 as int).skip(n as int) =~= bytes@.skip(at1 + n_us));
    }
    let ghost run_view = run@;
    match string_from_utf8(run) {
        Some(text) => Some((Name::new(text), at1 + n_us)),
        None => None,
    }
}

/// Parses a 64-bit-length-prefixed byte run.
pub(crate) fn decode_run64(bytes: &Vec<u8>, at: usize) -> (r: Option<(Vec<u8>, usize)>)
    requires
        at <= bytes@.len(),
    ensures
        match r {
            Some((data, next)) => {
                &&& at <= next <= bytes@.len()
                &&& sd_run64(bytes@.skip(at as int)) == Some((data@, bytes@.skip(next as int)))
            },
            None => sd_run64(bytes@.skip(at as int)) is None,
        },
{
    let ghost s = bytes@.skip(at as int);
    let total = bytes.len();
    if total - at < 8 {
        return None;
    }
    let n = crate::codec::read_u64(bytes.as_slice(), at);
    proof {
        assert(s.take(8) =~= bytes@.subrange(at as int, at + 8));
        assert(s.skip(8) =~= bytes@.skip(at + 8));
    }
    let at1 = at + 8;
    if n > (total - at1) as u64 {
        return None;
    }
    let n_us = n as usize;
    let run = crate::codec::read_bytes(bytes.as_slice(), at1, n_us);
    proof {
        assert(bytes@.skip(at1 as int).take(n as int)
            =~= bytes@.subrange(at1 as int, at1 + n_us));
        assert(bytes@.skip(at1 as int).skip(n as int) =~= bytes@.skip(at1 + n_us));
    }
    Some((run, at1 + n_us))
}

/// Parses an optional 64-bit integer behind its presence tag.
fn decode_opt_u64(bytes: &Vec<u8>, at: usize) -> (r: Option<(Option<u64>, usize)>)
    requires
        at <= bytes@.len(),
    ensures
        match r {
            Some((x, next)) => {
                &&& at <= next <= bytes@.len()
                &&& sd_opt_u64(bytes@.skip(at as int)) == Some((x, bytes@.skip(next as int)))
            },
            None => sd_opt_u64(bytes@.skip(at as int)) is None,
        },
{
    let ghost s = bytes@.skip(at as int);
    let total = bytes.len();
    if at >= total {
        return None;
    }
    let tag = bytes[at];
    assert(s[0] == tag);
    if tag == 0 {
        proof {
            assert(s.skip(1) =~= bytes@.skip(at + 1));
        }
        Some((None, at + 1))
    } else if tag == 1 {
        proof {
            assert(s.skip(1) =~= bytes@.skip(at + 1));
        }
        if total - (at + 1) < 8 {
            return None;
        }
        let v = crate::codec::read_u64(bytes.as_slice(), at + 1);
        proof {
            let t = bytes@.skip(at + 1);
            assert(t.take(8) =~= bytes@.subrange(at + 1, at + 9));
            assert(t.skip(8) =~= bytes@.skip(at + 9));
        }
        Some((Some(v), at + 9))
    } else {
        None
    }
}

} // verus!
