//! Classification of field keys into the well-known kinds.

use crate::ascii::{bytes_eq, lower, lowered, to_lower};
use vstd::prelude::*;

verus! {

/// What a field key names.
#[derive(Debug, Clone, Copy, PartialEq, Eq, Structural)]
pub enum WellKnownKind {
    Timestamp,
    Level,
    Message,
    Component,
    Other,
}

/// Only the first 64 bytes of a key are looked at; a longer key names nothing.
pub const MAX_KEY_LEN: usize = 64;

// The keys that name the timestamp, in lower case.
pub const T_TIMESTAMP: [u8; 9] = [
    't' as u8, 'i' as u8, 'm' as u8, 'e' as u8, 's' as u8, 't' as u8, 'a' as u8, 'm' as u8, 'p'
    as u8,
];
pub const T_TIME: [u8; 4] = ['t' as u8, 'i' as u8, 'm' as u8, 'e' as u8];
pub const T_TS: [u8; 2] = ['t' as u8, 's' as u8];
pub const T_AT_TIMESTAMP: [u8; 10] = [
    '@' as u8, 't' as u8, 'i' as u8, 'm' as u8, 'e' as u8, 's' as u8, 't' as u8, 'a' as u8, 'm'
    as u8, 'p' as u8,
];
pub const T_DATETIME: [u8; 8] = [
    'd' as u8, 'a' as u8, 't' as u8, 'e' as u8, 't' as u8, 'i' as u8, 'm' as u8, 'e' as u8,
];
pub const T_DATE: [u8; 4] = ['d' as u8, 'a' as u8, 't' as u8, 'e' as u8];
pub const T_T: [u8; 1] = ['t' as u8];
pub const T_CREATED_AT: [u8; 10] = [
    'c' as u8, 'r' as u8, 'e' as u8, 'a' as u8, 't' as u8, 'e' as u8, 'd' as u8, '_' as u8, 'a'
    as u8, 't' as u8,
];
pub const T_LOGGED_AT: [u8; 9] = [
    'l' as u8, 'o' as u8, 'g' as u8, 'g' as u8, 'e' as u8, 'd' as u8, '_' as u8, 'a' as u8, 't'
    as u8,
];
pub const T_EVENT_TIME: [u8; 10] = [
    'e' as u8, 'v' as u8, 'e' as u8, 'n' as u8, 't' as u8, '_' as u8, 't' as u8, 'i' as u8, 'm'
    as u8, 'e' as u8,
];

// The keys that name the level, in lower case.
pub const L_LEVEL: [u8; 5] = ['l' as u8, 'e' as u8, 'v' as u8, 'e' as u8, 'l' as u8];
pub const L_SEVERITY: [u8; 8] = [
    's' as u8, 'e' as u8, 'v' as u8, 'e' as u8, 'r' as u8, 'i' as u8, 't' as u8, 'y' as u8,
];
pub const L_LVL: [u8; 3] = ['l' as u8, 'v' as u8, 'l' as u8];
pub const L_LOG_LEVEL: [u8; 9] = [
    'l' as u8, 'o' as u8, 'g' as u8, '_' as u8, 'l' as u8, 'e' as u8, 'v' as u8, 'e' as u8, 'l'
    as u8,
];
pub const L_LOGLEVEL: [u8; 8] = [
    'l' as u8, 'o' as u8, 'g' as u8, 'l' as u8, 'e' as u8, 'v' as u8, 'e' as u8, 'l' as u8,
];
pub const L_LOG_DOT_LEVEL: [u8; 9] = [
    'l' as u8, 'o' as u8, 'g' as u8, '.' as u8, 'l' as u8, 'e' as u8, 'v' as u8, 'e' as u8, 'l'
    as u8,
];
pub const L_PRIORITY: [u8; 8] = [
    'p' as u8, 'r' as u8, 'i' as u8, 'o' as u8, 'r' as u8, 'i' as u8, 't' as u8, 'y' as u8,
];
pub const L_SEV: [u8; 3] = ['s' as u8, 'e' as u8, 'v' as u8];

// The keys that name the message, in lower case.
pub const M_MESSAGE: [u8; 7] = [
    'm' as u8, 'e' as u8, 's' as u8, 's' as u8, 'a' as u8, 'g' as u8, 'e' as u8,
];
pub const M_MSG: [u8; 3] = ['m' as u8, 's' as u8, 'g' as u8];
pub const M_TEXT: [u8; 4] = ['t' as u8, 'e' as u8, 'x' as u8, 't' as u8];
pub const M_BODY: [u8; 4] = ['b' as u8, 'o' as u8, 'd' as u8, 'y' as u8];
pub const M_LOG: [u8; 3] = ['l' as u8, 'o' as u8, 'g' as u8];
pub const M_DESCRIPTION: [u8; 11] = [
    'd' as u8, 'e' as u8, 's' as u8, 'c' as u8, 'r' as u8, 'i' as u8, 'p' as u8, 't' as u8, 'i'
    as u8, 'o' as u8, 'n' as u8,
];
pub const M_CONTENT: [u8; 7] = [
    'c' as u8, 'o' as u8, 'n' as u8, 't' as u8, 'e' as u8, 'n' as u8, 't' as u8,
];

// The keys that name the component, in lower case.
pub const C_COMPONENT: [u8; 9] = [
    'c' as u8, 'o' as u8, 'm' as u8, 'p' as u8, 'o' as u8, 'n' as u8, 'e' as u8, 'n' as u8, 't'
    as u8,
];
pub const C_SOURCE: [u8; 6] = ['s' as u8, 'o' as u8, 'u' as u8, 'r' as u8, 'c' as u8, 'e' as u8];
pub const C_LOGGER: [u8; 6] = ['l' as u8, 'o' as u8, 'g' as u8, 'g' as u8, 'e' as u8, 'r' as u8];
pub const C_MODULE: [u8; 6] = ['m' as u8, 'o' as u8, 'd' as u8, 'u' as u8, 'l' as u8, 'e' as u8];
pub const C_SERVICE: [u8; 7] = [
    's' as u8, 'e' as u8, 'r' as u8, 'v' as u8, 'i' as u8, 'c' as u8, 'e' as u8,
];
pub const C_CALLER: [u8; 6] = ['c' as u8, 'a' as u8, 'l' as u8, 'l' as u8, 'e' as u8, 'r' as u8];
pub const C_NAME: [u8; 4] = ['n' as u8, 'a' as u8, 'm' as u8, 'e' as u8];
pub const C_LOGGER_NAME: [u8; 11] = [
    'l' as u8, 'o' as u8, 'g' as u8, 'g' as u8, 'e' as u8, 'r' as u8, '_' as u8, 'n' as u8, 'a'
    as u8, 'm' as u8, 'e' as u8,
];
pub const C_SUBSYSTEM: [u8; 9] = [
    's' as u8, 'u' as u8, 'b' as u8, 's' as u8, 'y' as u8, 's' as u8, 't' as u8, 'e' as u8, 'm'
    as u8,
];
pub const C_TAG: [u8; 3] = ['t' as u8, 'a' as u8, 'g' as u8];

pub open spec fn is_timestamp_name(k: Seq<u8>) -> bool {
    ||| k == T_TIMESTAMP@
    ||| k == T_TIME@
    ||| k == T_TS@
    ||| k == T_AT_TIMESTAMP@
    ||| k == T_DATETIME@
    ||| k == T_DATE@
    ||| k == T_T@
    ||| k == T_CREATED_AT@
    ||| k == T_LOGGED_AT@
    ||| k == T_EVENT_TIME@
}

pub open spec fn is_level_name(k: Seq<u8>) -> bool {
    ||| k == L_LEVEL@
    ||| k == L_SEVERITY@
    ||| k == L_LVL@
    ||| k == L_LOG_LEVEL@
    ||| k == L_LOGLEVEL@
    ||| k == L_LOG_DOT_LEVEL@
    ||| k == L_PRIORITY@
    ||| k == L_SEV@
}

pub open spec fn is_message_name(k: Seq<u8>) -> bool {
    ||| k == M_MESSAGE@
    ||| k == M_MSG@
    ||| k == M_TEXT@
    ||| k == M_BODY@
    ||| k == M_LOG@
    ||| k == M_DESCRIPTION@
    ||| k == M_CONTENT@
}

pub open spec fn is_component_name(k: Seq<u8>) -> bool {
    ||| k == C_COMPONENT@
    ||| k == C_SOURCE@
    ||| k == C_LOGGER@
    ||| k == C_MODULE@
    ||| k == C_SERVICE@
    ||| k == C_CALLER@
    ||| k == C_NAME@
    ||| k == C_LOGGER_NAME@
    ||| k == C_SUBSYSTEM@
    ||| k == C_TAG@
}

fn matches_timestamp(k: &[u8]) -> (r: bool)
    ensures
        r == is_timestamp_name(k@),
{
    bytes_eq(k, &T_TIMESTAMP)
        || bytes_eq(k, &T_TIME)
        || bytes_eq(k, &T_TS)
        || bytes_eq(k, &T_AT_TIMESTAMP)
        || bytes_eq(k, &T_DATETIME)
        || bytes_eq(k, &T_DATE)
        || bytes_eq(k, &T_T)
        || bytes_eq(k, &T_CREATED_AT)
        || bytes_eq(k, &T_LOGGED_AT)
        || bytes_eq(k, &T_EVENT_TIME)
}

fn matches_level(k: &[u8]) -> (r: bool)
    ensures
        r == is_level_name(k@),
{
    bytes_eq(k, &L_LEVEL)
        || bytes_eq(k, &L_SEVERITY)
        || bytes_eq(k, &L_LVL)
        || bytes_eq(k, &L_LOG_LEVEL)
        || bytes_eq(k, &L_LOGLEVEL)
        || bytes_eq(k, &L_LOG_DOT_LEVEL)
        || bytes_eq(k, &L_PRIORITY)
        || bytes_eq(k, &L_SEV)
}

fn matches_message(k: &[u8]) -> (r: bool)
    ensures
        r == is_message_name(k@),
{
    bytes_eq(k, &M_MESSAGE)
        || bytes_eq(k, &M_MSG)
        || bytes_eq(k, &M_TEXT)
        || bytes_eq(k, &M_BODY)
        || bytes_eq(k, &M_LOG)
        || bytes_eq(k, &M_DESCRIPTION)
        || bytes_eq(k, &M_CONTENT)
}

fn matches_component(k: &[u8]) -> (r: bool)
    ensures
        r == is_component_name(k@),
{
    bytes_eq(k, &C_COMPONENT)
        || bytes_eq(k, &C_SOURCE)
        || bytes_eq(k, &C_LOGGER)
        || bytes_eq(k, &C_MODULE)
        || bytes_eq(k, &C_SERVICE)
        || bytes_eq(k, &C_CALLER)
        || bytes_eq(k, &C_NAME)
        || bytes_eq(k, &C_LOGGER_NAME)
        || bytes_eq(k, &C_SUBSYSTEM)
        || bytes_eq(k, &C_TAG)
}

/// The kind named by `key`: the ASCII lower-case form of `key` is looked up
/// among the timestamp, level, message and component names, in that order.
pub open spec fn classify(key: Seq<u8>) -> WellKnownKind {
    let k = lowered(key);
    if is_timestamp_name(k) {
        WellKnownKind::Timestamp
    } else if is_level_name(k) {
        WellKnownKind::Level
    } else if is_message_name(k) {
        WellKnownKind::Message
    } else if is_component_name(k) {
        WellKnownKind::Component
    } else {
        WellKnownKind::Other
    }
}

/// A key of more than 64 bytes is never well known.
pub proof fn lemma_long_key_is_other(key: Seq<u8>)
    requires
        key.len() > MAX_KEY_LEN,
    ensures
        classify(key) == WellKnownKind::Other,
{
    assert(lowered(key).len() > 64);
}

/// Classification ignores ASCII case.
pub proof fn lemma_classify_ignores_case(a: Seq<u8>, b: Seq<u8>)
    requires
        lowered(a) == lowered(b),
    ensures
        classify(a) == classify(b),
{
}

/// Classifies a key. The first `MAX_KEY_LEN` bytes are folded to lower case
/// into a fixed buffer; the first byte picks the candidate lists, and the
/// folded key is then compared with each candidate in full.
pub fn classify_key(key: &[u8]) -> (r: WellKnownKind)
    ensures
        r == classify(key@),
{
    let len: usize = if key.len() < MAX_KEY_LEN {
        key.len()
    } else {
        MAX_KEY_LEN
    };
    let mut buf: [u8; 64] = [0u8; 64];
    let mut i: usize = 0;
    while i < len
        invariant
            i <= len <= 64,
            len <= key.len(),
            forall|j: int| 0 <= j < i ==> buf@[j] == lower(key@[j]),
        decreases len - i,
    {
        buf[i] = to_lower(key[i]);
        i += 1;
    }
    let folded: &[u8] = &buf[0..len];
    proof {
        if key.len() <= 64 {
            assert(folded@ =~= lowered(key@));
        } else {
            assert(lowered(key@).len() > 64);
            assert(folded@.len() == 64);
        }
    }
    if len == 0 {
        return WellKnownKind::Other;
    }
    let first: u8 = folded[0];
    if first == 'm' as u8 || first == 'b' as u8 || first == 'n' as u8 {
        if matches_message(folded) {
            WellKnownKind::Message
        } else if matches_component(folded) {
            WellKnownKind::Component
        } else {
            WellKnownKind::Other
        }
    } else if first == 's' as u8 {
        if matches_level(folded) {
            WellKnownKind::Level
        } else if matches_component(folded) {
            WellKnownKind::Component
        } else {
            WellKnownKind::Other
        }
    } else if first == 'p' as u8 {
        if matches_level(folded) {
            WellKnownKind::Level
        } else {
            WellKnownKind::Other
        }
    } else if first == 't' as u8 || first == '@' as u8 || first == 'd' as u8 || first == 'c' as u8
        || first == 'e' as u8 || first == 'l' as u8 {
        if matches_timestamp(folded) {
            WellKnownKind::Timestamp
        } else if matches_level(folded) {
            WellKnownKind::Level
        } else if matches_message(folded) {
            WellKnownKind::Message
        } else if matches_component(folded) {
            WellKnownKind::Component
        } else {
            WellKnownKind::Other
        }
    } else {
        WellKnownKind::Other
    }
}

} // verus!
