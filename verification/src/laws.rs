//! The store's laws, stated over its mathematical model.
//!
//! Each operation's own contract carries most of the store's guarantees:
//! `set` ensures the view gains exactly the new binding, `remove` ensures it
//! loses exactly the removed one and fails precisely on absent keys, `get`
//! ensures the viewed value comes back for honest entry bytes, and `compact`
//! ensures the view is unchanged, the dead-byte counter is reset to zero and
//! the new log is exactly the live entries.  The lemmas here state the laws
//! that span several operations; durability across a close and reopen is
//! [`crate::store::lemma_reopen_recovers_state`], and the codec round trip
//! under it is [`crate::codec::lemma_parse_payload_of`].

use vstd::prelude::*;

verus! {

/// A write, then a read: after `set(k, v)` the store's view maps `k` to `v`,
/// so a following `get(k)` — whose contract returns the viewed value on the
/// entry bytes the index points at — yields exactly `v`, whatever was bound
/// before.
pub proof fn lemma_set_then_get(m: Map<Seq<char>, Seq<char>>, k: Seq<char>, v: Seq<char>)
    ensures
        m.insert(k, v).contains_key(k),
        m.insert(k, v)[k] == v,
{
}

/// Removing a live key leaves the view without it: a following `get(k)`
/// reports the key absent, and an immediate second `remove(k)` — whose
/// contract fails exactly on absent keys — fails with the key-not-found
/// error.
pub proof fn lemma_remove_then_absent(m: Map<Seq<char>, Seq<char>>, k: Seq<char>)
    ensures
        !m.remove(k).contains_key(k),
{
}

/// Compaction changes no observation: two stores with equal views agree, for
/// every key, on whether it is bound and on its value, and those are what
/// `get` answers and `remove` decides by.  `compact` ensures the view is
/// unchanged, so any later `get` or `remove` has the same outcome as without
/// the compaction.
pub proof fn lemma_same_view_same_outcome(
    m1: Map<Seq<char>, Seq<char>>,
    m2: Map<Seq<char>, Seq<char>>,
    k: Seq<char>,
)
    requires
        m1 == m2,
    ensures
        m1.contains_key(k) == m2.contains_key(k),
        m1.contains_key(k) ==> m1[k] == m2[k],
{
}

} // verus!
