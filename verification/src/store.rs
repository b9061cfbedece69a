//! The store engine: index, replay, and the public operations.
//!
//! The store performs no I/O itself.  It carries a ghost model of the log
//! file's bytes; `set`, `remove` and `compact` return the exact bytes the
//! caller must write, and `get` takes the bytes the caller read back.  The
//! invariant [`RuskStore::inv`] ties the in-memory index, the dead-byte
//! counter and the logical file length to a full replay of the modelled log,
//! which is what makes the state recoverable by [`RuskStore::open`].

use vstd::prelude::*;
use crate::codec::{
    Command, CmdModel, payload_of, frame_of, parse_frame, parse_payload, hdr_val, encode_frame,
    decode_command, decode_frame, lemma_parse_frame_of,
};
use crate::error::RuskError;

verus! {

/// Compaction trigger: a write that leaves more dead bytes than this behind
/// asks for compaction.
pub const COMPACTION_THRESHOLD: u64 = 1024 * 1024;

/// Location of one log entry: its byte offset in the log file and its total
/// on-disk length, header plus payload.
#[derive(Clone, Copy, Debug, PartialEq, Eq, Structural)]
pub struct CommandPos {
    pub offset: u64,
    pub length: u64,
}

// ---------------------------------------------------------------------------
// The index as an association list, with its mathematical map.
// ---------------------------------------------------------------------------

/// The index entries as a map from key to entry location.
pub open spec fn entries_map(s: Seq<(String, CommandPos)>) -> Map<Seq<char>, CommandPos>
    decreases s.len(),
{
    if s.len() == 0 {
        Map::empty()
    } else {
        entries_map(s.drop_last()).insert(s.last().0@, s.last().1)
    }
}

/// No key occurs twice among the entries.
pub open spec fn unique_keys(s: Seq<(String, CommandPos)>) -> bool {
    forall|i: int, j: int| 0 <= i < j < s.len() ==> s[i].0@ != s[j].0@
}

/// Total on-disk bytes of the listed entries.
pub open spec fn live_sum(s: Seq<(String, CommandPos)>) -> int
    decreases s.len(),
{
    if s.len() == 0 {
        0
    } else {
        live_sum(s.drop_last()) + s.last().1.length
    }
}

proof fn lemma_entries_absent(s: Seq<(String, CommandPos)>, k: Seq<char>)
    requires
        forall|i: int| 0 <= i < s.len() ==> s[i].0@ != k,
    ensures
        !entries_map(s).contains_key(k),
    decreases s.len(),
{
    if s.len() > 0 {
        assert(forall|i: int| 0 <= i < s.drop_last().len() ==> s.drop_last()[i] == s[i]);
        lemma_entries_absent(s.drop_last(), k);
    }
}

proof fn lemma_entries_index(s: Seq<(String, CommandPos)>, i: int)
    requires
        unique_keys(s),
        0 <= i < s.len(),
    ensures
        entries_map(s).contains_key(s[i].0@),
        entries_map(s)[s[i].0@] == s[i].1,
    decreases s.len(),
{
    if i == s.len() - 1 {
    } else {
        assert(unique_keys(s.drop_last()));
        lemma_entries_index(s.drop_last(), i);
        assert(s.drop_last()[i] == s[i]);
        assert(s[i].0@ != s.last().0@);
    }
}

proof fn lemma_entries_witness(s: Seq<(String, CommandPos)>, k: Seq<char>)
    requires
        unique_keys(s),
        entries_map(s).contains_key(k),
    ensures
        exists|i: int| 0 <= i < s.len() && s[i].0@ == k && s[i].1 == entries_map(s)[k],
    decreases s.len(),
{
    if s.last().0@ == k {
        assert(s[s.len() - 1].0@ == k && s[s.len() - 1].1 == entries_map(s)[k]);
    } else {
        assert(unique_keys(s.drop_last()));
        lemma_entries_witness(s.drop_last(), k);
        let i = choose|i: int| 0 <= i < s.drop_last().len() && s.drop_last()[i].0@ == k
            && s.drop_last()[i].1 == entries_map(s.drop_last())[k];
        assert(s[i].0@ == k && s[i].1 == entries_map(s)[k]);
    }
}

proof fn lemma_live_sum_remove(s: Seq<(String, CommandPos)>, i: int)
    requires
        0 <= i < s.len(),
    ensures
        live_sum(s.remove(i)) == live_sum(s) - s[i].1.length,
    decreases s.len(),
{
    if i == s.len() - 1 {
        assert(s.remove(i) =~= s.drop_last());
    } else {
        assert(s.remove(i).drop_last() =~= s.drop_last().remove(i));
        lemma_live_sum_remove(s.drop_last(), i);
        assert(s.remove(i).last() == s.last());
    }
}

proof fn lemma_live_sum_nonneg(s: Seq<(String, CommandPos)>)
    ensures
        live_sum(s) >= 0,
    decreases s.len(),
{
    if s.len() > 0 {
        lemma_live_sum_nonneg(s.drop_last());
    }
}

proof fn lemma_live_sum_bound(s: Seq<(String, CommandPos)>, k: Seq<char>)
    requires
        unique_keys(s),
        entries_map(s).contains_key(k),
    ensures
        entries_map(s)[k].length <= live_sum(s),
    decreases s.len(),
{
    if s.last().0@ == k {
        lemma_live_sum_nonneg(s.drop_last());
    } else {
        assert(unique_keys(s.drop_last()));
        lemma_live_sum_bound(s.drop_last(), k);
    }
}

proof fn lemma_entries_same_keys(s1: Seq<(String, CommandPos)>, s2: Seq<(String, CommandPos)>)
    requires
        s1.len() == s2.len(),
        forall|j: int| 0 <= j < s1.len() ==> s1[j].0@ == s2[j].0@,
    ensures
        entries_map(s1).dom() == entries_map(s2).dom(),
    decreases s1.len(),
{
    if s1.len() > 0 {
        assert(forall|j: int|
            0 <= j < s1.drop_last().len() ==> s1.drop_last()[j].0@ == s2.drop_last()[j].0@);
        lemma_entries_same_keys(s1.drop_last(), s2.drop_last());
        assert(entries_map(s1).dom() =~= entries_map(s2).dom());
    } else {
        assert(entries_map(s1).dom() =~= entries_map(s2).dom());
    }
}

proof fn lemma_live_sum_pairwise(s1: Seq<(String, CommandPos)>, s2: Seq<(String, CommandPos)>)
    requires
        s1.len() == s2.len(),
        forall|j: int| 0 <= j < s1.len() ==> s1[j].1.length == s2[j].1.length,
    ensures
        live_sum(s1) == live_sum(s2),
    decreases s1.len(),
{
    if s1.len() > 0 {
        assert(forall|j: int|
            0 <= j < s1.drop_last().len() ==> s1.drop_last()[j].1.length == s2.drop_last()[j].1.length);
        lemma_live_sum_pairwise(s1.drop_last(), s2.drop_last());
    }
}

proof fn lemma_entries_remove(s: Seq<(String, CommandPos)>, i: int)
    requires
        unique_keys(s),
        0 <= i < s.len(),
    ensures
        entries_map(s.remove(i)) == entries_map(s).remove(s[i].0@),
    decreases s.len(),
{
    if i == s.len() - 1 {
        assert(s.remove(i) =~= s.drop_last());
        assert(forall|j: int| 0 <= j < s.drop_last().len() ==> s.drop_last()[j].0@ != s[i].0@);
        lemma_entries_absent(s.drop_last(), s[i].0@);
        assert(entries_map(s.remove(i)) =~= entries_map(s).remove(s[i].0@));
    } else {
        assert(unique_keys(s.drop_last()));
        lemma_entries_remove(s.drop_last(), i);
        assert(s.remove(i).drop_last() =~= s.drop_last().remove(i));
        assert(s.remove(i).last() == s.last());
        assert(s[i].0@ != s.last().0@);
        assert(entries_map(s.remove(i)) =~= entries_map(s).remove(s[i].0@));
    }
}

// ---------------------------------------------------------------------------
// Executable index operations.
// ---------------------------------------------------------------------------

fn index_find(v: &Vec<(String, CommandPos)>, key: &String) -> (r: Option<usize>)
    ensures
        match r {
            Some(i) => i < v@.len() && v@[i as int].0@ == key@,
            None => forall|j: int| 0 <= j < v@.len() ==> v@[j].0@ != key@,
        },
{
    let mut i: usize = 0;
    while i < v.len()
        invariant
            i <= v@.len(),
            forall|j: int| 0 <= j < i ==> v@[j].0@ != key@,
        decreases v@.len() - i,
    {
        if v[i].0 == *key {
            return Some(i);
        }
        i += 1;
    }
    None
}

fn index_lookup(v: &Vec<(String, CommandPos)>, key: &String) -> (r: Option<CommandPos>)
    requires
        unique_keys(v@),
    ensures
        match r {
            Some(cp) => entries_map(v@).contains_key(key@) && entries_map(v@)[key@] == cp
                && exists|i: int| 0 <= i < v@.len() && v@[i].0@ == key@ && #[trigger] v@[i].1 == cp,
            None => !entries_map(v@).contains_key(key@),
        },
{
    match index_find(v, key) {
        Some(i) => {
            let cp = v[i].1;
            proof {
                lemma_entries_index(v@, i as int);
            }
            Some(cp)
        },
        None => {
            proof {
                lemma_entries_absent(v@, key@);
            }
            None
        },
    }
}

fn index_insert(v: &mut Vec<(String, CommandPos)>, key: String, cp: CommandPos) -> (displaced:
    Option<CommandPos>)
    requires
        unique_keys(old(v)@),
    ensures
        unique_keys(final(v)@),
        entries_map(final(v)@) == entries_map(old(v)@).insert(key@, cp),
        live_sum(final(v)@) == live_sum(old(v)@) + cp.length - (match displaced {
            Some(d) => d.length as int,
            None => 0,
        }),
        (match displaced {
            Some(d) => entries_map(old(v)@).contains_key(key@) && entries_map(old(v)@)[key@] == d,
            None => !entries_map(old(v)@).contains_key(key@),
        }),
        forall|j: int|
            0 <= j < final(v)@.len() - 1 ==> old(v)@.contains(#[trigger] final(v)@[j])
                && final(v)@[j].0@ != key@,
        final(v)@.len() >= 1 && final(v)@.last() == (key, cp),
{
    match index_find(v, &key) {
        Some(i) => {
            let d = v[i].1;
            let ghost s0 = v@;
            let _displaced_entry = v.remove(i);
            v.push((key, cp));
            proof {
                lemma_entries_index(s0, i as int);
                lemma_entries_remove(s0, i as int);
                lemma_live_sum_remove(s0, i as int);
                assert(unique_keys(s0.remove(i as int))) by {
                    assert(forall|a: int, b: int|
                        0 <= a < b < s0.remove(i as int).len() ==> s0.remove(i as int)[a].0@ != s0.remove(
                            i as int,
                        )[b].0@);
                };
                assert(forall|j: int|
                    0 <= j < s0.remove(i as int).len() ==> #[trigger] s0.remove(i as int)[j].0@
                        != key@);
                assert(v@.drop_last() =~= s0.remove(i as int));
                lemma_entries_absent(s0.remove(i as int), key@);
                assert(entries_map(v@) =~= entries_map(s0).insert(key@, cp));
                assert(forall|j: int|
                    0 <= j < v@.len() - 1 ==> s0.contains(#[trigger] v@[j]) && v@[j].0@ != key@)
                    by {
                    assert(forall|j: int|
                        0 <= j < s0.remove(i as int).len() ==> s0.contains(
                            #[trigger] s0.remove(i as int)[j],
                        ));
                };
            }
            Some(d)
        },
        None => {
            proof {
                lemma_entries_absent(v@, key@);
            }
            v.push((key, cp));
            proof {
                assert(v@.drop_last() =~= old(v)@);
                assert(forall|j: int|
                    0 <= j < v@.len() - 1 ==> old(v)@.contains(#[trigger] v@[j]) && v@[j].0@
                        != key@);
            }
            None
        },
    }
}

fn index_remove(v: &mut Vec<(String, CommandPos)>, key: &String) -> (removed: Option<CommandPos>)
    requires
        unique_keys(old(v)@),
    ensures
        unique_keys(final(v)@),
        entries_map(final(v)@) == entries_map(old(v)@).remove(key@),
        live_sum(final(v)@) == live_sum(old(v)@) - (match removed {
            Some(d) => d.length as int,
            None => 0,
        }),
        (match removed {
            Some(d) => entries_map(old(v)@).contains_key(key@) && entries_map(old(v)@)[key@] == d,
            None => !entries_map(old(v)@).contains_key(key@),
        }),
        forall|j: int|
            0 <= j < final(v)@.len() ==> old(v)@.contains(#[trigger] final(v)@[j])
                && final(v)@[j].0@ != key@,
{
    match index_find(v, key) {
        Some(i) => {
            let d = v[i].1;
            let ghost s0 = v@;
            let _removed_entry = v.remove(i);
            proof {
                lemma_entries_index(s0, i as int);
                lemma_entries_remove(s0, i as int);
                lemma_live_sum_remove(s0, i as int);
                assert(forall|j: int|
                    0 <= j < v@.len() ==> s0.contains(#[trigger] v@[j]) && v@[j].0@ != key@);
            }
            Some(d)
        },
        None => {
            proof {
                lemma_entries_absent(v@, key@);
                assert(entries_map(v@).remove(key@) =~= entries_map(v@));
                assert(forall|j: int|
                    0 <= j < v@.len() ==> v@.contains(#[trigger] v@[j]) && v@[j].0@ != key@);
            }
            None
        },
    }
}

// ---------------------------------------------------------------------------
// One step of compaction.
// ---------------------------------------------------------------------------

/// Copy the live entry for `key` at `cp` out of `log_bytes` onto the end of
/// the new log, after checking that it is a whole, well-formed `Put` entry
/// for that key; record its new location and its binding.  Fails with an I/O
/// error where the entry runs past the end of `log_bytes`, and with a
/// serialization error where it does not decode to a `Put` for `key`.
#[verifier::rlimit(100)]
fn compact_one(
    key: &String,
    cp: CommandPos,
    log_bytes: &Vec<u8>,
    new_log: &mut Vec<u8>,
    new_index: &mut Vec<(String, CommandPos)>,
    Ghost(nm0): Ghost<Map<Seq<char>, Seq<char>>>,
    Ghost(glog): Ghost<Seq<u8>>,
    Ghost(gmodel): Ghost<Map<Seq<char>, Seq<char>>>,
) -> (r: Result<Ghost<Map<Seq<char>, Seq<char>>>, RuskError>)
    requires
        unique_keys(old(new_index)@),
        forall|j: int|
            0 <= j < old(new_index)@.len() ==> RuskStore::entry_ok(
                old(new_log)@,
                #[trigger] old(new_index)@[j],
                nm0,
            ),
        forall|j: int| 0 <= j < old(new_index)@.len() ==> (#[trigger] old(new_index)@[j]).0@
            != key@,
        nm0.dom() == entries_map(old(new_index)@).dom(),
        live_sum(old(new_index)@) == old(new_log)@.len(),
        replay_log(old(new_log)@) == ROut::Good(
            RState {
                index: entries_map(old(new_index)@),
                model: nm0,
                pos: old(new_log)@.len() as int,
                uncompacted: 0,
            },
        ),
    ensures
        match r {
            Ok(nm1g) => {
                &&& final(new_index)@.len() == old(new_index)@.len() + 1
                &&& final(new_index)@.drop_last() == old(new_index)@
                &&& final(new_index)@.last().0@ == key@
                &&& final(new_index)@.last().1.length == cp.length
                &&& unique_keys(final(new_index)@)
                &&& forall|j: int|
                    0 <= j < final(new_index)@.len() ==> RuskStore::entry_ok(
                        final(new_log)@,
                        #[trigger] final(new_index)@[j],
                        nm1g@,
                    )
                &&& nm1g@.dom() == entries_map(final(new_index)@).dom()
                &&& live_sum(final(new_index)@) == final(new_log)@.len()
                &&& replay_log(final(new_log)@) == ROut::Good(
                    RState {
                        index: entries_map(final(new_index)@),
                        model: nm1g@,
                        pos: final(new_log)@.len() as int,
                        uncompacted: 0,
                    },
                )
            },
            Err(_) => final(new_log)@ == old(new_log)@ && final(new_index)@ == old(new_index)@,
        },
        (log_bytes@ == glog && RuskStore::entry_ok(glog, (*key, cp), gmodel)) ==> (match r {
            Ok(nm1g) => nm1g@ == nm0.insert(key@, gmodel[key@]),
            Err(_) => false,
        }),
{
    let blen2 = log_bytes.len();
    if cp.length > blen2 as u64 || cp.offset > blen2 as u64 - cp.length {
        proof {
            reveal(RuskStore::entry_ok);
        }
        return Err(RuskError::Io(String::from_str("failed to fill whole buffer")));
    }
    let off = cp.offset as usize;
    let l = cp.length as usize;
    let chunk: &[u8] = &log_bytes.as_slice()[off..off + l];
    proof {
        assert(chunk@ =~= log_bytes@.subrange(cp.offset as int, cp.offset + cp.length));
    }
    proof {
        reveal(RuskStore::entry_ok);
    }
    match decode_frame(chunk) {
        Ok(Command::Put { key: dk, value: dv }) => {
            if !(dk == *key) {
                return Err(RuskError::Serde);
            }
            let ghost dkv = dk@;
            let ghost dvv = dv@;
            let ghost nl0 = new_log@;
            let ghost ni0 = new_index@;
            let new_off = new_log.len() as u64;
            new_log.extend_from_slice(chunk);
            let ncp = CommandPos { offset: new_off, length: cp.length };
            new_index.push((dk, ncp));
            proof {
                assert(new_log@ =~= nl0 + chunk@);
                assert(new_index@.drop_last() =~= ni0);
                lemma_compact_step(
                    nl0,
                    new_log@,
                    chunk@,
                    ni0,
                    new_index@,
                    nm0,
                    nm0.insert(dkv, dvv),
                    new_index@.last(),
                    dvv,
                );
            }
            Ok(Ghost(nm0.insert(dkv, dvv)))
        },
        Ok(Command::Rm { .. }) => Err(RuskError::Serde),
        Err(_) => Err(RuskError::Serde),
    }
}

// ---------------------------------------------------------------------------
// Replay, as a specification.
// ---------------------------------------------------------------------------

/// The state that scanning a log yields: the rebuilt index and value model,
/// the consumed byte count, and the dead-byte counter.
#[verifier::ext_equal]
pub ghost struct RState {
    pub index: Map<Seq<char>, CommandPos>,
    pub model: Map<Seq<char>, Seq<char>>,
    pub pos: int,
    pub uncompacted: int,
}

/// Outcome of replaying a log: a state, or the failure the scan hits.
pub ghost enum ROut {
    Good(RState),
    BadIo,
    BadSerde,
}

/// One command's effect on the replay state, for an entry of `len` bytes
/// appended at the current end of the log.  A displaced or removed binding's
/// bytes become dead, and a remove entry is itself dead space.
pub open spec fn replay_step(st: RState, c: CmdModel, len: int) -> RState {
    match c {
        CmdModel::Put { key, value } => RState {
            index: st.index.insert(
                key,
                CommandPos { offset: st.pos as u64, length: len as u64 },
            ),
            model: st.model.insert(key, value),
            pos: st.pos + len,
            uncompacted: st.uncompacted + if st.index.contains_key(key) {
                st.index[key].length as int
            } else {
                0
            },
        },
        CmdModel::Rm { key } => RState {
            index: st.index.remove(key),
            model: st.model.remove(key),
            pos: st.pos + len,
            uncompacted: st.uncompacted + len + if st.index.contains_key(key) {
                st.index[key].length as int
            } else {
                0
            },
        },
    }
}

/// Scan the log from `st.pos` on.  Fewer than a header's worth of trailing
/// bytes ends the scan cleanly at the last whole entry; a payload that runs
/// past the end of the file is an I/O failure; a payload that does not decode
/// is a serialization failure.
pub open spec fn replay_from(b: Seq<u8>, st: RState) -> ROut
    decreases b.len() - st.pos,
{
    if st.pos < 0 || st.pos + 4 > b.len() {
        ROut::Good(st)
    } else {
        let n = hdr_val(b.subrange(st.pos, st.pos + 4)) as int;
        if st.pos + 4 + n > b.len() {
            ROut::BadIo
        } else {
            match parse_payload(b.subrange(st.pos + 4, st.pos + 4 + n)) {
                Some(c) => replay_from(b, replay_step(st, c, 4 + n)),
                None => ROut::BadSerde,
            }
        }
    }
}

/// The empty starting state of a replay.
pub open spec fn init_state() -> RState {
    RState { index: Map::empty(), model: Map::empty(), pos: 0, uncompacted: 0 }
}

/// Replay of a whole log from its start.
pub open spec fn replay_log(b: Seq<u8>) -> ROut {
    replay_from(b, init_state())
}

/// An index entry that is sound for a log prefix stays sound when the log
/// grows and its key's binding is unchanged.
proof fn lemma_entry_ok_extend(
    log0: Seq<u8>,
    log1: Seq<u8>,
    e: (String, CommandPos),
    m0: Map<Seq<char>, Seq<char>>,
    m1: Map<Seq<char>, Seq<char>>,
)
    requires
        RuskStore::entry_ok(log0, e, m0),
        log0.len() <= log1.len(),
        log1.take(log0.len() as int) == log0,
        m1.contains_key(e.0@),
        m1[e.0@] == m0[e.0@],
    ensures
        RuskStore::entry_ok(log1, e, m1),
{
    reveal(RuskStore::entry_ok);
    assert(log1.subrange(e.1.offset as int, e.1.offset + e.1.length) =~= log0.subrange(
        e.1.offset as int,
        e.1.offset + e.1.length,
    ));
}

/// One step of compaction: appending a live entry's bytes to the new log,
/// its relocated entry to the new index and its binding to the new model
/// keeps the rebuilt state replayable and its entries sound.
proof fn lemma_compact_step(
    nl0: Seq<u8>,
    nl1: Seq<u8>,
    chunk: Seq<u8>,
    ni0: Seq<(String, CommandPos)>,
    ni1: Seq<(String, CommandPos)>,
    nm0: Map<Seq<char>, Seq<char>>,
    nm1: Map<Seq<char>, Seq<char>>,
    e: (String, CommandPos),
    dvv: Seq<char>,
)
    requires
        replay_log(nl0) == ROut::Good(
            RState { index: entries_map(ni0), model: nm0, pos: nl0.len() as int, uncompacted: 0 },
        ),
        parse_frame(chunk) == Some(CmdModel::Put { key: e.0@, value: dvv }),
        nl1 == nl0 + chunk,
        ni1 == ni0.push(e),
        e.1.offset == nl0.len(),
        e.1.length == chunk.len(),
        nm1 == nm0.insert(e.0@, dvv),
        forall|j: int|
            0 <= j < ni0.len() ==> RuskStore::entry_ok(nl0, #[trigger] ni0[j], nm0),
        forall|j: int| 0 <= j < ni0.len() ==> (#[trigger] ni0[j]).0@ != e.0@,
        nm0.dom() == entries_map(ni0).dom(),
    ensures
        replay_log(nl1) == ROut::Good(
            RState { index: entries_map(ni1), model: nm1, pos: nl1.len() as int, uncompacted: 0 },
        ),
        forall|j: int|
            0 <= j < ni1.len() ==> RuskStore::entry_ok(nl1, #[trigger] ni1[j], nm1),
        nm1.dom() == entries_map(ni1).dom(),
{
    reveal(RuskStore::entry_ok);
    let st0 = RState { index: entries_map(ni0), model: nm0, pos: nl0.len() as int, uncompacted: 0 };
    let c = CmdModel::Put { key: e.0@, value: dvv };
    lemma_replay_snoc(nl0, init_state(), st0, chunk, c);
    lemma_entries_absent(ni0, e.0@);
    assert(ni1.drop_last() =~= ni0);
    assert(RState {
        index: entries_map(ni1),
        model: nm1,
        pos: nl1.len() as int,
        uncompacted: 0,
    } =~= replay_step(st0, c, chunk.len() as int));
    assert(nl1.take(nl0.len() as int) =~= nl0);
    assert forall|j: int| 0 <= j < ni1.len() implies RuskStore::entry_ok(
        nl1,
        #[trigger] ni1[j],
        nm1,
    ) by {
        let en = ni1[j];
        if j == ni1.len() - 1 {
            assert(nl1.subrange(en.1.offset as int, en.1.offset + en.1.length) =~= chunk);
        } else {
            assert(ni1[j] == ni0[j]);
            lemma_entry_ok_extend(nl0, nl1, en, nm0, nm1);
        }
    };
    assert(nm1.dom() =~= entries_map(ni1).dom());
}

/// Appending one well-formed entry to a fully replayed log replays to the
/// stepped state.
#[verifier::rlimit(100)]
pub proof fn lemma_replay_snoc(b: Seq<u8>, st0: RState, st: RState, f: Seq<u8>, c: CmdModel)
    requires
        0 <= st0.pos,
        replay_from(b, st0) == ROut::Good(st),
        st.pos == b.len(),
        parse_frame(f) == Some(c),
    ensures
        replay_from(b + f, st0) == ROut::Good(replay_step(st, c, f.len() as int)),
    decreases b.len() - st0.pos,
{
    let w = b + f;
    assert(f.len() >= 4);
    assert(f.skip(4).len() >= 15) by {
        assert(parse_payload(f.skip(4)) is Some);
    };
    if st0.pos + 4 > b.len() {
        assert(st == st0);
        assert(st0.pos == b.len());
        let n = hdr_val(w.subrange(st0.pos, st0.pos + 4)) as int;
        assert(w.subrange(st0.pos, st0.pos + 4) =~= f.take(4));
        assert(n == f.len() - 4);
        assert(st0.pos + 4 + n == w.len());
        assert(w.subrange(st0.pos + 4, st0.pos + 4 + n) =~= f.skip(4));
        let st1 = replay_step(st0, c, 4 + n);
        assert(st1.pos == w.len());
        assert(replay_from(w, st1) == ROut::Good(st1));
        assert(replay_from(w, st0) == ROut::Good(replay_step(st, c, f.len() as int)));
    } else {
        let n0 = hdr_val(b.subrange(st0.pos, st0.pos + 4)) as int;
        assert(st0.pos + 4 + n0 <= b.len()) by {
            if st0.pos + 4 + n0 > b.len() {
                assert(replay_from(b, st0) == ROut::BadIo);
            }
        };
        match parse_payload(b.subrange(st0.pos + 4, st0.pos + 4 + n0)) {
            Some(c0) => {
                let st1 = replay_step(st0, c0, 4 + n0);
                assert(replay_from(b, st1) == ROut::Good(st));
                assert(n0 >= 0);
                lemma_replay_snoc(b, st1, st, f, c);
                assert(w.subrange(st0.pos, st0.pos + 4) =~= b.subrange(st0.pos, st0.pos + 4));
                assert(w.subrange(st0.pos + 4, st0.pos + 4 + n0) =~= b.subrange(
                    st0.pos + 4,
                    st0.pos + 4 + n0,
                ));
                assert(st0.pos + 4 + n0 <= w.len());
                assert(replay_from(w, st0) == replay_from(w, st1));
            },
            None => {
                assert(replay_from(b, st0) == ROut::BadSerde);
                assert(false);
            },
        }
    }
}

// ---------------------------------------------------------------------------
// The store.
// ---------------------------------------------------------------------------

/// The key-value store engine: the in-memory index and counters over a
/// modelled append-only log.
pub struct RuskStore {
    index: Vec<(String, CommandPos)>,
    current_pos: u64,
    uncompacted: u64,
    log: Ghost<Seq<u8>>,
    model: Ghost<Map<Seq<char>, Seq<char>>>,
}

impl View for RuskStore {
    type V = Map<Seq<char>, Seq<char>>;

    closed spec fn view(&self) -> Map<Seq<char>, Seq<char>> {
        self.model@
    }
}

impl RuskStore {
    /// The bytes of the log file this store mirrors.
    pub closed spec fn log(self) -> Seq<u8> {
        self.log@
    }

    /// Logical end of the log file.
    pub closed spec fn pos(self) -> int {
        self.current_pos as int
    }

    /// Dead bytes counted toward the compaction trigger.
    pub closed spec fn dead(self) -> int {
        self.uncompacted as int
    }

    /// The index as a map from key to entry location.
    pub closed spec fn index_map(self) -> Map<Seq<char>, CommandPos> {
        entries_map(self.index@)
    }

    /// Total on-disk bytes of the live entries.
    pub closed spec fn live_bytes(self) -> int {
        live_sum(self.index@)
    }

    /// The abstract replay state this store stands for.
    pub open spec fn abs(self) -> RState {
        RState {
            index: self.index_map(),
            model: self@,
            pos: self.pos(),
            uncompacted: self.dead(),
        }
    }

    /// One index entry is sound: it locates a whole `Put` entry for its own
    /// key, holding the modelled value.
    #[verifier::opaque]
    pub open spec fn entry_ok(
        log: Seq<u8>,
        e: (String, CommandPos),
        model: Map<Seq<char>, Seq<char>>,
    ) -> bool {
        &&& e.1.offset + e.1.length <= log.len()
        &&& model.contains_key(e.0@)
        &&& parse_frame(log.subrange(e.1.offset as int, e.1.offset + e.1.length)) == Some(
            CmdModel::Put { key: e.0@, value: model[e.0@] },
        )
    }

    /// The log bytes of the live entry for a key.
    pub closed spec fn entry_bytes(self, k: Seq<char>) -> Seq<u8> {
        let cp = entries_map(self.index@)[k];
        self.log@.subrange(cp.offset as int, cp.offset + cp.length)
    }

    /// The store invariant: the counters mirror the log, every index entry is
    /// sound, the index and the value model bind the same keys, the dead and
    /// live bytes partition the log, and a replay of the log reconstructs
    /// exactly this state.
    pub closed spec fn inv(self) -> bool {
        &&& self.current_pos == self.log@.len()
        &&& unique_keys(self.index@)
        &&& forall|i: int|
            0 <= i < self.index@.len() ==> Self::entry_ok(
                self.log@,
                #[trigger] self.index@[i],
                self.model@,
            )
        &&& self.model@.dom() == entries_map(self.index@).dom()
        &&& self.uncompacted + live_sum(self.index@) == self.current_pos
        &&& replay_log(self.log@) == ROut::Good(self.abs())
    }

    /// Logical end of the log file; after `open`, the caller should truncate
    /// the file to this length (trailing bytes of a torn write are ignored).
    pub fn position(&self) -> (r: u64)
        ensures
            r == self.pos(),
    {
        self.current_pos
    }

    /// Dead bytes counted toward the compaction trigger.
    pub fn uncompacted_bytes(&self) -> (r: u64)
        ensures
            r == self.dead(),
    {
        self.uncompacted
    }

    /// Whether the last write left enough dead bytes behind that the caller
    /// should compact now: a write that crosses the threshold asks for it.
    pub fn needs_compaction(&self) -> (r: bool)
        ensures
            r == (self.dead() > COMPACTION_THRESHOLD),
    {
        self.uncompacted > COMPACTION_THRESHOLD
    }

    /// Open a store from the bytes of its log file: replay the log,
    /// rebuilding the index, the value model and the dead-byte counter.
    /// Trailing bytes that do not amount to a whole header are ignored; a
    /// payload that runs past the end of the file fails the open with an I/O
    /// error, and one that does not decode fails it with a serialization
    /// error, exactly as [`replay_log`] says.
    #[verifier::rlimit(100)]
    pub fn open(bytes: Vec<u8>) -> (r: Result<RuskStore, RuskError>)
        ensures
            match replay_log(bytes@) {
                ROut::Good(st) => r matches Ok(s) && s.inv() && s.abs() == st && s.log()
                    == bytes@.take(st.pos),
                ROut::BadIo => r matches Err(e) && e matches RuskError::Io(_),
                ROut::BadSerde => r matches Err(RuskError::Serde),
            },
    {
        let blen = bytes.len();
        let mut index: Vec<(String, CommandPos)> = Vec::new();
        let mut pos: usize = 0;
        let mut unc: u64 = 0;
        let ghost mut model: Map<Seq<char>, Seq<char>> = Map::empty();
        proof {
            assert(bytes@.take(0int) =~= Seq::<u8>::empty());
            assert(entries_map(index@) =~= Map::<Seq<char>, CommandPos>::empty());
            assert(model.dom() =~= entries_map(index@).dom());
        }
        while blen - pos >= 4
            invariant
                blen == bytes@.len(),
                pos <= blen,
                unique_keys(index@),
                forall|i: int|
                    0 <= i < index@.len() ==> RuskStore::entry_ok(
                        bytes@.take(pos as int),
                        #[trigger] index@[i],
                        model,
                    ),
                model.dom() == entries_map(index@).dom(),
                unc + live_sum(index@) == pos,
                replay_log(bytes@.take(pos as int)) == ROut::Good(
                    RState {
                        index: entries_map(index@),
                        model: model,
                        pos: pos as int,
                        uncompacted: unc as int,
                    },
                ),
                replay_from(
                    bytes@,
                    RState {
                        index: entries_map(index@),
                        model: model,
                        pos: pos as int,
                        uncompacted: unc as int,
                    },
                ) == replay_log(bytes@),
            decreases blen - pos,
        {
            let ghost prev = RState {
                index: entries_map(index@),
                model: model,
                pos: pos as int,
                uncompacted: unc as int,
            };
            let n: u64 =(bytes[pos] as u64) * 0x1000000 + (bytes[pos + 1] as u64) * 0x10000 + (
            bytes[pos + 2] as u64) * 0x100 + (bytes[pos + 3] as u64);
            proof {
                let hb = bytes@.subrange(pos as int, pos + 4);
                assert(hb[0] == bytes@[pos as int] && hb[1] == bytes@[pos + 1]
                    && hb[2] == bytes@[pos + 2] && hb[3] == bytes@[pos + 3]);
                assert(n == hdr_val(hb));
            }
            if ((blen - pos - 4) as u64) < n {
                proof {
                    assert(replay_from(bytes@, prev) == ROut::BadIo);
                }
                return Err(
                    RuskError::Io(String::from_str("failed to fill whole buffer")),
                );
            }
            let nn = n as usize;
            let payload: &[u8] = &bytes.as_slice()[pos + 4..pos + 4 + nn];
            proof {
                assert(payload@ =~= bytes@.subrange(pos + 4, pos + 4 + nn));
            }
            match decode_command(payload) {
                Err(_) => {
                    proof {
                        assert(replay_from(bytes@, prev) == ROut::BadSerde);
                    }
                    return Err(RuskError::Serde);
                },
                Ok(cmd) => {
                    let ghost c = cmd@;
                    let entry_len: u64 = 4 + n;
                    let cp = CommandPos { offset: pos as u64, length: entry_len };
                    let ghost frame = bytes@.subrange(pos as int, pos + 4 + nn);
                    proof {
                        assert(frame.take(4) =~= bytes@.subrange(pos as int, pos + 4));
                        assert(frame.skip(4) =~= payload@);
                        assert(parse_frame(frame) == Some(c));
                    }
                    let ghost idx0 = index@;
                    match cmd {
                        Command::Put { key, value } => {
                            let ghost kv = key@;
                            let ghost vv = value@;
                            let displaced = index_insert(&mut index, key, cp);
                            match displaced {
                                Some(d) => {
                                    proof {
                                        lemma_live_sum_bound(idx0, kv);
                                        lemma_live_sum_nonneg(index@);
                                    }
                                    unc = unc + d.length;
                                },
                                None => {
                                },
                            }
                            proof {
                                model = model.insert(kv, vv);
                            }
                        },
                        Command::Rm { key } => {
                            let removed = index_remove(&mut index, &key);
                            match removed {
                                Some(d) => {
                                    proof {
                                        lemma_live_sum_bound(idx0, key@);
                                        lemma_live_sum_nonneg(index@);
                                    }
                                    unc = unc + d.length;
                                },
                                None => {
                                },
                            }
                            proof {
                                lemma_live_sum_nonneg(index@);
                            }
                            unc = unc + entry_len;
                            proof {
                                model = model.remove(key@);
                            }
                        },
                    }
                    pos = pos + 4 + nn;
                    proof {
                        let cur = RState {
                            index: entries_map(index@),
                            model: model,
                            pos: pos as int,
                            uncompacted: unc as int,
                        };
                        let log0 = bytes@.take(prev.pos);
                        let log1 = bytes@.take(pos as int);
                        assert(cur =~= replay_step(prev, c, 4 + nn));
                        assert(log1 =~= log0 + frame);
                        lemma_replay_snoc(log0, init_state(), prev, frame, c);
                        assert(replay_from(bytes@, prev) == replay_from(bytes@, cur));
                        assert(log1.take(log0.len() as int) =~= log0);
                        assert forall|i: int| 0 <= i < index@.len() implies RuskStore::entry_ok(
                            log1,
                            #[trigger] index@[i],
                            model,
                        ) by {
                            reveal(RuskStore::entry_ok);
                            let e = index@[i];
                            if c is Put && i == index@.len() - 1 {
                                assert(log1.subrange(
                                    e.1.offset as int,
                                    e.1.offset + e.1.length,
                                ) =~= frame);
                            } else {
                                let j = choose|j: int| 0 <= j < idx0.len() && idx0[j] == e;
                                assert(RuskStore::entry_ok(log0, e, prev.model));
                                lemma_entry_ok_extend(log0, log1, e, prev.model, model);
                            }
                        };
                    }
                },
            }
        }
        let ghost cur = RState {
            index: entries_map(index@),
            model: model,
            pos: pos as int,
            uncompacted: unc as int,
        };
        proof {
            assert(replay_from(bytes@, cur) == ROut::Good(cur));
        }
        let store = RuskStore {
            index,
            current_pos: pos as u64,
            uncompacted: unc,
            log: Ghost(bytes@.take(pos as int)),
            model: Ghost(model),
        };
        proof {
            assert(store.abs() =~= cur);
        }
        Ok(store)
    }

    /// Where the live entry for `key` sits in the log file, if the key is
    /// bound: the offset to seek to and the number of bytes to read for
    /// [`Self::get`].
    pub fn lookup(&self, key: &String) -> (r: Option<CommandPos>)
        requires
            self.inv(),
        ensures
            match r {
                Some(cp) => self@.contains_key(key@) && self.index_map()[key@] == cp && cp.offset
                    + cp.length <= self.log().len() && self.entry_bytes(key@) == self.log().subrange(
                    cp.offset as int,
                    cp.offset + cp.length,
                ),
                None => !self@.contains_key(key@),
            },
    {
        let r = index_lookup(&self.index, key);
        proof {
            reveal(RuskStore::entry_ok);
            match r {
                Some(cp) => {
                    let i = choose|i: int|
                        0 <= i < self.index@.len() && self.index@[i].0@ == key@
                            && #[trigger] self.index@[i].1 == cp;
                    assert(RuskStore::entry_ok(self.log@, self.index@[i], self.model@));
                },
                None => {
                },
            }
        }
        r
    }

    /// Read the value for `key`, given in `entry` the bytes read back from
    /// the log file at the location [`Self::lookup`] reported.  A key with no
    /// live binding resolves to `None` and the entry bytes are not consulted.
    /// Honest entry bytes decode to the modelled value; an entry that does
    /// not decode is a serialization error, and one that decodes to a remove
    /// betrays index divergence.
    pub fn get(&self, key: &String, entry: &Vec<u8>) -> (r: Result<Option<String>, RuskError>)
        requires
            self.inv(),
        ensures
            !self@.contains_key(key@) ==> (r matches Ok(o) && o is None),
            self@.contains_key(key@) ==> match parse_frame(entry@) {
                Some(CmdModel::Put { value: v2, .. }) => (r matches Ok(o) && o matches Some(s)
                    && s@ == v2),
                Some(CmdModel::Rm { .. }) => r matches Err(RuskError::UnexpectedCommand),
                None => r matches Err(RuskError::Serde),
            },
            self@.contains_key(key@) && entry@ == self.entry_bytes(key@) ==> (r matches Ok(o)
                && o matches Some(s) && s@ == self@[key@]),
    {
        match index_lookup(&self.index, key) {
            None => Ok(None),
            Some(_cp) => {
                proof {
                    reveal(RuskStore::entry_ok);
                    let i = choose|i: int|
                        0 <= i < self.index@.len() && self.index@[i].0@ == key@
                            && #[trigger] self.index@[i].1 == _cp;
                    assert(RuskStore::entry_ok(self.log@, self.index@[i], self.model@));
                }
                match decode_frame(entry.as_slice()) {
                    Ok(Command::Put { key: _dk, value: dv }) => Ok(Some(dv)),
                    Ok(Command::Rm { .. }) => Err(RuskError::UnexpectedCommand),
                    Err(_) => Err(RuskError::Serde),
                }
            },
        }
    }

    /// Record `key -> value`: the returned bytes must be appended to the log
    /// file before the next operation.  A displaced binding's bytes become
    /// dead; the caller should compact afterwards when
    /// [`Self::needs_compaction`] says so, which makes heavy overwriting
    /// reclaim its space.
    #[verifier::rlimit(100)]
    pub fn set(&mut self, key: String, value: String) -> (frame: Vec<u8>)
        requires
            old(self).inv(),
            payload_of(CmdModel::Put { key: key@, value: value@ }).len() <= 0xFFFFFFFF,
            old(self).pos() + 4 + payload_of(CmdModel::Put { key: key@, value: value@ }).len()
                <= u64::MAX,
        ensures
            final(self).inv(),
            frame@ == frame_of(CmdModel::Put { key: key@, value: value@ }),
            final(self).log() == old(self).log() + frame@,
            final(self)@ == old(self)@.insert(key@, value@),
            final(self).pos() == old(self).pos() + frame@.len(),
            final(self).dead() == old(self).dead() + (if old(self).index_map().contains_key(key@) {
                old(self).index_map()[key@].length as int
            } else {
                0
            }),
    {
        let ghost prev = self.abs();
        let ghost idx0 = self.index@;
        let ghost log0 = self.log@;
        let ghost kv = key@;
        let ghost vv = value@;
        let ghost c = CmdModel::Put { key: kv, value: vv };
        let cmd = Command::Put { key: key.clone(), value };
        let frame = encode_frame(&cmd);
        let cp = CommandPos { offset: self.current_pos, length: frame.len() as u64 };
        let displaced = index_insert(&mut self.index, key, cp);
        match displaced {
            Some(d) => {
                proof {
                    lemma_live_sum_bound(idx0, kv);
                    lemma_live_sum_nonneg(self.index@);
                }
                self.uncompacted = self.uncompacted + d.length;
            },
            None => {
                proof {
                    lemma_live_sum_nonneg(self.index@);
                }
            },
        }
        self.current_pos = self.current_pos + frame.len() as u64;
        self.log = Ghost(log0 + frame@);
        self.model = Ghost(prev.model.insert(kv, vv));
        proof {
            lemma_parse_frame_of(c);
            lemma_replay_snoc(log0, init_state(), prev, frame@, c);
            assert(self.abs() =~= replay_step(prev, c, frame@.len() as int));
            assert(self.log@.take(log0.len() as int) =~= log0);
            assert forall|i: int| 0 <= i < self.index@.len() implies RuskStore::entry_ok(
                self.log@,
                #[trigger] self.index@[i],
                self.model@,
            ) by {
                reveal(RuskStore::entry_ok);
                let e = self.index@[i];
                if i == self.index@.len() - 1 {
                    assert(self.log@.subrange(e.1.offset as int, e.1.offset + e.1.length)
                        =~= frame@);
                } else {
                    let j = choose|j: int| 0 <= j < idx0.len() && idx0[j] == e;
                    assert(RuskStore::entry_ok(log0, e, prev.model));
                    lemma_entry_ok_extend(log0, self.log@, e, prev.model, self.model@);
                }
            };
            assert(self.model@.dom() =~= entries_map(self.index@).dom());
        }
        frame
    }

    /// Drop the binding for `key`.  On success the returned tombstone bytes
    /// must be appended to the log file before the next operation; the
    /// displaced binding's bytes and the tombstone itself become dead.  A key
    /// with no live binding is an error and nothing is written.
    #[verifier::rlimit(100)]
    pub fn remove(&mut self, key: String) -> (r: Result<Vec<u8>, RuskError>)
        requires
            old(self).inv(),
            old(self)@.contains_key(key@) ==> payload_of(CmdModel::Rm { key: key@ }).len()
                <= 0xFFFFFFFF && old(self).pos() + 4 + payload_of(
                CmdModel::Rm { key: key@ },
            ).len() <= u64::MAX,
        ensures
            final(self).inv(),
            match r {
                Ok(frame) => old(self)@.contains_key(key@)
                    && frame@ == frame_of(CmdModel::Rm { key: key@ })
                    && final(self).log() == old(self).log() + frame@
                    && final(self)@ == old(self)@.remove(key@)
                    && final(self).pos() == old(self).pos() + frame@.len()
                    && final(self).dead() == old(self).dead() + frame@.len()
                        + old(self).index_map()[key@].length,
                Err(e) => e matches RuskError::KeyNotFound && !old(self)@.contains_key(key@)
                    && *final(self) == *old(self),
            },
    {
        let ghost prev = self.abs();
        let ghost idx0 = self.index@;
        let ghost log0 = self.log@;
        let ghost kv = key@;
        let ghost c = CmdModel::Rm { key: kv };
        let has = index_lookup(&self.index, &key);
        match has {
            None => Err(RuskError::KeyNotFound),
            Some(_old_cp) => {
                let cmd = Command::Rm { key: key.clone() };
                let frame = encode_frame(&cmd);
                let removed = index_remove(&mut self.index, &key);
                match removed {
                    Some(d) => {
                        proof {
                            lemma_live_sum_bound(idx0, kv);
                            lemma_live_sum_nonneg(self.index@);
                        }
                        self.uncompacted = self.uncompacted + d.length;
                    },
                    None => {
                        proof {
                            assert(false);
                        }
                    },
                }
                proof {
                    lemma_live_sum_nonneg(self.index@);
                }
                self.uncompacted = self.uncompacted + frame.len() as u64;
                self.current_pos = self.current_pos + frame.len() as u64;
                self.log = Ghost(log0 + frame@);
                self.model = Ghost(prev.model.remove(kv));
                proof {
                    lemma_parse_frame_of(c);
                    lemma_replay_snoc(log0, init_state(), prev, frame@, c);
                    assert(self.abs() =~= replay_step(prev, c, frame@.len() as int));
                    assert(self.log@.take(log0.len() as int) =~= log0);
                    assert forall|i: int| 0 <= i < self.index@.len() implies RuskStore::entry_ok(
                        self.log@,
                        #[trigger] self.index@[i],
                        self.model@,
                    ) by {
                        reveal(RuskStore::entry_ok);
                        let e = self.index@[i];
                        let j = choose|j: int| 0 <= j < idx0.len() && idx0[j] == e;
                        assert(RuskStore::entry_ok(log0, e, prev.model));
                        lemma_entry_ok_extend(log0, self.log@, e, prev.model, self.model@);
                    };
                    assert(self.model@.dom() =~= entries_map(self.index@).dom());
                }
                Ok(frame)
            },
        }
    }

    /// Rewrite the log to hold only the live entries.  `log_bytes` must be
    /// the current log file's contents; the returned bytes are the whole new
    /// file, which the caller must stage beside the log and atomically swap
    /// in before the next operation.  Every live key keeps its value, the
    /// dead-byte counter is reset to zero, and the new file is exactly the
    /// live entries, so its length is the sum of the live entry sizes.
    #[verifier::rlimit(100)]
    #[verifier::loop_isolation(false)]
    pub fn compact(&mut self, log_bytes: &Vec<u8>) -> (r: Result<Vec<u8>, RuskError>)
        requires
            old(self).inv(),
        ensures
            final(self).inv(),
            match r {
                Ok(nl) => final(self).log() == nl@ && final(self).dead() == 0 && final(self).pos()
                    == nl@.len() && nl@.len() == old(self).live_bytes()
                    && nl@.len() <= old(self).log().len()
                    && (log_bytes@ == old(self).log() ==> final(self)@ == old(self)@),
                Err(_) => *final(self) == *old(self),
            },
            log_bytes@ == old(self).log() ==> r is Ok,
    {
        let n = self.index.len();
        let mut new_log: Vec<u8> = Vec::new();
        let mut new_index: Vec<(String, CommandPos)> = Vec::new();
        let mut nm: Ghost<Map<Seq<char>, Seq<char>>> = Ghost(Map::empty());
        let mut i: usize = 0;
        proof {
            assert(new_log@ =~= Seq::<u8>::empty());
            assert(entries_map(new_index@) =~= Map::<Seq<char>, CommandPos>::empty());
            assert(nm@.dom() =~= entries_map(new_index@).dom());
        }
        while i < n
            invariant
                *self == *old(self),
                unique_keys(self.index@),
                forall|j: int|
                    0 <= j < self.index@.len() ==> RuskStore::entry_ok(
                        self.log@,
                        #[trigger] self.index@[j],
                        self.model@,
                    ),
                n == self.index@.len(),
                i <= n,
                new_index@.len() == i,
                unique_keys(new_index@),
                forall|j: int| 0 <= j < i ==> (#[trigger] new_index@[j]).0@ == self.index@[j].0@,
                forall|j: int|
                    0 <= j < i ==> (#[trigger] new_index@[j]).1.length == self.index@[j].1.length,
                forall|j: int|
                    0 <= j < new_index@.len() ==> RuskStore::entry_ok(
                        new_log@,
                        #[trigger] new_index@[j],
                        nm@,
                    ),
                nm@.dom() == entries_map(new_index@).dom(),
                live_sum(new_index@) == new_log@.len(),
                replay_log(new_log@) == ROut::Good(
                    RState {
                        index: entries_map(new_index@),
                        model: nm@,
                        pos: new_log@.len() as int,
                        uncompacted: 0,
                    },
                ),
                log_bytes@ == self.log@ ==> forall|j: int|
                    0 <= j < i ==> #[trigger] nm@[self.index@[j].0@]
                        == self.model@[self.index@[j].0@],
            decreases n - i,
        {
            let cp = self.index[i].1;
            proof {
                lemma_entries_index(self.index@, i as int);
                assert(RuskStore::entry_ok(self.log@, self.index@[i as int], self.model@));
                assert(forall|j: int|
                    0 <= j < new_index@.len() ==> (#[trigger] new_index@[j]).0@ != self.index@[
                        i as int
                    ].0@);
            }
            let ghost nm0pre = nm@;
            let ghost ni_prev = new_index@;
            let r1 = compact_one(
                &self.index[i].0,
                cp,
                log_bytes,
                &mut new_log,
                &mut new_index,
                Ghost(nm@),
                Ghost(self.log@),
                Ghost(self.model@),
            );
            match r1 {
                Err(e) => {
                    proof {
                        if log_bytes@ == self.log@ {
                            assert(false);
                        }
                    }
                    return Err(e);
                },
                Ok(g) => {
                    nm = g;
                    proof {
                        assert(new_index@.drop_last() == ni_prev);
                        assert forall|j: int|
                            0 <= j < i + 1 implies (#[trigger] new_index@[j]).0@
                            == self.index@[j].0@ && (#[trigger] new_index@[j]).1.length
                            == self.index@[j].1.length by {
                            if j < i {
                                assert(new_index@[j] == ni_prev[j]);
                            }
                        };
                        if log_bytes@ == self.log@ {
                            assert(nm@ == nm0pre.insert(
                                self.index@[i as int].0@,
                                self.model@[self.index@[i as int].0@],
                            ));
                            assert forall|j: int|
                                0 <= j < i + 1 implies #[trigger] nm@[self.index@[j].0@]
                                == self.model@[self.index@[j].0@] by {
                                if j < i {
                                    assert(self.index@[j].0@ != self.index@[i as int].0@);
                                    assert(nm@[self.index@[j].0@] == nm0pre[self.index@[j].0@]);
                                }
                            };
                        }
                    }
                    i += 1;
                },
            }
        }
        let ghost idx_old = self.index@;
        let ghost model_old = self.model@;
        let ghost log_old = self.log@;
        proof {
            lemma_entries_same_keys(new_index@, idx_old);
            lemma_live_sum_pairwise(new_index@, idx_old);
            lemma_live_sum_nonneg(idx_old);
        }
        self.index = new_index;
        self.current_pos = new_log.len() as u64;
        self.uncompacted = 0;
        self.log = Ghost(new_log@);
        self.model = nm;
        proof {
            assert(self.abs() =~= RState {
                index: entries_map(self.index@),
                model: nm@,
                pos: new_log@.len() as int,
                uncompacted: 0,
            });
            if log_bytes@ == log_old {
                assert forall|k: Seq<char>| #[trigger] nm@.dom().contains(k) implies nm@[k]
                    == model_old[k] by {
                    lemma_entries_witness(idx_old, k);
                };
                assert(nm@ =~= model_old);
            }
        }
        Ok(new_log)
    }
}

/// Durability: replaying the bytes of a store's log rebuilds exactly the
/// store's abstract state — the same key-value view, index, position and
/// dead-byte counter.  [`RuskStore::open`] returns, for those bytes, a store
/// with that state, so for any prefix of operations, closing and reopening
/// the store observes the same value for every key.
pub proof fn lemma_reopen_recovers_state(s: &RuskStore)
    requires
        s.inv(),
    ensures
        replay_log(s.log()) == ROut::Good(s.abs()),
        s.abs().model == s@,
{
}

} // verus!
