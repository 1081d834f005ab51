//! The store's laws, stated over the same model its contracts use: the
//! key-to-value map that segments replay to.

use crate::codec::CommandView;
use crate::kv_store::KvStore;
use crate::log::seqs_sorted;
use crate::replay::{apply_command, apply_commands, records_aligned, replay_files, replay_segment, spec_record, KvMap};
use crate::replay::{lemma_record_prefix_torn, lemma_replay_torn};
use vstd::prelude::*;

verus! {

/// Read-your-write: after a key is set to a value, reading the key gives
/// exactly that value.
pub proof fn lemma_read_your_write(m: KvMap, k: Seq<char>, v: Seq<char>)
    ensures
        m.insert(k, v).contains_key(k),
        m.insert(k, v)[k] == v,
{
}

/// Overwrite: setting a key twice leaves the second value, whatever the
/// first was.
pub proof fn lemma_overwrite(m: KvMap, k: Seq<char>, v1: Seq<char>, v2: Seq<char>)
    ensures
        m.insert(k, v1).insert(k, v2).contains_key(k),
        m.insert(k, v1).insert(k, v2)[k] == v2,
{
}

/// Remove-then-miss: after a key is set and then removed, it has no
/// mapping; a second removal of it therefore fails with `KeyNotFound`, as
/// `KvStore::remove` ensures for an absent key.
pub proof fn lemma_remove_then_miss(m: KvMap, k: Seq<char>, v: Seq<char>)
    ensures
        !m.insert(k, v).remove(k).contains_key(k),
{
}

/// Whether a command speaks of the key at all.
pub open spec fn command_touches(c: CommandView, k: Seq<char>) -> bool {
    match c {
        CommandView::Insert(k2, _) => k2 == k,
        CommandView::Remove(k2) => k2 == k,
    }
}

/// Absent-get: replaying commands none of which touch a key leaves that
/// key's mapping exactly as it was — in particular, a key never set is
/// still absent, so reading it gives nothing.
pub proof fn lemma_absent_key_untouched(m: KvMap, cs: Seq<CommandView>, k: Seq<char>)
    requires
        forall|i: int| 0 <= i < cs.len() ==> !command_touches(#[trigger] cs[i], k),
    ensures
        apply_commands(m, cs).contains_key(k) == m.contains_key(k),
        m.contains_key(k) ==> apply_commands(m, cs)[k] == m[k],
    decreases cs.len(),
{
    if cs.len() > 0 {
        assert(!command_touches(cs[0], k));
        let m1 = apply_command(m, cs[0]);
        assert forall|i: int| 0 <= i < cs.drop_first().len() implies !command_touches(
            #[trigger] cs.drop_first()[i],
            k,
        ) by {
            assert(cs.drop_first()[i] == cs[i + 1]);
        }
        lemma_absent_key_untouched(m1, cs.drop_first(), k);
    }
}

/// Persistence: the segment images a well-formed store holds replay, in
/// order, to exactly its visible map — so reopening a store over those
/// images answers every later read as the store itself would have.
pub proof fn lemma_persistence(s: &KvStore)
    requires
        s.wf(),
    ensures
        seqs_sorted(s.files()),
        replay_files(s.files()) == s.kv(),
{
}

/// Crash tolerance of a torn tail: take a segment that ends with one
/// whole appended record and cut any non-zero part of that record off its
/// end.  The truncated segment replays as if the record had never been
/// appended.
pub proof fn lemma_torn_tail(m: KvMap, d: Seq<u8>, c: CommandView, keep: int)
    requires
        records_aligned(d, 0),
        crate::codec::cmd_encodable(c),
        0 <= keep < spec_record(c).len(),
    ensures
        replay_segment(m, d + spec_record(c).take(keep)) == replay_segment(m, d),
{
    lemma_record_prefix_torn(d, c, keep);
    lemma_replay_torn(d, spec_record(c).take(keep), 0);
}

} // verus!
