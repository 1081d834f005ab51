//! Replay semantics of segments.
//!
//! A segment is a concatenation of framed command records.  Replay reads
//! records forward from an offset until the bytes in front of the cursor no
//! longer hold a complete, well-formed record — a clean end, a torn tail
//! left by a crash, or malformed data all stop replay the same way — and
//! folds the commands read into a key-to-value map.  These definitions and
//! lemmas are the reference against which every store operation is proved.

use crate::codec::{cmd_encodable, lemma_decode_of_encode, lemma_encode_of_decode, spec_decode_command, spec_encode_command, CommandView};
use crate::frame::{frame_at, lemma_frame_at_encoded, lemma_frame_at_extend, spec_frame};
use vstd::bytes::{lemma_auto_spec_u64_to_from_le_bytes, spec_u64_to_le_bytes};
use vstd::prelude::*;

verus! {

/// The full on-disk form of one command: its encoded payload, framed.
pub open spec fn spec_record(c: CommandView) -> Seq<u8> {
    spec_frame(spec_encode_command(c))
}

/// The record that starts at `off` in `data`: the command it holds and the
/// offset just past it, or `None` when no complete, well-formed record
/// starts there.
pub open spec fn record_at(data: Seq<u8>, off: int) -> Option<(CommandView, int)> {
    match frame_at(data, off) {
        Some((payload, end)) => match spec_decode_command(payload) {
            Some(c) => Some((c, end)),
            None => None,
        },
        None => None,
    }
}

/// The commands read by replaying `data` forward from `off`, stopping at
/// the first position that holds no complete, well-formed record.
pub open spec fn replay_commands(data: Seq<u8>, off: int) -> Seq<CommandView>
    decreases data.len() - off,
{
    match record_at(data, off) {
        Some((c, end)) => seq![c] + replay_commands(data, end),
        None => seq![],
    }
}

/// Whether the bytes of `data` from `off` to its end are exactly a
/// concatenation of well-formed records.  The active segment always is:
/// every append adds one whole record.
pub open spec fn records_aligned(data: Seq<u8>, off: int) -> bool
    decreases data.len() - off,
{
    if off == data.len() {
        true
    } else {
        match record_at(data, off) {
            Some((c, end)) => records_aligned(data, end),
            None => false,
        }
    }
}

/// The key-to-value maps the store's contracts are stated over.
pub type KvMap = Map<Seq<char>, Seq<char>>;

/// What one command does to the map.
pub open spec fn apply_command(m: KvMap, c: CommandView) -> KvMap {
    match c {
        CommandView::Insert(k, v) => m.insert(k, v),
        CommandView::Remove(k) => m.remove(k),
    }
}

/// What a sequence of commands, applied in order, does to the map.
pub open spec fn apply_commands(m: KvMap, cs: Seq<CommandView>) -> KvMap
    decreases cs.len(),
{
    if cs.len() == 0 {
        m
    } else {
        apply_commands(apply_command(m, cs[0]), cs.drop_first())
    }
}

/// The map after replaying one whole segment on top of `m`.
pub open spec fn replay_segment(m: KvMap, data: Seq<u8>) -> KvMap {
    apply_commands(m, replay_commands(data, 0))
}

/// One segment image: its sequence number and its bytes.
#[verifier::ext_equal]
pub struct SegmentView {
    pub seq_id: u64,
    pub data: Seq<u8>,
}

/// The map a directory of segments replays to, segments taken in order.
pub open spec fn replay_files(files: Seq<SegmentView>) -> KvMap
    decreases files.len(),
{
    if files.len() == 0 {
        Map::empty()
    } else {
        replay_segment(replay_files(files.drop_last()), files.last().data)
    }
}

/// The accounting replay keeps besides the map: the byte length of each
/// live key's latest record, and the total bytes of records that a later
/// record superseded.
#[verifier::ext_equal]
pub struct ReplayCost {
    pub live: Map<Seq<char>, nat>,
    pub superseded: nat,
}

/// The accounting before anything is replayed.
pub open spec fn initial_cost() -> ReplayCost {
    ReplayCost { live: Map::empty(), superseded: 0 }
}

/// What one record of `len` bytes does to the accounting: it supersedes
/// the key's previous live record, if any; an `Insert` then becomes the
/// key's live record, a `Remove` leaves it without one.
pub open spec fn cost_command(st: ReplayCost, c: CommandView, len: nat) -> ReplayCost {
    match c {
        CommandView::Insert(k, v) => ReplayCost {
            live: st.live.insert(k, len),
            superseded: st.superseded + if st.live.contains_key(k) {
                st.live[k]
            } else {
                0
            },
        },
        CommandView::Remove(k) => ReplayCost {
            live: st.live.remove(k),
            superseded: st.superseded + if st.live.contains_key(k) {
                st.live[k]
            } else {
                0
            },
        },
    }
}

/// The accounting after replaying `data` forward from `off`.
pub open spec fn cost_commands(st: ReplayCost, data: Seq<u8>, off: int) -> ReplayCost
    decreases data.len() - off,
{
    match record_at(data, off) {
        Some((c, end)) => cost_commands(cost_command(st, c, (end - off) as nat), data, end),
        None => st,
    }
}

/// The accounting after replaying a directory of segments in order.
pub open spec fn cost_files(files: Seq<SegmentView>) -> ReplayCost
    decreases files.len(),
{
    if files.len() == 0 {
        initial_cost()
    } else {
        cost_commands(cost_files(files.drop_last()), files.last().data, 0)
    }
}

/// Whether a `u64` counter holds `w`, pinned at the top of its range.
pub open spec fn counter_matches(w: nat, u: u64) -> bool {
    if w > u64::MAX {
        u == u64::MAX
    } else {
        u == w
    }
}

/// A complete record inside `data` is unaffected by appending more bytes.
pub proof fn lemma_record_at_extend(data: Seq<u8>, ext: Seq<u8>, off: int)
    requires
        record_at(data, off) is Some,
    ensures
        record_at(data + ext, off) == record_at(data, off),
{
    lemma_frame_at_extend(data, ext, off);
}

/// A record written directly after `data` is read back intact, whatever
/// bytes follow it.
pub proof fn lemma_record_at_appended(data: Seq<u8>, c: CommandView, rest: Seq<u8>)
    requires
        cmd_encodable(c),
    ensures
        record_at(data + spec_record(c) + rest, data.len() as int) == Some(
            (c, data.len() + spec_record(c).len() as int),
        ),
        spec_record(c).len() == 8 + spec_encode_command(c).len(),
{
    lemma_auto_spec_u64_to_from_le_bytes();
    lemma_frame_at_encoded(data, spec_encode_command(c), rest);
    lemma_decode_of_encode(c);
}

/// The bytes of a record already inside `data` are the record's encoding,
/// recovered exactly: copying those bytes elsewhere moves the command.
pub proof fn lemma_record_bytes(data: Seq<u8>, off: int, c: CommandView, end: int)
    requires
        record_at(data, off) == Some((c, end)),
    ensures
        off + 8 <= end <= data.len(),
        data.subrange(off, end) == spec_record(c),
        spec_record(c).len() == end - off,
        cmd_encodable(c),
{
    lemma_auto_spec_u64_to_from_le_bytes();
    let (payload, e): (Seq<u8>, int) = frame_at(data, off).unwrap();
    let header = data.subrange(off, off + 8);
    lemma_encode_of_decode(payload, c);
    assert(spec_record(c) == spec_frame(payload));
    assert(spec_u64_to_le_bytes(payload.len() as u64) =~= header);
    assert(data.subrange(off, end) =~= header + payload);
}

/// Appending one whole record to an aligned stream extends its replay by
/// exactly that record's command, and keeps the stream aligned.
pub proof fn lemma_replay_append(data: Seq<u8>, c: CommandView, off: int)
    requires
        0 <= off <= data.len(),
        records_aligned(data, off),
        cmd_encodable(c),
    ensures
        replay_commands(data + spec_record(c), off) == replay_commands(data, off).push(c),
        records_aligned(data + spec_record(c), off),
    decreases data.len() - off,
{
    let data2 = data + spec_record(c);
    if off == data.len() {
        lemma_record_at_appended(data, c, Seq::<u8>::empty());
        assert(data + spec_record(c) + Seq::<u8>::empty() =~= data2);
        assert(record_at(data2, off) == Some((c, data2.len() as int)));
        assert(replay_commands(data2, data2.len() as int) =~= Seq::<CommandView>::empty());
        assert(replay_commands(data2, off) =~= seq![c]);
        assert(replay_commands(data, off) =~= Seq::<CommandView>::empty());
        assert(replay_commands(data, off).push(c) =~= seq![c]);
        assert(records_aligned(data2, data2.len() as int));
        assert(records_aligned(data2, off));
    } else {
        let (c0, end): (CommandView, int) = record_at(data, off).unwrap();
        lemma_record_at_extend(data, spec_record(c), off);
        lemma_replay_append(data, c, end);
        assert(seq![c0] + replay_commands(data, end).push(c) =~= (seq![c0] + replay_commands(
            data,
            end,
        )).push(c));
        assert(records_aligned(data2, off));
    }
}

/// Extending an aligned stream with bytes that do not begin a well-formed
/// record leaves its replay unchanged: a torn or malformed tail vanishes.
pub proof fn lemma_replay_torn(data: Seq<u8>, ext: Seq<u8>, off: int)
    requires
        0 <= off <= data.len(),
        records_aligned(data, off),
        record_at(data + ext, data.len() as int) is None,
    ensures
        replay_commands(data + ext, off) == replay_commands(data, off),
    decreases data.len() - off,
{
    let data2 = data + ext;
    if off == data.len() {
        assert(replay_commands(data2, off) =~= Seq::<CommandView>::empty());
        assert(replay_commands(data, off) =~= Seq::<CommandView>::empty());
    } else {
        let (c0, end): (CommandView, int) = record_at(data, off).unwrap();
        lemma_record_at_extend(data, ext, off);
        lemma_replay_torn(data, ext, end);
    }
}

/// A strict prefix of a record is not a record: its frame is incomplete.
pub proof fn lemma_record_prefix_torn(data: Seq<u8>, c: CommandView, keep: int)
    requires
        cmd_encodable(c),
        0 <= keep < spec_record(c).len(),
    ensures
        record_at(data + spec_record(c).take(keep), data.len() as int) is None,
{
    lemma_auto_spec_u64_to_from_le_bytes();
    let rec = spec_record(c);
    let pre = rec.take(keep);
    let d2 = data + pre;
    let off = data.len() as int;
    if keep >= 8 {
        assert(d2.subrange(off, off + 8) =~= spec_u64_to_le_bytes(
            spec_encode_command(c).len() as u64,
        ));
        assert(off + 8 + spec_encode_command(c).len() > d2.len());
    }
}

/// An empty extension of the file list — a fresh segment — replays to the
/// same map.
pub proof fn lemma_replay_files_push_empty(files: Seq<SegmentView>, s: SegmentView)
    requires
        s.data.len() == 0,
    ensures
        replay_files(files.push(s)) == replay_files(files),
{
    assert(files.push(s).drop_last() =~= files);
    assert(record_at(s.data, 0) is None);
    assert(replay_commands(s.data, 0) =~= Seq::<CommandView>::empty());
}

/// Appending one record to the last segment applies its command to the map
/// the files replay to.
pub proof fn lemma_replay_files_extend_last(
    files: Seq<SegmentView>,
    files2: Seq<SegmentView>,
    c: CommandView,
)
    requires
        files.len() > 0,
        files2.len() == files.len(),
        files2.drop_last() == files.drop_last(),
        files2.last().data == files.last().data + spec_record(c),
        records_aligned(files.last().data, 0),
        cmd_encodable(c),
    ensures
        replay_files(files2) == apply_command(replay_files(files), c),
        records_aligned(files2.last().data, 0),
{
    lemma_replay_append(files.last().data, c, 0);
    lemma_apply_commands_push(
        replay_files(files.drop_last()),
        replay_commands(files.last().data, 0),
        c,
    );
}

/// Folding a command sequence extended by one command equals folding the
/// sequence and then applying the command.
pub proof fn lemma_apply_commands_push(m: KvMap, cs: Seq<CommandView>, c: CommandView)
    ensures
        apply_commands(m, cs.push(c)) == apply_command(apply_commands(m, cs), c),
    decreases cs.len(),
{
    if cs.len() == 0 {
        assert(cs.push(c).drop_first() =~= Seq::<CommandView>::empty());
        assert(cs.push(c)[0] == c);
        assert(apply_commands(apply_command(m, c), Seq::<CommandView>::empty()) == apply_command(
            m,
            c,
        ));
        assert(apply_commands(m, cs) == m);
    } else {
        assert(cs.push(c).drop_first() =~= cs.drop_first().push(c));
        assert(cs.push(c)[0] == cs[0]);
        lemma_apply_commands_push(apply_command(m, cs[0]), cs.drop_first(), c);
        assert(apply_commands(m, cs.push(c)) == apply_commands(
            apply_command(m, cs[0]),
            cs.drop_first().push(c),
        ));
        assert(apply_commands(m, cs) == apply_commands(apply_command(m, cs[0]), cs.drop_first()));
    }
}

} // verus!
