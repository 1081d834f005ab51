//! The log manager: the ordered list of segment images and the active
//! segment that appends go to.
//!
//! Segments are kept sorted by sequence number; the last one is the active
//! segment and is always an exact concatenation of whole records.  The
//! manager provides appends, positioned reads through log pointers,
//! segment rollover, staging for compaction, and stale-segment removal.

use crate::codec::{cmd_encodable, CommandView, LogCommand};
use crate::errors::KvsError;
use crate::frame::Frame;
use crate::keydir::KeyDir;
use crate::replay::{apply_command, cost_files, counter_matches, record_at, records_aligned, replay_files, spec_record, KvMap, SegmentView};
use crate::replay::{lemma_record_at_appended, lemma_record_at_extend, lemma_replay_files_extend_last, lemma_replay_files_push_empty};
use crate::utils::{build_index, index_consistent, sort_segments};
use vstd::prelude::*;
use vstd::slice::{slice_subrange, slice_to_vec};
use vstd::std_specs::vec::vec_index;

verus! {

/// The byte range of one serialized `Insert` command: which segment holds
/// it, where it starts, and how many bytes it spans.
#[derive(Debug, Clone, Copy, PartialEq, Eq, Structural)]
pub struct LogPointer {
    pub segment_id: u64,
    pub offset: u64,
    pub length: u64,
}

impl LogPointer {
    /// Builds a pointer to `length` bytes at `offset` in segment
    /// `segment_id`.
    pub fn new(segment_id: u64, offset: u64, length: u64) -> (p: LogPointer)
        ensures
            p == (LogPointer { segment_id, offset, length }),
    {
        LogPointer { segment_id, offset, length }
    }

    /// Redirects the pointer to a new byte range.
    pub fn update(&mut self, new_segment_id: u64, new_offset: u64, new_length: u64)
        ensures
            *final(self) == (LogPointer {
                segment_id: new_segment_id,
                offset: new_offset,
                length: new_length,
            }),
    {
        *self = Self::new(new_segment_id, new_offset, new_length);
    }
}

/// One segment: its sequence number and the full image of its file.
#[derive(Debug)]
pub struct SegmentFile {
    pub seq_id: u64,
    pub data: Vec<u8>,
}

impl View for SegmentFile {
    type V = SegmentView;

    open spec fn view(&self) -> SegmentView {
        SegmentView { seq_id: self.seq_id, data: self.data@ }
    }
}

/// The images of a list of segments.
pub open spec fn files_view(segments: Seq<SegmentFile>) -> Seq<SegmentView> {
    segments.map_values(|s: SegmentFile| s@)
}

/// Whether sequence numbers strictly increase along the list.
pub open spec fn seqs_sorted(files: Seq<SegmentView>) -> bool {
    forall|i: int, j: int|
        #![trigger files[i].seq_id, files[j].seq_id]
        0 <= i < j < files.len() ==> files[i].seq_id < files[j].seq_id
}

/// Whether some segment carries the given sequence number.
pub open spec fn has_segment(files: Seq<SegmentView>, id: u64) -> bool {
    exists|i: int| 0 <= i < files.len() && #[trigger] files[i].seq_id == id
}

/// The bytes of the segment with the given sequence number.
pub open spec fn segment_data(files: Seq<SegmentView>, id: u64) -> Seq<u8> {
    let i = choose|i: int| 0 <= i < files.len() && #[trigger] files[i].seq_id == id;
    files[i].data
}

/// The command a pointer reads back: the record at its offset in its
/// segment, or `None` when the pointer does not land on a record.
pub open spec fn lookup_record(files: Seq<SegmentView>, ptr: LogPointer) -> Option<CommandView> {
    if has_segment(files, ptr.segment_id) {
        match record_at(segment_data(files, ptr.segment_id), ptr.offset as int) {
            Some((c, end)) => Some(c),
            None => None,
        }
    } else {
        None
    }
}

/// Whether a pointer lands on exactly the record of command `c`, spanning
/// exactly `ptr.length` bytes.
pub open spec fn ptr_resolves_to(files: Seq<SegmentView>, ptr: LogPointer, c: CommandView) -> bool {
    &&& has_segment(files, ptr.segment_id)
    &&& record_at(segment_data(files, ptr.segment_id), ptr.offset as int) == Some(
        (c, ptr.offset + ptr.length),
    )
}

/// The predicate that keeps a segment alive across one compaction cycle:
/// its sequence number is at least the commit sequence number.
pub open spec fn live_pred(commit_seq: u64) -> spec_fn(SegmentView) -> bool {
    |s: SegmentView| s.seq_id >= commit_seq
}

/// Two positions carrying the same sequence number are the same position.
pub proof fn lemma_sorted_ids_unique(files: Seq<SegmentView>, i: int, j: int)
    requires
        seqs_sorted(files),
        0 <= i < files.len(),
        0 <= j < files.len(),
        files[i].seq_id == files[j].seq_id,
    ensures
        i == j,
{
    if i < j {
        assert(files[i].seq_id < files[j].seq_id);
    }
    if j < i {
        assert(files[j].seq_id < files[i].seq_id);
    }
}

/// In a sorted list, `segment_data` of the id at position `i` is that
/// position's data.
pub proof fn lemma_segment_data_at(files: Seq<SegmentView>, i: int)
    requires
        seqs_sorted(files),
        0 <= i < files.len(),
    ensures
        has_segment(files, files[i].seq_id),
        segment_data(files, files[i].seq_id) == files[i].data,
{
    assert(has_segment(files, files[i].seq_id));
    let j = choose|j: int| 0 <= j < files.len() && #[trigger] files[j].seq_id == files[i].seq_id;
    lemma_sorted_ids_unique(files, i, j);
}

/// A pointer that resolves keeps resolving after a new segment with a
/// fresh, higher sequence number is opened.
pub proof fn lemma_resolution_stable_push(
    files: Seq<SegmentView>,
    s: SegmentView,
    ptr: LogPointer,
    c: CommandView,
)
    requires
        seqs_sorted(files.push(s)),
        ptr_resolves_to(files, ptr, c),
    ensures
        ptr_resolves_to(files.push(s), ptr, c),
{
    let files2 = files.push(s);
    assert forall|x: int, y: int| 0 <= x < y < files.len() implies files[x].seq_id
        < files[y].seq_id by {
        assert(files2[x].seq_id < files2[y].seq_id);
    }
    let i = choose|i: int| 0 <= i < files.len() && #[trigger] files[i].seq_id == ptr.segment_id;
    assert(files2[i] == files[i]);
    lemma_segment_data_at(files2, i);
    lemma_segment_data_at(files, i);
}

/// A pointer that resolves keeps resolving after any one segment's image
/// grows at its end: a record already inside a segment never moves.
pub proof fn lemma_resolution_stable_grow(
    files: Seq<SegmentView>,
    files2: Seq<SegmentView>,
    gi: int,
    ext: Seq<u8>,
    ptr: LogPointer,
    c: CommandView,
)
    requires
        seqs_sorted(files),
        0 <= gi < files.len(),
        files2 == files.update(
            gi,
            SegmentView { seq_id: files[gi].seq_id, data: files[gi].data + ext },
        ),
        ptr_resolves_to(files, ptr, c),
    ensures
        ptr_resolves_to(files2, ptr, c),
{
    assert forall|x: int, y: int| 0 <= x < y < files2.len() implies files2[x].seq_id
        < files2[y].seq_id by {
        assert(files[x].seq_id < files[y].seq_id);
    }
    let i = choose|i: int| 0 <= i < files.len() && #[trigger] files[i].seq_id == ptr.segment_id;
    lemma_segment_data_at(files, i);
    lemma_segment_data_at(files2, i);
    if i == gi {
        lemma_record_at_extend(files[i].data, ext, ptr.offset as int);
    } else {
        assert(files2[i] == files[i]);
    }
}

/// Reads one record from a segment image at `offset`.
pub fn decode_record(data: &Vec<u8>, offset: usize) -> (r: Option<(LogCommand, usize)>)
    ensures
        match record_at(data@, offset as int) {
            Some((c, end)) => {
                &&& r is Some
                &&& r.unwrap().0@ == c
                &&& r.unwrap().1 == end
            },
            None => r is None,
        },
{
    match Frame::decode(data.as_slice(), offset) {
        Some((frame, end)) => match LogCommand::decode(frame.bytes.as_slice()) {
            Some(cmd) => Some((cmd, end)),
            None => None,
        },
        None => None,
    }
}

/// The log manager.
#[derive(Debug)]
pub struct Log {
    pub segments: Vec<SegmentFile>,
    pub current_seq: u64,
}

impl Log {
    /// The segment images, in replay order.
    pub open spec fn files(&self) -> Seq<SegmentView> {
        files_view(self.segments@)
    }

    /// The bytes of the active segment.
    pub open spec fn active_data(&self) -> Seq<u8> {
        self.files().last().data
    }

    /// The map the whole log replays to.
    pub open spec fn replayed(&self) -> KvMap {
        replay_files(self.files())
    }

    /// The manager's invariant: at least the active segment exists,
    /// sequence numbers strictly increase, the active segment is the last
    /// and carries `current_seq`, and its bytes are whole records.
    pub open spec fn wf(&self) -> bool {
        &&& self.files().len() >= 1
        &&& seqs_sorted(self.files())
        &&& self.files().last().seq_id == self.current_seq
        &&& records_aligned(self.active_data(), 0)
    }

    /// Builds the manager from a survey of a store directory's segment
    /// images: puts them into replay order, replays them into the index,
    /// and opens a fresh, empty active segment under the next sequence
    /// number — so appends never touch a segment that replay has already
    /// surveyed.  Returns the superseded-byte count, the index, and the
    /// manager.  Fails with `Io` only when a surveyed segment already
    /// carries the largest possible sequence number, leaving no number
    /// for the active segment.
    pub fn init(existing: Vec<SegmentFile>) -> (r: Result<(u64, KeyDir, Log), KvsError>)
        ensures
            match r {
                Ok(t) => {
                    &&& t.2.wf()
                    &&& t.1.wf()
                    &&& index_consistent(t.2.files(), t.1@, t.2.replayed())
                    &&& t.2.active_data() == Seq::<u8>::empty()
                    &&& t.2.current_seq >= 1
                    &&& seqs_sorted(files_view(existing@)) ==> counter_matches(
                        cost_files(files_view(existing@)).superseded,
                        t.0,
                    )
                    &&& forall|i: int|
                        0 <= i < existing@.len() ==> #[trigger] files_view(existing@)[i].seq_id
                            < u64::MAX
                    &&& seqs_sorted(files_view(existing@)) ==> {
                        &&& t.2.files().drop_last() == files_view(existing@)
                        &&& t.2.replayed() == replay_files(files_view(existing@))
                        &&& (existing@.len() > 0 ==> t.2.current_seq == files_view(
                            existing@,
                        ).last().seq_id + 1)
                        &&& (existing@.len() == 0 ==> t.2.current_seq == 1)
                    }
                },
                Err(e) => {
                    &&& e == KvsError::Io
                    &&& exists|i: int|
                        0 <= i < existing@.len() && #[trigger] files_view(existing@)[i].seq_id
                            == u64::MAX
                },
            },
    {
        let ghost input = files_view(existing@);
        let sorted = sort_segments(existing);
        let current_seq: u64;
        if sorted.len() == 0 {
            current_seq = 1;
        } else {
            let last_id = vec_index(&sorted, sorted.len() - 1).seq_id;
            if last_id == u64::MAX {
                proof {
                    let sv = files_view(sorted@);
                    assert(input.contains(sv[sv.len() - 1]));
                    let w = choose|w: int| 0 <= w < input.len() && input[w] == sv[sv.len() - 1];
                    assert(files_view(existing@)[w].seq_id == u64::MAX);
                }
                return Err(KvsError::Io);
            }
            current_seq = last_id + 1;
            proof {
                let sv = files_view(sorted@);
                assert forall|i: int| 0 <= i < input.len() implies #[trigger] input[i].seq_id
                    < u64::MAX by {
                    assert(has_segment(sv, input[i].seq_id));
                    let w = choose|w: int|
                        0 <= w < sv.len() && #[trigger] sv[w].seq_id == input[i].seq_id;
                    if w < sv.len() - 1 {
                        assert(sv[w].seq_id < sv[sv.len() - 1].seq_id);
                    }
                }
            }
        }
        let (uncompacted_bytes, dir) = build_index(&sorted);
        let ghost base = files_view(sorted@);
        let mut log = Log { segments: sorted, current_seq };
        log.new_log_file(current_seq);
        proof {
            let fs = log.files();
            assert(fs.last() == SegmentView { seq_id: current_seq, data: Seq::<u8>::empty() });
            assert(records_aligned(fs.last().data, 0));
            assert(fs.drop_last() =~= base);
            assert forall|k: Seq<char>| #[trigger] dir@.contains_key(k) implies ptr_resolves_to(
                fs,
                dir@[k],
                CommandView::Insert(k, log.replayed()[k]),
            ) by {
                lemma_resolution_stable_push(
                    base,
                    SegmentView { seq_id: current_seq, data: Seq::<u8>::empty() },
                    dir@[k],
                    CommandView::Insert(k, replay_files(base)[k]),
                );
                assert(fs =~= base.push(
                    SegmentView { seq_id: current_seq, data: Seq::<u8>::empty() },
                ));
            }
        }
        Ok((uncompacted_bytes, dir, log))
    }

    /// The position of the segment carrying `id`, if any.
    fn find_segment(&self, id: u64) -> (r: Option<usize>)
        ensures
            match r {
                Some(i) => i < self.files().len() && self.files()[i as int].seq_id == id,
                None => !has_segment(self.files(), id),
            },
    {
        let n = self.segments.len();
        let mut i: usize = 0;
        while i < n
            invariant
                i <= n,
                n == self.files().len(),
                forall|j: int| 0 <= j < i ==> #[trigger] self.files()[j].seq_id != id,
            decreases n - i,
        {
            if vec_index(&self.segments, i).seq_id == id {
                return Some(i);
            }
            i = i + 1;
        }
        None
    }

    /// Appends one command to the active segment and returns the pointer
    /// to the record written.  The caller owns mirroring the new bytes to
    /// the segment's file.
    pub fn append(&mut self, log_command: LogCommand) -> (p: LogPointer)
        requires
            old(self).wf(),
        ensures
            final(self).wf(),
            final(self).current_seq == old(self).current_seq,
            final(self).files().len() == old(self).files().len(),
            final(self).files().drop_last() == old(self).files().drop_last(),
            final(self).active_data() == old(self).active_data() + spec_record(log_command@),
            final(self).replayed() == apply_command(old(self).replayed(), log_command@),
            p.segment_id == old(self).current_seq,
            p.offset == old(self).active_data().len(),
            p.offset + p.length == final(self).active_data().len(),
            ptr_resolves_to(final(self).files(), p, log_command@),
    {
        let payload = log_command.encode();
        let payload_len = payload.len();
        proof {
            assert(usize::MAX <= u64::MAX);
            assert(cmd_encodable(log_command@));
        }
        let frame = Frame::new(payload.as_slice());
        let mut rec = frame.encode();
        let rec_len = rec.len();
        let ghost old_files = self.files();
        let mut seg = self.segments.pop().unwrap();
        let offset = seg.data.len();
        seg.data.append(&mut rec);
        self.segments.push(seg);
        let p = LogPointer::new(self.current_seq, offset as u64, rec_len as u64);
        proof {
            let new_files = self.files();
            assert(new_files.drop_last() =~= old_files.drop_last());
            assert(new_files.last().data =~= old_files.last().data + spec_record(
                log_command@,
            ));
            lemma_replay_files_extend_last(old_files, new_files, log_command@);
            lemma_record_at_appended(old_files.last().data, log_command@, Seq::<u8>::empty());
            assert(old_files.last().data + spec_record(log_command@) + Seq::<u8>::empty()
                =~= new_files.last().data);
            assert forall|i: int, j: int| 0 <= i < j < new_files.len() implies new_files[i].seq_id
                < new_files[j].seq_id by {
                assert(old_files[i].seq_id < old_files[j].seq_id);
            }
            lemma_segment_data_at(new_files, new_files.len() - 1);
        }
        p
    }

    /// Reads the command a pointer lands on; `ReadFromLog` when the
    /// pointer does not resolve to a record.
    pub fn get(&self, log_pointer: &LogPointer) -> (r: Result<LogCommand, KvsError>)
        requires
            seqs_sorted(self.files()),
        ensures
            match r {
                Ok(c) => lookup_record(self.files(), *log_pointer) == Some(c@),
                Err(e) => e == KvsError::ReadFromLog && lookup_record(self.files(), *log_pointer)
                    is None,
            },
    {
        match self.find_segment(log_pointer.segment_id) {
            Some(i) => {
                proof {
                    lemma_segment_data_at(self.files(), i as int);
                }
                let seg = vec_index(&self.segments, i);
                if log_pointer.offset > seg.data.len() as u64 {
                    return Err(KvsError::ReadFromLog);
                }
                match decode_record(&seg.data, log_pointer.offset as usize) {
                    Some((cmd, end)) => Ok(cmd),
                    None => Err(KvsError::ReadFromLog),
                }
            },
            None => Err(KvsError::ReadFromLog),
        }
    }

    /// Reads the value a pointer lands on: the value of its `Insert`
    /// record, or `None` when the record there is not an `Insert`.
    pub fn get_value(&self, log_pointer: &LogPointer) -> (r: Result<Option<String>, KvsError>)
        requires
            seqs_sorted(self.files()),
        ensures
            match r {
                Ok(opt) => match lookup_record(self.files(), *log_pointer) {
                    Some(CommandView::Insert(k, v)) => opt is Some && opt.unwrap()@ == v,
                    Some(CommandView::Remove(k)) => opt is None,
                    None => false,
                },
                Err(e) => e == KvsError::ReadFromLog && lookup_record(self.files(), *log_pointer)
                    is None,
            },
    {
        let value = match self.get(log_pointer)? {
            LogCommand::Insert(_, value) => Some(value),
            _ => None,
        };
        Ok(value)
    }

    /// Opens a fresh, empty segment with sequence number `new_seq` at the
    /// end of the list.  The caller owns creating the segment's file.
    pub fn new_log_file(&mut self, new_seq: u64)
        requires
            seqs_sorted(old(self).files()),
            old(self).files().len() > 0 ==> old(self).files().last().seq_id < new_seq,
        ensures
            final(self).files() == old(self).files().push(
                SegmentView { seq_id: new_seq, data: Seq::<u8>::empty() },
            ),
            final(self).current_seq == old(self).current_seq,
            seqs_sorted(final(self).files()),
            final(self).replayed() == old(self).replayed(),
    {
        let ghost old_files = self.files();
        self.segments.push(SegmentFile { seq_id: new_seq, data: Vec::new() });
        proof {
            let new_files = self.files();
            let s = SegmentView { seq_id: new_seq, data: Seq::<u8>::empty() };
            assert(new_files =~= old_files.push(s));
            assert forall|i: int, j: int| 0 <= i < j < new_files.len() implies new_files[i].seq_id
                < new_files[j].seq_id by {
                if j < new_files.len() - 1 {
                    assert(old_files[i].seq_id < old_files[j].seq_id);
                } else {
                    if i < old_files.len() - 1 {
                        assert(old_files[i].seq_id < old_files[old_files.len() - 1].seq_id);
                    }
                }
            }
            lemma_replay_files_push_empty(old_files, s);
        }
    }

    /// Allocates the sequence numbers for one compaction cycle: the commit
    /// segment gets `current_seq + 1`, future writes go to a fresh active
    /// segment at `current_seq + 2`.  Returns the commit sequence number.
    pub fn prepare_commit(&mut self) -> (commit_seq: u64)
        requires
            old(self).wf(),
            old(self).current_seq <= u64::MAX - 2,
        ensures
            final(self).wf(),
            commit_seq == old(self).current_seq + 1,
            final(self).current_seq == old(self).current_seq + 2,
            final(self).files() == old(self).files().push(
                SegmentView { seq_id: commit_seq, data: Seq::<u8>::empty() },
            ).push(
                SegmentView { seq_id: (old(self).current_seq + 2) as u64, data: Seq::<u8>::empty() },
            ),
            final(self).replayed() == old(self).replayed(),
            has_segment(final(self).files(), commit_seq),
    {
        let commit_seq = self.current_seq + 1;
        let next_seq = self.current_seq + 2;
        self.new_log_file(commit_seq);
        self.new_log_file(next_seq);
        self.current_seq = next_seq;
        proof {
            let fs = self.files();
            assert(fs.last() == SegmentView { seq_id: next_seq, data: Seq::<u8>::empty() });
            assert(records_aligned(fs.last().data, 0));
            lemma_segment_data_at(fs, fs.len() - 2);
        }
        commit_seq
    }

    /// Copies the `pointer.length` bytes at `pointer` — one whole record —
    /// into the commit segment, byte for byte, and returns how many bytes
    /// were written.
    pub fn stage_to_commit_file(&mut self, commit_seq: u64, pointer: &LogPointer) -> (n: u64)
        requires
            seqs_sorted(old(self).files()),
            has_segment(old(self).files(), commit_seq),
            has_segment(old(self).files(), pointer.segment_id),
            pointer.segment_id != commit_seq,
            pointer.offset + pointer.length <= segment_data(
                old(self).files(),
                pointer.segment_id,
            ).len(),
        ensures
            n == pointer.length,
            final(self).current_seq == old(self).current_seq,
            final(self).files().len() == old(self).files().len(),
            forall|i: int|
                0 <= i < old(self).files().len() ==> #[trigger] final(self).files()[i].seq_id
                    == old(self).files()[i].seq_id,
            forall|i: int|
                0 <= i < old(self).files().len() && old(self).files()[i].seq_id != commit_seq
                    ==> #[trigger] final(self).files()[i].data == old(self).files()[i].data,
            seqs_sorted(final(self).files()),
            segment_data(final(self).files(), commit_seq) == segment_data(
                old(self).files(),
                commit_seq,
            ) + segment_data(old(self).files(), pointer.segment_id).subrange(
                pointer.offset as int,
                pointer.offset + pointer.length,
            ),
            segment_data(final(self).files(), commit_seq).len() <= usize::MAX,
    {
        let ghost old_files = self.files();
        let si = self.find_segment(pointer.segment_id).unwrap();
        proof {
            lemma_segment_data_at(old_files, si as int);
        }
        let src = vec_index(&self.segments, si);
        let src_len = src.data.len();
        proof {
            assert(pointer.offset + pointer.length <= src.data@.len());
            assert(src.data@.len() <= usize::MAX);
        }
        let off = pointer.offset as usize;
        let src_end = off + pointer.length as usize;
        let mut chunk = slice_to_vec(slice_subrange(src.data.as_slice(), off, src_end));
        proof {
            assert(chunk@ == segment_data(old_files, pointer.segment_id).subrange(
                pointer.offset as int,
                pointer.offset + pointer.length,
            ));
        }
        let ci = self.find_segment(commit_seq).unwrap();
        proof {
            lemma_segment_data_at(old_files, ci as int);
        }
        let ghost chunk_view = chunk@;
        let mut seg = self.segments.remove(ci);
        seg.data.append(&mut chunk);
        let commit_len = seg.data.len();
        self.segments.insert(ci, seg);
        proof {
            let new_files = self.files();
            assert(new_files =~= old_files.update(
                ci as int,
                SegmentView { seq_id: commit_seq, data: old_files[ci as int].data + chunk_view },
            ));
            assert forall|i: int| 0 <= i < old_files.len() implies #[trigger] new_files[i].seq_id
                == old_files[i].seq_id && (old_files[i].seq_id != commit_seq ==> new_files[i].data
                == old_files[i].data) by {
                if i < ci as int {
                    assert(new_files[i] == old_files[i]);
                } else if i > ci as int {
                    assert(new_files[i] == old_files[i]);
                } else {
                    lemma_sorted_ids_unique(old_files, i, ci as int);
                }
            }
            assert forall|i: int, j: int| 0 <= i < j < new_files.len() implies new_files[i].seq_id
                < new_files[j].seq_id by {
                assert(old_files[i].seq_id < old_files[j].seq_id);
            }
            lemma_segment_data_at(new_files, ci as int);
            assert(segment_data(new_files, commit_seq).len() == commit_len);
        }
        pointer.length
    }

    /// Closes and discards every segment whose sequence number is below
    /// `commit_seq`.  The caller owns unlinking their files.
    pub fn remove_stale_logs(&mut self, commit_seq: u64)
        requires
            old(self).wf(),
            commit_seq <= old(self).current_seq,
        ensures
            final(self).wf(),
            final(self).current_seq == old(self).current_seq,
            final(self).files() == old(self).files().filter(live_pred(commit_seq)),
    {
        let ghost orig = self.files();
        let ghost pred = live_pred(commit_seq);
        let n = self.segments.len();
        let mut kept: Vec<SegmentFile> = Vec::new();
        let mut i: usize = 0;
        while i < n
            invariant
                i <= n,
                1 <= n == orig.len(),
                pred == live_pred(commit_seq),
                seqs_sorted(orig),
                orig[n - 1].seq_id == old(self).current_seq,
                commit_seq <= old(self).current_seq,
                records_aligned(orig[n - 1].data, 0),
                self.current_seq == old(self).current_seq,
                self.segments@.len() == n - i,
                forall|j: int| 0 <= j < n - i ==> #[trigger] self.segments@[j]@ == orig[j + i],
                files_view(kept@) == orig.take(i as int).filter(pred),
                seqs_sorted(files_view(kept@)),
                forall|j: int|
                    i <= j < n && files_view(kept@).len() > 0 ==> files_view(kept@).last().seq_id
                        < #[trigger] orig[j].seq_id,
                i > 0 && pred(orig[i - 1]) ==> files_view(kept@).len() > 0 && files_view(
                    kept@,
                ).last() == orig[i - 1],
            decreases n - i,
        {
            let ghost prev_kept = files_view(kept@);
            let s = self.segments.remove(0);
            proof {
                assert(s@ == orig[i as int]);
                reveal(Seq::filter);
                assert(orig.take(i + 1 as int).drop_last() =~= orig.take(i as int));
                assert(orig.take(i + 1 as int).last() == orig[i as int]);
            }
            let keep_it = s.seq_id >= commit_seq;
            if keep_it {
                kept.push(s);
                proof {
                    assert(files_view(kept@) =~= prev_kept.push(orig[i as int]));
                    assert forall|x: int, y: int|
                        0 <= x < y < files_view(kept@).len() implies files_view(kept@)[x].seq_id
                        < files_view(kept@)[y].seq_id by {
                        if y < files_view(kept@).len() - 1 {
                            assert(prev_kept[x].seq_id < prev_kept[y].seq_id);
                        } else {
                            if x < prev_kept.len() - 1 {
                                assert(prev_kept[x].seq_id < prev_kept[prev_kept.len() - 1].seq_id);
                            }
                        }
                    }
                }
            }
            i = i + 1;
        }
        self.segments = kept;
        proof {
            assert(orig.take(n as int) =~= orig);
            let fs = self.files();
            assert(pred(orig[n - 1]));
            assert(fs.last() == orig[n - 1]);
            assert(records_aligned(fs.last().data, 0));
        }
    }
}

} // verus!
