//! The store facade: the public set/get/remove API over the log manager
//! and the key directory, with superseded-byte accounting and online
//! compaction.

use crate::codec::{CommandView, LogCommand};
use crate::errors::KvsError;
use crate::keydir::{lemma_entries_map_contains, lemma_entries_map_index, KeyDir};
use crate::log::{files_view, has_segment, lemma_resolution_stable_grow, lemma_resolution_stable_push, lemma_segment_data_at, lemma_sorted_ids_unique, live_pred, ptr_resolves_to, segment_data, seqs_sorted, Log, LogPointer, SegmentFile};
use crate::replay::{apply_command, apply_commands, cost_files, counter_matches, record_at, records_aligned, replay_commands, replay_files, replay_segment, spec_record, KvMap, SegmentView};
use crate::replay::{lemma_apply_commands_push, lemma_record_at_appended, lemma_record_bytes, lemma_replay_append};
use crate::utils::index_consistent;
use vstd::prelude::*;

verus! {

/// Compaction runs once the superseded bytes exceed this many.
pub const UNCOMPACTED_BYTES_THRESHOLD: u64 = 1_024 * 1_024;

/// Addition on the superseded-byte counter, pinned at the top of its
/// range.
pub open spec fn spec_saturating_sum(a: u64, b: u64) -> u64 {
    if a + b > u64::MAX {
        u64::MAX
    } else {
        (a + b) as u64
    }
}

/// Whether a counter value triggers compaction: it exceeds the threshold
/// and two fresh sequence numbers are still available.
pub open spec fn compaction_due(counter: u64, current_seq: u64) -> bool {
    counter > UNCOMPACTED_BYTES_THRESHOLD && current_seq <= u64::MAX - 2
}

/// Every segment of `post` either existed in `pre` or carries a sequence
/// number above `pre`'s current one: sequence numbers are only ever
/// assigned upward.
pub open spec fn segments_advanced(
    pre: Seq<SegmentView>,
    pre_seq: u64,
    post: Seq<SegmentView>,
) -> bool {
    forall|i: int|
        0 <= i < post.len() ==> has_segment(pre, #[trigger] post[i].seq_id) || post[i].seq_id
            > pre_seq
}

/// The persistent key-value store.
#[derive(Debug)]
pub struct KvStore {
    pub log: Log,
    pub index: KeyDir,
    pub uncompacted_bytes: u64,
}

impl KvStore {
    /// The visible key-to-value map: what the segment images replay to.
    pub open spec fn kv(&self) -> KvMap {
        self.log.replayed()
    }

    /// The segment images, in replay order.
    pub open spec fn files(&self) -> Seq<SegmentView> {
        self.log.files()
    }

    /// The store's invariant: the log manager and directory are well
    /// formed, and the directory indexes exactly the live keys of the
    /// replayed map, each pointer landing on the record of its key's
    /// current value.
    pub open spec fn wf(&self) -> bool {
        &&& self.log.wf()
        &&& self.index.wf()
        &&& index_consistent(self.log.files(), self.index@, self.log.replayed())
    }

    /// Opens a store over a survey of a directory's segment images.
    /// Fails with `Io` only when a surveyed segment already carries the
    /// largest possible sequence number.
    pub fn open(existing: Vec<SegmentFile>) -> (r: Result<KvStore, KvsError>)
        ensures
            match r {
                Ok(s) => {
                    &&& s.wf()
                    &&& seqs_sorted(files_view(existing@)) ==> s.kv() == replay_files(
                        files_view(existing@),
                    ) && counter_matches(
                        cost_files(files_view(existing@)).superseded,
                        s.uncompacted_bytes,
                    )
                },
                Err(e) => {
                    &&& e == KvsError::Io
                    &&& exists|i: int|
                        0 <= i < existing@.len() && #[trigger] files_view(existing@)[i].seq_id
                            == u64::MAX
                },
            },
    {
        let (uncompacted_bytes, index, log) = match Log::init(existing) {
            Ok(t) => t,
            Err(e) => {
                return Err(e);
            },
        };
        Ok(KvStore { log, index, uncompacted_bytes })
    }

    /// Opens an empty store with no history.
    pub fn new() -> (s: KvStore)
        ensures
            s.wf(),
            s.kv() == Map::<Seq<char>, Seq<char>>::empty(),
            s.uncompacted_bytes == 0,
    {
        let empty: Vec<SegmentFile> = Vec::new();
        proof {
            assert(files_view(empty@) =~= Seq::<SegmentView>::empty());
            assert(replay_files(Seq::<SegmentView>::empty()) == Map::<
                Seq<char>,
                Seq<char>,
            >::empty());
            assert(cost_files(Seq::<SegmentView>::empty()).superseded == 0);
        }
        let r = KvStore::open(empty);
        r.unwrap()
    }

    /// The segment images the store currently holds, for the front end
    /// that mirrors them to disk and for reopening.
    pub fn segments(&self) -> (r: &Vec<SegmentFile>)
        ensures
            files_view(r@) == self.files(),
    {
        &self.log.segments
    }

    /// The value `key` maps to, or `None` when it has no live mapping.
    pub fn get(&self, key: &str) -> (r: Result<Option<String>, KvsError>)
        requires
            self.wf(),
        ensures
            match r {
                Ok(Some(v)) => self.kv().contains_key(key@) && v@ == self.kv()[key@],
                Ok(None) => !self.kv().contains_key(key@),
                Err(e) => false,
            },
    {
        match self.index.get(key) {
            Some(pointer) => {
                match self.log.get_value(&pointer) {
                    Ok(opt) => {
                        proof {
                            assert(ptr_resolves_to(
                                self.files(),
                                pointer,
                                CommandView::Insert(key@, self.kv()[key@]),
                            ));
                        }
                        Ok(opt)
                    },
                    Err(e) => {
                        proof {
                            assert(ptr_resolves_to(
                                self.files(),
                                pointer,
                                CommandView::Insert(key@, self.kv()[key@]),
                            ));
                            assert(false);
                        }
                        Err(e)
                    },
                }
            },
            None => Ok(None),
        }
    }

    /// Maps `key` to `value`, appending an `Insert` record to the active
    /// segment and installing its pointer; superseding an earlier value
    /// counts its bytes and may trigger compaction.
    pub fn set(&mut self, key: &str, value: &str) -> (r: Result<(), KvsError>)
        requires
            old(self).wf(),
        ensures
            final(self).wf(),
            r is Ok,
            final(self).kv() == old(self).kv().insert(key@, value@),
            final(self).log.current_seq >= old(self).log.current_seq,
            segments_advanced(old(self).files(), old(self).log.current_seq, final(self).files()),
            !old(self).kv().contains_key(key@) ==> final(self).uncompacted_bytes == old(
                self,
            ).uncompacted_bytes,
            old(self).kv().contains_key(key@) ==> {
                let counter = spec_saturating_sum(
                    old(self).uncompacted_bytes,
                    old(self).index@[key@].length,
                );
                if compaction_due(counter, old(self).log.current_seq) {
                    final(self).uncompacted_bytes == 0
                } else {
                    final(self).uncompacted_bytes == counter
                }
            },
    {
        let ghost pre = *old(self);
        let cmd = LogCommand::Insert(key.to_owned(), value.to_owned());
        let pointer = self.log.append(cmd);
        proof {
            let fs1 = self.log.files();
            assert(fs1.len() == pre.files().len());
            assert forall|i: int| 0 <= i < fs1.len() - 1 implies fs1[i] == pre.files()[i] by {
                assert(fs1.drop_last()[i] == fs1[i]);
                assert(pre.files().drop_last()[i] == pre.files()[i]);
            }
            assert(fs1.last().seq_id == pre.files().last().seq_id);
            assert(fs1.last().data == pre.files().last().data + spec_record(
                CommandView::Insert(key@, value@),
            ));
            assert(fs1 =~= pre.files().update(
                pre.files().len() - 1,
                SegmentView {
                    seq_id: pre.files().last().seq_id,
                    data: pre.files().last().data + spec_record(
                        CommandView::Insert(key@, value@),
                    ),
                },
            ));
            assert forall|k: Seq<char>| #[trigger] pre.index@.contains_key(k) implies
                ptr_resolves_to(fs1, pre.index@[k], CommandView::Insert(k, pre.kv()[k])) by {
                lemma_resolution_stable_grow(
                    pre.files(),
                    fs1,
                    pre.files().len() - 1,
                    spec_record(CommandView::Insert(key@, value@)),
                    pre.index@[k],
                    CommandView::Insert(k, pre.kv()[k]),
                );
            }
        }
        let prev = self.index.insert(key, pointer);
        proof {
            let kv1 = self.log.replayed();
            assert(kv1 == pre.kv().insert(key@, value@));
            assert(self.index@.dom() =~= kv1.dom());
            assert forall|i: int| 0 <= i < self.files().len() implies has_segment(
                pre.files(),
                #[trigger] self.files()[i].seq_id,
            ) || self.files()[i].seq_id > pre.log.current_seq by {
                assert(self.files()[i].seq_id == pre.files()[i].seq_id);
            }
        }
        if let Some(prev_pointer) = prev {
            let ghost mid = *self;
            self.add_uncompacted_bytes(prev_pointer.length)?;
            proof {
                assert forall|i: int| 0 <= i < self.files().len() implies has_segment(
                    pre.files(),
                    #[trigger] self.files()[i].seq_id,
                ) || self.files()[i].seq_id > pre.log.current_seq by {
                    if has_segment(mid.files(), self.files()[i].seq_id) {
                        let w = choose|w: int|
                            0 <= w < mid.files().len() && #[trigger] mid.files()[w].seq_id
                                == self.files()[i].seq_id;
                        assert(mid.files()[w].seq_id == pre.files()[w].seq_id);
                    }
                }
            }
        }
        Ok(())
    }

    /// Drops `key`'s mapping, appending a `Remove` record; fails with
    /// `KeyNotFound`, changing nothing, when the key has no live mapping.
    pub fn remove(&mut self, key: &str) -> (r: Result<(), KvsError>)
        requires
            old(self).wf(),
        ensures
            final(self).wf(),
            old(self).kv().contains_key(key@) ==> {
                &&& r is Ok
                &&& final(self).kv() == old(self).kv().remove(key@)
                &&& final(self).log.current_seq >= old(self).log.current_seq
                &&& segments_advanced(
                    old(self).files(),
                    old(self).log.current_seq,
                    final(self).files(),
                )
                &&& {
                    let counter = spec_saturating_sum(
                        old(self).uncompacted_bytes,
                        old(self).index@[key@].length,
                    );
                    if compaction_due(counter, old(self).log.current_seq) {
                        final(self).uncompacted_bytes == 0
                    } else {
                        final(self).uncompacted_bytes == counter
                    }
                }
            },
            !old(self).kv().contains_key(key@) ==> r == Err::<(), KvsError>(KvsError::KeyNotFound)
                && *final(self) == *old(self),
    {
        let ghost pre = *old(self);
        if self.index.get(key).is_none() {
            return Err(KvsError::KeyNotFound);
        }
        let cmd = LogCommand::Remove(key.to_owned());
        let _pointer = self.log.append(cmd);
        proof {
            let fs1 = self.log.files();
            assert(fs1.len() == pre.files().len());
            assert forall|i: int| 0 <= i < fs1.len() - 1 implies fs1[i] == pre.files()[i] by {
                assert(fs1.drop_last()[i] == fs1[i]);
                assert(pre.files().drop_last()[i] == pre.files()[i]);
            }
            assert(fs1.last().seq_id == pre.files().last().seq_id);
            assert(fs1.last().data == pre.files().last().data + spec_record(
                CommandView::Remove(key@),
            ));
            assert(fs1 =~= pre.files().update(
                pre.files().len() - 1,
                SegmentView {
                    seq_id: pre.files().last().seq_id,
                    data: pre.files().last().data + spec_record(CommandView::Remove(key@)),
                },
            ));
            assert forall|k: Seq<char>| #[trigger] pre.index@.contains_key(k) implies
                ptr_resolves_to(fs1, pre.index@[k], CommandView::Insert(k, pre.kv()[k])) by {
                lemma_resolution_stable_grow(
                    pre.files(),
                    fs1,
                    pre.files().len() - 1,
                    spec_record(CommandView::Remove(key@)),
                    pre.index@[k],
                    CommandView::Insert(k, pre.kv()[k]),
                );
            }
        }
        let prev = self.index.remove(key);
        proof {
            let kv1 = self.log.replayed();
            assert(kv1 == pre.kv().remove(key@));
            assert(self.index@.dom() =~= kv1.dom());
            assert forall|k: Seq<char>| #[trigger] self.index@.contains_key(k) implies
                ptr_resolves_to(self.files(), self.index@[k], CommandView::Insert(
                    k,
                    kv1[k],
                )) by {
                assert(self.index@[k] == pre.index@[k]);
                assert(kv1[k] == pre.kv()[k]);
            }
            assert forall|i: int| 0 <= i < self.files().len() implies has_segment(
                pre.files(),
                #[trigger] self.files()[i].seq_id,
            ) || self.files()[i].seq_id > pre.log.current_seq by {
                assert(self.files()[i].seq_id == pre.files()[i].seq_id);
            }
        }
        let ghost mid = *self;
        let prev_pointer = prev.unwrap();
        self.add_uncompacted_bytes(prev_pointer.length)?;
        proof {
            assert forall|i: int| 0 <= i < self.files().len() implies has_segment(
                pre.files(),
                #[trigger] self.files()[i].seq_id,
            ) || self.files()[i].seq_id > pre.log.current_seq by {
                if has_segment(mid.files(), self.files()[i].seq_id) {
                    let w = choose|w: int|
                        0 <= w < mid.files().len() && #[trigger] mid.files()[w].seq_id
                            == self.files()[i].seq_id;
                    assert(mid.files()[w].seq_id == pre.files()[w].seq_id);
                }
            }
        }
        Ok(())
    }

    /// Counts `bytes_len` superseded bytes, pinning the counter at the
    /// top of its range, and compacts once the counter passes the
    /// threshold and sequence numbers for the cycle are available.
    fn add_uncompacted_bytes(&mut self, bytes_len: u64) -> (r: Result<(), KvsError>)
        requires
            old(self).wf(),
        ensures
            final(self).wf(),
            r is Ok,
            final(self).kv() == old(self).kv(),
            final(self).log.current_seq >= old(self).log.current_seq,
            segments_advanced(old(self).files(), old(self).log.current_seq, final(self).files()),
            ({
                let counter = spec_saturating_sum(old(self).uncompacted_bytes, bytes_len);
                if compaction_due(counter, old(self).log.current_seq) {
                    final(self).uncompacted_bytes == 0
                } else {
                    &&& final(self).uncompacted_bytes == counter
                    &&& final(self).files() == old(self).files()
                    &&& final(self).log.current_seq == old(self).log.current_seq
                    &&& final(self).index@ == old(self).index@
                }
            }),
    {
        self.uncompacted_bytes = if self.uncompacted_bytes > u64::MAX - bytes_len {
            u64::MAX
        } else {
            self.uncompacted_bytes + bytes_len
        };
        if self.uncompacted_bytes > UNCOMPACTED_BYTES_THRESHOLD && self.log.current_seq <= u64::MAX
            - 2 {
            self.compact()?;
        }
        Ok(())
    }

    /// Rewrites every live record into a fresh commit segment, redirects
    /// the index to it, and discards all older segments.  The visible map
    /// is unchanged; afterwards every segment's sequence number is at
    /// least the commit one and the superseded-byte counter is zero.
    fn compact(&mut self) -> (r: Result<(), KvsError>)
        requires
            old(self).wf(),
            old(self).log.current_seq <= u64::MAX - 2,
        ensures
            final(self).wf(),
            r is Ok,
            final(self).kv() == old(self).kv(),
            final(self).uncompacted_bytes == 0,
            final(self).log.current_seq == old(self).log.current_seq + 2,
            forall|i: int|
                0 <= i < final(self).files().len() ==> #[trigger] final(self).files()[i].seq_id
                    > old(self).log.current_seq,
    {
        let ghost pre = *old(self);
        let ghost kv0 = pre.kv();
        let commit_seq = self.log.prepare_commit();
        let ghost fs0 = self.log.files();
        proof {
            let commit_view = SegmentView { seq_id: commit_seq, data: Seq::<u8>::empty() };
            let active_view = SegmentView {
                seq_id: (pre.log.current_seq + 2) as u64,
                data: Seq::<u8>::empty(),
            };
            assert forall|k: Seq<char>| #[trigger] self.index@.contains_key(k) implies
                ptr_resolves_to(fs0, self.index@[k], CommandView::Insert(k, kv0[k])) by {
                lemma_resolution_stable_push(
                    pre.files(),
                    commit_view,
                    self.index@[k],
                    CommandView::Insert(k, kv0[k]),
                );
                lemma_resolution_stable_push(
                    pre.files().push(commit_view),
                    active_view,
                    self.index@[k],
                    CommandView::Insert(k, kv0[k]),
                );
            }
            lemma_segment_data_at(fs0, fs0.len() - 2);
            assert(segment_data(fs0, commit_seq) == Seq::<u8>::empty());
            assert(records_aligned(Seq::<u8>::empty(), 0));
            assert(replay_commands(Seq::<u8>::empty(), 0) =~= Seq::<CommandView>::empty());
            assert forall|k: Seq<char>| #[trigger] self.index@.contains_key(k) implies
                self.index@[k].segment_id < commit_seq by {
                let w = choose|w: int|
                    0 <= w < pre.files().len() && #[trigger] pre.files()[w].seq_id
                        == self.index@[k].segment_id;
                if pre.files()[w].seq_id > pre.files().last().seq_id {
                    assert(false);
                }
            }
        }
        let ghost entries0 = self.index.entries_view();
        proof {
            assert forall|j: int| 0 <= j < entries0.len() implies #[trigger] kv0.contains_key(
                entries0[j].0@,
            ) by {
                lemma_entries_map_index(entries0, j);
            }
            assert forall|j: int| 0 <= j < entries0.len() implies (#[trigger] entries0[
                j
            ].1).segment_id < commit_seq by {
                lemma_entries_map_index(entries0, j);
                assert(self.index@[entries0[j].0@] == entries0[j].1);
            }
            assert forall|j: int| 0 <= j < entries0.len() implies ptr_resolves_to(
                fs0,
                #[trigger] self.index.entries_view()[j].1,
                CommandView::Insert(entries0[j].0@, kv0[entries0[j].0@]),
            ) by {
                lemma_entries_map_index(entries0, j);
                assert(self.index@[entries0[j].0@] == entries0[j].1);
            }
        }
        let ghost mut staged: KvMap = Map::empty();
        let n = self.index.len();
        let mut offset: u64 = 0;
        let mut i: usize = 0;
        while i < n
            invariant
                i <= n,
                n == self.index.entries_view().len(),
                n == entries0.len(),
                self.index.wf(),
                self.index@.dom() == kv0.dom(),
                forall|j: int|
                    0 <= j < n ==> #[trigger] self.index.entries_view()[j].0@ == entries0[j].0@,
                forall|j: int|
                    i <= j < n ==> #[trigger] self.index.entries_view()[j].1 == entries0[j].1,
                self.uncompacted_bytes == pre.uncompacted_bytes,
                self.log.current_seq == pre.log.current_seq + 2,
                commit_seq == pre.log.current_seq + 1,
                self.log.files().len() == fs0.len(),
                fs0.len() >= 2,
                seqs_sorted(self.log.files()),
                forall|j: int|
                    0 <= j < fs0.len() ==> #[trigger] self.log.files()[j].seq_id == fs0[j].seq_id,
                forall|j: int|
                    0 <= j < fs0.len() && fs0[j].seq_id != commit_seq ==> #[trigger] self.log.files()[j].data == fs0[j].data,
                fs0[fs0.len() - 2].seq_id == commit_seq,
                fs0[fs0.len() - 1].seq_id == pre.log.current_seq + 2,
                fs0[fs0.len() - 1].data == Seq::<u8>::empty(),
                has_segment(self.log.files(), commit_seq),
                offset == segment_data(self.log.files(), commit_seq).len(),
                records_aligned(segment_data(self.log.files(), commit_seq), 0),
                staged == apply_commands(
                    Map::<Seq<char>, Seq<char>>::empty(),
                    replay_commands(segment_data(self.log.files(), commit_seq), 0),
                ),
                forall|k: Seq<char>|
                    #[trigger] staged.contains_key(k) <==> exists|j: int|
                        0 <= j < i && #[trigger] entries0[j].0@ == k,
                forall|k: Seq<char>| #[trigger] staged.contains_key(k) ==> staged[k] == kv0[k],
                forall|j: int|
                    0 <= j < i ==> #[trigger] self.index.entries_view()[j].1.segment_id
                        == commit_seq,
                forall|j: int|
                    0 <= j < n ==> ptr_resolves_to(
                        self.log.files(),
                        #[trigger] self.index.entries_view()[j].1,
                        CommandView::Insert(entries0[j].0@, kv0[entries0[j].0@]),
                    ),
                forall|j: int|
                    i <= j < n ==> #[trigger] entries0[j].1.segment_id < commit_seq,
                forall|j: int|
                    0 <= j < n ==> #[trigger] kv0.contains_key(entries0[j].0@),
            decreases n - i,
        {
            let ghost files_before = self.log.files();
            let ghost commit_before = segment_data(files_before, commit_seq);
            let ghost key_j = entries0[i as int].0@;
            let ghost cmd_j = CommandView::Insert(key_j, kv0[key_j]);
            let old_ptr = self.index.entry_at(i).1;
            proof {
                assert(old_ptr == self.index.entries_view()[i as int].1);
                assert(ptr_resolves_to(files_before, old_ptr, cmd_j));
                lemma_record_bytes(
                    segment_data(files_before, old_ptr.segment_id),
                    old_ptr.offset as int,
                    cmd_j,
                    old_ptr.offset + old_ptr.length,
                );
            }
            let n_bytes = self.log.stage_to_commit_file(commit_seq, &old_ptr);
            let new_ptr = LogPointer::new(commit_seq, offset, n_bytes);
            self.index.set_ptr_at(i, new_ptr);
            proof {
                let files_after = self.log.files();
                let commit_after = segment_data(files_after, commit_seq);
                let ci = choose|w: int|
                    0 <= w < files_before.len() && #[trigger] files_before[w].seq_id == commit_seq;
                lemma_segment_data_at(files_before, ci);
                lemma_segment_data_at(files_after, ci);
                assert(commit_after == commit_before + spec_record(cmd_j));
                assert forall|x: int|
                    0 <= x < files_before.len() && x != ci implies #[trigger] files_before[x].seq_id
                    != commit_seq by {
                    if files_before[x].seq_id == commit_seq {
                        lemma_sorted_ids_unique(files_before, x, ci);
                    }
                }
                assert(files_after =~~= files_before.update(
                    ci,
                    SegmentView { seq_id: commit_seq, data: commit_before + spec_record(cmd_j) },
                ));
                lemma_replay_append(commit_before, cmd_j, 0);
                lemma_apply_commands_push(
                    Map::<Seq<char>, Seq<char>>::empty(),
                    replay_commands(commit_before, 0),
                    cmd_j,
                );
                staged = staged.insert(key_j, kv0[key_j]);
                lemma_record_at_appended(commit_before, cmd_j, Seq::<u8>::empty());
                assert(commit_before + spec_record(cmd_j) + Seq::<u8>::empty() =~= commit_after);
                assert(record_at(commit_after, offset as int) == Some(
                    (cmd_j, offset + n_bytes as int),
                ));
                assert(ptr_resolves_to(files_after, new_ptr, cmd_j));
                assert forall|j: int| 0 <= j < n && j != i implies ptr_resolves_to(
                    files_after,
                    #[trigger] self.index.entries_view()[j].1,
                    CommandView::Insert(entries0[j].0@, kv0[entries0[j].0@]),
                ) by {
                    lemma_resolution_stable_grow(
                        files_before,
                        files_after,
                        ci,
                        spec_record(cmd_j),
                        self.index.entries_view()[j].1,
                        CommandView::Insert(entries0[j].0@, kv0[entries0[j].0@]),
                    );
                }
                assert forall|k: Seq<char>| #[trigger] staged.contains_key(k) implies (
                exists|j: int| 0 <= j < i + 1 && #[trigger] entries0[j].0@ == k) by {
                    if k == key_j {
                        assert(entries0[i as int].0@ == k);
                    }
                }
            }
            proof {
                assert(segment_data(self.log.files(), commit_seq).len() <= usize::MAX);
                assert(offset + n_bytes <= usize::MAX);
            }
            offset = offset + n_bytes;
            i = i + 1;
        }
        proof {
            assert forall|k: Seq<char>| #[trigger] kv0.contains_key(k) implies
                staged.contains_key(k) by {
                assert(self.index@.contains_key(k));
                lemma_entries_map_contains(self.index.entries_view(), k);
                let j = choose|j: int|
                    0 <= j < self.index.entries_view().len() && #[trigger] self.index.entries_view()[j].0@ == k;
                assert(entries0[j].0@ == k);
            }
            assert forall|k: Seq<char>| #[trigger] staged.contains_key(k) implies
                kv0.contains_key(k) by {
                let j = choose|j: int| 0 <= j < n && #[trigger] entries0[j].0@ == k;
            }
            assert(staged =~= kv0);
        }
        let ghost files_staged = self.log.files();
        self.log.remove_stale_logs(commit_seq);
        proof {
            let files_final = self.log.files();
            let commit_view = SegmentView {
                seq_id: commit_seq,
                data: segment_data(files_staged, commit_seq),
            };
            let active_view = SegmentView {
                seq_id: (pre.log.current_seq + 2) as u64,
                data: Seq::<u8>::empty(),
            };
            let m = fs0.len() - 2;
            assert(files_staged[m].seq_id == commit_seq);
            lemma_segment_data_at(files_staged, m);
            assert(files_staged[m] =~= commit_view);
            assert(files_staged[m + 1] =~= active_view) by {
                assert(fs0[m + 1].seq_id != commit_seq);
                assert(files_staged[m + 1].seq_id == fs0[m + 1].seq_id);
                assert(files_staged[m + 1].data == fs0[m + 1].data);
                assert(files_staged[m + 1].data == Seq::<u8>::empty());
            }
            assert(files_staged =~~= files_staged.take(m) + seq![commit_view, active_view]);
            assert forall|j: int| 0 <= j < m implies !live_pred(commit_seq)(
                #[trigger] files_staged.take(m)[j],
            ) by {
                assert(files_staged.take(m)[j].seq_id == fs0[j].seq_id);
                assert(fs0[j].seq_id < fs0[m].seq_id);
            }
            files_staged.take(m).lemma_all_neg_filter_empty(live_pred(commit_seq));
            Seq::<SegmentView>::filter_distributes_over_add(
                files_staged.take(m),
                seq![commit_view, active_view],
                live_pred(commit_seq),
            );
            reveal(Seq::filter);
            assert(seq![commit_view, active_view].drop_last() =~= seq![commit_view]);
            assert(seq![commit_view].drop_last() =~= Seq::<SegmentView>::empty());
            assert(seq![commit_view].filter(live_pred(commit_seq)) =~= seq![commit_view]);
            assert(seq![commit_view, active_view].filter(live_pred(commit_seq)) =~= seq![
                commit_view,
                active_view,
            ]);
            assert(files_final =~~= seq![commit_view, active_view]);
            // The filtered pair replays to exactly the staged map.
            assert(files_final.drop_last() =~= seq![commit_view]);
            assert(seq![commit_view].drop_last() =~= Seq::<SegmentView>::empty());
            assert(replay_files(files_final) == replay_segment(
                replay_files(seq![commit_view]),
                active_view.data,
            ));
            assert(replay_commands(active_view.data, 0) =~= Seq::<CommandView>::empty());
            assert(replay_files(seq![commit_view]) == replay_segment(
                replay_files(Seq::<SegmentView>::empty()),
                commit_view.data,
            ));
            assert(replay_files(files_final) == staged);
            // Every index pointer still resolves in the filtered pair.
            lemma_segment_data_at(files_final, 0);
            assert forall|k: Seq<char>| #[trigger] self.index@.contains_key(k) implies
                ptr_resolves_to(files_final, self.index@[k], CommandView::Insert(
                    k,
                    replay_files(files_final)[k],
                )) by {
                lemma_entries_map_contains(self.index.entries_view(), k);
                let j = choose|j: int|
                    0 <= j < self.index.entries_view().len() && #[trigger] self.index.entries_view()[j].0@ == k;
                lemma_entries_map_index(self.index.entries_view(), j);
                assert(self.index@[k] == self.index.entries_view()[j].1);
                assert(ptr_resolves_to(
                    files_staged,
                    self.index@[k],
                    CommandView::Insert(entries0[j].0@, kv0[entries0[j].0@]),
                ));
                assert(segment_data(files_final, commit_seq) == segment_data(
                    files_staged,
                    commit_seq,
                ));
            }
            assert(self.index@.dom() =~= replay_files(files_final).dom());
        }
        self.uncompacted_bytes = 0;
        Ok(())
    }
}


impl Default for KvStore {
    /// The same empty store `new` builds.
    fn default() -> (s: KvStore)
        ensures
            s.wf(),
            s.kv() == Map::<Seq<char>, Seq<char>>::empty(),
            s.uncompacted_bytes == 0,
    {
        KvStore::new()
    }
}

} // verus!
