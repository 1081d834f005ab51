//! Helpers around the log: replaying segments into an index and putting a
//! directory survey of segments into replay order.

use crate::codec::{string_from_utf8, CommandView, LogCommand};
use crate::frame::push_bytes;
use crate::keydir::KeyDir;
use crate::log::{decode_record, files_view, has_segment, lemma_segment_data_at, ptr_resolves_to, segment_data, seqs_sorted, LogPointer, SegmentFile};
use crate::replay::{apply_command, apply_commands, cost_command, cost_commands, cost_files, counter_matches, initial_cost, record_at, replay_commands, replay_files, replay_segment, KvMap, ReplayCost, SegmentView};
use vstd::arithmetic::div_mod::lemma_fundamental_div_mod;
use vstd::prelude::*;
use vstd::std_specs::vec::vec_index;
use vstd::utf8::{encode_utf8, encode_utf8_decode_utf8, encode_utf8_valid_utf8, is_ascii_chars, is_ascii_chars_encode_utf8};

verus! {

/// The index invariant: the directory holds exactly the live keys of the
/// map `kv`, and each key's pointer lands on exactly the `Insert` record
/// carrying that key and its current value.
pub open spec fn index_consistent(
    files: Seq<SegmentView>,
    dir: Map<Seq<char>, LogPointer>,
    kv: KvMap,
) -> bool {
    &&& dir.dom() == kv.dom()
    &&& forall|k: Seq<char>|
        #[trigger] dir.contains_key(k) ==> ptr_resolves_to(
            files,
            dir[k],
            CommandView::Insert(k, kv[k]),
        )
}

/// Replays every segment in order and materializes the live-key index,
/// together with the number of bytes occupied by records that a later
/// record superseded.  Replay of each segment stops cleanly at its first
/// torn or malformed record.
pub fn build_index(segments: &Vec<SegmentFile>) -> (r: (u64, KeyDir))
    requires
        seqs_sorted(files_view(segments@)),
    ensures
        r.1.wf(),
        index_consistent(files_view(segments@), r.1@, replay_files(files_view(segments@))),
        counter_matches(cost_files(files_view(segments@)).superseded, r.0),
{
    let ghost fv = files_view(segments@);
    let mut dir = KeyDir::new();
    let mut uncompacted: u64 = 0;
    let n = segments.len();
    let mut i: usize = 0;
    proof {
        assert(fv.take(0) =~= Seq::<SegmentView>::empty());
        assert(replay_files(Seq::<SegmentView>::empty()) == Map::<Seq<char>, Seq<char>>::empty());
        assert(dir@.dom() =~= replay_files(fv.take(0)).dom());
        assert(cost_files(Seq::<SegmentView>::empty()) == initial_cost());
        assert(cost_files(fv.take(0)).live.dom() =~= dir@.dom());
    }
    while i < n
        invariant
            i <= n,
            n == segments@.len(),
            fv == files_view(segments@),
            seqs_sorted(fv),
            dir.wf(),
            dir@.dom() == replay_files(fv.take(i as int)).dom(),
            counter_matches(cost_files(fv.take(i as int)).superseded, uncompacted),
            cost_files(fv.take(i as int)).live.dom() == dir@.dom(),
            forall|k: Seq<char>|
                #[trigger] dir@.contains_key(k) ==> cost_files(fv.take(i as int)).live[k] == dir@[
                    k
                ].length,
            forall|k: Seq<char>|
                #[trigger] dir@.contains_key(k) ==> ptr_resolves_to(
                    fv,
                    dir@[k],
                    CommandView::Insert(k, replay_files(fv.take(i as int))[k]),
                ),
        decreases n - i,
    {
        let seg = vec_index(segments, i);
        let ghost m0 = replay_files(fv.take(i as int));
        let ghost mut cur: KvMap = m0;
        let ghost c0 = cost_files(fv.take(i as int));
        let ghost mut cost: ReplayCost = c0;
        let mut off: usize = 0;
        proof {
            assert(seg@ == fv[i as int]);
        }
        loop
            invariant_except_break
                0 <= i < n,
                n == segments@.len(),
                fv == files_view(segments@),
                seqs_sorted(fv),
                seg@ == fv[i as int],
                off <= seg.data@.len(),
                dir.wf(),
                apply_commands(cur, replay_commands(seg.data@, off as int)) == replay_segment(
                    m0,
                    seg.data@,
                ),
                cost_commands(cost, seg.data@, off as int) == cost_commands(c0, seg.data@, 0),
                counter_matches(cost.superseded, uncompacted),
                cost.live.dom() == dir@.dom(),
                forall|k: Seq<char>|
                    #[trigger] dir@.contains_key(k) ==> cost.live[k] == dir@[k].length,
                dir@.dom() == cur.dom(),
                forall|k: Seq<char>|
                    #[trigger] dir@.contains_key(k) ==> ptr_resolves_to(
                        fv,
                        dir@[k],
                        CommandView::Insert(k, cur[k]),
                    ),
            ensures
                dir.wf(),
                cur == replay_segment(m0, seg.data@),
                cost == cost_commands(c0, seg.data@, 0),
                counter_matches(cost.superseded, uncompacted),
                cost.live.dom() == dir@.dom(),
                forall|k: Seq<char>|
                    #[trigger] dir@.contains_key(k) ==> cost.live[k] == dir@[k].length,
                dir@.dom() == cur.dom(),
                forall|k: Seq<char>|
                    #[trigger] dir@.contains_key(k) ==> ptr_resolves_to(
                        fv,
                        dir@[k],
                        CommandView::Insert(k, cur[k]),
                    ),
            decreases seg.data@.len() - off,
        {
            match decode_record(&seg.data, off) {
                Some((cmd, end)) => {
                    proof {
                        let cmds = replay_commands(seg.data@, off as int);
                        assert(cmds == seq![cmd@] + replay_commands(seg.data@, end as int));
                        assert(cmds.drop_first() =~= replay_commands(seg.data@, end as int));
                        assert(cmds[0] == cmd@);
                        assert(apply_commands(cur, cmds) == apply_commands(
                            apply_command(cur, cmd@),
                            replay_commands(seg.data@, end as int),
                        ));
                        assert(cost_commands(cost, seg.data@, off as int) == cost_commands(
                            cost_command(cost, cmd@, (end - off) as nat),
                            seg.data@,
                            end as int,
                        ));
                        lemma_segment_data_at(fv, i as int);
                    }
                    match cmd {
                        LogCommand::Insert(key, value) => {
                            let ptr = LogPointer::new(
                                seg.seq_id,
                                off as u64,
                                (end - off) as u64,
                            );
                            let prev = dir.insert(key.as_str(), ptr);
                            if let Some(prev_ptr) = prev {
                                uncompacted = if uncompacted > u64::MAX - prev_ptr.length {
                                    u64::MAX
                                } else {
                                    uncompacted + prev_ptr.length
                                };
                            }
                            proof {
                                cur = apply_command(cur, CommandView::Insert(key@, value@));
                                cost = cost_command(
                                    cost,
                                    CommandView::Insert(key@, value@),
                                    (end - off) as nat,
                                );
                                assert(dir@.dom() =~= cur.dom());
                                assert(cost.live.dom() =~= dir@.dom());
                                assert(ptr_resolves_to(
                                    fv,
                                    ptr,
                                    CommandView::Insert(key@, value@),
                                ));
                            }
                        },
                        LogCommand::Remove(key) => {
                            let prev = dir.remove(key.as_str());
                            if let Some(prev_ptr) = prev {
                                uncompacted = if uncompacted > u64::MAX - prev_ptr.length {
                                    u64::MAX
                                } else {
                                    uncompacted + prev_ptr.length
                                };
                            }
                            proof {
                                cur = apply_command(cur, CommandView::Remove(key@));
                                cost = cost_command(
                                    cost,
                                    CommandView::Remove(key@),
                                    (end - off) as nat,
                                );
                                assert(dir@.dom() =~= cur.dom());
                                assert(cost.live.dom() =~= dir@.dom());
                            }
                        },
                    }
                    off = end;
                },
                None => {
                    proof {
                        assert(replay_commands(seg.data@, off as int) =~= Seq::<
                            CommandView,
                        >::empty());
                        assert(apply_commands(cur, Seq::<CommandView>::empty()) == cur);
                    }
                    break;
                },
            }
        }
        proof {
            assert(fv.take(i + 1).drop_last() =~= fv.take(i as int));
            assert(fv.take(i + 1).last() == fv[i as int]);
            assert(replay_files(fv.take(i + 1)) == replay_segment(m0, seg.data@));
            assert(cost_files(fv.take(i + 1)) == cost_commands(c0, fv[i as int].data, 0));
        }
        i = i + 1;
    }
    proof {
        assert(fv.take(n as int) =~= fv);
    }
    (uncompacted, dir)
}

/// The position of the first segment with the smallest sequence number.
fn find_min_segment(v: &Vec<SegmentFile>) -> (mi: usize)
    requires
        v@.len() > 0,
    ensures
        mi < v@.len(),
        forall|j: int| 0 <= j < v@.len() ==> v@[mi as int]@.seq_id <= #[trigger] v@[j]@.seq_id,
        forall|j: int| 0 <= j < mi ==> v@[mi as int]@.seq_id < #[trigger] v@[j]@.seq_id,
{
    let n = v.len();
    let mut mi: usize = 0;
    let mut i: usize = 1;
    while i < n
        invariant
            1 <= i <= n,
            mi < i,
            n == v@.len(),
            forall|j: int| 0 <= j < i ==> v@[mi as int]@.seq_id <= #[trigger] v@[j]@.seq_id,
            forall|j: int| 0 <= j < mi ==> v@[mi as int]@.seq_id < #[trigger] v@[j]@.seq_id,
        decreases n - i,
    {
        if vec_index(v, i).seq_id < vec_index(v, mi).seq_id {
            mi = i;
        }
        i = i + 1;
    }
    mi
}

/// Puts a directory survey of segments into replay order: ascending by
/// sequence number.  Every returned segment is one of the surveyed ones
/// and no surveyed sequence number is lost; should two entries carry the
/// same number — a directory never does — the one with the earliest
/// minimal position wins and later ones are dropped.  A survey already in
/// replay order comes back unchanged.
#[verifier::rlimit(50)]
pub fn sort_segments(files: Vec<SegmentFile>) -> (r: Vec<SegmentFile>)
    ensures
        seqs_sorted(files_view(r@)),
        seqs_sorted(files_view(files@)) ==> files_view(r@) == files_view(files@),
        files_view(r@).len() <= files_view(files@).len(),
        files_view(r@).len() > 0 <==> files_view(files@).len() > 0,
        forall|j: int|
            0 <= j < files_view(r@).len() ==> files_view(files@).contains(
                #[trigger] files_view(r@)[j],
            ),
        forall|i: int|
            0 <= i < files_view(files@).len() ==> has_segment(
                files_view(r@),
                #[trigger] files_view(files@)[i].seq_id,
            ),
{
    let ghost orig = files_view(files@);
    let n = files.len();
    let mut rest = files;
    let mut out: Vec<SegmentFile> = Vec::new();
    proof {
        assert(files_view(rest@) == orig);
        assert forall|j: int| 0 <= j < rest@.len() implies orig.contains(
            #[trigger] files_view(rest@)[j],
        ) by {
            assert(files_view(rest@)[j] == orig[j]);
        }
        assert(files_view(out@) + files_view(rest@) =~= orig);
    }
    while rest.len() > 0
        invariant
            out@.len() + rest@.len() <= n,
            n == orig.len(),
            seqs_sorted(files_view(out@)),
            out@.len() > 0 ==> orig.len() > 0,
            rest@.len() < n ==> out@.len() > 0,
            forall|j: int|
                0 <= j < rest@.len() && files_view(out@).len() > 0 ==> files_view(
                    out@,
                ).last().seq_id <= #[trigger] rest@[j]@.seq_id,
            forall|j: int|
                0 <= j < rest@.len() ==> orig.contains(#[trigger] files_view(rest@)[j]),
            forall|j: int|
                0 <= j < out@.len() ==> orig.contains(#[trigger] files_view(out@)[j]),
            forall|i: int|
                0 <= i < orig.len() ==> has_segment(
                    files_view(out@) + files_view(rest@),
                    #[trigger] orig[i].seq_id,
                ),
            seqs_sorted(orig) ==> files_view(out@) == orig.take(out@.len() as int) && files_view(
                rest@,
            ) == orig.skip(out@.len() as int),
        decreases rest@.len(),
    {
        let ghost pre_out = files_view(out@);
        let ghost pre_rest = files_view(rest@);
        let mi = find_min_segment(&rest);
        proof {
            if seqs_sorted(orig) && mi > 0 {
                assert(pre_rest[mi as int].seq_id <= pre_rest[0].seq_id);
                assert(pre_rest[0].seq_id < pre_rest[mi as int].seq_id);
                assert(false);
            }
        }
        let s = rest.remove(mi);
        proof {
            assert(s@ == pre_rest[mi as int]);
            if seqs_sorted(orig) {
                assert(s@ == orig.skip(pre_out.len() as int)[0]);
                assert(s@ == orig[pre_out.len() as int]);
            }
        }
        let keep = if out.len() == 0 {
            true
        } else {
            vec_index(&out, out.len() - 1).seq_id < s.seq_id
        };
        proof {
            if seqs_sorted(orig) && !keep {
                let k = pre_out.len() as int;
                assert(k >= 1);
                assert(pre_out == orig.take(k));
                assert(pre_out.len() == k);
                assert(pre_out.last() == pre_out[k - 1]);
                assert(pre_out[k - 1] == orig[k - 1]);
                assert(pre_out.last().seq_id >= s@.seq_id);
                assert(orig[k - 1].seq_id < orig[k].seq_id);
                assert(false);
            }
            if !keep {
                assert(pre_out.last().seq_id <= pre_rest[mi as int].seq_id);
                assert(pre_out.last().seq_id == s@.seq_id);
            }
        }
        if keep {
            out.push(s);
            proof {
                assert(files_view(out@) =~= pre_out.push(s@));
                assert forall|x: int, y: int|
                    0 <= x < y < files_view(out@).len() implies files_view(out@)[x].seq_id
                    < files_view(out@)[y].seq_id by {
                    if y < files_view(out@).len() - 1 {
                        assert(pre_out[x].seq_id < pre_out[y].seq_id);
                    } else {
                        if x < pre_out.len() - 1 {
                            assert(pre_out[x].seq_id < pre_out[pre_out.len() - 1].seq_id);
                        }
                    }
                }
            }
        }
        proof {
            assert(files_view(rest@) =~= pre_rest.remove(mi as int));
            assert forall|j: int| 0 <= j < rest@.len() implies orig.contains(
                #[trigger] files_view(rest@)[j],
            ) by {
                if j < mi as int {
                    assert(files_view(rest@)[j] == pre_rest[j]);
                } else {
                    assert(files_view(rest@)[j] == pre_rest[j + 1]);
                }
            }
            assert forall|j: int| 0 <= j < out@.len() implies orig.contains(
                #[trigger] files_view(out@)[j],
            ) by {
                if j < pre_out.len() {
                    assert(files_view(out@)[j] == pre_out[j]);
                } else {
                    assert(files_view(out@)[j] == pre_rest[mi as int]);
                }
            }
            assert forall|i: int| 0 <= i < orig.len() implies has_segment(
                files_view(out@) + files_view(rest@),
                #[trigger] orig[i].seq_id,
            ) by {
                let merged_pre = pre_out + pre_rest;
                let merged_now = files_view(out@) + files_view(rest@);
                let out_now = files_view(out@);
                assert(has_segment(merged_pre, orig[i].seq_id));
                let w = choose|w: int|
                    0 <= w < merged_pre.len() && #[trigger] merged_pre[w].seq_id == orig[
                        i
                    ].seq_id;
                if w < pre_out.len() {
                    assert(merged_now[w].seq_id == orig[i].seq_id);
                } else {
                    let ri = w - pre_out.len();
                    if ri == mi as int {
                        assert(out_now.last().seq_id == s@.seq_id);
                        assert(merged_now[out_now.len() - 1].seq_id == orig[i].seq_id);
                    } else if ri < mi as int {
                        assert(files_view(rest@)[ri] == pre_rest[ri]);
                        assert(merged_now[out_now.len() + ri].seq_id == orig[i].seq_id);
                    } else {
                        assert(files_view(rest@)[ri - 1] == pre_rest[ri]);
                        assert(merged_now[out_now.len() + ri - 1].seq_id == orig[i].seq_id);
                    }
                }
            }
            if seqs_sorted(orig) {
                let k = pre_out.len() as int;
                assert(files_view(out@) =~= orig.take(k + 1));
                assert(files_view(rest@) =~= orig.skip(k + 1));
            }
        }
    }
    proof {
        if seqs_sorted(orig) {
            assert(files_view(out@) =~= orig);
        }
        assert forall|i: int| 0 <= i < orig.len() implies has_segment(
            files_view(out@),
            #[trigger] orig[i].seq_id,
        ) by {
            assert(files_view(out@) + files_view(rest@) =~= files_view(out@));
        }
    }
    out
}


/// The decimal digits, as characters.
pub open spec fn digit_char(d: nat) -> char {
    seq!['0', '1', '2', '3', '4', '5', '6', '7', '8', '9'][d as int]
}

/// The decimal form of a number, most significant digit first.
pub open spec fn dec_str(n: nat) -> Seq<char>
    decreases n,
{
    if n < 10 {
        seq![digit_char(n)]
    } else {
        dec_str(n / 10) + seq![digit_char(n % 10)]
    }
}

/// Whether a character is a decimal digit.
pub open spec fn is_digit(c: char) -> bool {
    '0' <= c <= '9'
}

/// The numeric value of a digit character.
pub open spec fn digit_val(c: char) -> nat {
    (c as u32 - 48) as nat
}

/// Whether a string is one or more decimal digits.
pub open spec fn is_digits(s: Seq<char>) -> bool {
    s.len() > 0 && forall|i: int| 0 <= i < s.len() ==> is_digit(#[trigger] s[i])
}

/// The number a digit string denotes.
pub open spec fn dec_value(s: Seq<char>) -> nat
    decreases s.len(),
{
    if s.len() == 0 {
        0
    } else {
        dec_value(s.drop_last()) * 10 + digit_val(s.last())
    }
}

/// Whether a file name is a segment file's: anything followed by `.log`.
pub open spec fn spec_is_log_file(name: Seq<char>) -> bool {
    name.len() > 4 && name.subrange(name.len() - 4, name.len() as int) == ".log"@
}

/// The characters of an ASCII string, each as its byte.
pub open spec fn ascii_bytes(s: Seq<char>) -> Seq<u8> {
    s.map_values(|c: char| c as u8)
}

/// An ASCII string's UTF-8 encoding is its characters, byte for byte.
pub proof fn lemma_ascii_bytes_encode(s: Seq<char>)
    requires
        is_ascii_chars(s),
    ensures
        encode_utf8(s) == ascii_bytes(s),
{
    is_ascii_chars_encode_utf8(s);
    assert(encode_utf8(s) =~= ascii_bytes(s));
}

/// Each digit character is a digit, is ASCII, and denotes its own value.
pub proof fn lemma_digit_char(d: nat)
    requires
        d < 10,
    ensures
        is_digit(digit_char(d)),
        '\0' <= digit_char(d) <= '\u{7f}',
        digit_val(digit_char(d)) == d,
{
    if d == 0 {
        assert(digit_char(d) == '0');
    } else if d == 1 {
        assert(digit_char(d) == '1');
    } else if d == 2 {
        assert(digit_char(d) == '2');
    } else if d == 3 {
        assert(digit_char(d) == '3');
    } else if d == 4 {
        assert(digit_char(d) == '4');
    } else if d == 5 {
        assert(digit_char(d) == '5');
    } else if d == 6 {
        assert(digit_char(d) == '6');
    } else if d == 7 {
        assert(digit_char(d) == '7');
    } else if d == 8 {
        assert(digit_char(d) == '8');
    } else {
        assert(digit_char(d) == '9');
    }
}

/// The decimal form of a number is a digit string denoting that number.
pub proof fn lemma_dec_str_value(n: nat)
    ensures
        is_digits(dec_str(n)),
        is_ascii_chars(dec_str(n)),
        dec_value(dec_str(n)) == n,
    decreases n,
{
    if n < 10 {
        lemma_digit_char(n);
        assert(dec_str(n) =~= seq![digit_char(n)]);
        assert(dec_str(n).drop_last() =~= Seq::<char>::empty());
        assert(dec_value(Seq::<char>::empty()) == 0);
        assert(dec_value(dec_str(n)) == digit_val(digit_char(n)));
    } else {
        lemma_dec_str_value(n / 10);
        lemma_digit_char(n % 10);
        let s = dec_str(n);
        assert(s.drop_last() =~= dec_str(n / 10));
        assert(s.last() == digit_char(n % 10));
        assert(dec_value(s) == (n / 10) * 10 + (n % 10));
        lemma_fundamental_div_mod(n as int, 10);
        assert forall|i: int| 0 <= i < s.len() implies is_digit(#[trigger] s[i]) && '\0' <= s[i]
            <= '\u{7f}' by {
            if i < s.len() - 1 {
                assert(s[i] == dec_str(n / 10)[i]);
            }
        }
    }
}

/// Appends the decimal form of `n`, as ASCII bytes.
fn push_dec(out: &mut Vec<u8>, n: u64)
    ensures
        final(out)@ == old(out)@ + ascii_bytes(dec_str(n as nat)),
    decreases n,
{
    if n < 10 {
        out.push(48 + n as u8);
        proof {
            assert(ascii_bytes(dec_str(n as nat)) =~= seq![(48 + n) as u8]);
            assert(final(out)@ =~= old(out)@ + ascii_bytes(dec_str(n as nat)));
        }
    } else {
        push_dec(out, n / 10);
        out.push(48 + (n % 10) as u8);
        proof {
            assert(ascii_bytes(dec_str(n as nat)) =~= ascii_bytes(dec_str((n / 10) as nat)).push(
                (48 + n % 10) as u8,
            ));
            assert(final(out)@ =~= old(out)@ + ascii_bytes(dec_str(n as nat)));
        }
    }
}

/// Derives the file name of the segment with sequence number `seq_id`:
/// its decimal form followed by `.log`.
pub fn get_log_path(seq_id: u64) -> (r: String)
    ensures
        r@ == dec_str(seq_id as nat) + ".log"@,
{
    let mut bytes: Vec<u8> = Vec::new();
    push_dec(&mut bytes, seq_id);
    push_bytes(&mut bytes, ".log".as_bytes());
    proof {
        reveal_strlit(".log");
        let target = dec_str(seq_id as nat) + ".log"@;
        lemma_dec_str_value(seq_id as nat);
        assert(is_ascii_chars(".log"@));
        assert(is_ascii_chars(target));
        lemma_ascii_bytes_encode(target);
        lemma_ascii_bytes_encode(".log"@);
        assert(bytes@ =~= ascii_bytes(target));
        encode_utf8_valid_utf8(target);
        encode_utf8_decode_utf8(target);
    }
    match string_from_utf8(bytes) {
        Some(s) => {
            proof {
                encode_utf8_decode_utf8(s@);
            }
            s
        },
        None => {
            proof {
                assert(false);
            }
            String::new()
        },
    }
}

/// Whether a file name is a segment file's: anything followed by `.log`.
pub fn is_log_file(name: &str) -> (r: bool)
    ensures
        r == spec_is_log_file(name@),
{
    proof {
        reveal_strlit(".log");
    }
    let n = name.unicode_len();
    if n <= 4 {
        return false;
    }
    let r = name.get_char(n - 4) == '.' && name.get_char(n - 3) == 'l' && name.get_char(n - 2)
        == 'o' && name.get_char(n - 1) == 'g';
    proof {
        let tail = name@.subrange(name@.len() - 4, name@.len() as int);
        if r {
            assert(tail =~= ".log"@);
        } else {
            if tail == ".log"@ {
                assert(tail[0] == '.' && tail[1] == 'l' && tail[2] == 'o' && tail[3] == 'g');
            }
        }
    }
    r
}

/// A digit string's prefixes denote no more than the whole string.
proof fn lemma_dec_value_prefix(s: Seq<char>, k: int)
    requires
        0 <= k <= s.len(),
    ensures
        dec_value(s.take(k)) <= dec_value(s),
    decreases s.len(),
{
    if k < s.len() {
        lemma_dec_value_prefix(s.drop_last(), k);
        assert(s.drop_last().take(k) =~= s.take(k));
        assert(dec_value(s.drop_last()) * 10 >= dec_value(s.drop_last())) by (nonlinear_arith);
    } else {
        assert(s.take(k) =~= s);
    }
}

/// Reads the sequence number out of a segment file name: the decimal value
/// of what stands before `.log`.  `None` when the name is not a segment
/// file's, its stem is not all digits, or the value does not fit in a
/// `u64`.
pub fn parse_log_seq(name: &str) -> (r: Option<u64>)
    ensures
        match r {
            Some(v) => {
                &&& spec_is_log_file(name@)
                &&& is_digits(name@.subrange(0, name@.len() - 4))
                &&& dec_value(name@.subrange(0, name@.len() - 4)) == v
            },
            None => !{
                &&& spec_is_log_file(name@)
                &&& is_digits(name@.subrange(0, name@.len() - 4))
                &&& dec_value(name@.subrange(0, name@.len() - 4)) <= u64::MAX
            },
        },
{
    if !is_log_file(name) {
        return None;
    }
    let n = name.unicode_len();
    let stem_len = n - 4;
    let ghost stem = name@.subrange(0, name@.len() - 4);
    if stem_len == 0 {
        return None;
    }
    let mut acc: u64 = 0;
    let mut i: usize = 0;
    while i < stem_len
        invariant
            i <= stem_len,
            stem_len >= 1,
            n == name@.len(),
            stem_len == n - 4,
            stem == name@.subrange(0, name@.len() - 4),
            stem.len() == stem_len,
            forall|j: int| 0 <= j < i ==> is_digit(#[trigger] stem[j]),
            acc == dec_value(stem.take(i as int)),
        decreases stem_len - i,
    {
        let c = name.get_char(i);
        let cv = c as u32;
        if cv < 48 || cv > 57 {
            proof {
                assert(stem[i as int] == name@[i as int]);
                assert(!is_digit(stem[i as int]));
            }
            return None;
        }
        let d = (cv - 48) as u64;
        if acc > (u64::MAX - d) / 10 {
            proof {
                assert(stem.take(i + 1).drop_last() =~= stem.take(i as int));
                assert(stem.take(i + 1).last() == stem[i as int]);
                assert(dec_value(stem.take(i + 1)) == acc * 10 + d);
                assert(acc * 10 + d > u64::MAX) by (nonlinear_arith)
                    requires
                        acc > (u64::MAX - d) / 10,
                        d <= 9,
                ;
                lemma_dec_value_prefix(stem, i + 1);
            }
            return None;
        }
        proof {
            assert(acc * 10 + d <= u64::MAX) by (nonlinear_arith)
                requires
                    acc <= (u64::MAX - d) / 10,
                    d <= 9,
            ;
            assert(stem.take(i + 1).drop_last() =~= stem.take(i as int));
            assert(stem.take(i + 1).last() == stem[i as int]);
        }
        acc = acc * 10 + d;
        i = i + 1;
    }
    proof {
        assert(stem.take(stem_len as int) =~= stem);
    }
    Some(acc)
}

/// The name derived for a sequence number parses back to that number: the
/// stem of `get_log_path`'s result is the decimal form of `seq_id`, all
/// digits, denoting `seq_id` itself.
pub proof fn lemma_log_path_roundtrip(seq_id: u64)
    ensures
        spec_is_log_file(dec_str(seq_id as nat) + ".log"@),
        (dec_str(seq_id as nat) + ".log"@).subrange(
            0,
            (dec_str(seq_id as nat) + ".log"@).len() - 4,
        ) == dec_str(seq_id as nat),
        is_digits(dec_str(seq_id as nat)),
        dec_value(dec_str(seq_id as nat)) == seq_id,
{
    reveal_strlit(".log");
    lemma_dec_str_value(seq_id as nat);
    let full = dec_str(seq_id as nat) + ".log"@;
    assert(full.subrange(full.len() - 4, full.len() as int) =~= ".log"@);
    assert(full.subrange(0, full.len() - 4) =~= dec_str(seq_id as nat));
}

} // verus!
