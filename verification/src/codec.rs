//! The command codec: a self-delimiting binary encoding of log commands.
//!
//! A command is encoded as a one-byte tag followed by its string fields.
//! Each string field is its UTF-8 byte length as eight little-endian bytes,
//! then the UTF-8 bytes themselves.  Decoding a payload succeeds only when
//! the payload holds exactly one well-formed command and nothing else, so
//! the decoder consumes exactly one command's bytes and distinguishes a
//! clean end of input from malformed data.

use crate::frame::push_bytes;
use vstd::bytes::{lemma_auto_spec_u64_to_from_le_bytes, spec_u64_from_le_bytes, spec_u64_to_le_bytes, u64_from_le_bytes, u64_to_le_bytes};
use vstd::prelude::*;
use vstd::slice::{slice_subrange, slice_to_vec};
use vstd::utf8::{decode_utf8, decode_utf8_encode_utf8, encode_utf8, encode_utf8_decode_utf8, encode_utf8_valid_utf8, valid_utf8};

verus! {

/// The tag byte that opens an encoded `Insert` command.
pub const TAG_SET: u8 = 0;

/// The tag byte that opens an encoded `Remove` command.
pub const TAG_REMOVE: u8 = 1;

/// A persisted log command: either `key` now maps to `value`, or `key` has
/// no mapping.
#[derive(Debug, PartialEq, Eq)]
pub enum LogCommand {
    Insert(String, String),
    Remove(String),
}

/// The mathematical shape of a command: its string fields as character
/// sequences.
pub enum CommandView {
    Insert(Seq<char>, Seq<char>),
    Remove(Seq<char>),
}

impl View for LogCommand {
    type V = CommandView;

    open spec fn view(&self) -> CommandView {
        match self {
            LogCommand::Insert(k, v) => CommandView::Insert(k@, v@),
            LogCommand::Remove(k) => CommandView::Remove(k@),
        }
    }
}

/// Whether a string's UTF-8 form fits under the eight-byte length prefix.
/// Every string a program can hold satisfies this.
pub open spec fn str_encodable(s: Seq<char>) -> bool {
    encode_utf8(s).len() <= u64::MAX
}

/// Whether a command's whole encoded payload fits under an eight-byte
/// length prefix.  Every command a program can hold satisfies this.
pub open spec fn cmd_encodable(c: CommandView) -> bool {
    spec_encode_command(c).len() <= u64::MAX
}

/// One encoded string field: UTF-8 byte length, then the UTF-8 bytes.
pub open spec fn spec_encode_str(s: Seq<char>) -> Seq<u8> {
    spec_u64_to_le_bytes(encode_utf8(s).len() as u64) + encode_utf8(s)
}

/// The encoded payload of a command.
pub open spec fn spec_encode_command(c: CommandView) -> Seq<u8> {
    match c {
        CommandView::Insert(k, v) => seq![TAG_SET] + spec_encode_str(k) + spec_encode_str(v),
        CommandView::Remove(k) => seq![TAG_REMOVE] + spec_encode_str(k),
    }
}

/// The string field that starts at `off` in `p`, together with the offset
/// just past it; `None` when the bytes there are not a well-formed field.
pub open spec fn str_field_at(p: Seq<u8>, off: int) -> Option<(Seq<char>, int)> {
    if 0 <= off && off + 8 <= p.len() {
        let n = spec_u64_from_le_bytes(p.subrange(off, off + 8)) as int;
        if off + 8 + n <= p.len() && valid_utf8(p.subrange(off + 8, off + 8 + n)) {
            Some((decode_utf8(p.subrange(off + 8, off + 8 + n)), off + 8 + n))
        } else {
            None
        }
    } else {
        None
    }
}

/// The command a payload decodes to, or `None` when the payload is not
/// exactly one well-formed command.
pub open spec fn spec_decode_command(p: Seq<u8>) -> Option<CommandView> {
    if p.len() < 1 {
        None
    } else if p[0] == TAG_SET {
        match str_field_at(p, 1) {
            Some((k, e1)) => match str_field_at(p, e1) {
                Some((v, e2)) => if e2 == p.len() {
                    Some(CommandView::Insert(k, v))
                } else {
                    None
                },
                None => None,
            },
            None => None,
        }
    } else if p[0] == TAG_REMOVE {
        match str_field_at(p, 1) {
            Some((k, e1)) => if e1 == p.len() {
                Some(CommandView::Remove(k))
            } else {
                None
            },
            None => None,
        }
    } else {
        None
    }
}

/// Relies on `String::from_utf8`: it succeeds exactly on valid UTF-8 input
/// and the returned string's bytes are the input bytes.
#[verifier::external_body]
pub(crate) fn string_from_utf8(bytes: Vec<u8>) -> (r: Option<String>)
    ensures
        r is Some <==> valid_utf8(bytes@),
        r is Some ==> encode_utf8(r.unwrap()@) == bytes@,
{
    match String::from_utf8(bytes) {
        Ok(s) => Some(s),
        Err(_) => None,
    }
}

/// Appends one encoded string field to `out`.
fn push_str_field(out: &mut Vec<u8>, s: &str)
    ensures
        final(out)@ == old(out)@ + spec_encode_str(s@),
{
    let bytes = s.as_bytes();
    let mut header = u64_to_le_bytes(bytes.len() as u64);
    out.append(&mut header);
    push_bytes(out, bytes);
    proof {
        assert(final(out)@ =~= old(out)@ + spec_encode_str(s@));
    }
}

/// Reads one encoded string field from `p` at `off`.
fn read_str_field(p: &[u8], off: usize) -> (r: Option<(String, usize)>)
    ensures
        match str_field_at(p@, off as int) {
            Some((s, end)) => {
                &&& r is Some
                &&& r.unwrap().0@ == s
                &&& r.unwrap().1 == end
            },
            None => r is None,
        },
{
    let len = p.len();
    if off > len || len - off < 8 {
        return None;
    }
    let header = slice_subrange(p, off, off + 8);
    let n64 = u64_from_le_bytes(header);
    if n64 > (len - off - 8) as u64 {
        return None;
    }
    let n = n64 as usize;
    let body = slice_subrange(p, off + 8, off + 8 + n);
    match string_from_utf8(slice_to_vec(body)) {
        Some(s) => {
            proof {
                encode_utf8_decode_utf8(s@);
            }
            Some((s, off + 8 + n))
        },
        None => None,
    }
}

impl LogCommand {
    /// Emits the command's encoded payload.
    pub fn encode(&self) -> (out: Vec<u8>)
        ensures
            out@ == spec_encode_command(self@),
    {
        let mut out: Vec<u8> = Vec::new();
        match self {
            LogCommand::Insert(k, v) => {
                out.push(TAG_SET);
                push_str_field(&mut out, k.as_str());
                push_str_field(&mut out, v.as_str());
                proof {
                    assert(out@ =~= spec_encode_command(self@));
                }
            },
            LogCommand::Remove(k) => {
                out.push(TAG_REMOVE);
                push_str_field(&mut out, k.as_str());
                proof {
                    assert(out@ =~= spec_encode_command(self@));
                }
            },
        }
        out
    }

    /// Decodes one command from a payload; `None` when the payload is not
    /// exactly one well-formed command.
    pub fn decode(payload: &[u8]) -> (r: Option<LogCommand>)
        ensures
            match spec_decode_command(payload@) {
                Some(c) => r is Some && r.unwrap()@ == c,
                None => r is None,
            },
    {
        if payload.len() < 1 {
            return None;
        }
        let tag = *vstd::slice::slice_index_get(payload, 0);
        if tag == TAG_SET {
            match read_str_field(payload, 1) {
                Some((k, e1)) => match read_str_field(payload, e1) {
                    Some((v, e2)) => if e2 == payload.len() {
                        Some(LogCommand::Insert(k, v))
                    } else {
                        None
                    },
                    None => None,
                },
                None => None,
            }
        } else if tag == TAG_REMOVE {
            match read_str_field(payload, 1) {
                Some((k, e1)) => if e1 == payload.len() {
                    Some(LogCommand::Remove(k))
                } else {
                    None
                },
                None => None,
            }
        } else {
            None
        }
    }
}

/// A string field written directly after `pre` is read back intact,
/// whatever bytes follow it.
pub proof fn lemma_str_field_at_encoded(pre: Seq<u8>, s: Seq<char>, rest: Seq<u8>)
    requires
        str_encodable(s),
    ensures
        str_field_at(pre + spec_encode_str(s) + rest, pre.len() as int) == Some(
            (s, pre.len() + 8 + encode_utf8(s).len() as int),
        ),
{
    lemma_auto_spec_u64_to_from_le_bytes();
    encode_utf8_valid_utf8(s);
    encode_utf8_decode_utf8(s);
    let data = pre + spec_encode_str(s) + rest;
    let off = pre.len() as int;
    let n = encode_utf8(s).len() as int;
    assert(data.subrange(off, off + 8) =~= spec_u64_to_le_bytes(encode_utf8(s).len() as u64));
    assert(data.subrange(off + 8, off + 8 + n) =~= encode_utf8(s));
}

/// Decoding an encoded command gives the command back.
pub proof fn lemma_decode_of_encode(c: CommandView)
    requires
        cmd_encodable(c),
    ensures
        spec_decode_command(spec_encode_command(c)) == Some(c),
{
    lemma_auto_spec_u64_to_from_le_bytes();
    match c {
        CommandView::Insert(k, v) => {
            let p = spec_encode_command(c);
            let nk = encode_utf8(k).len() as int;
            let nv = encode_utf8(v).len() as int;
            assert(p.len() == 1 + 8 + nk + 8 + nv);
            assert(str_encodable(k) && str_encodable(v));
            assert(p =~= seq![TAG_SET] + spec_encode_str(k) + (spec_encode_str(v) + Seq::<u8>::empty()));
            lemma_str_field_at_encoded(seq![TAG_SET], k, spec_encode_str(v) + Seq::<u8>::empty());
            assert(str_field_at(p, 1) == Some((k, 1 + 8 + nk)));
            assert(p =~= (seq![TAG_SET] + spec_encode_str(k)) + spec_encode_str(v) + Seq::<u8>::empty());
            lemma_str_field_at_encoded(seq![TAG_SET] + spec_encode_str(k), v, Seq::<u8>::empty());
            assert(str_field_at(p, 1 + 8 + nk) == Some((v, 1 + 8 + nk + 8 + nv)));
            assert(p.len() == 1 + 8 + nk + 8 + nv);
            assert(p[0] == TAG_SET);
        },
        CommandView::Remove(k) => {
            let p = spec_encode_command(c);
            let nk = encode_utf8(k).len() as int;
            assert(p.len() == 1 + 8 + nk);
            assert(str_encodable(k));
            assert(p =~= seq![TAG_REMOVE] + spec_encode_str(k) + Seq::<u8>::empty());
            lemma_str_field_at_encoded(seq![TAG_REMOVE], k, Seq::<u8>::empty());
            assert(str_field_at(p, 1) == Some((k, 1 + 8 + nk)));
            assert(p.len() == 1 + 8 + nk);
            assert(p[0] == TAG_REMOVE);
        },
    }
}

/// A payload that decodes to a command is that command's encoding: the
/// codec is lossless in both directions.
pub proof fn lemma_encode_of_decode(p: Seq<u8>, c: CommandView)
    requires
        spec_decode_command(p) == Some(c),
    ensures
        spec_encode_command(c) == p,
        p.len() <= u64::MAX ==> cmd_encodable(c),
{
    lemma_auto_spec_u64_to_from_le_bytes();
    match c {
        CommandView::Insert(k, v) => {
            let (k0, e1): (Seq<char>, int) = str_field_at(p, 1).unwrap();
            let (v0, e2): (Seq<char>, int) = str_field_at(p, e1).unwrap();
            let bk = p.subrange(9int, e1);
            let bv = p.subrange(e1 + 8, e2);
            decode_utf8_encode_utf8(bk);
            decode_utf8_encode_utf8(bv);
            assert(spec_encode_str(k) =~= p.subrange(1, e1));
            assert(spec_encode_str(v) =~= p.subrange(e1, e2));
            assert(spec_encode_command(c) =~= p);
        },
        CommandView::Remove(k) => {
            let (k0, e1): (Seq<char>, int) = str_field_at(p, 1).unwrap();
            let bk = p.subrange(9int, e1);
            decode_utf8_encode_utf8(bk);
            assert(spec_encode_str(k) =~= p.subrange(1, e1));
            assert(spec_encode_command(c) =~= p);
        },
    }
}

} // verus!
