//! The wire and persistence codec for comments and chat lines.
//!
//! Events travel the mesh, and rest on disk, as self-delimiting byte
//! records: integers little-endian, strings as a length followed by one
//! 32-bit scalar value per character.  Decoding is total on bytes: every
//! input either is the encoding of exactly one record, which comes back,
//! or is malformed and yields nothing — a malformed or foreign message is
//! dropped, never fatal.  Encoding then decoding gives the record back
//! exactly.

use vstd::prelude::*;
use crate::model::{ChatLine, ChatLineV, Comment, CommentV};
use crate::strutil::{char_from_u32, string_push, valid_char_code};

verus! {

/// One record's field lengths fit the 64-bit length prefixes.
pub open spec fn len_bound() -> int {
    0x1_0000_0000_0000_0000
}

/// A `u64`, as eight little-endian bytes.
pub open spec fn enc_u64(v: u64) -> Seq<u8> {
    seq![
        (v & 0xFF) as u8,
        ((v >> 8) & 0xFF) as u8,
        ((v >> 16) & 0xFF) as u8,
        ((v >> 24) & 0xFF) as u8,
        ((v >> 32) & 0xFF) as u8,
        ((v >> 40) & 0xFF) as u8,
        ((v >> 48) & 0xFF) as u8,
        ((v >> 56) & 0xFF) as u8,
    ]
}

/// A `u32`, as four little-endian bytes.
pub open spec fn enc_u32(v: u32) -> Seq<u8> {
    seq![(v & 0xFF) as u8, ((v >> 8) & 0xFF) as u8, ((v >> 16) & 0xFF) as u8, ((v >> 24)
        & 0xFF) as u8]
}

/// Characters, one scalar value each.
pub open spec fn enc_chars(s: Seq<char>) -> Seq<u8>
    decreases s.len(),
{
    if s.len() == 0 {
        Seq::empty()
    } else {
        enc_u32(s[0] as u32) + enc_chars(s.skip(1))
    }
}

/// A string: its length, then its characters.
pub open spec fn enc_string(s: Seq<char>) -> Seq<u8> {
    enc_u64(s.len() as u64) + enc_chars(s)
}

/// A boolean, as one byte.
pub open spec fn enc_bool(b: bool) -> Seq<u8> {
    seq![if b { 1u8 } else { 0u8 }]
}

/// The first eight bytes, little-endian.
pub open spec fn dec_u64_val(b: Seq<u8>) -> u64 {
    (b[0] as u64) | ((b[1] as u64) << 8) | ((b[2] as u64) << 16) | ((b[3] as u64) << 24) | ((
    b[4] as u64) << 32) | ((b[5] as u64) << 40) | ((b[6] as u64) << 48) | ((b[7] as u64) << 56)
}

/// The first four bytes, little-endian.
pub open spec fn dec_u32_val(b: Seq<u8>) -> u32 {
    (b[0] as u32) | ((b[1] as u32) << 8) | ((b[2] as u32) << 16) | ((b[3] as u32) << 24)
}

/// Read a `u64`; what remains follows it.
pub open spec fn dec_u64(b: Seq<u8>) -> Option<(u64, Seq<u8>)> {
    if b.len() >= 8 {
        Some((dec_u64_val(b), b.skip(8)))
    } else {
        None
    }
}

/// Read `n` characters; what remains follows them.
pub open spec fn dec_chars(b: Seq<u8>, n: nat) -> Option<(Seq<char>, Seq<u8>)>
    decreases n,
{
    if n == 0 {
        Some((Seq::empty(), b))
    } else if b.len() >= 4 {
        let u = dec_u32_val(b);
        if valid_char_code(u) {
            match dec_chars(b.skip(4), (n - 1) as nat) {
                Some((s, rest)) => Some((seq![u as char] + s, rest)),
                None => None,
            }
        } else {
            None
        }
    } else {
        None
    }
}

/// Read a string; what remains follows it.
pub open spec fn dec_string(b: Seq<u8>) -> Option<(Seq<char>, Seq<u8>)> {
    match dec_u64(b) {
        Some((n, rest)) => dec_chars(rest, n as nat),
        None => None,
    }
}

/// Read a boolean that must end the record.
pub open spec fn dec_bool_end(b: Seq<u8>) -> Option<bool> {
    if b.len() == 1 {
        if b[0] == 0 {
            Some(false)
        } else if b[0] == 1 {
            Some(true)
        } else {
            None
        }
    } else {
        None
    }
}

/// A comment, encoded field by field in a fixed order.
pub open spec fn enc_comment(c: CommentV) -> Seq<u8> {
    enc_string(c.id) + enc_string(c.session_id) + enc_string(c.author) + enc_string(c.file)
        + enc_string(c.hunk_id) + enc_u64(c.line as u64) + enc_string(c.body) + enc_u64(
        c.created_at as u64,
    ) + enc_bool(c.resolved)
}

/// The comment a byte record holds, if it holds exactly one.
pub open spec fn dec_comment(b: Seq<u8>) -> Option<CommentV> {
    match dec_string(b) {
        Some((id, b)) => match dec_string(b) {
            Some((session_id, b)) => match dec_string(b) {
                Some((author, b)) => match dec_string(b) {
                    Some((file, b)) => match dec_string(b) {
                        Some((hunk_id, b)) => match dec_u64(b) {
                            Some((line, b)) => if line <= usize::MAX as u64 {
                                match dec_string(b) {
                                    Some((body, b)) => match dec_u64(b) {
                                        Some((created, b)) => match dec_bool_end(b) {
                                            Some(resolved) => Some(
                                                CommentV {
                                                    id,
                                                    session_id,
                                                    author,
                                                    file,
                                                    hunk_id,
                                                    line: line as nat,
                                                    body,
                                                    created_at: (created as i64) as int,
                                                    resolved,
                                                },
                                            ),
                                            None => None,
                                        },
                                        None => None,
                                    },
                                    None => None,
                                }
                            } else {
                                None
                            },
                            None => None,
                        },
                        None => None,
                    },
                    None => None,
                },
                None => None,
            },
            None => None,
        },
        None => None,
    }
}

/// A chat line, encoded field by field in a fixed order.
pub open spec fn enc_chat(c: ChatLineV) -> Seq<u8> {
    enc_string(c.id) + enc_string(c.session_id) + enc_string(c.author) + enc_string(c.body)
        + enc_u64(c.created_at as u64)
}

/// The chat line a byte record holds, if it holds exactly one.
pub open spec fn dec_chat(b: Seq<u8>) -> Option<ChatLineV> {
    match dec_string(b) {
        Some((id, b)) => match dec_string(b) {
            Some((session_id, b)) => match dec_string(b) {
                Some((author, b)) => match dec_string(b) {
                    Some((body, b)) => match dec_u64(b) {
                        Some((created, b)) => if b.len() == 0 {
                            Some(
                                ChatLineV {
                                    id,
                                    session_id,
                                    author,
                                    body,
                                    created_at: (created as i64) as int,
                                },
                            )
                        } else {
                            None
                        },
                        None => None,
                    },
                    None => None,
                },
                None => None,
            },
            None => None,
        },
        None => None,
    }
}

/// The comment's fields fit their length prefixes; every comment built in
/// executable code does.
pub open spec fn bounded_comment(c: CommentV) -> bool {
    &&& c.id.len() < len_bound()
    &&& c.session_id.len() < len_bound()
    &&& c.author.len() < len_bound()
    &&& c.file.len() < len_bound()
    &&& c.hunk_id.len() < len_bound()
    &&& c.body.len() < len_bound()
    &&& c.line <= usize::MAX
    &&& i64::MIN <= c.created_at <= i64::MAX
}

/// The chat line's fields fit their length prefixes.
pub open spec fn bounded_chat(c: ChatLineV) -> bool {
    &&& c.id.len() < len_bound()
    &&& c.session_id.len() < len_bound()
    &&& c.author.len() < len_bound()
    &&& c.body.len() < len_bound()
    &&& i64::MIN <= c.created_at <= i64::MAX
}

proof fn lemma_u64_bytes_roundtrip(v: u64)
    ensures
        dec_u64_val(enc_u64(v)) == v,
{
    assert(((v & 0xFF) as u8 as u64) | (((v >> 8) & 0xFF) as u8 as u64) << 8 | (((v >> 16)
        & 0xFF) as u8 as u64) << 16 | (((v >> 24) & 0xFF) as u8 as u64) << 24 | (((v >> 32)
        & 0xFF) as u8 as u64) << 32 | (((v >> 40) & 0xFF) as u8 as u64) << 40 | (((v >> 48)
        & 0xFF) as u8 as u64) << 48 | (((v >> 56) & 0xFF) as u8 as u64) << 56 == v)
        by (bit_vector);
}

proof fn lemma_u32_bytes_roundtrip(v: u32)
    ensures
        dec_u32_val(enc_u32(v)) == v,
{
    assert(((v & 0xFF) as u8 as u32) | (((v >> 8) & 0xFF) as u8 as u32) << 8 | (((v >> 16)
        & 0xFF) as u8 as u32) << 16 | (((v >> 24) & 0xFF) as u8 as u32) << 24 == v)
        by (bit_vector);
}

proof fn lemma_i64_u64_roundtrip(v: i64)
    ensures
        ((v as u64) as i64) == v,
{
    assert(((v as u64) as i64) == v) by (bit_vector);
}

/// Reading a `u64` after its encoding hands it back with the rest.
proof fn lemma_dec_enc_u64(v: u64, rest: Seq<u8>)
    ensures
        dec_u64(enc_u64(v) + rest) == Some((v, rest)),
{
    let b = enc_u64(v) + rest;
    lemma_u64_bytes_roundtrip(v);
    assert(dec_u64_val(b) == dec_u64_val(enc_u64(v)));
    assert(b.skip(8) =~= rest);
}

/// Reading `n` characters after their encoding hands them back with the
/// rest.
proof fn lemma_dec_enc_chars(s: Seq<char>, rest: Seq<u8>)
    ensures
        dec_chars(enc_chars(s) + rest, s.len()) == Some((s, rest)),
    decreases s.len(),
{
    if s.len() == 0 {
        assert(enc_chars(s) + rest =~= rest);
        assert(dec_chars(rest, 0) == Some((Seq::<char>::empty(), rest)));
        assert(s =~= Seq::<char>::empty());
    } else {
        let c = s[0];
        let u = c as u32;
        let b = enc_chars(s) + rest;
        assert(b =~= enc_u32(u) + (enc_chars(s.skip(1)) + rest));
        lemma_u32_bytes_roundtrip(u);
        assert(dec_u32_val(b) == dec_u32_val(enc_u32(u)));
        vstd::utf8::char_is_scalar(c);
        assert(valid_char_code(u));
        assert(b.skip(4) =~= enc_chars(s.skip(1)) + rest);
        lemma_dec_enc_chars(s.skip(1), rest);
        vstd::utf8::char_u32_cast(c, u);
        assert(seq![u as char] + s.skip(1) =~= s);
    }
}

/// Reading a string after its encoding hands it back with the rest.
proof fn lemma_dec_enc_string(s: Seq<char>, rest: Seq<u8>)
    requires
        s.len() < len_bound(),
    ensures
        dec_string(enc_string(s) + rest) == Some((s, rest)),
{
    let b = enc_string(s) + rest;
    assert(b =~= enc_u64(s.len() as u64) + (enc_chars(s) + rest));
    lemma_dec_enc_u64(s.len() as u64, enc_chars(s) + rest);
    assert((s.len() as u64) as nat == s.len());
    lemma_dec_enc_chars(s, rest);
}

/// Decoding an encoded comment gives the comment back: the codec loses
/// nothing.
pub proof fn lemma_comment_roundtrip(c: CommentV)
    requires
        bounded_comment(c),
    ensures
        dec_comment(enc_comment(c)) == Some(c),
{
    let r8 = enc_bool(c.resolved);
    let r7 = enc_u64(c.created_at as u64) + r8;
    let r6 = enc_string(c.body) + r7;
    let r5 = enc_u64(c.line as u64) + r6;
    let r4 = enc_string(c.hunk_id) + r5;
    let r3 = enc_string(c.file) + r4;
    let r2 = enc_string(c.author) + r3;
    let r1 = enc_string(c.session_id) + r2;
    let b = enc_string(c.id) + r1;
    assert(enc_comment(c) =~= b);
    lemma_dec_enc_string(c.id, r1);
    lemma_dec_enc_string(c.session_id, r2);
    lemma_dec_enc_string(c.author, r3);
    lemma_dec_enc_string(c.file, r4);
    lemma_dec_enc_string(c.hunk_id, r5);
    lemma_dec_enc_u64(c.line as u64, r6);
    assert(c.line as u64 <= usize::MAX as u64);
    lemma_dec_enc_string(c.body, r7);
    lemma_dec_enc_u64(c.created_at as u64, r8);
    assert(dec_bool_end(r8) == Some(c.resolved));
    assert((c.line as u64) as nat == c.line);
    lemma_i64_u64_roundtrip(c.created_at as i64);
    assert(((c.created_at as u64) as i64) as int == c.created_at);
}

/// Decoding an encoded chat line gives the chat line back.
pub proof fn lemma_chat_roundtrip(c: ChatLineV)
    requires
        bounded_chat(c),
    ensures
        dec_chat(enc_chat(c)) == Some(c),
{
    let r5 = Seq::<u8>::empty();
    let r4 = enc_u64(c.created_at as u64) + r5;
    let r3 = enc_string(c.body) + r4;
    let r2 = enc_string(c.author) + r3;
    let r1 = enc_string(c.session_id) + r2;
    let b = enc_string(c.id) + r1;
    assert(enc_chat(c) =~= b);
    lemma_dec_enc_string(c.id, r1);
    lemma_dec_enc_string(c.session_id, r2);
    lemma_dec_enc_string(c.author, r3);
    lemma_dec_enc_string(c.body, r4);
    lemma_dec_enc_u64(c.created_at as u64, r5);
    lemma_i64_u64_roundtrip(c.created_at as i64);
    assert(((c.created_at as u64) as i64) as int == c.created_at);
}

/// Append the encoding of a `u64`.
fn push_u64(out: &mut Vec<u8>, v: u64)
    ensures
        final(out)@ == old(out)@ + enc_u64(v),
{
    out.push((v & 0xFF) as u8);
    out.push(((v >> 8) & 0xFF) as u8);
    out.push(((v >> 16) & 0xFF) as u8);
    out.push(((v >> 24) & 0xFF) as u8);
    out.push(((v >> 32) & 0xFF) as u8);
    out.push(((v >> 40) & 0xFF) as u8);
    out.push(((v >> 48) & 0xFF) as u8);
    out.push(((v >> 56) & 0xFF) as u8);
    proof {
        assert(out@ =~= old(out)@ + enc_u64(v));
    }
}

/// Append the encoding of a string.
fn push_string(out: &mut Vec<u8>, s: &str)
    ensures
        final(out)@ == old(out)@ + enc_string(s@),
        s@.len() < len_bound(),
{
    let n: usize = s.unicode_len();
    push_u64(out, n as u64);
    let ghost mid = out@;
    let mut i: usize = 0;
    proof {
        lemma_enc_chars_len(s@);
        assert(s@.skip(0) =~= s@);
        assert(out@ =~= mid + enc_chars(s@).subrange(0, 0));
    }
    while i < n
        invariant
            i <= n,
            n == s@.len(),
            enc_chars(s@).len() == 4 * s@.len(),
            out@ == mid + enc_chars(s@).subrange(0, 4 * i as int),
            enc_chars(s@.skip(i as int)) == enc_chars(s@).skip(4 * i as int),
        decreases n - i,
    {
        let c: char = s.get_char(i);
        let u: u32 = c as u32;
        out.push((u & 0xFF) as u8);
        out.push(((u >> 8) & 0xFF) as u8);
        out.push(((u >> 16) & 0xFF) as u8);
        out.push(((u >> 24) & 0xFF) as u8);
        proof {
            let tail = s@.skip(i as int);
            assert(tail[0] == c);
            assert(tail.skip(1) =~= s@.skip(i + 1));
            assert(enc_chars(tail) == enc_u32(u) + enc_chars(s@.skip(i + 1)));
            lemma_enc_chars_len(s@.skip(i + 1));
            lemma_enc_chars_len(tail);
            lemma_enc_chars_len(s@);
            assert(enc_chars(s@).subrange(0, 4 * (i + 1)) =~= enc_chars(s@).subrange(0, 4 * i as int)
                + enc_u32(u)) by {
                assert forall|k: int| 0 <= k < 4 implies enc_chars(s@)[4 * i + k] == enc_u32(
                    u,
                )[k] by {
                    assert(enc_chars(s@)[4 * i + k] == enc_chars(s@).skip(4 * i as int)[k]);
                    assert(enc_chars(tail)[k] == (enc_u32(u) + enc_chars(s@.skip(i + 1)))[k]);
                }
            }
            assert(out@ =~= mid + enc_chars(s@).subrange(0, 4 * (i + 1)));
            assert(enc_chars(s@.skip(i + 1)) =~= enc_chars(s@).skip(4 * (i + 1))) by {
                assert forall|k: int| 0 <= k < enc_chars(s@.skip(i + 1)).len() implies #[trigger] (
                enc_chars(s@.skip(i + 1))[k]) == enc_chars(s@)[4 * (i + 1) + k] by {
                    assert(enc_chars(tail)[k + 4] == (enc_u32(u) + enc_chars(s@.skip(i + 1)))[k
                        + 4]);
                    assert(enc_chars(tail)[k + 4] == enc_chars(s@).skip(4 * i as int)[k + 4]);
                }
            }
        }
        i = i + 1;
    }
    proof {
        lemma_enc_chars_len(s@);
        assert(enc_chars(s@).subrange(0, 4 * n as int) =~= enc_chars(s@));
        assert(out@ =~= old(out)@ + enc_string(s@));
    }
}

/// Each character takes four bytes.
proof fn lemma_enc_chars_len(s: Seq<char>)
    ensures
        enc_chars(s).len() == 4 * s.len(),
    decreases s.len(),
{
    if s.len() > 0 {
        lemma_enc_chars_len(s.skip(1));
    }
}

/// The bytes a comment travels and rests as.
pub fn encode_comment(c: &Comment) -> (out: Vec<u8>)
    ensures
        out@ == enc_comment(c@),
        bounded_comment(c@),
{
    let mut out: Vec<u8> = Vec::new();
    push_string(&mut out, c.id.as_str());
    push_string(&mut out, c.session_id.as_str());
    push_string(&mut out, c.author.as_str());
    push_string(&mut out, c.file.as_str());
    push_string(&mut out, c.hunk_id.as_str());
    push_u64(&mut out, c.line as u64);
    push_string(&mut out, c.body.as_str());
    push_u64(&mut out, c.created_at as u64);
    out.push(if c.resolved {
        1u8
    } else {
        0u8
    });
    proof {
        assert(out@ =~= enc_comment(c@));
    }
    out
}

/// The bytes a chat line travels and rests as.
pub fn encode_chat(c: &ChatLine) -> (out: Vec<u8>)
    ensures
        out@ == enc_chat(c@),
        bounded_chat(c@),
{
    let mut out: Vec<u8> = Vec::new();
    push_string(&mut out, c.id.as_str());
    push_string(&mut out, c.session_id.as_str());
    push_string(&mut out, c.author.as_str());
    push_string(&mut out, c.body.as_str());
    push_u64(&mut out, c.created_at as u64);
    proof {
        assert(out@ =~= enc_chat(c@));
    }
    out
}

/// Read a `u64` at `pos`.
fn read_u64(data: &[u8], pos: usize) -> (r: Option<(u64, usize)>)
    requires
        pos <= data@.len(),
    ensures
        match r {
            Some(p) => dec_u64(data@.skip(pos as int)) == Some((p.0, data@.skip(p.1 as int)))
                && pos <= p.1 <= data@.len(),
            None => dec_u64(data@.skip(pos as int)) is None,
        },
{
    if data.len() - pos >= 8 {
        let v: u64 = (data[pos] as u64) | ((data[pos + 1] as u64) << 8) | ((data[pos
            + 2] as u64) << 16) | ((data[pos + 3] as u64) << 24) | ((data[pos + 4] as u64) << 32)
            | ((data[pos + 5] as u64) << 40) | ((data[pos + 6] as u64) << 48) | ((data[pos
            + 7] as u64) << 56);
        proof {
            let b = data@.skip(pos as int);
            assert(b.len() >= 8);
            assert(v == dec_u64_val(b));
            assert(b.skip(8) =~= data@.skip(pos + 8));
        }
        Some((v, pos + 8))
    } else {
        None
    }
}

/// Read a string at `pos`.
fn read_string(data: &[u8], pos: usize) -> (r: Option<(String, usize)>)
    requires
        pos <= data@.len(),
    ensures
        match r {
            Some(p) => dec_string(data@.skip(pos as int)) == Some((p.0@, data@.skip(p.1 as int)))
                && pos <= p.1 <= data@.len(),
            None => dec_string(data@.skip(pos as int)) is None,
        },
{
    let (n, mut p) = match read_u64(data, pos) {
        Some(x) => x,
        None => {
            return None;
        },
    };
    let ghost start = p as int;
    proof {
        vstd::arithmetic::div_mod::lemma_fundamental_div_mod((data@.len() - p) as int, 4);
    }
    if n > ((data.len() - p) / 4) as u64 {
        proof {
            assert(data@.skip(start).len() < 4 * (n as nat));
            lemma_dec_chars_short(data@.skip(start), n as nat);
            assert(dec_string(data@.skip(pos as int)) is None);
        }
        return None;
    }
    let count = n as usize;
    let mut s = String::new();
    let mut j: usize = 0;
    proof {
        assert(opt_prepend(s@, dec_chars(data@.skip(start), n as nat)) == dec_chars(
            data@.skip(start),
            n as nat,
        )) by {
            match dec_chars(data@.skip(start), n as nat) {
                Some(q) => {
                    assert(s@ + q.0 =~= q.0);
                },
                None => {},
            }
        }
    }
    while j < count
        invariant
            j <= count,
            count == n,
            p == start + 4 * j,
            p <= data@.len(),
            pos <= data@.len(),
            4 * (count - j) <= data@.len() - p,
            dec_u64(data@.skip(pos as int)) == Some((n, data@.skip(start))),
            dec_chars(data@.skip(start), n as nat) == opt_prepend(
                s@,
                dec_chars(data@.skip(p as int), (n - j) as nat),
            ),
        decreases count - j,
    {
        let u: u32 = (data[p] as u32) | ((data[p + 1] as u32) << 8) | ((data[p + 2] as u32) << 16)
            | ((data[p + 3] as u32) << 24);
        proof {
            let b = data@.skip(p as int);
            assert(b.len() >= 4);
            assert(u == dec_u32_val(b));
            assert(b.skip(4) =~= data@.skip(p + 4));
        }
        let c = match char_from_u32(u) {
            Some(c) => c,
            None => {
                return None;
            },
        };
        proof {
            let inner = dec_chars(data@.skip(p + 4), (n - j - 1) as nat);
            assert(dec_chars(data@.skip(p as int), (n - j) as nat) == (match inner {
                Some(q) => Some::<(Seq<char>, Seq<u8>)>((seq![u as char] + q.0, q.1)),
                None => None::<(Seq<char>, Seq<u8>)>,
            }));
            match inner {
                Some(q) => {
                    assert(s@ + (seq![u as char] + q.0) =~= s@.push(c) + q.0);
                },
                None => {},
            }
        }
        string_push(&mut s, c);
        p = p + 4;
        j = j + 1;
    }
    proof {
        assert(dec_chars(data@.skip(p as int), 0) == Some((Seq::<char>::empty(), data@.skip(
            p as int,
        ))));
        match dec_chars(data@.skip(start), n as nat) {
            Some(q) => {
                assert(s@ + Seq::<char>::empty() =~= s@);
            },
            None => {
                assert(false);
            },
        }
    }
    Some((s, p))
}

/// Prefix the string of a partial character read.
pub open spec fn opt_prepend(prefix: Seq<char>, o: Option<(Seq<char>, Seq<u8>)>) -> Option<
    (Seq<char>, Seq<u8>),
> {
    match o {
        Some(q) => Some((prefix + q.0, q.1)),
        None => None,
    }
}

/// Too few bytes for `n` characters: the read fails.
proof fn lemma_dec_chars_short(b: Seq<u8>, n: nat)
    requires
        b.len() < 4 * n,
    ensures
        dec_chars(b, n) is None,
    decreases n,
{
    if n > 0 && b.len() >= 4 {
        if valid_char_code(dec_u32_val(b)) {
            lemma_dec_chars_short(b.skip(4), (n - 1) as nat);
        }
    }
}

/// The comment a byte record holds; `None` for anything that is not
/// exactly one encoded comment.
#[verifier::rlimit(100)]
pub fn decode_comment(data: &[u8]) -> (r: Option<Comment>)
    ensures
        match r {
            Some(c) => dec_comment(data@) == Some(c@),
            None => dec_comment(data@) is None,
        },
{
    proof {
        assert(data@.skip(0) =~= data@);
    }
    let (id, p) = match read_string(data, 0) {
        Some(x) => x,
        None => {
            return None;
        },
    };
    let (session_id, p) = match read_string(data, p) {
        Some(x) => x,
        None => {
            return None;
        },
    };
    let (author, p) = match read_string(data, p) {
        Some(x) => x,
        None => {
            return None;
        },
    };
    let (file, p) = match read_string(data, p) {
        Some(x) => x,
        None => {
            return None;
        },
    };
    let (hunk_id, p) = match read_string(data, p) {
        Some(x) => x,
        None => {
            return None;
        },
    };
    let (line_u, p) = match read_u64(data, p) {
        Some(x) => x,
        None => {
            return None;
        },
    };
    if line_u > usize::MAX as u64 {
        return None;
    }
    let (body, p) = match read_string(data, p) {
        Some(x) => x,
        None => {
            return None;
        },
    };
    let (created_u, p) = match read_u64(data, p) {
        Some(x) => x,
        None => {
            return None;
        },
    };
    if data.len() - p != 1 {
        proof {
            assert(data@.skip(p as int).len() != 1);
        }
        return None;
    }
    let resolved = if data[p] == 0 {
        false
    } else if data[p] == 1 {
        true
    } else {
        proof {
            assert(data@.skip(p as int)[0] == data@[p as int]);
        }
        return None;
    };
    proof {
        assert(data@.skip(p as int)[0] == data@[p as int]);
    }
    Some(
        Comment {
            id,
            session_id,
            author,
            file,
            hunk_id,
            line: line_u as usize,
            body,
            created_at: created_u as i64,
            resolved,
        },
    )
}

/// The chat line a byte record holds; `None` for anything that is not
/// exactly one encoded chat line.
#[verifier::rlimit(60)]
pub fn decode_chat(data: &[u8]) -> (r: Option<ChatLine>)
    ensures
        match r {
            Some(c) => dec_chat(data@) == Some(c@),
            None => dec_chat(data@) is None,
        },
{
    proof {
        assert(data@.skip(0) =~= data@);
    }
    let (id, p) = match read_string(data, 0) {
        Some(x) => x,
        None => {
            return None;
        },
    };
    let (session_id, p) = match read_string(data, p) {
        Some(x) => x,
        None => {
            return None;
        },
    };
    let (author, p) = match read_string(data, p) {
        Some(x) => x,
        None => {
            return None;
        },
    };
    let (body, p) = match read_string(data, p) {
        Some(x) => x,
        None => {
            return None;
        },
    };
    let (created_u, p) = match read_u64(data, p) {
        Some(x) => x,
        None => {
            return None;
        },
    };
    if data.len() != p {
        proof {
            assert(data@.skip(p as int).len() != 0);
        }
        return None;
    }
    proof {
        assert(data@.skip(p as int).len() == 0);
    }
    Some(ChatLine { id, session_id, author, body, created_at: created_u as i64 })
}

} // verus!
