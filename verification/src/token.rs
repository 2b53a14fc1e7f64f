//! Invite tokens: the trust model of a session.
//!
//! A token is derived deterministically from the session id and a shared
//! secret: the id, a dot, and a keyed authenticator over both.  Humans
//! exchange the token out of band; parsing verifies the authenticator —
//! comparing in constant time — and recovers the session id.  Possession
//! of the secret, not peer identity, gates participation.  The
//! authenticator is 64 bits and non-cryptographic: collision resistance
//! is probabilistic, and is not a verified claim; what is proved is that
//! parsing accepts exactly the canonical token of some session id under
//! the secret in hand.

use vstd::prelude::*;
use crate::hashes::{FNV_OFFSET, fnv_chars, fnv_chars_exec, fnv_update, fnv_update_exec, digit_char,
    hex_of, hex_str};

verus! {

/// A domain separator absorbed between the fields of the authenticator;
/// it is above the unicode range, so no character collides with it.
pub const TOKEN_FIELD_SEP: u64 = 0x110001;

/// The keyed authenticator of a session id under a shared secret.
pub open spec fn mac64(sid: Seq<char>, secret: Seq<char>) -> u64 {
    fnv_chars(
        fnv_update(
            fnv_chars(fnv_update(fnv_chars(FNV_OFFSET, secret), TOKEN_FIELD_SEP), sid),
            TOKEN_FIELD_SEP,
        ),
        secret,
    )
}

/// The canonical invite token of a session id under a secret.
pub open spec fn token_of(sid: Seq<char>, secret: Seq<char>) -> Seq<char> {
    sid + seq!['.'] + hex_of(mac64(sid, secret) as nat)
}

/// The index of the last dot of `t`, or a negative value if `t` holds
/// none.
pub open spec fn last_dot(t: Seq<char>) -> int
    decreases t.len(),
{
    if t.len() == 0 {
        -1
    } else if t.last() == '.' {
        t.len() - 1
    } else {
        last_dot(t.drop_last())
    }
}

/// What parsing a token under a secret recovers: the part before the
/// last dot, provided the part after it is that part's authenticator.
pub open spec fn parse_token_spec(t: Seq<char>, secret: Seq<char>) -> Option<Seq<char>> {
    let i = last_dot(t);
    if i < 0 {
        None
    } else {
        let sid = t.take(i);
        let tag = t.skip(i + 1);
        if tag == hex_of(mac64(sid, secret) as nat) {
            Some(sid)
        } else {
            None
        }
    }
}

/// The executable authenticator.
fn mac64_exec(sid: &str, secret: &str) -> (r: u64)
    ensures
        r == mac64(sid@, secret@),
{
    let h = fnv_chars_exec(FNV_OFFSET, secret);
    let h = fnv_update_exec(h, TOKEN_FIELD_SEP);
    let h = fnv_chars_exec(h, sid);
    let h = fnv_update_exec(h, TOKEN_FIELD_SEP);
    fnv_chars_exec(h, secret)
}

/// Derive the invite token of a session.
pub fn generate_invite_token(session_id: &str, secret: &str) -> (r: String)
    ensures
        r@ == token_of(session_id@, secret@),
{
    let mut t = session_id.to_owned();
    t.append(".");
    let tag = hex_str(mac64_exec(session_id, secret));
    t.append(tag.as_str());
    proof {
        reveal_strlit(".");
        assert("."@ =~= seq!['.']);
        assert(t@ =~= token_of(session_id@, secret@));
    }
    t
}

/// No digit is a dot.
proof fn lemma_hex_no_dot(n: nat, k: int)
    requires
        0 <= k < hex_of(n).len(),
    ensures
        hex_of(n)[k] != '.',
    decreases n,
{
    vstd::utf8::char_u32_cast('.', '.' as u32);
    if n < 16 {
        vstd::utf8::char_u32_cast(digit_char(n), digit_char(n) as u32);
    } else {
        if k < hex_of(n).len() - 1 {
            lemma_hex_no_dot(n / 16, k);
        } else {
            vstd::utf8::char_u32_cast(digit_char(n % 16), digit_char(n % 16) as u32);
        }
    }
}

/// The last dot of `prefix + '.' + suffix` is the one shown, when the
/// suffix holds none.
proof fn lemma_last_dot_at(prefix: Seq<char>, suffix: Seq<char>)
    requires
        forall|k: int| 0 <= k < suffix.len() ==> suffix[k] != '.',
    ensures
        last_dot(prefix + seq!['.'] + suffix) == prefix.len(),
    decreases suffix.len(),
{
    let t = prefix + seq!['.'] + suffix;
    if suffix.len() == 0 {
        assert(t.last() == '.');
    } else {
        assert(t.last() == suffix.last());
        assert(t.drop_last() =~= prefix + seq!['.'] + suffix.drop_last());
        lemma_last_dot_at(prefix, suffix.drop_last());
    }
}

/// A non-negative last-dot index holds a dot, and nothing after it does.
proof fn lemma_last_dot_sound(t: Seq<char>)
    requires
        last_dot(t) >= 0,
    ensures
        last_dot(t) < t.len(),
        t[last_dot(t)] == '.',
        forall|k: int| last_dot(t) < k < t.len() ==> t[k] != '.',
    decreases t.len(),
{
    if t.len() > 0 && t.last() != '.' {
        lemma_last_dot_sound(t.drop_last());
        assert(t[last_dot(t)] == t.drop_last()[last_dot(t)]);
        assert forall|k: int| last_dot(t) < k < t.len() implies t[k] != '.' by {
            if k < t.len() - 1 {
                assert(t.drop_last()[k] != '.');
            }
        }
    }
}

/// Round trip: parsing a generated token under the same secret recovers
/// the session id, whatever characters the id holds.
pub proof fn lemma_invite_token_round_trip(sid: Seq<char>, secret: Seq<char>)
    ensures
        parse_token_spec(token_of(sid, secret), secret) == Some(sid),
{
    let tag = hex_of(mac64(sid, secret) as nat);
    let t = token_of(sid, secret);
    assert forall|k: int| 0 <= k < tag.len() implies tag[k] != '.' by {
        lemma_hex_no_dot(mac64(sid, secret) as nat, k);
    }
    lemma_last_dot_at(sid, tag);
    assert(t.take(sid.len() as int) =~= sid);
    assert(t.skip(sid.len() as int + 1) =~= tag);
}

/// Soundness: the only tokens parsing accepts under a secret are the
/// canonical tokens of session ids under it — a tampered token is
/// accepted only if its tag collides with a canonical one.
pub proof fn lemma_invite_token_sound(t: Seq<char>, secret: Seq<char>)
    requires
        parse_token_spec(t, secret) is Some,
    ensures
        t == token_of(parse_token_spec(t, secret).unwrap(), secret),
{
    let i = last_dot(t);
    lemma_last_dot_sound(t);
    assert(t =~= t.take(i) + seq!['.'] + t.skip(i + 1));
}

/// Constant-time equality of two strings: the characters looked at do
/// not depend on where a mismatch lies.
fn eq_const_time(a: &str, b: &str) -> (r: bool)
    ensures
        r == (a@ == b@),
{
    let a_len: usize = a.unicode_len();
    let b_len: usize = b.unicode_len();
    if a_len != b_len {
        return false;
    }
    let mut acc: u32 = 0;
    let mut i: usize = 0;
    while i < a_len
        invariant
            i <= a_len,
            a_len == a@.len(),
            a_len == b@.len(),
            acc == 0 <==> (forall|j: int| 0 <= j < i ==> a@[j] == b@[j]),
        decreases a_len - i,
    {
        let ca: u32 = a.get_char(i) as u32;
        let cb: u32 = b.get_char(i) as u32;
        let d: u32 = ca ^ cb;
        proof {
            assert((ca ^ cb) == 0 <==> ca == cb) by (bit_vector);
            vstd::utf8::char_u32_cast(a@[i as int], ca);
            vstd::utf8::char_u32_cast(b@[i as int], cb);
            let acc0 = acc;
            assert((acc0 | d) == 0 <==> (acc0 == 0 && d == 0)) by (bit_vector);
        }
        acc = acc | d;
        i = i + 1;
    }
    if acc == 0 {
        proof {
            assert(a@ =~= b@);
        }
        true
    } else {
        false
    }
}

/// Verify a token under a secret and recover its session id; a token
/// without a dot, or whose tag is not the authenticator of its id part,
/// yields nothing.
pub fn parse_invite_token(token: &str, secret: &str) -> (r: Option<String>)
    ensures
        match r {
            Some(sid) => parse_token_spec(token@, secret@) == Some(sid@),
            None => parse_token_spec(token@, secret@) is None,
        },
{
    let len: usize = token.unicode_len();
    let mut k: usize = len;
    proof {
        assert(token@.take(len as int) =~= token@);
    }
    while k > 0
        invariant
            k <= len,
            len == token@.len(),
            last_dot(token@) == last_dot(token@.take(k as int)),
        decreases k,
    {
        let c = token.get_char(k - 1);
        proof {
            let pre = token@.take(k as int);
            assert(pre.last() == token@[k - 1]);
            assert(pre.drop_last() =~= token@.take(k - 1));
        }
        if c == '.' {
            let i = k - 1;
            let sid = token.substring_char(0, i);
            let tag = token.substring_char(i + 1, len);
            let expected = hex_str(mac64_exec(sid, secret));
            if eq_const_time(tag, expected.as_str()) {
                proof {
                    assert(sid@ =~= token@.take(i as int));
                    assert(tag@ =~= token@.skip(i + 1));
                }
                return Some(sid.to_owned());
            } else {
                proof {
                    assert(sid@ =~= token@.take(i as int));
                    assert(tag@ =~= token@.skip(i + 1));
                }
                return None;
            }
        }
        k = k - 1;
    }
    proof {
        assert(token@.take(0) =~= Seq::<char>::empty());
        assert(last_dot(token@) < 0);
    }
    None
}

} // verus!
