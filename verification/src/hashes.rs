//! A deterministic 64-bit mix function and digit rendering.
//!
//! Hunk identifiers and invite-token authenticators must come out identical
//! on every peer and in every process, so the mix function is defined here
//! in full (a Fowler–Noll–Vo fold over unicode scalar values) rather than
//! taken from a hasher whose keys a process may choose.  Collision
//! resistance is probabilistic and is not a verified claim; determinism is.

use vstd::prelude::*;

verus! {

pub const FNV_OFFSET: u64 = 0xcbf29ce484222325;

pub const FNV_PRIME: u64 = 0x100000001b3;

/// One step of the fold: absorb a 64-bit value.
pub open spec fn fnv_update(h: u64, x: u64) -> u64 {
    vstd::wrapping::u64_specs::wrapping_mul(h ^ x, FNV_PRIME)
}

/// Absorb a character sequence, one scalar value at a time.
pub open spec fn fnv_chars(h: u64, s: Seq<char>) -> u64
    decreases s.len(),
{
    if s.len() == 0 {
        h
    } else {
        fnv_chars(fnv_update(h, s[0] as u64), s.skip(1))
    }
}

/// Executable step of the fold.
pub fn fnv_update_exec(h: u64, x: u64) -> (r: u64)
    ensures
        r == fnv_update(h, x),
{
    (h ^ x).wrapping_mul(FNV_PRIME)
}

/// Executable fold over the characters of a string.
pub fn fnv_chars_exec(h: u64, s: &str) -> (r: u64)
    ensures
        r == fnv_chars(h, s@),
{
    let len: usize = s.unicode_len();
    let mut acc: u64 = h;
    let mut i: usize = 0;
    proof {
        assert(s@.skip(0) =~= s@);
    }
    while i < len
        invariant
            i <= len,
            len == s@.len(),
            fnv_chars(acc, s@.skip(i as int)) == fnv_chars(h, s@),
        decreases len - i,
    {
        let c: char = s.get_char(i);
        proof {
            assert(s@.skip(i as int)[0] == c);
            assert(s@.skip(i as int).skip(1) =~= s@.skip(i + 1));
        }
        acc = fnv_update_exec(acc, (c as u32) as u64);
        i = i + 1;
    }
    acc
}

/// The digit character for a value below sixteen.
pub open spec fn digit_char(d: nat) -> char {
    if d < 10 {
        (0x30 + d) as char
    } else {
        (0x57 + d) as char
    }
}

/// Hexadecimal rendering of a natural number, lower case, no leading
/// zeros.
pub open spec fn hex_of(n: nat) -> Seq<char>
    decreases n,
{
    if n < 16 {
        seq![digit_char(n)]
    } else {
        hex_of(n / 16).push(digit_char(n % 16))
    }
}

/// Decimal rendering of a natural number, no leading zeros.
pub open spec fn dec_of(n: nat) -> Seq<char>
    decreases n,
{
    if n < 10 {
        seq![digit_char(n)]
    } else {
        dec_of(n / 10).push(digit_char(n % 10))
    }
}

/// The string holding one digit character, for digits below sixteen.
pub fn digit_str(d: u64) -> (r: &'static str)
    requires
        d < 16,
    ensures
        r@ =~= seq![digit_char(d as nat)],
{
    proof {
        reveal_strlit("0");
        reveal_strlit("1");
        reveal_strlit("2");
        reveal_strlit("3");
        reveal_strlit("4");
        reveal_strlit("5");
        reveal_strlit("6");
        reveal_strlit("7");
        reveal_strlit("8");
        reveal_strlit("9");
        reveal_strlit("a");
        reveal_strlit("b");
        reveal_strlit("c");
        reveal_strlit("d");
        reveal_strlit("e");
        reveal_strlit("f");
    }
    match d {
        0 => "0",
        1 => "1",
        2 => "2",
        3 => "3",
        4 => "4",
        5 => "5",
        6 => "6",
        7 => "7",
        8 => "8",
        9 => "9",
        10 => "a",
        11 => "b",
        12 => "c",
        13 => "d",
        14 => "e",
        _ => "f",
    }
}

/// Hexadecimal rendering, executable.
pub fn hex_str(n: u64) -> (s: String)
    ensures
        s@ == hex_of(n as nat),
    decreases n,
{
    if n < 16 {
        String::from_str(digit_str(n))
    } else {
        let mut s = hex_str(n / 16);
        s.append(digit_str(n % 16));
        proof {
            assert(s@ =~= hex_of(n as nat));
        }
        s
    }
}

/// Decimal rendering, executable.
pub fn dec_str(n: u64) -> (s: String)
    ensures
        s@ == dec_of(n as nat),
    decreases n,
{
    if n < 10 {
        String::from_str(digit_str(n))
    } else {
        let mut s = dec_str(n / 10);
        s.append(digit_str(n % 10));
        proof {
            assert(s@ =~= dec_of(n as nat));
        }
        s
    }
}

} // verus!
