//! Structural serialization: a stable byte encoding for inline expression
//! trees, directives, link targets and routes, with decoding proved to undo
//! encoding. Numbers are little-endian and fixed width; each character is
//! written as its scalar value; every variant starts with a one-byte tag.

use vstd::prelude::*;
use vstd::std_specs::iter::IteratorSpec;
use crate::ast::{
    bet_view, ben_view, BlockExprNode, BlockExprTree, BlockType, Directive, LinkTarget,
    RenderGroup, Route,
};

verus! {

broadcast use vstd::seq_lib::group_seq_properties;

/// The eight little-endian bytes of a 64-bit value.
pub open spec fn enc_u64(x: u64) -> Seq<u8> {
    seq![
        (x % 256) as u8,
        ((x / 0x100) % 256) as u8,
        ((x / 0x10000) % 256) as u8,
        ((x / 0x1000000) % 256) as u8,
        ((x / 0x100000000) % 256) as u8,
        ((x / 0x10000000000) % 256) as u8,
        ((x / 0x1000000000000) % 256) as u8,
        ((x / 0x100000000000000) % 256) as u8,
    ]
}

/// The value read back from eight little-endian bytes.
pub open spec fn dec_u64(b: Seq<u8>) -> u64 {
    ((b[0] as int) + 0x100 * (b[1] as int) + 0x10000 * (b[2] as int) + 0x1000000 * (b[3] as int)
        + 0x100000000 * (b[4] as int) + 0x10000000000 * (b[5] as int) + 0x1000000000000 * (
    b[6] as int) + 0x100000000000000 * (b[7] as int)) as u64
}

/// Reading back the eight bytes of a value yields the value.
pub proof fn lemma_u64_round_trip(x: u64)
    ensures
        dec_u64(enc_u64(x)) == x,
{
    assert(x % 256 + 0x100 * ((x / 0x100) % 256) + 0x10000 * ((x / 0x10000) % 256) + 0x1000000 * ((
    x / 0x1000000) % 256) + 0x100000000 * ((x / 0x100000000) % 256) + 0x10000000000 * ((x
        / 0x10000000000) % 256) + 0x1000000000000 * ((x / 0x1000000000000) % 256)
        + 0x100000000000000 * ((x / 0x100000000000000) % 256) == x) by (bit_vector);
}

/// Appends the eight little-endian bytes of `x`.
pub fn encode_u64(x: u64, out: &mut Vec<u8>)
    ensures
        final(out)@ == old(out)@ + enc_u64(x),
{
    out.push((x % 256) as u8);
    out.push(((x / 0x100) % 256) as u8);
    out.push(((x / 0x10000) % 256) as u8);
    out.push(((x / 0x1000000) % 256) as u8);
    out.push(((x / 0x100000000) % 256) as u8);
    out.push(((x / 0x10000000000) % 256) as u8);
    out.push(((x / 0x1000000000000) % 256) as u8);
    out.push(((x / 0x100000000000000) % 256) as u8);
    proof {
        assert(out@ =~= old(out)@ + enc_u64(x));
    }
}

/// Reads eight little-endian bytes at `pos`; `None` exactly when fewer than
/// eight bytes remain.
pub fn decode_u64(bytes: &Vec<u8>, pos: usize) -> (r: Option<(u64, usize)>)
    ensures
        pos + 8 <= bytes@.len() ==> (r matches Some(p) && p.0 == dec_u64(
            bytes@.subrange(pos as int, pos as int + 8),
        ) && p.1 == pos + 8),
        pos + 8 > bytes@.len() ==> r is None,
        r matches Some(p) ==> pos < p.1 <= bytes@.len(),
{
    if bytes.len() < 8 || pos > bytes.len() - 8 {
        return None;
    }
    let x0 = bytes[pos] as u64;
    let x1 = bytes[pos + 1] as u64;
    let x2 = bytes[pos + 2] as u64;
    let x3 = bytes[pos + 3] as u64;
    let x4 = bytes[pos + 4] as u64;
    let x5 = bytes[pos + 5] as u64;
    let x6 = bytes[pos + 6] as u64;
    let x7 = bytes[pos + 7] as u64;
    let v = x0 + x1 * 0x100 + x2 * 0x10000 + x3 * 0x1000000 + x4 * 0x100000000 + x5
        * 0x10000000000 + x6 * 0x1000000000000 + x7 * 0x100000000000000;
    proof {
        let s = bytes@.subrange(pos as int, pos as int + 8);
        assert(s[0] == bytes@[pos as int] && s[1] == bytes@[pos as int + 1] && s[2] == bytes@[
            pos as int + 2
        ] && s[3] == bytes@[pos as int + 3] && s[4] == bytes@[pos as int + 4] && s[5] == bytes@[
            pos as int + 5
        ] && s[6] == bytes@[pos as int + 6] && s[7] == bytes@[pos as int + 7]);
        assert(v == dec_u64(s));
    }
    Some((v, pos + 8))
}

/// One character, written as its scalar value in eight bytes.
pub open spec fn enc_char(c: char) -> Seq<u8> {
    enc_u64((c as u32) as u64)
}

/// Relies on `char::from_u32`: returns `Some` exactly for a valid scalar
/// value (not a surrogate, at most 0x10FFFF), and the returned character has
/// that scalar value.
pub assume_specification[ char::from_u32 ](v: u32) -> (r: Option<char>)
    ensures
        (r is Some) <==> (v < 0xD800 || (0xE000 <= v && v <= 0x10FFFF)),
        r matches Some(c) ==> c as u32 == v,
;

/// Every character is a valid scalar value.
proof fn lemma_char_scalar(c: char)
    ensures
        c as u32 <= 0x10FFFF,
        (c as u32) < 0xD800 || (c as u32) >= 0xE000,
{
}

/// Characters with the same scalar value are the same character.
proof fn lemma_char_eq(c1: char, c2: char)
    requires
        c1 as u32 == c2 as u32,
    ensures
        c1 == c2,
{
}

/// A byte range holding the encoding of a character spans eight bytes and
/// reads back as the character's scalar value.
proof fn lemma_char_chunk(b: Seq<u8>, pos: int, end: int, c: char)
    requires
        0 <= pos <= end <= b.len(),
        b.subrange(pos, end) == enc_char(c),
    ensures
        end == pos + 8,
        dec_u64(b.subrange(pos, pos + 8)) == (c as u32) as u64,
{
    assert(b.subrange(pos, end).len() == end - pos);
    assert(enc_char(c).len() == 8);
    assert(b.subrange(pos, end) == b.subrange(pos, pos + 8));
    lemma_u64_round_trip((c as u32) as u64);
}

/// Reads one character at `pos`.
#[verifier::rlimit(30)]
fn decode_char(bytes: &Vec<u8>, pos: usize) -> (r: Option<(char, usize)>)
    ensures
        forall|c: char, end: int|
            pos <= end <= bytes@.len() && bytes@.subrange(pos as int, end) == enc_char(c) ==> (
            r matches Some(p) && p.1 == end && p.0 == c),
        r matches Some(p) ==> pos < p.1 <= bytes@.len(),
{
    match decode_u64(bytes, pos) {
        None => {
            proof {
                assert forall|c: char, end: int|
                    !(pos <= end <= bytes@.len() && bytes@.subrange(pos as int, end) == enc_char(
                        c,
                    )) by {
                    if pos <= end <= bytes@.len() && bytes@.subrange(pos as int, end) == enc_char(
                        c,
                    ) {
                        assert(bytes@.subrange(pos as int, end).len() == end - pos);
                        assert(enc_char(c).len() == 8);
                        assert(end - pos == 8);
                    }
                }
            }
            None
        },
        Some((v, p1)) => {
            proof {
                assert(pos + 8 <= bytes@.len() ==> v == dec_u64(
                    bytes@.subrange(pos as int, pos as int + 8),
                ) && p1 == pos + 8);
            }
            if v > 0x10FFFF {
                proof {
                    assert forall|c: char, end: int|
                        pos <= end <= bytes@.len() && bytes@.subrange(pos as int, end) == enc_char(
                            c,
                        ) implies false by {
                        lemma_char_chunk(bytes@, pos as int, end, c);
                        lemma_char_scalar(c);
                        assert(pos + 8 <= bytes@.len());
                        assert(v == dec_u64(bytes@.subrange(pos as int, pos as int + 8)));
                        assert(v == (c as u32) as u64);
                    }
                }
                None
            } else {
                match char::from_u32(v as u32) {
                    Some(c2) => {
                        proof {
                            assert forall|c: char, end: int|
                                pos <= end <= bytes@.len() && bytes@.subrange(pos as int, end)
                                    == enc_char(c) implies c2 == c && end == p1 by {
                                lemma_char_chunk(bytes@, pos as int, end, c);
                                assert(pos + 8 <= bytes@.len());
                                assert(v == dec_u64(bytes@.subrange(pos as int, pos as int + 8)));
                                assert(v == (c as u32) as u64);
                                lemma_char_scalar(c);
                                assert(c2 as u32 == v as u32);
                                assert(c2 as u32 == c as u32);
                                lemma_char_eq(c2, c);
                            }
                        }
                        Some((c2, p1))
                    },
                    None => {
                        proof {
                            assert forall|c: char, end: int|
                                pos <= end <= bytes@.len() && bytes@.subrange(pos as int, end)
                                    == enc_char(c) implies false by {
                                lemma_char_chunk(bytes@, pos as int, end, c);
                                assert(pos + 8 <= bytes@.len());
                                assert(v == dec_u64(bytes@.subrange(pos as int, pos as int + 8)));
                                assert(v == (c as u32) as u64);
                                lemma_char_scalar(c);
                                assert((c as u32) < 0xD800 || ((c as u32) >= 0xE000 && (c as u32)
                                    <= 0x10FFFF));
                            }
                        }
                        None
                    },
                }
            }
        },
    }
}

/// The characters of a text, one after the other.
pub open spec fn enc_chars(s: Seq<char>) -> Seq<u8>
    decreases s.len(),
{
    if s.len() == 0 {
        Seq::empty()
    } else {
        enc_char(s[0]) + enc_chars(s.drop_first())
    }
}

/// A text: its character count, then its characters.
pub open spec fn enc_str(s: Seq<char>) -> Seq<u8> {
    enc_u64(s.len() as u64) + enc_chars(s)
}

/// Eight bytes per character.
pub proof fn lemma_enc_chars_len(s: Seq<char>)
    ensures
        enc_chars(s).len() == 8 * s.len(),
    decreases s.len(),
{
    if s.len() > 0 {
        lemma_enc_chars_len(s.drop_first());
    }
}

/// Appending a character appends its encoding.
pub proof fn lemma_enc_chars_push(s: Seq<char>, c: char)
    ensures
        enc_chars(s.push(c)) == enc_chars(s) + enc_char(c),
    decreases s.len(),
{
    if s.len() == 0 {
        assert(s.push(c)[0] == c);
        assert(s.push(c).drop_first() =~= Seq::<char>::empty());
        assert(enc_chars(s) =~= Seq::<u8>::empty());
        assert(enc_chars(s.push(c)) =~= enc_chars(s) + enc_char(c));
    } else {
        assert(s.push(c)[0] == s[0]);
        assert(s.push(c).drop_first() =~= s.drop_first().push(c));
        lemma_enc_chars_push(s.drop_first(), c);
        assert(enc_chars(s.push(c)) == enc_char(s[0]) + enc_chars(s.drop_first().push(c)));
        assert(enc_chars(s) == enc_char(s[0]) + enc_chars(s.drop_first()));
        assert(enc_char(s[0]).len() == 8);
        assert(enc_char(c).len() == 8);
        assert forall|j: int| 0 <= j < enc_chars(s.push(c)).len() implies enc_chars(s.push(c))[j]
            == (enc_chars(s) + enc_char(c))[j] by {
            if j >= 8 {
                assert(enc_chars(s.push(c))[j] == enc_chars(s.drop_first().push(c))[j - 8]);
            }
        }
        assert(enc_chars(s.push(c)).len() == (enc_chars(s) + enc_char(c)).len()) by {
            lemma_enc_chars_len(s.push(c));
            lemma_enc_chars_len(s);
        }
        assert(enc_chars(s.push(c)) =~= enc_chars(s) + enc_char(c));
    }
}

/// Collects decoded characters into a `String`.
fn chars_to_string(cs: &Vec<char>) -> (r: String)
    ensures
        r@ == cs@,
{
    let mut buf = String::new();
    let mut i: usize = 0;
    while i < cs.len()
        invariant
            i <= cs@.len(),
            buf@ == cs@.take(i as int),
        decreases cs@.len() - i,
    {
        crate::stringify::push_char(&mut buf, cs[i]);
        proof {
            assert(buf@ =~= cs@.take(i + 1));
        }
        i = i + 1;
    }
    proof {
        assert(cs@.take(cs@.len() as int) =~= cs@);
    }
    buf
}

/// Reads `count` characters at `pos`.
fn decode_chars(bytes: &Vec<u8>, pos: usize, count: usize) -> (r: Option<(Vec<char>, usize)>)
    ensures
        forall|s: Seq<char>, end: int|
            s.len() == count && pos <= end <= bytes@.len() && bytes@.subrange(pos as int, end)
                == enc_chars(s) ==> (r matches Some(p) && p.1 == end && p.0@ == s),
        r matches Some(p) ==> pos <= p.1 <= bytes@.len(),
    decreases count,
{
    if pos > bytes.len() {
        return None;
    }
    if count == 0 {
        let empty: Vec<char> = Vec::new();
        proof {
            assert forall|s: Seq<char>, end: int|
                #![trigger enc_chars(s), bytes@.subrange(pos as int, end)]
                s.len() == 0 && pos <= end <= bytes@.len() && bytes@.subrange(pos as int, end)
                    == enc_chars(s) implies end == pos && empty@ =~= s by {
                assert(bytes@.subrange(pos as int, end).len() == end - pos);
                assert(enc_chars(s) =~= Seq::<u8>::empty());
            }
        }
        return Some((empty, pos));
    }
    let first = decode_char(bytes, pos);
    proof {
        assert forall|s: Seq<char>, end: int|
            #![trigger enc_chars(s), bytes@.subrange(pos as int, end)]
            s.len() == count && pos <= end <= bytes@.len() && bytes@.subrange(pos as int, end)
                == enc_chars(s) implies pos + 8 <= end && bytes@.subrange(pos as int, pos as int
            + 8) == enc_char(s[0]) && bytes@.subrange(pos as int + 8, end) == enc_chars(
            s.drop_first(),
        ) by {
            lemma_enc_chars_len(s.drop_first());
            assert(enc_chars(s) == enc_char(s[0]) + enc_chars(s.drop_first()));
            assert(bytes@.subrange(pos as int, end).len() == end - pos);
            assert(enc_char(s[0]).len() == 8);
            assert(end - pos == 8 + 8 * (s.len() - 1));
            assert(bytes@.subrange(pos as int, pos as int + 8) =~= enc_char(s[0]));
            assert(enc_chars(s.drop_first()).len() == end - pos - 8);
            assert forall|j: int| 0 <= j < end - pos - 8 implies bytes@.subrange(
                pos as int + 8,
                end,
            )[j] == enc_chars(s.drop_first())[j] by {
                assert(bytes@.subrange(pos as int, end)[j + 8] == enc_chars(s)[j + 8]);
                assert(enc_chars(s)[j + 8] == enc_chars(s.drop_first())[j]);
            }
            assert(bytes@.subrange(pos as int + 8, end) =~= enc_chars(s.drop_first()));
        }
    }
    match first {
        None => None,
        Some((c, p1)) => {
            match decode_chars(bytes, p1, count - 1) {
                None => None,
                Some((mut v, p2)) => {
                    v.insert(0, c);
                    proof {
                        assert forall|s: Seq<char>, end: int|
                            #![trigger enc_chars(s), bytes@.subrange(pos as int, end)]
                            s.len() == count && pos <= end <= bytes@.len() && bytes@.subrange(
                                pos as int,
                                end,
                            ) == enc_chars(s) implies p2 == end && v@ =~= s by {
                            assert(s.drop_first().len() == count - 1);
                            assert(c == s[0] && p1 == pos + 8);
                        }
                    }
                    Some((v, p2))
                },
            }
        },
    }
}

/// Appends the encoding of a text.
pub fn encode_string(s: &str, out: &mut Vec<u8>)
    ensures
        final(out)@ == old(out)@ + enc_str(s@),
{
    broadcast use vstd::string::next_postcondition;

    let mut body: Vec<u8> = Vec::new();
    let mut it = s.chars();
    let ghost mut done: Seq<char> = Seq::empty();
    proof {
        assert(done + it.remaining() =~= s@);
    }
    loop
        invariant
            done + it.remaining() == s@,
            body@ == enc_chars(done),
            body@.len() == 8 * done.len(),
            it.decrease() is Some,
        ensures
            done == s@,
            body@ == enc_chars(s@),
            body@.len() == 8 * s@.len(),
        decreases it.decrease()->0,
    {
        match it.next() {
            Some(c) => {
                proof {
                    lemma_enc_chars_push(done, c);
                    assert(done.push(c) + it.remaining() =~= s@);
                    done = done.push(c);
                }
                encode_u64((c as u32) as u64, &mut body);
            },
            None => {
                proof {
                    assert(done =~= s@);
                }
                break ;
            },
        }
    }
    let count = body.len() / 8;
    encode_u64(count as u64, out);
    out.append(&mut body);
    proof {
        assert(out@ =~= old(out)@ + enc_str(s@));
    }
}

/// A byte range holding the encoding of a text starts with the character
/// count and continues with the characters.
proof fn lemma_str_header(b: Seq<u8>, pos: int, end: int, s: Seq<char>)
    requires
        0 <= pos <= end <= b.len(),
        b.subrange(pos, end) == enc_str(s),
    ensures
        8 * s.len() == end - pos - 8,
        dec_u64(b.subrange(pos, pos + 8)) == s.len() as u64,
        b.subrange(pos + 8, end) == enc_chars(s),
{
    lemma_split(b, pos, end, enc_u64(s.len() as u64), enc_chars(s));
    lemma_enc_chars_len(s);
    lemma_u64_round_trip(s.len() as u64);
}

/// Reads the character count, then that many characters.
#[verifier::rlimit(100)]
#[verifier::spinoff_prover]
fn decode_string(bytes: &Vec<u8>, pos: usize) -> (r: Option<(String, usize)>)
    ensures
        forall|s: Seq<char>, end: int|
            #![trigger enc_str(s), bytes@.subrange(pos as int, end)]
            pos <= end <= bytes@.len() && bytes@.subrange(pos as int, end) == enc_str(s) ==> (
            r matches Some(p) && p.1 == end && p.0@ == s),
        r matches Some(p) ==> pos < p.1 <= bytes@.len(),
{
    proof {
        vstd::std_specs::vec::axiom_spec_len(bytes);
    }
    match decode_u64(bytes, pos) {
        None => {
            proof {
                assert forall|s: Seq<char>, end: int|
                    #![trigger enc_str(s), bytes@.subrange(pos as int, end)]
                    !(pos <= end <= bytes@.len() && bytes@.subrange(pos as int, end) == enc_str(
                        s,
                    )) by {
                    if pos <= end <= bytes@.len() && bytes@.subrange(pos as int, end) == enc_str(
                        s,
                    ) {
                        lemma_str_header(bytes@, pos as int, end, s);
                    }
                }
            }
            None
        },
        Some((cnt64, p1)) => {
            proof {
                assert(pos + 8 <= bytes@.len() ==> cnt64 == dec_u64(
                    bytes@.subrange(pos as int, pos as int + 8),
                ) && p1 == pos + 8);
                assert forall|s: Seq<char>, end: int|
                    #![trigger enc_str(s), bytes@.subrange(pos as int, end)]
                    pos <= end <= bytes@.len() && bytes@.subrange(pos as int, end) == enc_str(s)
                        implies cnt64 == s.len() && p1 == pos + 8 && pos + 8 <= end && 8 * s.len()
                        == end - pos - 8 && bytes@.subrange(pos as int + 8, end) == enc_chars(s) by {
                    lemma_str_header(bytes@, pos as int, end, s);
                    assert(s.len() <= bytes@.len());
                    assert(cnt64 == s.len() as u64);
                }
            }
            if cnt64 > bytes.len() as u64 {
                proof {
                    assert forall|s: Seq<char>, end: int|
                        #![trigger enc_str(s), bytes@.subrange(pos as int, end)]
                        pos <= end <= bytes@.len() && bytes@.subrange(pos as int, end) == enc_str(
                            s,
                        ) implies false by {
                        assert(cnt64 == s.len() && 8 * s.len() == end - pos - 8);
                        assert(s.len() <= bytes@.len());
                    }
                }
                None
            } else {
                let cnt = cnt64 as usize;
                let dc = decode_chars(bytes, p1, cnt);
                proof {
                    assert(forall|s: Seq<char>, end: int|
                        #![trigger enc_chars(s), bytes@.subrange(p1 as int, end)]
                        s.len() == cnt && p1 <= end <= bytes@.len() && bytes@.subrange(
                            p1 as int,
                            end,
                        ) == enc_chars(s) ==> (dc matches Some(p) && p.1 == end && p.0@ == s));
                }
                match dc {
                    None => {
                        proof {
                            assert forall|s: Seq<char>, end: int|
                                #![trigger enc_str(s), bytes@.subrange(pos as int, end)]
                                pos <= end <= bytes@.len() && bytes@.subrange(pos as int, end)
                                    == enc_str(s) implies false by {
                                assert(cnt64 == s.len() && p1 == pos + 8 && pos + 8 <= end && 8
                                    * s.len() == end - pos - 8 && bytes@.subrange(
                                    pos as int + 8,
                                    end,
                                ) == enc_chars(s));
                                assert(bytes@.subrange(p1 as int, end) == enc_chars(s));
                                assert(s.len() == cnt);
                                assert(p1 <= end <= bytes@.len());
                            }
                        }
                        None
                    },
                    Some((cs, p2)) => {
                        let text = chars_to_string(&cs);
                        proof {
                            assert forall|s: Seq<char>, end: int|
                                #![trigger enc_str(s), bytes@.subrange(pos as int, end)]
                                pos <= end <= bytes@.len() && bytes@.subrange(pos as int, end)
                                    == enc_str(s) implies p2 == end && text@ == s by {
                                assert(cnt64 == s.len() && p1 == pos + 8 && pos + 8 <= end && 8
                                    * s.len() == end - pos - 8 && bytes@.subrange(
                                    pos as int + 8,
                                    end,
                                ) == enc_chars(s));
                                assert(bytes@.subrange(p1 as int, end) == enc_chars(s));
                                assert(s.len() == cnt);
                                assert(p1 <= end <= bytes@.len());
                                assert(cs@ == s && p2 == end);
                            }
                        }
                        Some((text, p2))
                    },
                }
            }
        },
    }
}

/// A byte range equal to a concatenation splits at the concatenation's seam.
proof fn lemma_split(b: Seq<u8>, pos: int, end: int, x: Seq<u8>, y: Seq<u8>)
    requires
        0 <= pos <= end <= b.len(),
        b.subrange(pos, end) == x + y,
    ensures
        pos + x.len() + y.len() == end,
        b.subrange(pos, pos + x.len()) == x,
        b.subrange(pos + x.len(), end) == y,
{
    assert(b.subrange(pos, end).len() == end - pos);
    assert(b.subrange(pos, pos + x.len()) =~= x);
    assert forall|i: int| 0 <= i < y.len() implies b.subrange(pos + x.len(), end)[i] == y[i] by {
        assert(b.subrange(pos, end)[x.len() + i] == b[pos + x.len() + i]);
        assert((x + y)[x.len() + i] == y[i]);
        assert(b.subrange(pos + x.len(), end)[i] == b[pos + x.len() + i]);
    }
    assert(b.subrange(pos + x.len(), end) =~= y);
}


/// A byte range equal to a tagged payload starts with the tag and continues
/// with the payload.
proof fn lemma_tag_payload(b: Seq<u8>, pos: int, end: int, tag: u8, payload: Seq<u8>)
    requires
        0 <= pos <= end <= b.len(),
        b.subrange(pos, end) == seq![tag] + payload,
    ensures
        end == pos + 1 + payload.len(),
        b[pos] == tag,
        b.subrange(pos + 1, end) == payload,
{
    lemma_split(b, pos, end, seq![tag], payload);
    assert(b.subrange(pos, pos + 1)[0] == b[pos]);
}

/// Reads one tag byte.
fn read_tag(bytes: &Vec<u8>, pos: usize) -> (r: Option<(u8, usize)>)
    ensures
        pos < bytes@.len() ==> (r matches Some(p) && p.0 == bytes@[pos as int] && p.1 == pos + 1),
        pos >= bytes@.len() ==> r is None,
{
    if pos < bytes.len() {
        Some((bytes[pos], pos + 1))
    } else {
        None
    }
}

/// A render group: one tag byte from the closed set.
pub open spec fn enc_rg(g: RenderGroup) -> Seq<u8> {
    match g {
        RenderGroup::Nav => seq![0u8],
    }
}

/// A block container kind: one tag byte.
pub open spec fn enc_bt(t: BlockType) -> Seq<u8> {
    match t {
        BlockType::Block => seq![0u8],
        BlockType::Inline => seq![1u8],
    }
}

/// A route: a variant tag, then its payload.
pub open spec fn enc_route(r: Route) -> Seq<u8> {
    match r {
        Route::Page(name) => seq![0u8] + enc_str(name@),
        Route::Section(anchor) => seq![1u8] + enc_str(anchor@),
        Route::RenderGroup(g) => seq![2u8] + enc_rg(g),
    }
}

/// A link target: a variant tag, then its text.
pub open spec fn enc_lt(t: LinkTarget) -> Seq<u8> {
    match t {
        LinkTarget::Heading { title } => seq![0u8] + enc_str(title@),
        LinkTarget::External(uri) => seq![1u8] + enc_str(uri@),
    }
}

/// A directive: a variant tag, then its texts.
pub open spec fn enc_directive(d: Directive) -> Seq<u8> {
    match d {
        Directive::Id(s) => seq![0u8] + enc_str(s@),
        Directive::Title(s) => seq![1u8] + enc_str(s@),
        Directive::Raw(k, v) => seq![2u8] + (enc_str(k@) + enc_str(v@)),
    }
}

/// One inline expression node: a variant tag, then its payload.
pub open spec fn enc_ben(n: BlockExprNode) -> Seq<u8>
    decreases n, 0int,
{
    match n {
        BlockExprNode::Char(c) => seq![0u8] + enc_char(c),
        BlockExprNode::Bold(t) => seq![1u8] + enc_bet(t@),
        BlockExprNode::Italic(t) => seq![2u8] + enc_bet(t@),
        BlockExprNode::Underline(t) => seq![3u8] + enc_bet(t@),
        BlockExprNode::Strikethrough(t) => seq![4u8] + enc_bet(t@),
        BlockExprNode::NonbreakingSpace(t) => seq![5u8] + enc_bet(t@),
        BlockExprNode::Code(s) => seq![6u8] + enc_str(s@),
        BlockExprNode::Link(target, None) => seq![7u8] + (enc_lt(target) + seq![0u8]),
        BlockExprNode::Link(target, Some(t)) => seq![7u8] + (enc_lt(target) + (seq![1u8]
            + enc_bet(t@))),
        BlockExprNode::Linespace => seq![8u8],
        BlockExprNode::HeaderRouting(r) => seq![9u8] + enc_route(r),
    }
}

/// The nodes of an inline expression tree, one after the other.
pub open spec fn enc_tree(s: Seq<BlockExprNode>) -> Seq<u8>
    decreases s, 1int,
{
    if s.len() == 0 {
        Seq::empty()
    } else {
        enc_ben(s[0]) + enc_tree(s.drop_first())
    }
}

/// An inline expression tree: its node count, then its nodes.
pub open spec fn enc_bet(s: Seq<BlockExprNode>) -> Seq<u8>
    decreases s, 2int,
{
    enc_u64(s.len() as u64) + enc_tree(s)
}

/// Appending a node appends its encoding.
pub proof fn lemma_enc_tree_push(s: Seq<BlockExprNode>, n: BlockExprNode)
    ensures
        enc_tree(s.push(n)) == enc_tree(s) + enc_ben(n),
    decreases s.len(),
{
    if s.len() == 0 {
        assert(s.push(n)[0] == n);
        assert(s.push(n).drop_first() =~= Seq::<BlockExprNode>::empty());
        assert(enc_tree(s) =~= Seq::<u8>::empty());
        assert(enc_tree(s.push(n)) =~= enc_tree(s) + enc_ben(n));
    } else {
        assert(s.push(n)[0] == s[0]);
        assert(s.push(n).drop_first() =~= s.drop_first().push(n));
        lemma_enc_tree_push(s.drop_first(), n);
        assert(enc_tree(s.push(n)) == enc_ben(s[0]) + enc_tree(s.drop_first().push(n)));
        assert(enc_tree(s) == enc_ben(s[0]) + enc_tree(s.drop_first()));
        assert(enc_tree(s.push(n)) =~= enc_tree(s) + enc_ben(n));
    }
}

/// Appends the encoding of a render group.
fn encode_rg(g: &RenderGroup, out: &mut Vec<u8>)
    ensures
        final(out)@ == old(out)@ + enc_rg(*g),
{
    match g {
        RenderGroup::Nav => out.push(0u8),
    }
    proof {
        assert(out@ =~= old(out)@ + enc_rg(*g));
    }
}

/// Appends the encoding of a block container kind.
fn encode_bt(t: &BlockType, out: &mut Vec<u8>)
    ensures
        final(out)@ == old(out)@ + enc_bt(*t),
{
    match t {
        BlockType::Block => out.push(0u8),
        BlockType::Inline => out.push(1u8),
    }
    proof {
        assert(out@ =~= old(out)@ + enc_bt(*t));
    }
}

/// Appends the encoding of a route.
fn encode_route_into(r: &Route, out: &mut Vec<u8>)
    ensures
        final(out)@ == old(out)@ + enc_route(*r),
{
    match r {
        Route::Page(name) => {
            out.push(0u8);
            encode_string(name.as_str(), out);
        },
        Route::Section(anchor) => {
            out.push(1u8);
            encode_string(anchor.as_str(), out);
        },
        Route::RenderGroup(g) => {
            out.push(2u8);
            encode_rg(g, out);
        },
    }
    proof {
        assert(out@ =~= old(out)@ + enc_route(*r));
    }
}

/// Appends the encoding of a link target.
fn encode_lt_into(t: &LinkTarget, out: &mut Vec<u8>)
    ensures
        final(out)@ == old(out)@ + enc_lt(*t),
{
    match t {
        LinkTarget::Heading { title } => {
            out.push(0u8);
            encode_string(title.as_str(), out);
        },
        LinkTarget::External(uri) => {
            out.push(1u8);
            encode_string(uri.as_str(), out);
        },
    }
    proof {
        assert(out@ =~= old(out)@ + enc_lt(*t));
    }
}

/// Appends the encoding of a directive.
fn encode_directive_into(d: &Directive, out: &mut Vec<u8>)
    ensures
        final(out)@ == old(out)@ + enc_directive(*d),
{
    match d {
        Directive::Id(s) => {
            out.push(0u8);
            encode_string(s.as_str(), out);
        },
        Directive::Title(s) => {
            out.push(1u8);
            encode_string(s.as_str(), out);
        },
        Directive::Raw(k, v) => {
            out.push(2u8);
            encode_string(k.as_str(), out);
            encode_string(v.as_str(), out);
        },
    }
    proof {
        assert(out@ =~= old(out)@ + enc_directive(*d));
    }
}

/// Appends the encoding of one inline expression node.
fn encode_ben(n: &BlockExprNode, out: &mut Vec<u8>)
    ensures
        final(out)@ == old(out)@ + enc_ben(*n),
    decreases *n, 0int,
{
    match n {
        BlockExprNode::Char(c) => {
            out.push(0u8);
            encode_u64((*c as u32) as u64, out);
        },
        BlockExprNode::Bold(t) => {
            out.push(1u8);
            encode_bet_into(t, out);
        },
        BlockExprNode::Italic(t) => {
            out.push(2u8);
            encode_bet_into(t, out);
        },
        BlockExprNode::Underline(t) => {
            out.push(3u8);
            encode_bet_into(t, out);
        },
        BlockExprNode::Strikethrough(t) => {
            out.push(4u8);
            encode_bet_into(t, out);
        },
        BlockExprNode::NonbreakingSpace(t) => {
            out.push(5u8);
            encode_bet_into(t, out);
        },
        BlockExprNode::Code(s) => {
            out.push(6u8);
            encode_string(s.as_str(), out);
        },
        BlockExprNode::Link(target, opt) => {
            out.push(7u8);
            encode_lt_into(target, out);
            match opt {
                None => out.push(0u8),
                Some(t) => {
                    out.push(1u8);
                    encode_bet_into(t, out);
                },
            }
        },
        BlockExprNode::Linespace => {
            out.push(8u8);
        },
        BlockExprNode::HeaderRouting(r) => {
            out.push(9u8);
            encode_route_into(r, out);
        },
    }
    proof {
        assert(out@ =~= old(out)@ + enc_ben(*n));
    }
}

/// Appends the encoding of an inline expression tree.
fn encode_bet_into(t: &Vec<BlockExprNode>, out: &mut Vec<u8>)
    ensures
        final(out)@ == old(out)@ + enc_bet(t@),
    decreases *t, 2int,
{
    encode_u64(t.len() as u64, out);
    let ghost mid = out@;
    let mut i: usize = 0;
    while i < t.len()
        invariant
            i <= t@.len(),
            out@ == mid + enc_tree(t@.take(i as int)),
        decreases t@.len() - i,
    {
        proof {
            assert(t@.take(i + 1) =~= t@.take(i as int).push(t@[i as int]));
            lemma_enc_tree_push(t@.take(i as int), t@[i as int]);
        }
        encode_ben(&t[i], out);
        i = i + 1;
    }
    proof {
        assert(t@.take(t@.len() as int) =~= t@);
        assert(out@ =~= old(out)@ + enc_bet(t@));
    }
}


/// The parts of an encoded route, by variant.
proof fn lemma_route_parts(b: Seq<u8>, pos: int, end: int, v: Route)
    requires
        0 <= pos <= end <= b.len(),
        b.subrange(pos, end) == enc_route(v),
    ensures
        pos < end,
        v matches Route::Page(s) ==> b[pos] == 0 && b.subrange(pos + 1, end) == enc_str(s@),
        v matches Route::Section(s) ==> b[pos] == 1 && b.subrange(pos + 1, end) == enc_str(s@),
        v matches Route::RenderGroup(g) ==> b[pos] == 2 && end == pos + 2 && b[pos + 1] == 0,
{
    match v {
        Route::Page(s) => lemma_tag_payload(b, pos, end, 0u8, enc_str(s@)),
        Route::Section(s) => lemma_tag_payload(b, pos, end, 1u8, enc_str(s@)),
        Route::RenderGroup(g) => {
            lemma_tag_payload(b, pos, end, 2u8, enc_rg(g));
            assert(b.subrange(pos + 1, end)[0] == b[pos + 1]);
        },
    }
}

/// The parts of an encoded link target, by variant.
proof fn lemma_lt_parts(b: Seq<u8>, pos: int, end: int, v: LinkTarget)
    requires
        0 <= pos <= end <= b.len(),
        b.subrange(pos, end) == enc_lt(v),
    ensures
        pos < end,
        v matches LinkTarget::Heading { title } ==> b[pos] == 0 && b.subrange(pos + 1, end)
            == enc_str(title@),
        v matches LinkTarget::External(uri) ==> b[pos] == 1 && b.subrange(pos + 1, end)
            == enc_str(uri@),
{
    match v {
        LinkTarget::Heading { title } => lemma_tag_payload(b, pos, end, 0u8, enc_str(title@)),
        LinkTarget::External(uri) => lemma_tag_payload(b, pos, end, 1u8, enc_str(uri@)),
    }
}

/// The parts of an encoded directive, by variant.
proof fn lemma_directive_parts(b: Seq<u8>, pos: int, end: int, v: Directive)
    requires
        0 <= pos <= end <= b.len(),
        b.subrange(pos, end) == enc_directive(v),
    ensures
        pos < end,
        v matches Directive::Id(s) ==> b[pos] == 0 && b.subrange(pos + 1, end) == enc_str(s@),
        v matches Directive::Title(s) ==> b[pos] == 1 && b.subrange(pos + 1, end) == enc_str(s@),
        v matches Directive::Raw(k, w) ==> b[pos] == 2 && b.subrange(pos + 1, end) == enc_str(k@)
            + enc_str(w@),
{
    match v {
        Directive::Id(s) => lemma_tag_payload(b, pos, end, 0u8, enc_str(s@)),
        Directive::Title(s) => lemma_tag_payload(b, pos, end, 1u8, enc_str(s@)),
        Directive::Raw(k, w) => lemma_tag_payload(b, pos, end, 2u8, enc_str(k@) + enc_str(w@)),
    }
}

/// Reads a render group.
fn decode_rg_at(bytes: &Vec<u8>, pos: usize) -> (r: Option<(RenderGroup, usize)>)
    ensures
        forall|g: RenderGroup, end: int|
            #![trigger enc_rg(g), bytes@.subrange(pos as int, end)]
            pos <= end <= bytes@.len() && bytes@.subrange(pos as int, end) == enc_rg(g) ==> (
            r matches Some(p) && p.1 == end && p.0 == g),
        r matches Some(p) ==> pos < p.1 <= bytes@.len(),
{
    match read_tag(bytes, pos) {
        None => {
            proof {
                assert forall|g: RenderGroup, end: int|
                    #![trigger enc_rg(g), bytes@.subrange(pos as int, end)]
                    !(pos <= end <= bytes@.len() && bytes@.subrange(pos as int, end) == enc_rg(
                        g,
                    )) by {
                    if pos <= end <= bytes@.len() && bytes@.subrange(pos as int, end) == enc_rg(
                        g,
                    ) {
                        lemma_tag_payload(bytes@, pos as int, end, 0u8, Seq::empty());
                        assert(enc_rg(g) =~= seq![0u8] + Seq::<u8>::empty());
                    }
                }
            }
            None
        },
        Some((tag, p1)) => {
            proof {
                assert forall|g: RenderGroup, end: int|
                    #![trigger enc_rg(g), bytes@.subrange(pos as int, end)]
                    pos <= end <= bytes@.len() && bytes@.subrange(pos as int, end) == enc_rg(g)
                        implies tag == 0 && end == p1 && g == RenderGroup::Nav by {
                    assert(enc_rg(g) =~= seq![0u8] + Seq::<u8>::empty());
                    lemma_tag_payload(bytes@, pos as int, end, 0u8, Seq::empty());
                }
            }
            if tag == 0 {
                Some((RenderGroup::Nav, p1))
            } else {
                None
            }
        },
    }
}

/// Reads a block container kind.
fn decode_bt_at(bytes: &Vec<u8>, pos: usize) -> (r: Option<(BlockType, usize)>)
    ensures
        forall|t: BlockType, end: int|
            #![trigger enc_bt(t), bytes@.subrange(pos as int, end)]
            pos <= end <= bytes@.len() && bytes@.subrange(pos as int, end) == enc_bt(t) ==> (
            r matches Some(p) && p.1 == end && p.0 == t),
        r matches Some(p) ==> pos < p.1 <= bytes@.len(),
{
    match read_tag(bytes, pos) {
        None => {
            proof {
                assert forall|t: BlockType, end: int|
                    #![trigger enc_bt(t), bytes@.subrange(pos as int, end)]
                    !(pos <= end <= bytes@.len() && bytes@.subrange(pos as int, end) == enc_bt(
                        t,
                    )) by {
                    if pos <= end <= bytes@.len() && bytes@.subrange(pos as int, end) == enc_bt(
                        t,
                    ) {
                        match t {
                            BlockType::Block => {
                                assert(enc_bt(t) =~= seq![0u8] + Seq::<u8>::empty());
                                lemma_tag_payload(bytes@, pos as int, end, 0u8, Seq::empty());
                            },
                            BlockType::Inline => {
                                assert(enc_bt(t) =~= seq![1u8] + Seq::<u8>::empty());
                                lemma_tag_payload(bytes@, pos as int, end, 1u8, Seq::empty());
                            },
                        }
                    }
                }
            }
            None
        },
        Some((tag, p1)) => {
            proof {
                assert forall|t: BlockType, end: int|
                    #![trigger enc_bt(t), bytes@.subrange(pos as int, end)]
                    pos <= end <= bytes@.len() && bytes@.subrange(pos as int, end) == enc_bt(t)
                        implies end == p1 && (t == BlockType::Block ==> tag == 0) && (t
                        == BlockType::Inline ==> tag == 1) && (tag == 0 || tag == 1) by {
                    match t {
                        BlockType::Block => {
                            assert(enc_bt(t) =~= seq![0u8] + Seq::<u8>::empty());
                            lemma_tag_payload(bytes@, pos as int, end, 0u8, Seq::empty());
                        },
                        BlockType::Inline => {
                            assert(enc_bt(t) =~= seq![1u8] + Seq::<u8>::empty());
                            lemma_tag_payload(bytes@, pos as int, end, 1u8, Seq::empty());
                        },
                    }
                }
            }
            if tag == 0 {
                Some((BlockType::Block, p1))
            } else if tag == 1 {
                Some((BlockType::Inline, p1))
            } else {
                None
            }
        },
    }
}

/// Reads a route.
#[verifier::rlimit(100)]
#[verifier::spinoff_prover]
fn decode_route_at(bytes: &Vec<u8>, pos: usize) -> (r: Option<(Route, usize)>)
    ensures
        forall|v: Route, end: int|
            #![trigger enc_route(v), bytes@.subrange(pos as int, end)]
            pos <= end <= bytes@.len() && bytes@.subrange(pos as int, end) == enc_route(v) ==> (
            r matches Some(p) && p.1 == end && p.0@ == v@),
        r matches Some(p) ==> pos < p.1 <= bytes@.len(),
{
    match read_tag(bytes, pos) {
        None => {
            proof {
                assert forall|v: Route, end: int|
                    #![trigger enc_route(v), bytes@.subrange(pos as int, end)]
                    !(pos <= end <= bytes@.len() && bytes@.subrange(pos as int, end) == enc_route(
                        v,
                    )) by {
                    if pos <= end <= bytes@.len() && bytes@.subrange(pos as int, end) == enc_route(
                        v,
                    ) {
                        lemma_route_parts(bytes@, pos as int, end, v);
                    }
                }
            }
            None
        },
        Some((tag, p1)) => {
            if tag == 0 {
                let ds = decode_string(bytes, p1);
                proof {
                    assert(forall|s: Seq<char>, end: int|
                        #![trigger enc_str(s), bytes@.subrange(p1 as int, end)]
                        p1 <= end <= bytes@.len() && bytes@.subrange(p1 as int, end) == enc_str(s)
                            ==> (ds matches Some(p) && p.1 == end && p.0@ == s));
                }
                match ds {
                    Some((name, p2)) => {
                        proof {
                            assert forall|v: Route, end: int|
                                #![trigger enc_route(v), bytes@.subrange(pos as int, end)]
                                pos <= end <= bytes@.len() && bytes@.subrange(pos as int, end)
                                    == enc_route(v) implies p2 == end && (v matches Route::Page(s)
                                && name@ == s@) by {
                                lemma_route_parts(bytes@, pos as int, end, v);
                            }
                        }
                        Some((Route::Page(name), p2))
                    },
                    None => {
                        proof {
                            assert forall|v: Route, end: int|
                                #![trigger enc_route(v), bytes@.subrange(pos as int, end)]
                                !(pos <= end <= bytes@.len() && bytes@.subrange(pos as int, end)
                                    == enc_route(v)) by {
                                if pos <= end <= bytes@.len() && bytes@.subrange(pos as int, end)
                                    == enc_route(v) {
                                    lemma_route_parts(bytes@, pos as int, end, v);
                                }
                            }
                        }
                        None
                    },
                }
            } else if tag == 1 {
                let ds = decode_string(bytes, p1);
                proof {
                    assert(forall|s: Seq<char>, end: int|
                        #![trigger enc_str(s), bytes@.subrange(p1 as int, end)]
                        p1 <= end <= bytes@.len() && bytes@.subrange(p1 as int, end) == enc_str(s)
                            ==> (ds matches Some(p) && p.1 == end && p.0@ == s));
                }
                match ds {
                    Some((anchor, p2)) => {
                        proof {
                            assert forall|v: Route, end: int|
                                #![trigger enc_route(v), bytes@.subrange(pos as int, end)]
                                pos <= end <= bytes@.len() && bytes@.subrange(pos as int, end)
                                    == enc_route(v) implies p2 == end && (v
                                matches Route::Section(s) && anchor@ == s@) by {
                                lemma_route_parts(bytes@, pos as int, end, v);
                            }
                        }
                        Some((Route::Section(anchor), p2))
                    },
                    None => {
                        proof {
                            assert forall|v: Route, end: int|
                                #![trigger enc_route(v), bytes@.subrange(pos as int, end)]
                                !(pos <= end <= bytes@.len() && bytes@.subrange(pos as int, end)
                                    == enc_route(v)) by {
                                if pos <= end <= bytes@.len() && bytes@.subrange(pos as int, end)
                                    == enc_route(v) {
                                    lemma_route_parts(bytes@, pos as int, end, v);
                                }
                            }
                        }
                        None
                    },
                }
            } else if tag == 2 {
                let dg = decode_rg_at(bytes, p1);
                proof {
                    assert(forall|g: RenderGroup, end: int|
                        #![trigger enc_rg(g), bytes@.subrange(p1 as int, end)]
                        p1 <= end <= bytes@.len() && bytes@.subrange(p1 as int, end) == enc_rg(g)
                            ==> (dg matches Some(p) && p.1 == end && p.0 == g));
                }
                match dg {
                    Some((g, p2)) => {
                        proof {
                            assert forall|v: Route, end: int|
                                #![trigger enc_route(v), bytes@.subrange(pos as int, end)]
                                pos <= end <= bytes@.len() && bytes@.subrange(pos as int, end)
                                    == enc_route(v) implies p2 == end && (v
                                matches Route::RenderGroup(g0) && g == g0) by {
                                lemma_route_parts(bytes@, pos as int, end, v);
                                match v {
                                    Route::RenderGroup(g0) => {
                                        assert(bytes@.subrange(p1 as int, p1 as int + 1)
                                            =~= enc_rg(g0));
                                        assert(p1 + 1 == end);
                                    },
                                    _ => {},
                                }
                            }
                        }
                        Some((Route::RenderGroup(g), p2))
                    },
                    None => {
                        proof {
                            assert forall|v: Route, end: int|
                                #![trigger enc_route(v), bytes@.subrange(pos as int, end)]
                                !(pos <= end <= bytes@.len() && bytes@.subrange(pos as int, end)
                                    == enc_route(v)) by {
                                if pos <= end <= bytes@.len() && bytes@.subrange(pos as int, end)
                                    == enc_route(v) {
                                    lemma_route_parts(bytes@, pos as int, end, v);
                                    match v {
                                        Route::RenderGroup(g0) => {
                                            assert(bytes@.subrange(p1 as int, p1 as int + 1)
                                                =~= enc_rg(g0));
                                        },
                                        _ => {},
                                    }
                                }
                            }
                        }
                        None
                    },
                }
            } else {
                proof {
                    assert forall|v: Route, end: int|
                        #![trigger enc_route(v), bytes@.subrange(pos as int, end)]
                        !(pos <= end <= bytes@.len() && bytes@.subrange(pos as int, end)
                            == enc_route(v)) by {
                        if pos <= end <= bytes@.len() && bytes@.subrange(pos as int, end)
                            == enc_route(v) {
                            lemma_route_parts(bytes@, pos as int, end, v);
                        }
                    }
                }
                None
            }
        },
    }
}


/// Reads a link target.
#[verifier::rlimit(100)]
#[verifier::spinoff_prover]
fn decode_lt_at(bytes: &Vec<u8>, pos: usize) -> (r: Option<(LinkTarget, usize)>)
    ensures
        forall|v: LinkTarget, end: int|
            #![trigger enc_lt(v), bytes@.subrange(pos as int, end)]
            pos <= end <= bytes@.len() && bytes@.subrange(pos as int, end) == enc_lt(v) ==> (
            r matches Some(p) && p.1 == end && p.0@ == v@),
        r matches Some(p) ==> pos < p.1 <= bytes@.len(),
{
    match read_tag(bytes, pos) {
        None => {
            proof {
                assert forall|v: LinkTarget, end: int|
                    #![trigger enc_lt(v), bytes@.subrange(pos as int, end)]
                    !(pos <= end <= bytes@.len() && bytes@.subrange(pos as int, end) == enc_lt(
                        v,
                    )) by {
                    if pos <= end <= bytes@.len() && bytes@.subrange(pos as int, end) == enc_lt(
                        v,
                    ) {
                        lemma_lt_parts(bytes@, pos as int, end, v);
                    }
                }
            }
            None
        },
        Some((tag, p1)) => {
            if tag > 1 {
                proof {
                    assert forall|v: LinkTarget, end: int|
                        #![trigger enc_lt(v), bytes@.subrange(pos as int, end)]
                        !(pos <= end <= bytes@.len() && bytes@.subrange(pos as int, end) == enc_lt(
                            v,
                        )) by {
                        if pos <= end <= bytes@.len() && bytes@.subrange(pos as int, end)
                            == enc_lt(v) {
                            lemma_lt_parts(bytes@, pos as int, end, v);
                        }
                    }
                }
                return None;
            }
            let ds = decode_string(bytes, p1);
            proof {
                assert(forall|s: Seq<char>, end: int|
                    #![trigger enc_str(s), bytes@.subrange(p1 as int, end)]
                    p1 <= end <= bytes@.len() && bytes@.subrange(p1 as int, end) == enc_str(s)
                        ==> (ds matches Some(p) && p.1 == end && p.0@ == s));
            }
            match ds {
                Some((text, p2)) => {
                    proof {
                        assert forall|v: LinkTarget, end: int|
                            #![trigger enc_lt(v), bytes@.subrange(pos as int, end)]
                            pos <= end <= bytes@.len() && bytes@.subrange(pos as int, end)
                                == enc_lt(v) implies p2 == end && (tag == 0 ==> (v
                            matches LinkTarget::Heading { title } && text@ == title@)) && (tag == 1
                                ==> (v matches LinkTarget::External(uri) && text@ == uri@)) by {
                            lemma_lt_parts(bytes@, pos as int, end, v);
                        }
                    }
                    if tag == 0 {
                        Some((LinkTarget::Heading { title: text }, p2))
                    } else {
                        Some((LinkTarget::External(text), p2))
                    }
                },
                None => {
                    proof {
                        assert forall|v: LinkTarget, end: int|
                            #![trigger enc_lt(v), bytes@.subrange(pos as int, end)]
                            !(pos <= end <= bytes@.len() && bytes@.subrange(pos as int, end)
                                == enc_lt(v)) by {
                            if pos <= end <= bytes@.len() && bytes@.subrange(pos as int, end)
                                == enc_lt(v) {
                                lemma_lt_parts(bytes@, pos as int, end, v);
                            }
                        }
                    }
                    None
                },
            }
        },
    }
}

/// Reads a directive.
#[verifier::rlimit(100)]
#[verifier::spinoff_prover]
fn decode_directive_at(bytes: &Vec<u8>, pos: usize) -> (r: Option<(Directive, usize)>)
    ensures
        forall|v: Directive, end: int|
            #![trigger enc_directive(v), bytes@.subrange(pos as int, end)]
            pos <= end <= bytes@.len() && bytes@.subrange(pos as int, end) == enc_directive(v)
                ==> (r matches Some(p) && p.1 == end && p.0@ == v@),
        r matches Some(p) ==> pos < p.1 <= bytes@.len(),
{
    match read_tag(bytes, pos) {
        None => {
            proof {
                assert forall|v: Directive, end: int|
                    #![trigger enc_directive(v), bytes@.subrange(pos as int, end)]
                    !(pos <= end <= bytes@.len() && bytes@.subrange(pos as int, end)
                        == enc_directive(v)) by {
                    if pos <= end <= bytes@.len() && bytes@.subrange(pos as int, end)
                        == enc_directive(v) {
                        lemma_directive_parts(bytes@, pos as int, end, v);
                    }
                }
            }
            None
        },
        Some((tag, p1)) => {
            if tag > 2 {
                proof {
                    assert forall|v: Directive, end: int|
                        #![trigger enc_directive(v), bytes@.subrange(pos as int, end)]
                        !(pos <= end <= bytes@.len() && bytes@.subrange(pos as int, end)
                            == enc_directive(v)) by {
                        if pos <= end <= bytes@.len() && bytes@.subrange(pos as int, end)
                            == enc_directive(v) {
                            lemma_directive_parts(bytes@, pos as int, end, v);
                        }
                    }
                }
                return None;
            }
            let ds = decode_string(bytes, p1);
            proof {
                assert(forall|s: Seq<char>, end: int|
                    #![trigger enc_str(s), bytes@.subrange(p1 as int, end)]
                    p1 <= end <= bytes@.len() && bytes@.subrange(p1 as int, end) == enc_str(s)
                        ==> (ds matches Some(p) && p.1 == end && p.0@ == s));
            }
            match ds {
                None => {
                    proof {
                        assert forall|v: Directive, end: int|
                            #![trigger enc_directive(v), bytes@.subrange(pos as int, end)]
                            !(pos <= end <= bytes@.len() && bytes@.subrange(pos as int, end)
                                == enc_directive(v)) by {
                            if pos <= end <= bytes@.len() && bytes@.subrange(pos as int, end)
                                == enc_directive(v) {
                                lemma_directive_parts(bytes@, pos as int, end, v);
                                match v {
                                    Directive::Raw(k, w) => {
                                        lemma_split(
                                            bytes@,
                                            p1 as int,
                                            end,
                                            enc_str(k@),
                                            enc_str(w@),
                                        );
                                    },
                                    _ => {},
                                }
                            }
                        }
                    }
                    None
                },
                Some((first, p2)) => {
                    if tag == 0 {
                        proof {
                            assert forall|v: Directive, end: int|
                                #![trigger enc_directive(v), bytes@.subrange(pos as int, end)]
                                pos <= end <= bytes@.len() && bytes@.subrange(pos as int, end)
                                    == enc_directive(v) implies p2 == end && (v
                                matches Directive::Id(s) && first@ == s@) by {
                                lemma_directive_parts(bytes@, pos as int, end, v);
                                match v {
                                    Directive::Raw(k, w) => {
                                        lemma_split(
                                            bytes@,
                                            p1 as int,
                                            end,
                                            enc_str(k@),
                                            enc_str(w@),
                                        );
                                    },
                                    _ => {},
                                }
                            }
                        }
                        Some((Directive::Id(first), p2))
                    } else if tag == 1 {
                        proof {
                            assert forall|v: Directive, end: int|
                                #![trigger enc_directive(v), bytes@.subrange(pos as int, end)]
                                pos <= end <= bytes@.len() && bytes@.subrange(pos as int, end)
                                    == enc_directive(v) implies p2 == end && (v
                                matches Directive::Title(s) && first@ == s@) by {
                                lemma_directive_parts(bytes@, pos as int, end, v);
                                match v {
                                    Directive::Raw(k, w) => {
                                        lemma_split(
                                            bytes@,
                                            p1 as int,
                                            end,
                                            enc_str(k@),
                                            enc_str(w@),
                                        );
                                    },
                                    _ => {},
                                }
                            }
                        }
                        Some((Directive::Title(first), p2))
                    } else {
                        let ds2 = decode_string(bytes, p2);
                        proof {
                            assert(forall|s: Seq<char>, end: int|
                                #![trigger enc_str(s), bytes@.subrange(p2 as int, end)]
                                p2 <= end <= bytes@.len() && bytes@.subrange(p2 as int, end)
                                    == enc_str(s) ==> (ds2 matches Some(p) && p.1 == end && p.0@
                                    == s));
                        }
                        match ds2 {
                            None => {
                                proof {
                                    assert forall|v: Directive, end: int|
                                        #![trigger enc_directive(v), bytes@.subrange(pos as int, end)]
                                        !(pos <= end <= bytes@.len() && bytes@.subrange(
                                            pos as int,
                                            end,
                                        ) == enc_directive(v)) by {
                                        if pos <= end <= bytes@.len() && bytes@.subrange(
                                            pos as int,
                                            end,
                                        ) == enc_directive(v) {
                                            lemma_directive_parts(bytes@, pos as int, end, v);
                                            match v {
                                                Directive::Raw(k, w) => {
                                                    lemma_split(
                                                        bytes@,
                                                        p1 as int,
                                                        end,
                                                        enc_str(k@),
                                                        enc_str(w@),
                                                    );
                                                },
                                                _ => {},
                                            }
                                        }
                                    }
                                }
                                None
                            },
                            Some((second, p3)) => {
                                proof {
                                    assert forall|v: Directive, end: int|
                                        #![trigger enc_directive(v), bytes@.subrange(pos as int, end)]
                                        pos <= end <= bytes@.len() && bytes@.subrange(
                                            pos as int,
                                            end,
                                        ) == enc_directive(v) implies p3 == end && (v
                                        matches Directive::Raw(k, w) && first@ == k@ && second@
                                            == w@) by {
                                        lemma_directive_parts(bytes@, pos as int, end, v);
                                        match v {
                                            Directive::Raw(k, w) => {
                                                lemma_split(
                                                    bytes@,
                                                    p1 as int,
                                                    end,
                                                    enc_str(k@),
                                                    enc_str(w@),
                                                );
                                            },
                                            _ => {},
                                        }
                                    }
                                }
                                Some((Directive::Raw(first, second), p3))
                            },
                        }
                    }
                },
            }
        },
    }
}


/// Every encoded node takes at least one byte.
proof fn lemma_enc_ben_len_ge(n: BlockExprNode)
    ensures
        enc_ben(n).len() >= 1,
{
}

/// An encoded tree body holds at least one byte per node.
proof fn lemma_enc_tree_len_ge(s: Seq<BlockExprNode>)
    ensures
        enc_tree(s).len() >= s.len(),
    decreases s.len(),
{
    if s.len() > 0 {
        lemma_enc_ben_len_ge(s[0]);
        lemma_enc_tree_len_ge(s.drop_first());
    }
}

/// A byte range holding an encoded tree starts with the node count and
/// continues with the nodes.
proof fn lemma_bet_header(b: Seq<u8>, pos: int, end: int, s: Seq<BlockExprNode>)
    requires
        0 <= pos <= end <= b.len(),
        b.subrange(pos, end) == enc_bet(s),
    ensures
        pos + 8 <= end,
        s.len() <= end - pos - 8,
        dec_u64(b.subrange(pos, pos + 8)) == s.len() as u64,
        b.subrange(pos + 8, end) == enc_tree(s),
{
    lemma_split(b, pos, end, enc_u64(s.len() as u64), enc_tree(s));
    lemma_enc_tree_len_ge(s);
    lemma_u64_round_trip(s.len() as u64);
}

/// The parts of one encoded node, by variant.
proof fn lemma_ben_parts(b: Seq<u8>, pos: int, end: int, n: BlockExprNode)
    requires
        0 <= pos <= end <= b.len(),
        b.subrange(pos, end) == enc_ben(n),
    ensures
        pos < end,
        b[pos] <= 9,
        n matches BlockExprNode::Char(c) ==> b[pos] == 0 && end == pos + 9 && dec_u64(
            b.subrange(pos + 1, pos + 9),
        ) == (c as u32) as u64,
        n matches BlockExprNode::Bold(t) ==> b[pos] == 1 && b.subrange(pos + 1, end) == enc_bet(
            t@,
        ),
        n matches BlockExprNode::Italic(t) ==> b[pos] == 2 && b.subrange(pos + 1, end) == enc_bet(
            t@,
        ),
        n matches BlockExprNode::Underline(t) ==> b[pos] == 3 && b.subrange(pos + 1, end)
            == enc_bet(t@),
        n matches BlockExprNode::Strikethrough(t) ==> b[pos] == 4 && b.subrange(pos + 1, end)
            == enc_bet(t@),
        n matches BlockExprNode::NonbreakingSpace(t) ==> b[pos] == 5 && b.subrange(pos + 1, end)
            == enc_bet(t@),
        n matches BlockExprNode::Code(s) ==> b[pos] == 6 && b.subrange(pos + 1, end) == enc_str(
            s@,
        ),
        n matches BlockExprNode::Link(target, opt) ==> b[pos] == 7 && b.subrange(pos + 1, end)
            == enc_lt(target) + (match opt {
            None => seq![0u8],
            Some(t) => seq![1u8] + enc_bet(t@),
        }),
        n matches BlockExprNode::Linespace ==> b[pos] == 8 && end == pos + 1,
        n matches BlockExprNode::HeaderRouting(rt) ==> b[pos] == 9 && b.subrange(pos + 1, end)
            == enc_route(rt),
{
    match n {
        BlockExprNode::Char(c) => {
            lemma_tag_payload(b, pos, end, 0u8, enc_char(c));
            lemma_char_chunk(b, pos + 1, end, c);
        },
        BlockExprNode::Bold(t) => lemma_tag_payload(b, pos, end, 1u8, enc_bet(t@)),
        BlockExprNode::Italic(t) => lemma_tag_payload(b, pos, end, 2u8, enc_bet(t@)),
        BlockExprNode::Underline(t) => lemma_tag_payload(b, pos, end, 3u8, enc_bet(t@)),
        BlockExprNode::Strikethrough(t) => lemma_tag_payload(b, pos, end, 4u8, enc_bet(t@)),
        BlockExprNode::NonbreakingSpace(t) => lemma_tag_payload(b, pos, end, 5u8, enc_bet(t@)),
        BlockExprNode::Code(s) => lemma_tag_payload(b, pos, end, 6u8, enc_str(s@)),
        BlockExprNode::Link(target, None) => {
            lemma_tag_payload(b, pos, end, 7u8, enc_lt(target) + seq![0u8]);
        },
        BlockExprNode::Link(target, Some(t)) => {
            lemma_tag_payload(b, pos, end, 7u8, enc_lt(target) + (seq![1u8] + enc_bet(t@)));
        },
        BlockExprNode::Linespace => {
            assert(enc_ben(n) =~= seq![8u8] + Seq::<u8>::empty());
            lemma_tag_payload(b, pos, end, 8u8, Seq::empty());
        },
        BlockExprNode::HeaderRouting(rt) => lemma_tag_payload(b, pos, end, 9u8, enc_route(rt)),
    }
}

/// Reads one inline expression node.
#[verifier::rlimit(100)]
#[verifier::spinoff_prover]
fn decode_ben(bytes: &Vec<u8>, pos: usize) -> (r: Option<(BlockExprNode, usize)>)
    ensures
        forall|n: BlockExprNode, end: int|
            #![trigger enc_ben(n), bytes@.subrange(pos as int, end)]
            pos <= end <= bytes@.len() && bytes@.subrange(pos as int, end) == enc_ben(n) ==> (
            r matches Some(p) && p.1 == end && ben_view(p.0) == ben_view(n)),
        r matches Some(p) ==> pos < p.1 <= bytes@.len(),
    decreases bytes@.len() - pos, 0int,
{
    if pos >= bytes.len() {
        proof {
            assert forall|n: BlockExprNode, end: int|
                #![trigger enc_ben(n), bytes@.subrange(pos as int, end)]
                !(pos <= end <= bytes@.len() && bytes@.subrange(pos as int, end) == enc_ben(
                    n,
                )) by {
                if pos <= end <= bytes@.len() && bytes@.subrange(pos as int, end) == enc_ben(n) {
                    lemma_ben_parts(bytes@, pos as int, end, n);
                }
            }
        }
        return None;
    }
    let tag = bytes[pos];
    let p1 = pos + 1;
    if tag == 0 {
        match decode_u64(bytes, p1) {
            None => {
                proof {
                    assert forall|n: BlockExprNode, end: int|
                        #![trigger enc_ben(n), bytes@.subrange(pos as int, end)]
                        !(pos <= end <= bytes@.len() && bytes@.subrange(pos as int, end)
                            == enc_ben(n)) by {
                        if pos <= end <= bytes@.len() && bytes@.subrange(pos as int, end)
                            == enc_ben(n) {
                            lemma_ben_parts(bytes@, pos as int, end, n);
                        }
                    }
                }
                None
            },
            Some((v, p2)) => {
                proof {
                    assert(p1 + 8 <= bytes@.len() ==> v == dec_u64(
                        bytes@.subrange(p1 as int, p1 as int + 8),
                    ) && p2 == p1 + 8);
                }
                if v > 0x10FFFF {
                    proof {
                        assert forall|n: BlockExprNode, end: int|
                            #![trigger enc_ben(n), bytes@.subrange(pos as int, end)]
                            !(pos <= end <= bytes@.len() && bytes@.subrange(pos as int, end)
                                == enc_ben(n)) by {
                            if pos <= end <= bytes@.len() && bytes@.subrange(pos as int, end)
                                == enc_ben(n) {
                                lemma_ben_parts(bytes@, pos as int, end, n);
                                match n {
                                    BlockExprNode::Char(c) => {
                                        lemma_char_scalar(c);
                                    },
                                    _ => {},
                                }
                            }
                        }
                    }
                    None
                } else {
                    match char::from_u32(v as u32) {
                        Some(c2) => {
                            proof {
                                assert forall|n: BlockExprNode, end: int|
                                    #![trigger enc_ben(n), bytes@.subrange(pos as int, end)]
                                    pos <= end <= bytes@.len() && bytes@.subrange(pos as int, end)
                                        == enc_ben(n) implies p2 == end && ben_view(
                                    BlockExprNode::Char(c2),
                                ) == ben_view(n) by {
                                    lemma_ben_parts(bytes@, pos as int, end, n);
                                    match n {
                                        BlockExprNode::Char(c) => {
                                            lemma_char_scalar(c);
                                            assert(v == (c as u32) as u64);
                                            assert(c2 as u32 == v as u32);
                                            lemma_char_eq(c2, c);
                                        },
                                        _ => {},
                                    }
                                }
                            }
                            Some((BlockExprNode::Char(c2), p2))
                        },
                        None => {
                            proof {
                                assert forall|n: BlockExprNode, end: int|
                                    #![trigger enc_ben(n), bytes@.subrange(pos as int, end)]
                                    !(pos <= end <= bytes@.len() && bytes@.subrange(
                                        pos as int,
                                        end,
                                    ) == enc_ben(n)) by {
                                    if pos <= end <= bytes@.len() && bytes@.subrange(
                                        pos as int,
                                        end,
                                    ) == enc_ben(n) {
                                        lemma_ben_parts(bytes@, pos as int, end, n);
                                        match n {
                                            BlockExprNode::Char(c) => {
                                                lemma_char_scalar(c);
                                                assert(v == (c as u32) as u64);
                                            },
                                            _ => {},
                                        }
                                    }
                                }
                            }
                            None
                        },
                    }
                }
            },
        }
    } else if tag <= 5 {
        let sub = decode_bet_at(bytes, p1);
        proof {
            assert(forall|t: Seq<BlockExprNode>, end: int|
                #![trigger enc_bet(t), bytes@.subrange(p1 as int, end)]
                p1 <= end <= bytes@.len() && bytes@.subrange(p1 as int, end) == enc_bet(t) ==> (
                sub matches Some(p) && p.1 == end && bet_view(p.0@) == bet_view(t)));
        }
        match sub {
            None => {
                proof {
                    assert forall|n: BlockExprNode, end: int|
                        #![trigger enc_ben(n), bytes@.subrange(pos as int, end)]
                        !(pos <= end <= bytes@.len() && bytes@.subrange(pos as int, end)
                            == enc_ben(n)) by {
                        if pos <= end <= bytes@.len() && bytes@.subrange(pos as int, end)
                            == enc_ben(n) {
                            lemma_ben_parts(bytes@, pos as int, end, n);
                        }
                    }
                }
                None
            },
            Some((tv, p2)) => {
                let node = if tag == 1 {
                    BlockExprNode::Bold(tv)
                } else if tag == 2 {
                    BlockExprNode::Italic(tv)
                } else if tag == 3 {
                    BlockExprNode::Underline(tv)
                } else if tag == 4 {
                    BlockExprNode::Strikethrough(tv)
                } else {
                    BlockExprNode::NonbreakingSpace(tv)
                };
                proof {
                    assert forall|n: BlockExprNode, end: int|
                        #![trigger enc_ben(n), bytes@.subrange(pos as int, end)]
                        pos <= end <= bytes@.len() && bytes@.subrange(pos as int, end) == enc_ben(
                            n,
                        ) implies p2 == end && ben_view(node) == ben_view(n) by {
                        lemma_ben_parts(bytes@, pos as int, end, n);
                    }
                }
                Some((node, p2))
            },
        }
    } else if tag == 6 {
        let ds = decode_string(bytes, p1);
        proof {
            assert(forall|s: Seq<char>, end: int|
                #![trigger enc_str(s), bytes@.subrange(p1 as int, end)]
                p1 <= end <= bytes@.len() && bytes@.subrange(p1 as int, end) == enc_str(s) ==> (
                ds matches Some(p) && p.1 == end && p.0@ == s));
        }
        match ds {
            None => {
                proof {
                    assert forall|n: BlockExprNode, end: int|
                        #![trigger enc_ben(n), bytes@.subrange(pos as int, end)]
                        !(pos <= end <= bytes@.len() && bytes@.subrange(pos as int, end)
                            == enc_ben(n)) by {
                        if pos <= end <= bytes@.len() && bytes@.subrange(pos as int, end)
                            == enc_ben(n) {
                            lemma_ben_parts(bytes@, pos as int, end, n);
                        }
                    }
                }
                None
            },
            Some((text, p2)) => {
                proof {
                    assert forall|n: BlockExprNode, end: int|
                        #![trigger enc_ben(n), bytes@.subrange(pos as int, end)]
                        pos <= end <= bytes@.len() && bytes@.subrange(pos as int, end) == enc_ben(
                            n,
                        ) implies p2 == end && ben_view(BlockExprNode::Code(text)) == ben_view(
                        n,
                    ) by {
                        lemma_ben_parts(bytes@, pos as int, end, n);
                    }
                }
                Some((BlockExprNode::Code(text), p2))
            },
        }
    } else if tag == 7 {
        let dl = decode_lt_at(bytes, p1);
        proof {
            assert(forall|v: LinkTarget, end: int|
                #![trigger enc_lt(v), bytes@.subrange(p1 as int, end)]
                p1 <= end <= bytes@.len() && bytes@.subrange(p1 as int, end) == enc_lt(v) ==> (
                dl matches Some(p) && p.1 == end && p.0@ == v@));
        }
        match dl {
            None => {
                proof {
                    assert forall|n: BlockExprNode, end: int|
                        #![trigger enc_ben(n), bytes@.subrange(pos as int, end)]
                        !(pos <= end <= bytes@.len() && bytes@.subrange(pos as int, end)
                            == enc_ben(n)) by {
                        if pos <= end <= bytes@.len() && bytes@.subrange(pos as int, end)
                            == enc_ben(n) {
                            lemma_ben_parts(bytes@, pos as int, end, n);
                            match n {
                                BlockExprNode::Link(target, opt) => {
                                    lemma_split(
                                        bytes@,
                                        p1 as int,
                                        end,
                                        enc_lt(target),
                                        match opt {
                                            None => seq![0u8],
                                            Some(t) => seq![1u8] + enc_bet(t@),
                                        },
                                    );
                                },
                                _ => {},
                            }
                        }
                    }
                }
                None
            },
            Some((target2, p2)) => {
                match read_tag(bytes, p2) {
                    None => {
                        proof {
                            assert forall|n: BlockExprNode, end: int|
                                #![trigger enc_ben(n), bytes@.subrange(pos as int, end)]
                                !(pos <= end <= bytes@.len() && bytes@.subrange(pos as int, end)
                                    == enc_ben(n)) by {
                                if pos <= end <= bytes@.len() && bytes@.subrange(pos as int, end)
                                    == enc_ben(n) {
                                    lemma_ben_parts(bytes@, pos as int, end, n);
                                    match n {
                                        BlockExprNode::Link(target, opt) => {
                                            let flagged = match opt {
                                                None => seq![0u8],
                                                Some(t) => seq![1u8] + enc_bet(t@),
                                            };
                                            lemma_split(
                                                bytes@,
                                                p1 as int,
                                                end,
                                                enc_lt(target),
                                                flagged,
                                            );
                                            assert(bytes@.subrange(p2 as int, end)[0] == bytes@[
                                                p2 as int
                                            ]);
                                        },
                                        _ => {},
                                    }
                                }
                            }
                        }
                        None
                    },
                    Some((flag, p3)) => {
                        if flag == 0 {
                            proof {
                                assert forall|n: BlockExprNode, end: int|
                                    #![trigger enc_ben(n), bytes@.subrange(pos as int, end)]
                                    pos <= end <= bytes@.len() && bytes@.subrange(pos as int, end)
                                        == enc_ben(n) implies p3 == end && ben_view(
                                    BlockExprNode::Link(target2, None),
                                ) == ben_view(n) by {
                                    lemma_ben_parts(bytes@, pos as int, end, n);
                                    match n {
                                        BlockExprNode::Link(target, opt) => {
                                            let flagged = match opt {
                                                None => seq![0u8],
                                                Some(t) => seq![1u8] + enc_bet(t@),
                                            };
                                            lemma_split(
                                                bytes@,
                                                p1 as int,
                                                end,
                                                enc_lt(target),
                                                flagged,
                                            );
                                            assert(bytes@.subrange(p2 as int, end)[0] == bytes@[
                                                p2 as int
                                            ]);
                                            match opt {
                                                None => {
                                                    assert(bytes@.subrange(p2 as int, end).len()
                                                        == 1);
                                                },
                                                Some(t) => {},
                                            }
                                        },
                                        _ => {},
                                    }
                                }
                            }
                            Some((BlockExprNode::Link(target2, None), p3))
                        } else if flag == 1 {
                            let sub = decode_bet_at(bytes, p3);
                            proof {
                                assert(forall|t: Seq<BlockExprNode>, end: int|
                                    #![trigger enc_bet(t), bytes@.subrange(p3 as int, end)]
                                    p3 <= end <= bytes@.len() && bytes@.subrange(p3 as int, end)
                                        == enc_bet(t) ==> (sub matches Some(p) && p.1 == end
                                        && bet_view(p.0@) == bet_view(t)));
                            }
                            match sub {
                                None => {
                                    proof {
                                        assert forall|n: BlockExprNode, end: int|
                                            #![trigger enc_ben(n), bytes@.subrange(pos as int, end)]
                                            !(pos <= end <= bytes@.len() && bytes@.subrange(
                                                pos as int,
                                                end,
                                            ) == enc_ben(n)) by {
                                            if pos <= end <= bytes@.len() && bytes@.subrange(
                                                pos as int,
                                                end,
                                            ) == enc_ben(n) {
                                                lemma_ben_parts(bytes@, pos as int, end, n);
                                                match n {
                                                    BlockExprNode::Link(target, opt) => {
                                                        let flagged = match opt {
                                                            None => seq![0u8],
                                                            Some(t) => seq![1u8] + enc_bet(t@),
                                                        };
                                                        lemma_split(
                                                            bytes@,
                                                            p1 as int,
                                                            end,
                                                            enc_lt(target),
                                                            flagged,
                                                        );
                                                        assert(bytes@.subrange(p2 as int, end)[0]
                                                            == bytes@[p2 as int]);
                                                        match opt {
                                                            Some(t) => {
                                                                lemma_split(
                                                                    bytes@,
                                                                    p2 as int,
                                                                    end,
                                                                    seq![1u8],
                                                                    enc_bet(t@),
                                                                );
                                                            },
                                                            None => {},
                                                        }
                                                    },
                                                    _ => {},
                                                }
                                            }
                                        }
                                    }
                                    None
                                },
                                Some((tv, p4)) => {
                                    proof {
                                        assert forall|n: BlockExprNode, end: int|
                                            #![trigger enc_ben(n), bytes@.subrange(pos as int, end)]
                                            pos <= end <= bytes@.len() && bytes@.subrange(
                                                pos as int,
                                                end,
                                            ) == enc_ben(n) implies p4 == end && ben_view(
                                            BlockExprNode::Link(target2, Some(tv)),
                                        ) == ben_view(n) by {
                                            lemma_ben_parts(bytes@, pos as int, end, n);
                                            match n {
                                                BlockExprNode::Link(target, opt) => {
                                                    let flagged = match opt {
                                                        None => seq![0u8],
                                                        Some(t) => seq![1u8] + enc_bet(t@),
                                                    };
                                                    lemma_split(
                                                        bytes@,
                                                        p1 as int,
                                                        end,
                                                        enc_lt(target),
                                                        flagged,
                                                    );
                                                    assert(bytes@.subrange(p2 as int, end)[0]
                                                        == bytes@[p2 as int]);
                                                    match opt {
                                                        Some(t) => {
                                                            lemma_split(
                                                                bytes@,
                                                                p2 as int,
                                                                end,
                                                                seq![1u8],
                                                                enc_bet(t@),
                                                            );
                                                        },
                                                        None => {},
                                                    }
                                                },
                                                _ => {},
                                            }
                                        }
                                    }
                                    Some((BlockExprNode::Link(target2, Some(tv)), p4))
                                },
                            }
                        } else {
                            proof {
                                assert forall|n: BlockExprNode, end: int|
                                    #![trigger enc_ben(n), bytes@.subrange(pos as int, end)]
                                    !(pos <= end <= bytes@.len() && bytes@.subrange(
                                        pos as int,
                                        end,
                                    ) == enc_ben(n)) by {
                                    if pos <= end <= bytes@.len() && bytes@.subrange(
                                        pos as int,
                                        end,
                                    ) == enc_ben(n) {
                                        lemma_ben_parts(bytes@, pos as int, end, n);
                                        match n {
                                            BlockExprNode::Link(target, opt) => {
                                                let flagged = match opt {
                                                    None => seq![0u8],
                                                    Some(t) => seq![1u8] + enc_bet(t@),
                                                };
                                                lemma_split(
                                                    bytes@,
                                                    p1 as int,
                                                    end,
                                                    enc_lt(target),
                                                    flagged,
                                                );
                                                assert(bytes@.subrange(p2 as int, end)[0]
                                                    == bytes@[p2 as int]);
                                            },
                                            _ => {},
                                        }
                                    }
                                }
                            }
                            None
                        }
                    },
                }
            },
        }
    } else if tag == 8 {
        proof {
            assert forall|n: BlockExprNode, end: int|
                #![trigger enc_ben(n), bytes@.subrange(pos as int, end)]
                pos <= end <= bytes@.len() && bytes@.subrange(pos as int, end) == enc_ben(n)
                    implies p1 == end && ben_view(BlockExprNode::Linespace) == ben_view(n) by {
                lemma_ben_parts(bytes@, pos as int, end, n);
            }
        }
        Some((BlockExprNode::Linespace, p1))
    } else if tag == 9 {
        let dr = decode_route_at(bytes, p1);
        proof {
            assert(forall|v: Route, end: int|
                #![trigger enc_route(v), bytes@.subrange(p1 as int, end)]
                p1 <= end <= bytes@.len() && bytes@.subrange(p1 as int, end) == enc_route(v) ==> (
                dr matches Some(p) && p.1 == end && p.0@ == v@));
        }
        match dr {
            None => {
                proof {
                    assert forall|n: BlockExprNode, end: int|
                        #![trigger enc_ben(n), bytes@.subrange(pos as int, end)]
                        !(pos <= end <= bytes@.len() && bytes@.subrange(pos as int, end)
                            == enc_ben(n)) by {
                        if pos <= end <= bytes@.len() && bytes@.subrange(pos as int, end)
                            == enc_ben(n) {
                            lemma_ben_parts(bytes@, pos as int, end, n);
                        }
                    }
                }
                None
            },
            Some((rt, p2)) => {
                proof {
                    assert forall|n: BlockExprNode, end: int|
                        #![trigger enc_ben(n), bytes@.subrange(pos as int, end)]
                        pos <= end <= bytes@.len() && bytes@.subrange(pos as int, end) == enc_ben(
                            n,
                        ) implies p2 == end && ben_view(BlockExprNode::HeaderRouting(rt))
                        == ben_view(n) by {
                        lemma_ben_parts(bytes@, pos as int, end, n);
                    }
                }
                Some((BlockExprNode::HeaderRouting(rt), p2))
            },
        }
    } else {
        proof {
            assert forall|n: BlockExprNode, end: int|
                #![trigger enc_ben(n), bytes@.subrange(pos as int, end)]
                !(pos <= end <= bytes@.len() && bytes@.subrange(pos as int, end) == enc_ben(
                    n,
                )) by {
                if pos <= end <= bytes@.len() && bytes@.subrange(pos as int, end) == enc_ben(n) {
                    lemma_ben_parts(bytes@, pos as int, end, n);
                }
            }
        }
        None
    }
}

/// Reads `count` nodes.
#[verifier::rlimit(100)]
#[verifier::spinoff_prover]
fn decode_nodes(bytes: &Vec<u8>, pos: usize, count: usize) -> (r: Option<
    (Vec<BlockExprNode>, usize),
>)
    ensures
        forall|s: Seq<BlockExprNode>, end: int|
            #![trigger enc_tree(s), bytes@.subrange(pos as int, end)]
            s.len() == count && pos <= end <= bytes@.len() && bytes@.subrange(pos as int, end)
                == enc_tree(s) ==> (r matches Some(p) && p.1 == end && bet_view(p.0@) == bet_view(
                s,
            )),
        r matches Some(p) ==> pos <= p.1 <= bytes@.len(),
    decreases bytes@.len() - pos, 1int,
{
    if pos > bytes.len() {
        return None;
    }
    if count == 0 {
        let empty: Vec<BlockExprNode> = Vec::new();
        proof {
            assert forall|s: Seq<BlockExprNode>, end: int|
                #![trigger enc_tree(s), bytes@.subrange(pos as int, end)]
                s.len() == 0 && pos <= end <= bytes@.len() && bytes@.subrange(pos as int, end)
                    == enc_tree(s) implies end == pos && bet_view(empty@) == bet_view(s) by {
                assert(bytes@.subrange(pos as int, end).len() == end - pos);
                assert(enc_tree(s) =~= Seq::<u8>::empty());
                assert(bet_view(empty@) =~= bet_view(s));
            }
        }
        return Some((empty, pos));
    }
    let first = decode_ben(bytes, pos);
    proof {
        assert(forall|n: BlockExprNode, end: int|
            #![trigger enc_ben(n), bytes@.subrange(pos as int, end)]
            pos <= end <= bytes@.len() && bytes@.subrange(pos as int, end) == enc_ben(n) ==> (
            first matches Some(p) && p.1 == end && ben_view(p.0) == ben_view(n)));
        assert forall|s: Seq<BlockExprNode>, end: int|
            #![trigger enc_tree(s), bytes@.subrange(pos as int, end)]
            s.len() == count && pos <= end <= bytes@.len() && bytes@.subrange(pos as int, end)
                == enc_tree(s) implies pos + enc_ben(s[0]).len() <= end && bytes@.subrange(
            pos as int,
            pos as int + enc_ben(s[0]).len(),
        ) == enc_ben(s[0]) && bytes@.subrange(pos as int + enc_ben(s[0]).len(), end) == enc_tree(
            s.drop_first(),
        ) by {
            assert(enc_tree(s) == enc_ben(s[0]) + enc_tree(s.drop_first()));
            lemma_split(bytes@, pos as int, end, enc_ben(s[0]), enc_tree(s.drop_first()));
        }
    }
    match first {
        None => None,
        Some((m, e1)) => {
            let rest = decode_nodes(bytes, e1, count - 1);
            proof {
                assert(forall|s: Seq<BlockExprNode>, end: int|
                    #![trigger enc_tree(s), bytes@.subrange(e1 as int, end)]
                    s.len() == count - 1 && e1 <= end <= bytes@.len() && bytes@.subrange(
                        e1 as int,
                        end,
                    ) == enc_tree(s) ==> (rest matches Some(p) && p.1 == end && bet_view(p.0@)
                        == bet_view(s)));
            }
            match rest {
                None => {
                    proof {
                        assert forall|s: Seq<BlockExprNode>, end: int|
                            #![trigger enc_tree(s), bytes@.subrange(pos as int, end)]
                            !(s.len() == count && pos <= end <= bytes@.len() && bytes@.subrange(
                                pos as int,
                                end,
                            ) == enc_tree(s)) by {
                            if s.len() == count && pos <= end <= bytes@.len() && bytes@.subrange(
                                pos as int,
                                end,
                            ) == enc_tree(s) {
                                assert(pos + enc_ben(s[0]).len() <= end && bytes@.subrange(
                                    pos as int,
                                    pos as int + enc_ben(s[0]).len(),
                                ) == enc_ben(s[0]));
                                assert(e1 == pos + enc_ben(s[0]).len());
                                assert(bytes@.subrange(e1 as int, end) == enc_tree(
                                    s.drop_first(),
                                ));
                                assert(s.drop_first().len() == count - 1);
                                assert(e1 <= end <= bytes@.len());
                            }
                        }
                    }
                    None
                },
                Some((tail, e2)) => {
                    let mut v: Vec<BlockExprNode> = Vec::new();
                    v.push(m);
                    let mut tail2 = tail;
                    v.append(&mut tail2);
                    proof {
                        assert forall|s: Seq<BlockExprNode>, end: int|
                            #![trigger enc_tree(s), bytes@.subrange(pos as int, end)]
                            s.len() == count && pos <= end <= bytes@.len() && bytes@.subrange(
                                pos as int,
                                end,
                            ) == enc_tree(s) implies e2 == end && bet_view(v@) == bet_view(s) by {
                            assert(pos + enc_ben(s[0]).len() <= end && bytes@.subrange(
                                pos as int,
                                pos as int + enc_ben(s[0]).len(),
                            ) == enc_ben(s[0]));
                            assert(e1 == pos + enc_ben(s[0]).len());
                            assert(s.drop_first().len() == count - 1);
                            assert(e1 <= end <= bytes@.len());
                            assert(ben_view(m) == ben_view(s[0]));
                            assert(bytes@.subrange(e1 as int, end) == enc_tree(s.drop_first()));
                            assert(bet_view(tail@) == bet_view(s.drop_first()));
                            assert(v@ =~= seq![m] + tail@);
                            assert(v@[0] == m);
                            assert(v@.drop_first() =~= tail@);
                            assert(bet_view(v@) == seq![ben_view(m)] + bet_view(tail@));
                            assert(bet_view(s) == seq![ben_view(s[0])] + bet_view(
                                s.drop_first(),
                            ));
                            assert(bet_view(v@) =~= bet_view(s));
                        }
                    }
                    Some((v, e2))
                },
            }
        },
    }
}

/// Reads an inline expression tree: its node count, then its nodes.
#[verifier::rlimit(100)]
#[verifier::spinoff_prover]
fn decode_bet_at(bytes: &Vec<u8>, pos: usize) -> (r: Option<(Vec<BlockExprNode>, usize)>)
    ensures
        forall|t: Seq<BlockExprNode>, end: int|
            #![trigger enc_bet(t), bytes@.subrange(pos as int, end)]
            pos <= end <= bytes@.len() && bytes@.subrange(pos as int, end) == enc_bet(t) ==> (
            r matches Some(p) && p.1 == end && bet_view(p.0@) == bet_view(t)),
        r matches Some(p) ==> pos < p.1 <= bytes@.len(),
    decreases bytes@.len() - pos, 2int,
{
    proof {
        vstd::std_specs::vec::axiom_spec_len(bytes);
    }
    match decode_u64(bytes, pos) {
        None => {
            proof {
                assert forall|t: Seq<BlockExprNode>, end: int|
                    #![trigger enc_bet(t), bytes@.subrange(pos as int, end)]
                    !(pos <= end <= bytes@.len() && bytes@.subrange(pos as int, end) == enc_bet(
                        t,
                    )) by {
                    if pos <= end <= bytes@.len() && bytes@.subrange(pos as int, end) == enc_bet(
                        t,
                    ) {
                        lemma_bet_header(bytes@, pos as int, end, t);
                    }
                }
            }
            None
        },
        Some((cnt64, p1)) => {
            proof {
                assert(pos + 8 <= bytes@.len() ==> cnt64 == dec_u64(
                    bytes@.subrange(pos as int, pos as int + 8),
                ) && p1 == pos + 8);
                assert forall|t: Seq<BlockExprNode>, end: int|
                    #![trigger enc_bet(t), bytes@.subrange(pos as int, end)]
                    pos <= end <= bytes@.len() && bytes@.subrange(pos as int, end) == enc_bet(t)
                        implies cnt64 == t.len() && p1 == pos + 8 && pos + 8 <= end && t.len()
                        <= bytes@.len() && bytes@.subrange(pos as int + 8, end) == enc_tree(t) by {
                    lemma_bet_header(bytes@, pos as int, end, t);
                    assert(cnt64 == t.len() as u64);
                }
            }
            if cnt64 > bytes.len() as u64 {
                proof {
                    assert forall|t: Seq<BlockExprNode>, end: int|
                        #![trigger enc_bet(t), bytes@.subrange(pos as int, end)]
                        !(pos <= end <= bytes@.len() && bytes@.subrange(pos as int, end)
                            == enc_bet(t)) by {
                        if pos <= end <= bytes@.len() && bytes@.subrange(pos as int, end)
                            == enc_bet(t) {
                            assert(cnt64 == t.len() && t.len() <= bytes@.len());
                        }
                    }
                }
                None
            } else {
                let cnt = cnt64 as usize;
                let dn = decode_nodes(bytes, p1, cnt);
                proof {
                    assert(forall|s: Seq<BlockExprNode>, end: int|
                        #![trigger enc_tree(s), bytes@.subrange(p1 as int, end)]
                        s.len() == cnt && p1 <= end <= bytes@.len() && bytes@.subrange(
                            p1 as int,
                            end,
                        ) == enc_tree(s) ==> (dn matches Some(p) && p.1 == end && bet_view(p.0@)
                            == bet_view(s)));
                }
                match dn {
                    None => {
                        proof {
                            assert forall|t: Seq<BlockExprNode>, end: int|
                                #![trigger enc_bet(t), bytes@.subrange(pos as int, end)]
                                !(pos <= end <= bytes@.len() && bytes@.subrange(pos as int, end)
                                    == enc_bet(t)) by {
                                if pos <= end <= bytes@.len() && bytes@.subrange(pos as int, end)
                                    == enc_bet(t) {
                                    assert(cnt64 == t.len() && p1 == pos + 8 && pos + 8 <= end
                                        && bytes@.subrange(pos as int + 8, end) == enc_tree(t));
                                    assert(bytes@.subrange(p1 as int, end) == enc_tree(t));
                                    assert(t.len() == cnt);
                                }
                            }
                        }
                        None
                    },
                    Some((v, p2)) => {
                        proof {
                            assert forall|t: Seq<BlockExprNode>, end: int|
                                #![trigger enc_bet(t), bytes@.subrange(pos as int, end)]
                                pos <= end <= bytes@.len() && bytes@.subrange(pos as int, end)
                                    == enc_bet(t) implies p2 == end && bet_view(v@) == bet_view(
                                t,
                            ) by {
                                assert(cnt64 == t.len() && p1 == pos + 8 && pos + 8 <= end
                                    && bytes@.subrange(pos as int + 8, end) == enc_tree(t));
                                assert(bytes@.subrange(p1 as int, end) == enc_tree(t));
                                assert(t.len() == cnt);
                                assert(p1 <= end <= bytes@.len());
                            }
                        }
                        Some((v, p2))
                    },
                }
            }
        },
    }
}


/// Serializes a route.
pub fn encode_route(r: &Route) -> (out: Vec<u8>)
    ensures
        out@ == enc_route(*r),
{
    let mut buf: Vec<u8> = Vec::new();
    encode_route_into(r, &mut buf);
    proof {
        assert(buf@ =~= enc_route(*r));
    }
    buf
}

/// Deserializes a route; on the output of [`encode_route`] it returns the
/// route that was encoded.
pub fn decode_route(bytes: &Vec<u8>) -> (r: Option<Route>)
    ensures
        forall|v: Route| #![trigger enc_route(v)] bytes@ == enc_route(v) ==> (r matches Some(u)
            && u@ == v@),
{
    let d = decode_route_at(bytes, 0);
    proof {
        assert(bytes@.subrange(0, bytes@.len() as int) =~= bytes@);
        assert(forall|v: Route, end: int|
            #![trigger enc_route(v), bytes@.subrange(0, end)]
            0 <= end <= bytes@.len() && bytes@.subrange(0, end) == enc_route(v) ==> (d
                matches Some(p) && p.1 == end && p.0@ == v@));
    }
    match d {
        Some((v, p)) => {
            if p == bytes.len() {
                Some(v)
            } else {
                proof {
                    assert forall|v0: Route| #![trigger enc_route(v0)] !(bytes@ == enc_route(
                        v0,
                    )) by {
                        if bytes@ == enc_route(v0) {
                            assert(bytes@.subrange(0, bytes@.len() as int) == enc_route(v0));
                        }
                    }
                }
                None
            }
        },
        None => {
            proof {
                assert forall|v0: Route| #![trigger enc_route(v0)] !(bytes@ == enc_route(v0)) by {
                    if bytes@ == enc_route(v0) {
                        assert(bytes@.subrange(0, bytes@.len() as int) == enc_route(v0));
                    }
                }
            }
            None
        },
    }
}

/// Serializes a link target.
pub fn encode_link_target(t: &LinkTarget) -> (out: Vec<u8>)
    ensures
        out@ == enc_lt(*t),
{
    let mut buf: Vec<u8> = Vec::new();
    encode_lt_into(t, &mut buf);
    proof {
        assert(buf@ =~= enc_lt(*t));
    }
    buf
}

/// Deserializes a link target; on the output of [`encode_link_target`] it
/// returns the target that was encoded.
pub fn decode_link_target(bytes: &Vec<u8>) -> (r: Option<LinkTarget>)
    ensures
        forall|v: LinkTarget| #![trigger enc_lt(v)] bytes@ == enc_lt(v) ==> (r matches Some(u)
            && u@ == v@),
{
    let d = decode_lt_at(bytes, 0);
    proof {
        assert(bytes@.subrange(0, bytes@.len() as int) =~= bytes@);
        assert(forall|v: LinkTarget, end: int|
            #![trigger enc_lt(v), bytes@.subrange(0, end)]
            0 <= end <= bytes@.len() && bytes@.subrange(0, end) == enc_lt(v) ==> (d
                matches Some(p) && p.1 == end && p.0@ == v@));
    }
    match d {
        Some((v, p)) => {
            if p == bytes.len() {
                Some(v)
            } else {
                proof {
                    assert forall|v0: LinkTarget| #![trigger enc_lt(v0)] !(bytes@ == enc_lt(
                        v0,
                    )) by {
                        if bytes@ == enc_lt(v0) {
                            assert(bytes@.subrange(0, bytes@.len() as int) == enc_lt(v0));
                        }
                    }
                }
                None
            }
        },
        None => {
            proof {
                assert forall|v0: LinkTarget| #![trigger enc_lt(v0)] !(bytes@ == enc_lt(v0)) by {
                    if bytes@ == enc_lt(v0) {
                        assert(bytes@.subrange(0, bytes@.len() as int) == enc_lt(v0));
                    }
                }
            }
            None
        },
    }
}

/// Serializes a directive.
pub fn encode_directive(d: &Directive) -> (out: Vec<u8>)
    ensures
        out@ == enc_directive(*d),
{
    let mut buf: Vec<u8> = Vec::new();
    encode_directive_into(d, &mut buf);
    proof {
        assert(buf@ =~= enc_directive(*d));
    }
    buf
}

/// Deserializes a directive; on the output of [`encode_directive`] it returns
/// the directive that was encoded.
pub fn decode_directive(bytes: &Vec<u8>) -> (r: Option<Directive>)
    ensures
        forall|v: Directive| #![trigger enc_directive(v)] bytes@ == enc_directive(v) ==> (r
            matches Some(u) && u@ == v@),
{
    let d = decode_directive_at(bytes, 0);
    proof {
        assert(bytes@.subrange(0, bytes@.len() as int) =~= bytes@);
        assert(forall|v: Directive, end: int|
            #![trigger enc_directive(v), bytes@.subrange(0, end)]
            0 <= end <= bytes@.len() && bytes@.subrange(0, end) == enc_directive(v) ==> (d
                matches Some(p) && p.1 == end && p.0@ == v@));
    }
    match d {
        Some((v, p)) => {
            if p == bytes.len() {
                Some(v)
            } else {
                proof {
                    assert forall|v0: Directive| #![trigger enc_directive(v0)] !(bytes@
                        == enc_directive(v0)) by {
                        if bytes@ == enc_directive(v0) {
                            assert(bytes@.subrange(0, bytes@.len() as int) == enc_directive(v0));
                        }
                    }
                }
                None
            }
        },
        None => {
            proof {
                assert forall|v0: Directive| #![trigger enc_directive(v0)] !(bytes@
                    == enc_directive(v0)) by {
                    if bytes@ == enc_directive(v0) {
                        assert(bytes@.subrange(0, bytes@.len() as int) == enc_directive(v0));
                    }
                }
            }
            None
        },
    }
}

/// Serializes a block container kind.
pub fn encode_block_type(t: &BlockType) -> (out: Vec<u8>)
    ensures
        out@ == enc_bt(*t),
{
    let mut buf: Vec<u8> = Vec::new();
    encode_bt(t, &mut buf);
    proof {
        assert(buf@ =~= enc_bt(*t));
    }
    buf
}

/// Deserializes a block container kind; on the output of
/// [`encode_block_type`] it returns the kind that was encoded.
pub fn decode_block_type(bytes: &Vec<u8>) -> (r: Option<BlockType>)
    ensures
        forall|v: BlockType| #![trigger enc_bt(v)] bytes@ == enc_bt(v) ==> r == Some(v),
{
    let d = decode_bt_at(bytes, 0);
    proof {
        assert(bytes@.subrange(0, bytes@.len() as int) =~= bytes@);
        assert(forall|v: BlockType, end: int|
            #![trigger enc_bt(v), bytes@.subrange(0, end)]
            0 <= end <= bytes@.len() && bytes@.subrange(0, end) == enc_bt(v) ==> (d
                matches Some(p) && p.1 == end && p.0 == v));
    }
    match d {
        Some((v, p)) => {
            if p == bytes.len() {
                Some(v)
            } else {
                proof {
                    assert forall|v0: BlockType| #![trigger enc_bt(v0)] !(bytes@ == enc_bt(
                        v0,
                    )) by {
                        if bytes@ == enc_bt(v0) {
                            assert(bytes@.subrange(0, bytes@.len() as int) == enc_bt(v0));
                        }
                    }
                }
                None
            }
        },
        None => {
            proof {
                assert forall|v0: BlockType| #![trigger enc_bt(v0)] !(bytes@ == enc_bt(v0)) by {
                    if bytes@ == enc_bt(v0) {
                        assert(bytes@.subrange(0, bytes@.len() as int) == enc_bt(v0));
                    }
                }
            }
            None
        },
    }
}

/// Serializes an inline expression tree.
pub fn encode_bet(t: &BlockExprTree) -> (out: Vec<u8>)
    ensures
        out@ == enc_bet(t@),
{
    let mut buf: Vec<u8> = Vec::new();
    encode_bet_into(t, &mut buf);
    proof {
        assert(buf@ =~= enc_bet(t@));
    }
    buf
}

/// Deserializes an inline expression tree; on the output of [`encode_bet`]
/// it returns a tree whose model is the model of the tree that was encoded.
pub fn decode_bet(bytes: &Vec<u8>) -> (r: Option<BlockExprTree>)
    ensures
        forall|t: Seq<BlockExprNode>| #![trigger enc_bet(t)] bytes@ == enc_bet(t) ==> (r
            matches Some(u) && bet_view(u@) == bet_view(t)),
{
    let d = decode_bet_at(bytes, 0);
    proof {
        assert(bytes@.subrange(0, bytes@.len() as int) =~= bytes@);
        assert(forall|t: Seq<BlockExprNode>, end: int|
            #![trigger enc_bet(t), bytes@.subrange(0, end)]
            0 <= end <= bytes@.len() && bytes@.subrange(0, end) == enc_bet(t) ==> (d
                matches Some(p) && p.1 == end && bet_view(p.0@) == bet_view(t)));
    }
    match d {
        Some((v, p)) => {
            if p == bytes.len() {
                Some(v)
            } else {
                proof {
                    assert forall|t: Seq<BlockExprNode>| #![trigger enc_bet(t)] !(bytes@
                        == enc_bet(t)) by {
                        if bytes@ == enc_bet(t) {
                            assert(bytes@.subrange(0, bytes@.len() as int) == enc_bet(t));
                        }
                    }
                }
                None
            }
        },
        None => {
            proof {
                assert forall|t: Seq<BlockExprNode>| #![trigger enc_bet(t)] !(bytes@ == enc_bet(
                    t,
                )) by {
                    if bytes@ == enc_bet(t) {
                        assert(bytes@.subrange(0, bytes@.len() as int) == enc_bet(t));
                    }
                }
            }
            None
        },
    }
}


/// Serializes a render group.
pub fn encode_render_group(g: &RenderGroup) -> (out: Vec<u8>)
    ensures
        out@ == enc_rg(*g),
{
    let mut buf: Vec<u8> = Vec::new();
    encode_rg(g, &mut buf);
    proof {
        assert(buf@ =~= enc_rg(*g));
    }
    buf
}

/// Deserializes a render group; on the output of [`encode_render_group`] it
/// returns the group that was encoded.
pub fn decode_render_group(bytes: &Vec<u8>) -> (r: Option<RenderGroup>)
    ensures
        forall|v: RenderGroup| #![trigger enc_rg(v)] bytes@ == enc_rg(v) ==> r == Some(v),
{
    let d = decode_rg_at(bytes, 0);
    proof {
        assert(bytes@.subrange(0, bytes@.len() as int) =~= bytes@);
        assert(forall|v: RenderGroup, end: int|
            #![trigger enc_rg(v), bytes@.subrange(0, end)]
            0 <= end <= bytes@.len() && bytes@.subrange(0, end) == enc_rg(v) ==> (d
                matches Some(p) && p.1 == end && p.0 == v));
    }
    match d {
        Some((v, p)) => {
            if p == bytes.len() {
                Some(v)
            } else {
                proof {
                    assert forall|v0: RenderGroup| #![trigger enc_rg(v0)] !(bytes@ == enc_rg(
                        v0,
                    )) by {
                        if bytes@ == enc_rg(v0) {
                            assert(bytes@.subrange(0, bytes@.len() as int) == enc_rg(v0));
                        }
                    }
                }
                None
            }
        },
        None => {
            proof {
                assert forall|v0: RenderGroup| #![trigger enc_rg(v0)] !(bytes@ == enc_rg(v0)) by {
                    if bytes@ == enc_rg(v0) {
                        assert(bytes@.subrange(0, bytes@.len() as int) == enc_rg(v0));
                    }
                }
            }
            None
        },
    }
}

} // verus!
