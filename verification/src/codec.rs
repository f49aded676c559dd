use vstd::prelude::*;
use crate::model::Container;
use crate::model::ContainerV;
use crate::model::Entry;
use crate::model::EntryV;
use crate::model::Excerpt;
use crate::model::Index;
use crate::model::IndexV;
use crate::model::PassthroughConfig;
use crate::model::SearchResult;
use crate::model::aliases_view;
use crate::model::containers_view;
use crate::model::entries_view;
use crate::model::fields_view;
use crate::model::results_view;
use crate::model::PassthroughConfigV;
use crate::model::SearchResultV;
use crate::model::TitleBoost;
use crate::errors::IndexParseError;
use vstd::utf8::char_u32_cast;

verus! {

/// Relies on `char::from_u32`: it returns the character with the given code
/// point, and `None` exactly when no character has that code point.
#[verifier::external_body]
pub(crate) fn char_from_u32(u: u32) -> (r: Option<char>)
    ensures
        r is Some ==> r->0 as u32 == u,
        forall|c: char| #[trigger] char_code(c) == u ==> r == Option::Some(c),
{
    char::from_u32(u)
}

/// The big-endian four-byte form of a 32-bit value.
pub open spec fn spec_enc_u32(x: u32) -> Seq<u8> {
    seq![(x >> 24) as u8, (x >> 16) as u8, (x >> 8) as u8, x as u8]
}

/// The big-endian eight-byte form of a 64-bit value.
pub open spec fn spec_enc_u64(x: u64) -> Seq<u8> {
    seq![
        (x >> 56) as u8,
        (x >> 48) as u8,
        (x >> 40) as u8,
        (x >> 32) as u8,
        (x >> 24) as u8,
        (x >> 16) as u8,
        (x >> 8) as u8,
        x as u8,
    ]
}

/// The 32-bit value held by four big-endian bytes.
pub open spec fn spec_u32_of(b0: u8, b1: u8, b2: u8, b3: u8) -> u32 {
    ((b0 as u32) << 24) | ((b1 as u32) << 16) | ((b2 as u32) << 8) | (b3 as u32)
}

/// The 64-bit value held by eight big-endian bytes.
pub open spec fn spec_u64_of(
    b0: u8,
    b1: u8,
    b2: u8,
    b3: u8,
    b4: u8,
    b5: u8,
    b6: u8,
    b7: u8,
) -> u64 {
    ((b0 as u64) << 56) | ((b1 as u64) << 48) | ((b2 as u64) << 40) | ((b3 as u64) << 32) | ((
    b4 as u64) << 24) | ((b5 as u64) << 16) | ((b6 as u64) << 8) | (b7 as u64)
}

/// Reassembling the big-endian bytes of a 32-bit value gives it back.
pub proof fn lemma_u32_round(x: u32)
    ensures
        spec_u32_of((x >> 24) as u8, (x >> 16) as u8, (x >> 8) as u8, x as u8) == x,
{
    assert((((x >> 24) as u8 as u32) << 24) | (((x >> 16) as u8 as u32) << 16) | (((x
        >> 8) as u8 as u32) << 8) | (x as u8 as u32) == x) by (bit_vector);
}

/// Reassembling the big-endian bytes of a 64-bit value gives it back.
pub proof fn lemma_u64_round(x: u64)
    ensures
        spec_u64_of(
            (x >> 56) as u8,
            (x >> 48) as u8,
            (x >> 40) as u8,
            (x >> 32) as u8,
            (x >> 24) as u8,
            (x >> 16) as u8,
            (x >> 8) as u8,
            x as u8,
        ) == x,
{
    assert((((x >> 56) as u8 as u64) << 56) | (((x >> 48) as u8 as u64) << 48) | (((x
        >> 40) as u8 as u64) << 40) | (((x >> 32) as u8 as u64) << 32) | (((x
        >> 24) as u8 as u64) << 24) | (((x >> 16) as u8 as u64) << 16) | (((x
        >> 8) as u8 as u64) << 8) | (x as u8 as u64) == x) by (bit_vector);
}

/// Reads four big-endian bytes off the front.
pub open spec fn spec_parse_u32(bytes: Seq<u8>) -> Option<(u32, Seq<u8>)> {
    if bytes.len() < 4 {
        Option::None
    } else {
        Option::Some((spec_u32_of(bytes[0], bytes[1], bytes[2], bytes[3]), bytes.skip(4)))
    }
}

/// Reads eight big-endian bytes off the front.
pub open spec fn spec_parse_u64(bytes: Seq<u8>) -> Option<(u64, Seq<u8>)> {
    if bytes.len() < 8 {
        Option::None
    } else {
        Option::Some(
            (
                spec_u64_of(
                    bytes[0],
                    bytes[1],
                    bytes[2],
                    bytes[3],
                    bytes[4],
                    bytes[5],
                    bytes[6],
                    bytes[7],
                ),
                bytes.skip(8),
            ),
        )
    }
}

/// Reads one byte off the front.
pub open spec fn spec_parse_u8(bytes: Seq<u8>) -> Option<(u8, Seq<u8>)> {
    if bytes.len() < 1 {
        Option::None
    } else {
        Option::Some((bytes[0], bytes.skip(1)))
    }
}

/// Parsing an encoded 32-bit value gives it back with the rest untouched.
pub proof fn lemma_parse_u32(x: u32, rest: Seq<u8>)
    ensures
        spec_parse_u32(spec_enc_u32(x) + rest) == Option::Some((x, rest)),
{
    lemma_u32_round(x);
    assert((spec_enc_u32(x) + rest).skip(4) =~= rest);
}

/// Parsing an encoded 64-bit value gives it back with the rest untouched.
pub proof fn lemma_parse_u64(x: u64, rest: Seq<u8>)
    ensures
        spec_parse_u64(spec_enc_u64(x) + rest) == Option::Some((x, rest)),
{
    lemma_u64_round(x);
    assert((spec_enc_u64(x) + rest).skip(8) =~= rest);
}

/// Parsing an encoded byte gives it back with the rest untouched.
pub proof fn lemma_parse_u8(x: u8, rest: Seq<u8>)
    ensures
        spec_parse_u8(seq![x] + rest) == Option::Some((x, rest)),
{
    assert((seq![x] + rest).skip(1) =~= rest);
}


/// Concatenation of byte strings is associative.
pub proof fn lemma_assoc(a: Seq<u8>, b: Seq<u8>, c: Seq<u8>)
    ensures
        (a + b) + c == a + (b + c),
{
    assert((a + b) + c =~= a + (b + c));
}

/// The empty byte string is a right unit of concatenation.
pub proof fn lemma_add_empty(a: Seq<u8>)
    ensures
        a + Seq::<u8>::empty() == a,
{
    assert(a + Seq::<u8>::empty() =~= a);
}

/// The code point of a character.
pub open spec fn char_code(c: char) -> u32 {
    c as u32
}

/// A character: its code point as four bytes.
pub open spec fn spec_enc_char(c: char) -> Seq<u8> {
    spec_enc_u32(c as u32)
}

/// Reads one character off the front; a code that no character has fails.
pub open spec fn spec_parse_char(bytes: Seq<u8>) -> Option<(char, Seq<u8>)> {
    match spec_parse_u32(bytes) {
        Option::None => Option::None,
        Option::Some((u, rest)) => if exists|c: char| #[trigger] char_code(c) == u {
            Option::Some(((choose|c: char| #[trigger] char_code(c) == u), rest))
        } else {
            Option::None
        },
    }
}

/// Parsing an encoded character gives it back.
pub proof fn lemma_parse_char(c: char, rest: Seq<u8>)
    ensures
        spec_parse_char(spec_enc_char(c) + rest) == Option::Some((c, rest)),
{
    lemma_parse_u32(c as u32, rest);
    assert(char_code(c) == c as u32);
    assert(exists|d: char| #[trigger] char_code(d) == c as u32);
    let w = choose|d: char| #[trigger] char_code(d) == c as u32;
    assert(char_code(w) == c as u32);
    assert(w as u32 == c as u32);
    char_u32_cast(c, c as u32);
    char_u32_cast(w, c as u32);
    assert(w == c);
}

/// The concatenated encodings of a text's characters, in order.
pub open spec fn spec_enc_str_each(s: Seq<char>) -> Seq<u8>
    decreases s.len(),
{
    if s.len() == 0 {
        Seq::empty()
    } else {
        spec_enc_char(s[0]) + spec_enc_str_each(s.drop_first())
    }
}

/// Appending one element appends its encoding.
pub proof fn lemma_enc_str_snoc(s: Seq<char>, x: char)
    ensures
        spec_enc_str_each(s.push(x)) == spec_enc_str_each(s) + spec_enc_char(x),
    decreases s.len(),
{
    if s.len() == 0 {
        assert(s.push(x)[0] == x);
        assert(s.push(x).drop_first() =~= Seq::<char>::empty());
        assert(spec_enc_str_each(Seq::<char>::empty()) =~= Seq::<u8>::empty());
        assert(spec_enc_str_each(s.push(x)) =~= spec_enc_str_each(s) + spec_enc_char(x));
    } else {
        assert(s.push(x)[0] == s[0]);
        assert(s.push(x).drop_first() =~= s.drop_first().push(x));
        lemma_enc_str_snoc(s.drop_first(), x);
        assert(spec_enc_str_each(s.push(x)) =~= spec_enc_str_each(s) + spec_enc_char(x));
    }
}

/// A length-prefixed list of a text's characters.
pub open spec fn spec_enc_str(s: Seq<char>) -> Seq<u8> {
    spec_enc_u64(s.len() as u64) + spec_enc_str_each(s)
}

/// Reads `n` elements off the front.
pub open spec fn spec_parse_str_n(bytes: Seq<u8>, n: nat) -> Option<(Seq<char>, Seq<u8>)>
    decreases n,
{
    if n == 0 {
        Option::Some((Seq::empty(), bytes))
    } else {
        match spec_parse_char(bytes) {
            Option::None => Option::None,
            Option::Some((v, rest)) => match spec_parse_str_n(rest, (n - 1) as nat) {
                Option::None => Option::None,
                Option::Some((vs, rest2)) => Option::Some((seq![v] + vs, rest2)),
            },
        }
    }
}

/// Reads a length-prefixed list off the front.
pub open spec fn spec_parse_str(bytes: Seq<u8>) -> Option<(Seq<char>, Seq<u8>)> {
    match spec_parse_u64(bytes) {
        Option::None => Option::None,
        Option::Some((n, rest)) => spec_parse_str_n(rest, n as nat),
    }
}

/// Parsing the encoded elements gives them back.
pub proof fn lemma_parse_str_n(s: Seq<char>, rest: Seq<u8>)
    ensures
        spec_parse_str_n(spec_enc_str_each(s) + rest, s.len()) == Option::Some((s, rest)),
    decreases s.len(),
{
    if s.len() == 0 {
        assert(spec_enc_str_each(s) + rest =~= rest);
        assert(s =~= Seq::<char>::empty());
    } else {
        let tail = s.drop_first();
        assert(spec_enc_str_each(s) + rest =~= spec_enc_char(s[0]) + (spec_enc_str_each(tail)
            + rest));
        lemma_parse_char(s[0], spec_enc_str_each(tail) + rest);
        lemma_parse_str_n(tail, rest);
        assert(seq![s[0]] + tail =~= s);
    }
}

/// Parsing an encoded list gives it back.
pub proof fn lemma_parse_str(s: Seq<char>, rest: Seq<u8>)
    requires
        s.len() <= u64::MAX,
    ensures
        spec_parse_str(spec_enc_str(s) + rest) == Option::Some((s, rest)),
{
    assert(spec_enc_str(s) + rest =~= spec_enc_u64(s.len() as u64) + (spec_enc_str_each(s)
        + rest));
    lemma_parse_u64(s.len() as u64, spec_enc_str_each(s) + rest);
    lemma_parse_str_n(s, rest);
}

/// A string fits the format when its length has a 64-bit count.
pub open spec fn fits_str(s: Seq<char>) -> bool {
    s.len() <= u64::MAX
}

/// A label-to-text field pair.
pub open spec fn spec_enc_field(p: (Seq<char>, Seq<char>)) -> Seq<u8> {
    spec_enc_str(p.0) + spec_enc_str(p.1)
}

/// Both halves of a field pair fit the format.
pub open spec fn fits_field(p: (Seq<char>, Seq<char>)) -> bool {
    fits_str(p.0) && fits_str(p.1)
}

/// Reads a field pair off the front.
pub open spec fn spec_parse_field(bytes: Seq<u8>) -> Option<((Seq<char>, Seq<char>), Seq<u8>)> {
    match spec_parse_str(bytes) {
        Option::None => Option::None,
        Option::Some((a, r1)) => match spec_parse_str(r1) {
            Option::None => Option::None,
            Option::Some((b, r2)) => Option::Some(((a, b), r2)),
        },
    }
}

/// Parsing an encoded field pair gives it back.
pub proof fn lemma_parse_field(p: (Seq<char>, Seq<char>), rest: Seq<u8>)
    requires
        fits_field(p),
    ensures
        spec_parse_field(spec_enc_field(p) + rest) == Option::Some((p, rest)),
{
    assert(spec_enc_field(p) + rest =~= spec_enc_str(p.0) + (spec_enc_str(p.1) + rest));
    lemma_parse_str(p.0, spec_enc_str(p.1) + rest);
    lemma_parse_str(p.1, rest);
}

/// One word hit: word index, offset, importance, and the title flag.
pub open spec fn spec_enc_excerpt(e: crate::model::Excerpt) -> Seq<u8> {
    spec_enc_u64(e.word_index as u64) + spec_enc_u64(e.offset as u64) + spec_enc_u32(e.importance)
        + seq![
        if e.in_title {
            1u8
        } else {
            0u8
        },
    ]
}

/// Every excerpt fits the format.
pub open spec fn fits_excerpt(e: crate::model::Excerpt) -> bool {
    true
}

/// Reads one excerpt off the front.
pub open spec fn spec_parse_excerpt(bytes: Seq<u8>) -> Option<(crate::model::Excerpt, Seq<u8>)> {
    match spec_parse_u64(bytes) {
        Option::None => Option::None,
        Option::Some((wi, r1)) => if wi <= usize::MAX as u64 {
            match spec_parse_u64(r1) {
                Option::None => Option::None,
                Option::Some((off, r2)) => if off <= usize::MAX as u64 {
                    match spec_parse_u32(r2) {
                        Option::None => Option::None,
                        Option::Some((imp, r3)) => match spec_parse_u8(r3) {
                            Option::None => Option::None,
                            Option::Some((f, r4)) => if f == 0 || f == 1 {
                                Option::Some(
                                    (
                                        crate::model::Excerpt {
                                            word_index: wi as usize,
                                            offset: off as usize,
                                            importance: imp,
                                            in_title: f == 1,
                                        },
                                        r4,
                                    ),
                                )
                            } else {
                                Option::None
                            },
                        },
                    }
                } else {
                    Option::None
                },
            }
        } else {
            Option::None
        },
    }
}

/// Parsing an encoded excerpt gives it back.
pub proof fn lemma_parse_excerpt(e: crate::model::Excerpt, rest: Seq<u8>)
    ensures
        spec_parse_excerpt(spec_enc_excerpt(e) + rest) == Option::Some((e, rest)),
{
    let fl = seq![
        if e.in_title {
            1u8
        } else {
            0u8
        },
    ];
    assert(spec_enc_excerpt(e) + rest =~= spec_enc_u64(e.word_index as u64) + (spec_enc_u64(
        e.offset as u64,
    ) + (spec_enc_u32(e.importance) + (fl + rest))));
    lemma_parse_u64(e.word_index as u64, spec_enc_u64(e.offset as u64) + (spec_enc_u32(
        e.importance,
    ) + (fl + rest)));
    lemma_parse_u64(e.offset as u64, spec_enc_u32(e.importance) + (fl + rest));
    lemma_parse_u32(e.importance, fl + rest);
    lemma_parse_u8(if e.in_title { 1u8 } else { 0u8 }, rest);
}

/// One alias: the target term and its similarity.
pub open spec fn spec_enc_alias(a: (Seq<char>, u32)) -> Seq<u8> {
    spec_enc_str(a.0) + spec_enc_u32(a.1)
}

/// An alias fits the format when its term does.
pub open spec fn fits_alias(a: (Seq<char>, u32)) -> bool {
    fits_str(a.0)
}

/// Reads one alias off the front.
pub open spec fn spec_parse_alias(bytes: Seq<u8>) -> Option<((Seq<char>, u32), Seq<u8>)> {
    match spec_parse_str(bytes) {
        Option::None => Option::None,
        Option::Some((t, r1)) => match spec_parse_u32(r1) {
            Option::None => Option::None,
            Option::Some((v, r2)) => Option::Some(((t, v), r2)),
        },
    }
}

/// Parsing an encoded alias gives it back.
pub proof fn lemma_parse_alias(a: (Seq<char>, u32), rest: Seq<u8>)
    requires
        fits_alias(a),
    ensures
        spec_parse_alias(spec_enc_alias(a) + rest) == Option::Some((a, rest)),
{
    assert(spec_enc_alias(a) + rest =~= spec_enc_str(a.0) + (spec_enc_u32(a.1) + rest));
    lemma_parse_str(a.0, spec_enc_u32(a.1) + rest);
    lemma_parse_u32(a.1, rest);
}

/// The concatenated encodings of field pairs, in order.
pub open spec fn spec_enc_fields_each(s: Seq<(Seq<char>, Seq<char>)>) -> Seq<u8>
    decreases s.len(),
{
    if s.len() == 0 {
        Seq::empty()
    } else {
        spec_enc_field(s[0]) + spec_enc_fields_each(s.drop_first())
    }
}

/// Appending one element appends its encoding.
pub proof fn lemma_enc_fields_snoc(s: Seq<(Seq<char>, Seq<char>)>, x: (Seq<char>, Seq<char>))
    ensures
        spec_enc_fields_each(s.push(x)) == spec_enc_fields_each(s) + spec_enc_field(x),
    decreases s.len(),
{
    if s.len() == 0 {
        assert(s.push(x)[0] == x);
        assert(s.push(x).drop_first() =~= Seq::<(Seq<char>, Seq<char>)>::empty());
        assert(spec_enc_fields_each(Seq::<(Seq<char>, Seq<char>)>::empty()) =~= Seq::<u8>::empty());
        assert(spec_enc_fields_each(s.push(x)) =~= spec_enc_fields_each(s) + spec_enc_field(x));
    } else {
        assert(s.push(x)[0] == s[0]);
        assert(s.push(x).drop_first() =~= s.drop_first().push(x));
        lemma_enc_fields_snoc(s.drop_first(), x);
        assert(spec_enc_fields_each(s.push(x)) =~= spec_enc_fields_each(s) + spec_enc_field(x));
    }
}

/// A length-prefixed list of field pairs.
pub open spec fn spec_enc_fields(s: Seq<(Seq<char>, Seq<char>)>) -> Seq<u8> {
    spec_enc_u64(s.len() as u64) + spec_enc_fields_each(s)
}

/// Reads `n` elements off the front.
pub open spec fn spec_parse_fields_n(bytes: Seq<u8>, n: nat) -> Option<(Seq<(Seq<char>, Seq<char>)>, Seq<u8>)>
    decreases n,
{
    if n == 0 {
        Option::Some((Seq::empty(), bytes))
    } else {
        match spec_parse_field(bytes) {
            Option::None => Option::None,
            Option::Some((v, rest)) => match spec_parse_fields_n(rest, (n - 1) as nat) {
                Option::None => Option::None,
                Option::Some((vs, rest2)) => Option::Some((seq![v] + vs, rest2)),
            },
        }
    }
}

/// Reads a length-prefixed list off the front.
pub open spec fn spec_parse_fields(bytes: Seq<u8>) -> Option<(Seq<(Seq<char>, Seq<char>)>, Seq<u8>)> {
    match spec_parse_u64(bytes) {
        Option::None => Option::None,
        Option::Some((n, rest)) => spec_parse_fields_n(rest, n as nat),
    }
}

/// Parsing the encoded elements gives them back.
pub proof fn lemma_parse_fields_n(s: Seq<(Seq<char>, Seq<char>)>, rest: Seq<u8>)
    requires
        forall|j: int| 0 <= j < s.len() ==> fits_field(#[trigger] s[j]),
    ensures
        spec_parse_fields_n(spec_enc_fields_each(s) + rest, s.len()) == Option::Some((s, rest)),
    decreases s.len(),
{
    if s.len() == 0 {
        assert(spec_enc_fields_each(s) + rest =~= rest);
        assert(s =~= Seq::<(Seq<char>, Seq<char>)>::empty());
    } else {
        let tail = s.drop_first();
        assert(spec_enc_fields_each(s) == spec_enc_field(s[0]) + spec_enc_fields_each(tail));
        lemma_assoc(spec_enc_field(s[0]), spec_enc_fields_each(tail), rest);
        assert(forall|j: int| 0 <= j < tail.len() ==> #[trigger] tail[j] == s[j + 1]);
        lemma_parse_field(s[0], spec_enc_fields_each(tail) + rest);
        lemma_parse_fields_n(tail, rest);
        assert(seq![s[0]] + tail =~= s);
    }
}

/// Parsing an encoded list gives it back.
pub proof fn lemma_parse_fields(s: Seq<(Seq<char>, Seq<char>)>, rest: Seq<u8>)
    requires
        s.len() <= u64::MAX,
        forall|j: int| 0 <= j < s.len() ==> fits_field(#[trigger] s[j]),
    ensures
        spec_parse_fields(spec_enc_fields(s) + rest) == Option::Some((s, rest)),
{
    lemma_assoc(spec_enc_u64(s.len() as u64), spec_enc_fields_each(s), rest);
    lemma_parse_u64(s.len() as u64, spec_enc_fields_each(s) + rest);
    lemma_parse_fields_n(s, rest);
}

/// The concatenated encodings of excerpts, in order.
pub open spec fn spec_enc_excerpts_each(s: Seq<crate::model::Excerpt>) -> Seq<u8>
    decreases s.len(),
{
    if s.len() == 0 {
        Seq::empty()
    } else {
        spec_enc_excerpt(s[0]) + spec_enc_excerpts_each(s.drop_first())
    }
}

/// Appending one element appends its encoding.
pub proof fn lemma_enc_excerpts_snoc(s: Seq<crate::model::Excerpt>, x: crate::model::Excerpt)
    ensures
        spec_enc_excerpts_each(s.push(x)) == spec_enc_excerpts_each(s) + spec_enc_excerpt(x),
    decreases s.len(),
{
    if s.len() == 0 {
        assert(s.push(x)[0] == x);
        assert(s.push(x).drop_first() =~= Seq::<crate::model::Excerpt>::empty());
        assert(spec_enc_excerpts_each(Seq::<crate::model::Excerpt>::empty()) =~= Seq::<u8>::empty());
        assert(spec_enc_excerpts_each(s.push(x)) =~= spec_enc_excerpts_each(s) + spec_enc_excerpt(x));
    } else {
        assert(s.push(x)[0] == s[0]);
        assert(s.push(x).drop_first() =~= s.drop_first().push(x));
        lemma_enc_excerpts_snoc(s.drop_first(), x);
        assert(spec_enc_excerpts_each(s.push(x)) =~= spec_enc_excerpts_each(s) + spec_enc_excerpt(x));
    }
}

/// A length-prefixed list of excerpts.
pub open spec fn spec_enc_excerpts(s: Seq<crate::model::Excerpt>) -> Seq<u8> {
    spec_enc_u64(s.len() as u64) + spec_enc_excerpts_each(s)
}

/// Reads `n` elements off the front.
pub open spec fn spec_parse_excerpts_n(bytes: Seq<u8>, n: nat) -> Option<(Seq<crate::model::Excerpt>, Seq<u8>)>
    decreases n,
{
    if n == 0 {
        Option::Some((Seq::empty(), bytes))
    } else {
        match spec_parse_excerpt(bytes) {
            Option::None => Option::None,
            Option::Some((v, rest)) => match spec_parse_excerpts_n(rest, (n - 1) as nat) {
                Option::None => Option::None,
                Option::Some((vs, rest2)) => Option::Some((seq![v] + vs, rest2)),
            },
        }
    }
}

/// Reads a length-prefixed list off the front.
pub open spec fn spec_parse_excerpts(bytes: Seq<u8>) -> Option<(Seq<crate::model::Excerpt>, Seq<u8>)> {
    match spec_parse_u64(bytes) {
        Option::None => Option::None,
        Option::Some((n, rest)) => spec_parse_excerpts_n(rest, n as nat),
    }
}

/// Parsing the encoded elements gives them back.
pub proof fn lemma_parse_excerpts_n(s: Seq<crate::model::Excerpt>, rest: Seq<u8>)
    requires
        forall|j: int| 0 <= j < s.len() ==> fits_excerpt(#[trigger] s[j]),
    ensures
        spec_parse_excerpts_n(spec_enc_excerpts_each(s) + rest, s.len()) == Option::Some((s, rest)),
    decreases s.len(),
{
    if s.len() == 0 {
        assert(spec_enc_excerpts_each(s) + rest =~= rest);
        assert(s =~= Seq::<crate::model::Excerpt>::empty());
    } else {
        let tail = s.drop_first();
        assert(spec_enc_excerpts_each(s) == spec_enc_excerpt(s[0]) + spec_enc_excerpts_each(tail));
        lemma_assoc(spec_enc_excerpt(s[0]), spec_enc_excerpts_each(tail), rest);
        assert(forall|j: int| 0 <= j < tail.len() ==> #[trigger] tail[j] == s[j + 1]);
        lemma_parse_excerpt(s[0], spec_enc_excerpts_each(tail) + rest);
        lemma_parse_excerpts_n(tail, rest);
        assert(seq![s[0]] + tail =~= s);
    }
}

/// Parsing an encoded list gives it back.
pub proof fn lemma_parse_excerpts(s: Seq<crate::model::Excerpt>, rest: Seq<u8>)
    requires
        s.len() <= u64::MAX,
        forall|j: int| 0 <= j < s.len() ==> fits_excerpt(#[trigger] s[j]),
    ensures
        spec_parse_excerpts(spec_enc_excerpts(s) + rest) == Option::Some((s, rest)),
{
    lemma_assoc(spec_enc_u64(s.len() as u64), spec_enc_excerpts_each(s), rest);
    lemma_parse_u64(s.len() as u64, spec_enc_excerpts_each(s) + rest);
    lemma_parse_excerpts_n(s, rest);
}

/// The concatenated encodings of aliases, in order.
pub open spec fn spec_enc_aliases_each(s: Seq<(Seq<char>, u32)>) -> Seq<u8>
    decreases s.len(),
{
    if s.len() == 0 {
        Seq::empty()
    } else {
        spec_enc_alias(s[0]) + spec_enc_aliases_each(s.drop_first())
    }
}

/// Appending one element appends its encoding.
pub proof fn lemma_enc_aliases_snoc(s: Seq<(Seq<char>, u32)>, x: (Seq<char>, u32))
    ensures
        spec_enc_aliases_each(s.push(x)) == spec_enc_aliases_each(s) + spec_enc_alias(x),
    decreases s.len(),
{
    if s.len() == 0 {
        assert(s.push(x)[0] == x);
        assert(s.push(x).drop_first() =~= Seq::<(Seq<char>, u32)>::empty());
        assert(spec_enc_aliases_each(Seq::<(Seq<char>, u32)>::empty()) =~= Seq::<u8>::empty());
        assert(spec_enc_aliases_each(s.push(x)) =~= spec_enc_aliases_each(s) + spec_enc_alias(x));
    } else {
        assert(s.push(x)[0] == s[0]);
        assert(s.push(x).drop_first() =~= s.drop_first().push(x));
        lemma_enc_aliases_snoc(s.drop_first(), x);
        assert(spec_enc_aliases_each(s.push(x)) =~= spec_enc_aliases_each(s) + spec_enc_alias(x));
    }
}

/// A length-prefixed list of aliases.
pub open spec fn spec_enc_aliases(s: Seq<(Seq<char>, u32)>) -> Seq<u8> {
    spec_enc_u64(s.len() as u64) + spec_enc_aliases_each(s)
}

/// Reads `n` elements off the front.
pub open spec fn spec_parse_aliases_n(bytes: Seq<u8>, n: nat) -> Option<(Seq<(Seq<char>, u32)>, Seq<u8>)>
    decreases n,
{
    if n == 0 {
        Option::Some((Seq::empty(), bytes))
    } else {
        match spec_parse_alias(bytes) {
            Option::None => Option::None,
            Option::Some((v, rest)) => match spec_parse_aliases_n(rest, (n - 1) as nat) {
                Option::None => Option::None,
                Option::Some((vs, rest2)) => Option::Some((seq![v] + vs, rest2)),
            },
        }
    }
}

/// Reads a length-prefixed list off the front.
pub open spec fn spec_parse_aliases(bytes: Seq<u8>) -> Option<(Seq<(Seq<char>, u32)>, Seq<u8>)> {
    match spec_parse_u64(bytes) {
        Option::None => Option::None,
        Option::Some((n, rest)) => spec_parse_aliases_n(rest, n as nat),
    }
}

/// Parsing the encoded elements gives them back.
pub proof fn lemma_parse_aliases_n(s: Seq<(Seq<char>, u32)>, rest: Seq<u8>)
    requires
        forall|j: int| 0 <= j < s.len() ==> fits_alias(#[trigger] s[j]),
    ensures
        spec_parse_aliases_n(spec_enc_aliases_each(s) + rest, s.len()) == Option::Some((s, rest)),
    decreases s.len(),
{
    if s.len() == 0 {
        assert(spec_enc_aliases_each(s) + rest =~= rest);
        assert(s =~= Seq::<(Seq<char>, u32)>::empty());
    } else {
        let tail = s.drop_first();
        assert(spec_enc_aliases_each(s) == spec_enc_alias(s[0]) + spec_enc_aliases_each(tail));
        lemma_assoc(spec_enc_alias(s[0]), spec_enc_aliases_each(tail), rest);
        assert(forall|j: int| 0 <= j < tail.len() ==> #[trigger] tail[j] == s[j + 1]);
        lemma_parse_alias(s[0], spec_enc_aliases_each(tail) + rest);
        lemma_parse_aliases_n(tail, rest);
        assert(seq![s[0]] + tail =~= s);
    }
}

/// Parsing an encoded list gives it back.
pub proof fn lemma_parse_aliases(s: Seq<(Seq<char>, u32)>, rest: Seq<u8>)
    requires
        s.len() <= u64::MAX,
        forall|j: int| 0 <= j < s.len() ==> fits_alias(#[trigger] s[j]),
    ensures
        spec_parse_aliases(spec_enc_aliases(s) + rest) == Option::Some((s, rest)),
{
    lemma_assoc(spec_enc_u64(s.len() as u64), spec_enc_aliases_each(s), rest);
    lemma_parse_u64(s.len() as u64, spec_enc_aliases_each(s) + rest);
    lemma_parse_aliases_n(s, rest);
}

/// One per-entry result: the entry index, the 8-bit score, and the excerpts.
pub open spec fn spec_enc_result(r: (usize, SearchResultV)) -> Seq<u8> {
    spec_enc_u64(r.0 as u64) + seq![r.1.score] + spec_enc_excerpts(r.1.excerpts)
}

/// A result fits the format when its excerpt list has a 64-bit count.
pub open spec fn fits_result(r: (usize, SearchResultV)) -> bool {
    r.1.excerpts.len() <= u64::MAX
}

/// Reads one result off the front.
pub open spec fn spec_parse_result(bytes: Seq<u8>) -> Option<((usize, SearchResultV), Seq<u8>)> {
    match spec_parse_u64(bytes) {
        Option::None => Option::None,
        Option::Some((e, r1)) => if e <= usize::MAX as u64 {
            match spec_parse_u8(r1) {
                Option::None => Option::None,
                Option::Some((score, r2)) => match spec_parse_excerpts(r2) {
                    Option::None => Option::None,
                    Option::Some((excs, r3)) => Option::Some(
                        ((e as usize, SearchResultV { excerpts: excs, score }), r3),
                    ),
                },
            }
        } else {
            Option::None
        },
    }
}

/// Parsing an encoded result gives it back.
pub proof fn lemma_parse_result(r: (usize, SearchResultV), rest: Seq<u8>)
    requires
        fits_result(r),
    ensures
        spec_parse_result(spec_enc_result(r) + rest) == Option::Some((r, rest)),
{
    assert(spec_enc_result(r) + rest =~= spec_enc_u64(r.0 as u64) + (seq![r.1.score] + (
    spec_enc_excerpts(r.1.excerpts) + rest)));
    lemma_parse_u64(r.0 as u64, seq![r.1.score] + (spec_enc_excerpts(r.1.excerpts) + rest));
    lemma_parse_u8(r.1.score, spec_enc_excerpts(r.1.excerpts) + rest);
    assert(forall|j: int|
        0 <= j < r.1.excerpts.len() ==> fits_excerpt(#[trigger] r.1.excerpts[j]));
    lemma_parse_excerpts(r.1.excerpts, rest);
}


/// The concatenated encodings of per-entry results, in order.
pub open spec fn spec_enc_results_each(s: Seq<(usize, SearchResultV)>) -> Seq<u8>
    decreases s.len(),
{
    if s.len() == 0 {
        Seq::empty()
    } else {
        spec_enc_result(s[0]) + spec_enc_results_each(s.drop_first())
    }
}

/// Appending one element appends its encoding.
pub proof fn lemma_enc_results_snoc(s: Seq<(usize, SearchResultV)>, x: (usize, SearchResultV))
    ensures
        spec_enc_results_each(s.push(x)) == spec_enc_results_each(s) + spec_enc_result(x),
    decreases s.len(),
{
    if s.len() == 0 {
        assert(s.push(x)[0] == x);
        assert(s.push(x).drop_first() =~= Seq::<(usize, SearchResultV)>::empty());
        assert(spec_enc_results_each(Seq::<(usize, SearchResultV)>::empty()) =~= Seq::<u8>::empty());
        assert(spec_enc_results_each(s.push(x)) =~= spec_enc_results_each(s) + spec_enc_result(x));
    } else {
        assert(s.push(x)[0] == s[0]);
        assert(s.push(x).drop_first() =~= s.drop_first().push(x));
        lemma_enc_results_snoc(s.drop_first(), x);
        assert(spec_enc_results_each(s.push(x)) =~= spec_enc_results_each(s) + spec_enc_result(x));
    }
}

/// A length-prefixed list of per-entry results.
pub open spec fn spec_enc_results(s: Seq<(usize, SearchResultV)>) -> Seq<u8> {
    spec_enc_u64(s.len() as u64) + spec_enc_results_each(s)
}

/// Reads `n` elements off the front.
pub open spec fn spec_parse_results_n(bytes: Seq<u8>, n: nat) -> Option<(Seq<(usize, SearchResultV)>, Seq<u8>)>
    decreases n,
{
    if n == 0 {
        Option::Some((Seq::empty(), bytes))
    } else {
        match spec_parse_result(bytes) {
            Option::None => Option::None,
            Option::Some((v, rest)) => match spec_parse_results_n(rest, (n - 1) as nat) {
                Option::None => Option::None,
                Option::Some((vs, rest2)) => Option::Some((seq![v] + vs, rest2)),
            },
        }
    }
}

/// Reads a length-prefixed list off the front.
pub open spec fn spec_parse_results(bytes: Seq<u8>) -> Option<(Seq<(usize, SearchResultV)>, Seq<u8>)> {
    match spec_parse_u64(bytes) {
        Option::None => Option::None,
        Option::Some((n, rest)) => spec_parse_results_n(rest, n as nat),
    }
}

/// Parsing the encoded elements gives them back.
#[verifier::rlimit(100)]
pub proof fn lemma_parse_results_n(s: Seq<(usize, SearchResultV)>, rest: Seq<u8>)
    requires
        forall|j: int| 0 <= j < s.len() ==> fits_result(#[trigger] s[j]),
    ensures
        spec_parse_results_n(spec_enc_results_each(s) + rest, s.len()) == Option::Some((s, rest)),
    decreases s.len(),
{
    if s.len() == 0 {
        assert(spec_enc_results_each(s) + rest =~= rest);
        assert(s =~= Seq::<(usize, SearchResultV)>::empty());
    } else {
        let tail = s.drop_first();
        assert(spec_enc_results_each(s) == spec_enc_result(s[0]) + spec_enc_results_each(tail));
        lemma_assoc(spec_enc_result(s[0]), spec_enc_results_each(tail), rest);
        assert(forall|j: int| 0 <= j < tail.len() ==> #[trigger] tail[j] == s[j + 1]);
        lemma_parse_result(s[0], spec_enc_results_each(tail) + rest);
        lemma_parse_results_n(tail, rest);
        assert(seq![s[0]] + tail =~= s);
    }
}

/// Parsing an encoded list gives it back.
pub proof fn lemma_parse_results(s: Seq<(usize, SearchResultV)>, rest: Seq<u8>)
    requires
        s.len() <= u64::MAX,
        forall|j: int| 0 <= j < s.len() ==> fits_result(#[trigger] s[j]),
    ensures
        spec_parse_results(spec_enc_results(s) + rest) == Option::Some((s, rest)),
{
    lemma_assoc(spec_enc_u64(s.len() as u64), spec_enc_results_each(s), rest);
    lemma_parse_u64(s.len() as u64, spec_enc_results_each(s) + rest);
    lemma_parse_results_n(s, rest);
}
/// One entry: title, url, contents, fields.
pub open spec fn spec_enc_entry(e: EntryV) -> Seq<u8> {
    spec_enc_str(e.title) + spec_enc_str(e.url) + spec_enc_str(e.contents) + spec_enc_fields(
        e.fields,
    )
}

/// An entry fits the format when its strings and field list do.
pub open spec fn fits_entry(e: EntryV) -> bool {
    fits_str(e.title) && fits_str(e.url) && fits_str(e.contents) && e.fields.len() <= u64::MAX
        && forall|j: int| 0 <= j < e.fields.len() ==> fits_field(#[trigger] e.fields[j])
}

/// Reads one entry off the front.
pub open spec fn spec_parse_entry(bytes: Seq<u8>) -> Option<(EntryV, Seq<u8>)> {
    match spec_parse_str(bytes) {
        Option::None => Option::None,
        Option::Some((title, r1)) => match spec_parse_str(r1) {
            Option::None => Option::None,
            Option::Some((url, r2)) => match spec_parse_str(r2) {
                Option::None => Option::None,
                Option::Some((contents, r3)) => match spec_parse_fields(r3) {
                    Option::None => Option::None,
                    Option::Some((fields, r4)) => Option::Some(
                        (EntryV { title, url, contents, fields }, r4),
                    ),
                },
            },
        },
    }
}

/// Parsing an encoded entry gives it back.
pub proof fn lemma_parse_entry(e: EntryV, rest: Seq<u8>)
    requires
        fits_entry(e),
    ensures
        spec_parse_entry(spec_enc_entry(e) + rest) == Option::Some((e, rest)),
{
    assert(spec_enc_entry(e) + rest =~= spec_enc_str(e.title) + (spec_enc_str(e.url) + (
    spec_enc_str(e.contents) + (spec_enc_fields(e.fields) + rest))));
    lemma_parse_str(e.title, spec_enc_str(e.url) + (spec_enc_str(e.contents) + (spec_enc_fields(
        e.fields,
    ) + rest)));
    lemma_parse_str(e.url, spec_enc_str(e.contents) + (spec_enc_fields(e.fields) + rest));
    lemma_parse_str(e.contents, spec_enc_fields(e.fields) + rest);
    lemma_parse_fields(e.fields, rest);
}


/// The concatenated encodings of entries, in order.
pub open spec fn spec_enc_entries_each(s: Seq<EntryV>) -> Seq<u8>
    decreases s.len(),
{
    if s.len() == 0 {
        Seq::empty()
    } else {
        spec_enc_entry(s[0]) + spec_enc_entries_each(s.drop_first())
    }
}

/// Appending one element appends its encoding.
pub proof fn lemma_enc_entries_snoc(s: Seq<EntryV>, x: EntryV)
    ensures
        spec_enc_entries_each(s.push(x)) == spec_enc_entries_each(s) + spec_enc_entry(x),
    decreases s.len(),
{
    if s.len() == 0 {
        assert(s.push(x)[0] == x);
        assert(s.push(x).drop_first() =~= Seq::<EntryV>::empty());
        assert(spec_enc_entries_each(Seq::<EntryV>::empty()) =~= Seq::<u8>::empty());
        assert(spec_enc_entries_each(s.push(x)) =~= spec_enc_entries_each(s) + spec_enc_entry(x));
    } else {
        assert(s.push(x)[0] == s[0]);
        assert(s.push(x).drop_first() =~= s.drop_first().push(x));
        lemma_enc_entries_snoc(s.drop_first(), x);
        assert(spec_enc_entries_each(s.push(x)) =~= spec_enc_entries_each(s) + spec_enc_entry(x));
    }
}

/// A length-prefixed list of entries.
pub open spec fn spec_enc_entries(s: Seq<EntryV>) -> Seq<u8> {
    spec_enc_u64(s.len() as u64) + spec_enc_entries_each(s)
}

/// Reads `n` elements off the front.
pub open spec fn spec_parse_entries_n(bytes: Seq<u8>, n: nat) -> Option<(Seq<EntryV>, Seq<u8>)>
    decreases n,
{
    if n == 0 {
        Option::Some((Seq::empty(), bytes))
    } else {
        match spec_parse_entry(bytes) {
            Option::None => Option::None,
            Option::Some((v, rest)) => match spec_parse_entries_n(rest, (n - 1) as nat) {
                Option::None => Option::None,
                Option::Some((vs, rest2)) => Option::Some((seq![v] + vs, rest2)),
            },
        }
    }
}

/// Reads a length-prefixed list off the front.
pub open spec fn spec_parse_entries(bytes: Seq<u8>) -> Option<(Seq<EntryV>, Seq<u8>)> {
    match spec_parse_u64(bytes) {
        Option::None => Option::None,
        Option::Some((n, rest)) => spec_parse_entries_n(rest, n as nat),
    }
}

/// Parsing the encoded elements gives them back.
pub proof fn lemma_parse_entries_n(s: Seq<EntryV>, rest: Seq<u8>)
    requires
        forall|j: int| 0 <= j < s.len() ==> fits_entry(#[trigger] s[j]),
    ensures
        spec_parse_entries_n(spec_enc_entries_each(s) + rest, s.len()) == Option::Some((s, rest)),
    decreases s.len(),
{
    if s.len() == 0 {
        assert(spec_enc_entries_each(s) + rest =~= rest);
        assert(s =~= Seq::<EntryV>::empty());
    } else {
        let tail = s.drop_first();
        assert(spec_enc_entries_each(s) == spec_enc_entry(s[0]) + spec_enc_entries_each(tail));
        lemma_assoc(spec_enc_entry(s[0]), spec_enc_entries_each(tail), rest);
        assert(forall|j: int| 0 <= j < tail.len() ==> #[trigger] tail[j] == s[j + 1]);
        lemma_parse_entry(s[0], spec_enc_entries_each(tail) + rest);
        lemma_parse_entries_n(tail, rest);
        assert(seq![s[0]] + tail =~= s);
    }
}

/// Parsing an encoded list gives it back.
pub proof fn lemma_parse_entries(s: Seq<EntryV>, rest: Seq<u8>)
    requires
        s.len() <= u64::MAX,
        forall|j: int| 0 <= j < s.len() ==> fits_entry(#[trigger] s[j]),
    ensures
        spec_parse_entries(spec_enc_entries(s) + rest) == Option::Some((s, rest)),
{
    lemma_assoc(spec_enc_u64(s.len() as u64), spec_enc_entries_each(s), rest);
    lemma_parse_u64(s.len() as u64, spec_enc_entries_each(s) + rest);
    lemma_parse_entries_n(s, rest);
}
/// One container with its key: the key, the results, the aliases.
pub open spec fn spec_enc_container(c: (Seq<char>, ContainerV)) -> Seq<u8> {
    spec_enc_str(c.0) + spec_enc_results(c.1.results) + spec_enc_aliases(c.1.aliases)
}

/// A container fits the format when its key and both lists do.
pub open spec fn fits_container(c: (Seq<char>, ContainerV)) -> bool {
    fits_str(c.0) && c.1.results.len() <= u64::MAX && c.1.aliases.len() <= u64::MAX && (forall|
        j: int,
    | 0 <= j < c.1.results.len() ==> fits_result(#[trigger] c.1.results[j])) && (forall|j: int|
        0 <= j < c.1.aliases.len() ==> fits_alias(#[trigger] c.1.aliases[j]))
}

/// Reads one keyed container off the front.
pub open spec fn spec_parse_container(bytes: Seq<u8>) -> Option<((Seq<char>, ContainerV), Seq<u8>)> {
    match spec_parse_str(bytes) {
        Option::None => Option::None,
        Option::Some((key, r1)) => match spec_parse_results(r1) {
            Option::None => Option::None,
            Option::Some((results, r2)) => match spec_parse_aliases(r2) {
                Option::None => Option::None,
                Option::Some((aliases, r3)) => Option::Some(
                    ((key, ContainerV { results, aliases }), r3),
                ),
            },
        },
    }
}

/// Parsing an encoded container gives it back.
pub proof fn lemma_parse_container(c: (Seq<char>, ContainerV), rest: Seq<u8>)
    requires
        fits_container(c),
    ensures
        spec_parse_container(spec_enc_container(c) + rest) == Option::Some((c, rest)),
{
    assert(spec_enc_container(c) + rest =~= spec_enc_str(c.0) + (spec_enc_results(c.1.results) + (
    spec_enc_aliases(c.1.aliases) + rest)));
    lemma_parse_str(c.0, spec_enc_results(c.1.results) + (spec_enc_aliases(c.1.aliases) + rest));
    lemma_parse_results(c.1.results, spec_enc_aliases(c.1.aliases) + rest);
    lemma_parse_aliases(c.1.aliases, rest);
}


/// The concatenated encodings of keyed containers, in order.
pub open spec fn spec_enc_containers_each(s: Seq<(Seq<char>, ContainerV)>) -> Seq<u8>
    decreases s.len(),
{
    if s.len() == 0 {
        Seq::empty()
    } else {
        spec_enc_container(s[0]) + spec_enc_containers_each(s.drop_first())
    }
}

/// Appending one element appends its encoding.
pub proof fn lemma_enc_containers_snoc(s: Seq<(Seq<char>, ContainerV)>, x: (Seq<char>, ContainerV))
    ensures
        spec_enc_containers_each(s.push(x)) == spec_enc_containers_each(s) + spec_enc_container(x),
    decreases s.len(),
{
    if s.len() == 0 {
        assert(s.push(x)[0] == x);
        assert(s.push(x).drop_first() =~= Seq::<(Seq<char>, ContainerV)>::empty());
        assert(spec_enc_containers_each(Seq::<(Seq<char>, ContainerV)>::empty()) =~= Seq::<u8>::empty());
        assert(spec_enc_containers_each(s.push(x)) =~= spec_enc_containers_each(s) + spec_enc_container(x));
    } else {
        assert(s.push(x)[0] == s[0]);
        assert(s.push(x).drop_first() =~= s.drop_first().push(x));
        lemma_enc_containers_snoc(s.drop_first(), x);
        assert(spec_enc_containers_each(s.push(x)) =~= spec_enc_containers_each(s) + spec_enc_container(x));
    }
}

/// A length-prefixed list of keyed containers.
pub open spec fn spec_enc_containers(s: Seq<(Seq<char>, ContainerV)>) -> Seq<u8> {
    spec_enc_u64(s.len() as u64) + spec_enc_containers_each(s)
}

/// Reads `n` elements off the front.
pub open spec fn spec_parse_containers_n(bytes: Seq<u8>, n: nat) -> Option<(Seq<(Seq<char>, ContainerV)>, Seq<u8>)>
    decreases n,
{
    if n == 0 {
        Option::Some((Seq::empty(), bytes))
    } else {
        match spec_parse_container(bytes) {
            Option::None => Option::None,
            Option::Some((v, rest)) => match spec_parse_containers_n(rest, (n - 1) as nat) {
                Option::None => Option::None,
                Option::Some((vs, rest2)) => Option::Some((seq![v] + vs, rest2)),
            },
        }
    }
}

/// Reads a length-prefixed list off the front.
pub open spec fn spec_parse_containers(bytes: Seq<u8>) -> Option<(Seq<(Seq<char>, ContainerV)>, Seq<u8>)> {
    match spec_parse_u64(bytes) {
        Option::None => Option::None,
        Option::Some((n, rest)) => spec_parse_containers_n(rest, n as nat),
    }
}

/// Parsing the encoded elements gives them back.
#[verifier::rlimit(100)]
pub proof fn lemma_parse_containers_n(s: Seq<(Seq<char>, ContainerV)>, rest: Seq<u8>)
    requires
        forall|j: int| 0 <= j < s.len() ==> fits_container(#[trigger] s[j]),
    ensures
        spec_parse_containers_n(spec_enc_containers_each(s) + rest, s.len()) == Option::Some((s, rest)),
    decreases s.len(),
{
    if s.len() == 0 {
        assert(spec_enc_containers_each(s) + rest =~= rest);
        assert(s =~= Seq::<(Seq<char>, ContainerV)>::empty());
    } else {
        let tail = s.drop_first();
        assert(spec_enc_containers_each(s) == spec_enc_container(s[0]) + spec_enc_containers_each(tail));
        lemma_assoc(spec_enc_container(s[0]), spec_enc_containers_each(tail), rest);
        assert(forall|j: int| 0 <= j < tail.len() ==> #[trigger] tail[j] == s[j + 1]);
        lemma_parse_container(s[0], spec_enc_containers_each(tail) + rest);
        lemma_parse_containers_n(tail, rest);
        assert(seq![s[0]] + tail =~= s);
    }
}

/// Parsing an encoded list gives it back.
pub proof fn lemma_parse_containers(s: Seq<(Seq<char>, ContainerV)>, rest: Seq<u8>)
    requires
        s.len() <= u64::MAX,
        forall|j: int| 0 <= j < s.len() ==> fits_container(#[trigger] s[j]),
    ensures
        spec_parse_containers(spec_enc_containers(s) + rest) == Option::Some((s, rest)),
{
    lemma_assoc(spec_enc_u64(s.len() as u64), spec_enc_containers_each(s), rest);
    lemma_parse_u64(s.len() as u64, spec_enc_containers_each(s) + rest);
    lemma_parse_containers_n(s, rest);
}
/// The byte tag of a title boost.
pub open spec fn spec_boost_tag(b: TitleBoost) -> u8 {
    match b {
        TitleBoost::Minimal => 0,
        TitleBoost::Moderate => 1,
        TitleBoost::Large => 2,
        TitleBoost::Ridiculous => 3,
    }
}

/// The passed-through configuration: url prefix, boost, and the three counts.
pub open spec fn spec_enc_pass(p: PassthroughConfigV) -> Seq<u8> {
    spec_enc_str(p.url_prefix) + seq![spec_boost_tag(p.title_boost)] + spec_enc_u64(
        p.excerpt_buffer as u64,
    ) + spec_enc_u64(p.excerpts_per_result as u64) + spec_enc_u64(p.displayed_results_count as u64)
}

/// The configuration fits the format when its url prefix does.
pub open spec fn fits_pass(p: PassthroughConfigV) -> bool {
    fits_str(p.url_prefix)
}

/// Reads the passed-through configuration off the front.
pub open spec fn spec_parse_pass(bytes: Seq<u8>) -> Option<(PassthroughConfigV, Seq<u8>)> {
    match spec_parse_str(bytes) {
        Option::None => Option::None,
        Option::Some((url_prefix, r1)) => match spec_parse_u8(r1) {
            Option::None => Option::None,
            Option::Some((bt, r2)) => if bt <= 3 {
                let title_boost = if bt == 0 {
                    TitleBoost::Minimal
                } else if bt == 1 {
                    TitleBoost::Moderate
                } else if bt == 2 {
                    TitleBoost::Large
                } else {
                    TitleBoost::Ridiculous
                };
                match spec_parse_u64(r2) {
                    Option::None => Option::None,
                    Option::Some((eb, r3)) => if eb <= usize::MAX as u64 {
                        match spec_parse_u64(r3) {
                            Option::None => Option::None,
                            Option::Some((epr, r4)) => if epr <= usize::MAX as u64 {
                                match spec_parse_u64(r4) {
                                    Option::None => Option::None,
                                    Option::Some((drc, r5)) => if drc <= usize::MAX as u64 {
                                        Option::Some(
                                            (
                                                PassthroughConfigV {
                                                    url_prefix,
                                                    title_boost,
                                                    excerpt_buffer: eb as usize,
                                                    excerpts_per_result: epr as usize,
                                                    displayed_results_count: drc as usize,
                                                },
                                                r5,
                                            ),
                                        )
                                    } else {
                                        Option::None
                                    },
                                }
                            } else {
                                Option::None
                            },
                        }
                    } else {
                        Option::None
                    },
                }
            } else {
                Option::None
            },
        },
    }
}

/// Parsing the encoded configuration gives it back.
pub proof fn lemma_parse_pass(p: PassthroughConfigV, rest: Seq<u8>)
    requires
        fits_pass(p),
    ensures
        spec_parse_pass(spec_enc_pass(p) + rest) == Option::Some((p, rest)),
{
    let bt = seq![spec_boost_tag(p.title_boost)];
    assert(spec_enc_pass(p) + rest =~= spec_enc_str(p.url_prefix) + (bt + (spec_enc_u64(
        p.excerpt_buffer as u64,
    ) + (spec_enc_u64(p.excerpts_per_result as u64) + (spec_enc_u64(
        p.displayed_results_count as u64,
    ) + rest)))));
    lemma_parse_str(p.url_prefix, bt + (spec_enc_u64(p.excerpt_buffer as u64) + (spec_enc_u64(
        p.excerpts_per_result as u64,
    ) + (spec_enc_u64(p.displayed_results_count as u64) + rest))));
    lemma_parse_u8(spec_boost_tag(p.title_boost), spec_enc_u64(p.excerpt_buffer as u64) + (
    spec_enc_u64(p.excerpts_per_result as u64) + (spec_enc_u64(p.displayed_results_count as u64)
        + rest)));
    lemma_parse_u64(p.excerpt_buffer as u64, spec_enc_u64(p.excerpts_per_result as u64) + (
    spec_enc_u64(p.displayed_results_count as u64) + rest));
    lemma_parse_u64(p.excerpts_per_result as u64, spec_enc_u64(p.displayed_results_count as u64)
        + rest);
    lemma_parse_u64(p.displayed_results_count as u64, rest);
}

/// The version-specific payload: configuration, entries, containers.
pub open spec fn spec_enc_payload(iv: IndexV) -> Seq<u8> {
    spec_enc_pass(iv.config) + spec_enc_entries(iv.entries) + spec_enc_containers(iv.containers)
}

/// The whole index fits the binary format: every count has a 64-bit form and
/// the payload length a 32-bit one.
pub open spec fn fits_index(iv: IndexV) -> bool {
    fits_pass(iv.config) && iv.entries.len() <= u64::MAX && iv.containers.len() <= u64::MAX && (
    forall|j: int| 0 <= j < iv.entries.len() ==> fits_entry(#[trigger] iv.entries[j])) && (forall|
        j: int,
    | 0 <= j < iv.containers.len() ==> fits_container(#[trigger] iv.containers[j]))
        && spec_enc_payload(iv).len() <= u32::MAX
}

/// Reads the payload: the rest must be consumed exactly.
pub open spec fn spec_parse_payload(bytes: Seq<u8>) -> Option<IndexV> {
    match spec_parse_pass(bytes) {
        Option::None => Option::None,
        Option::Some((config, r1)) => match spec_parse_entries(r1) {
            Option::None => Option::None,
            Option::Some((entries, r2)) => match spec_parse_containers(r2) {
                Option::None => Option::None,
                Option::Some((containers, r3)) => if r3.len() == 0 {
                    Option::Some(IndexV { entries, containers, config })
                } else {
                    Option::None
                },
            },
        },
    }
}

/// The version tag of this format, as bytes: the ASCII text `stork-3`.
pub open spec fn spec_tag() -> Seq<u8> {
    seq![115u8, 116u8, 111u8, 114u8, 107u8, 45u8, 51u8]
}

/// The envelope: a 32-bit length and the version tag, a 32-bit length and the
/// payload; bytes after the payload are ignored.
pub open spec fn spec_enc_index(iv: IndexV) -> Seq<u8> {
    spec_enc_u32(7) + spec_tag() + spec_enc_u32(spec_enc_payload(iv).len() as u32)
        + spec_enc_payload(iv)
}

/// Splits a byte blob into its version tag and its payload.
pub open spec fn spec_parse_envelope(bytes: Seq<u8>) -> Option<(Seq<u8>, Seq<u8>)> {
    match spec_parse_u32(bytes) {
        Option::None => Option::None,
        Option::Some((l1, r1)) => if r1.len() < l1 {
            Option::None
        } else {
            let tag = r1.take(l1 as int);
            let r2 = r1.skip(l1 as int);
            match spec_parse_u32(r2) {
                Option::None => Option::None,
                Option::Some((l2, r3)) => if r3.len() < l2 {
                    Option::None
                } else {
                    Option::Some((tag, r3.take(l2 as int)))
                },
            }
        },
    }
}

/// What a byte blob decodes to: the payload of an envelope carrying the known
/// version tag, parsed exactly.
pub open spec fn spec_decode_index(bytes: Seq<u8>) -> Option<IndexV> {
    match spec_parse_envelope(bytes) {
        Option::None => Option::None,
        Option::Some((tag, payload)) => if tag == spec_tag() {
            spec_parse_payload(payload)
        } else {
            Option::None
        },
    }
}

/// Decoding an encoded index gives the index back, byte for byte: the
/// round-trip law of the codec, for every index that fits the format.
#[verifier::rlimit(80)]
pub proof fn lemma_round_trip(iv: IndexV)
    requires
        fits_index(iv),
    ensures
        spec_decode_index(spec_enc_index(iv)) == Option::Some(iv),
{
    let payload = spec_enc_payload(iv);
    let lenc = spec_enc_u32(payload.len() as u32);
    let whole = spec_enc_index(iv);
    lemma_assoc(spec_enc_u32(7) + spec_tag(), lenc, payload);
    lemma_assoc(spec_enc_u32(7), spec_tag(), lenc + payload);
    assert(whole == spec_enc_u32(7) + (spec_tag() + (lenc + payload)));
    lemma_parse_u32(7, spec_tag() + (lenc + payload));
    let r1 = spec_tag() + (lenc + payload);
    assert(r1.len() >= 7);
    assert(r1.take(7) =~= spec_tag());
    assert(r1.skip(7) =~= lenc + payload);
    lemma_parse_u32(payload.len() as u32, payload);
    assert(payload.len() == payload.len() as u32);
    assert(payload.take(payload.len() as int) =~= payload);
    assert(spec_parse_envelope(whole) == Option::Some((spec_tag(), payload)));
    let encc = spec_enc_containers(iv.containers);
    let ence = spec_enc_entries(iv.entries);
    lemma_add_empty(encc);
    lemma_assoc(spec_enc_pass(iv.config), ence, encc + Seq::<u8>::empty());
    assert(payload == spec_enc_pass(iv.config) + (ence + (encc + Seq::<u8>::empty())));
    lemma_parse_pass(iv.config, ence + (encc + Seq::<u8>::empty()));
    lemma_parse_entries(iv.entries, encc + Seq::<u8>::empty());
    lemma_parse_containers(iv.containers, Seq::<u8>::empty());
    assert(spec_parse_payload(payload) == Option::Some(
        IndexV { entries: iv.entries, containers: iv.containers, config: iv.config },
    ));
    assert(IndexV { entries: iv.entries, containers: iv.containers, config: iv.config } == iv);
}

/// Appends one byte.
fn put_u8(out: &mut Vec<u8>, x: u8)
    ensures
        final(out)@ == old(out)@ + seq![x],
{
    out.push(x);
    proof {
        assert(out@ =~= old(out)@ + seq![x]);
    }
}

/// Appends the big-endian four bytes of a 32-bit value.
fn put_u32(out: &mut Vec<u8>, x: u32)
    ensures
        final(out)@ == old(out)@ + spec_enc_u32(x),
{
    out.push(#[verifier::truncate] ((x >> 24) as u8));
    out.push(#[verifier::truncate] ((x >> 16) as u8));
    out.push(#[verifier::truncate] ((x >> 8) as u8));
    out.push(#[verifier::truncate] (x as u8));
    proof {
        assert(out@ =~= old(out)@ + spec_enc_u32(x));
    }
}

/// Appends the big-endian eight bytes of a 64-bit value.
fn put_u64(out: &mut Vec<u8>, x: u64)
    ensures
        final(out)@ == old(out)@ + spec_enc_u64(x),
{
    out.push(#[verifier::truncate] ((x >> 56) as u8));
    out.push(#[verifier::truncate] ((x >> 48) as u8));
    out.push(#[verifier::truncate] ((x >> 40) as u8));
    out.push(#[verifier::truncate] ((x >> 32) as u8));
    out.push(#[verifier::truncate] ((x >> 24) as u8));
    out.push(#[verifier::truncate] ((x >> 16) as u8));
    out.push(#[verifier::truncate] ((x >> 8) as u8));
    out.push(#[verifier::truncate] (x as u8));
    proof {
        assert(out@ =~= old(out)@ + spec_enc_u64(x));
    }
}

/// Appends a text: its character count, then each code point.
fn put_str(out: &mut Vec<u8>, s: &String)
    ensures
        final(out)@ == old(out)@ + spec_enc_str(s@),
{
    let cs = crate::tokens::chars_of(s.as_str());
    put_u64(out, cs.len() as u64);
    let ghost base = out@;
    let mut i: usize = 0;
    proof {
        assert(spec_enc_str_each(cs@.take(0)) =~= Seq::<u8>::empty());
        assert(out@ =~= base + spec_enc_str_each(cs@.take(0)));
    }
    while i < cs.len()
        invariant
            cs@ == s@,
            i <= cs@.len(),
            out@ == base + spec_enc_str_each(cs@.take(i as int)),
            base.len() <= out@.len(),
        decreases cs@.len() - i,
    {
        put_u32(out, cs[i] as u32);
        proof {
            lemma_enc_str_snoc(cs@.take(i as int), cs@[i as int]);
            assert(cs@.take(i as int).push(cs@[i as int]) =~= cs@.take(i + 1));
            lemma_assoc(spec_enc_str_each(cs@.take(i as int)), spec_enc_char(cs@[i as int]), Seq::empty());
            assert(out@ =~= base + spec_enc_str_each(cs@.take(i + 1)));
        }
        i = i + 1;
    }
    proof {
        assert(cs@.take(cs@.len() as int) =~= cs@);
        lemma_assoc(old(out)@, spec_enc_u64(s@.len() as u64), spec_enc_str_each(s@));
        assert(out@ =~= old(out)@ + spec_enc_str(s@));
    }
}

/// Appends one field pair.
fn put_field(out: &mut Vec<u8>, f: &(String, String))
    ensures
        final(out)@ == old(out)@ + spec_enc_field((f.0@, f.1@)),
{
    put_str(out, &f.0);
    put_str(out, &f.1);
    proof {
        lemma_assoc(old(out)@, spec_enc_str(f.0@), spec_enc_str(f.1@));
    }
}

/// Appends one excerpt.
fn put_excerpt(out: &mut Vec<u8>, e: &Excerpt)
    ensures
        final(out)@ == old(out)@ + spec_enc_excerpt(*e),
{
    let ghost b0 = out@;
    put_u64(out, e.word_index as u64);
    put_u64(out, e.offset as u64);
    put_u32(out, e.importance);
    put_u8(
        out,
        if e.in_title {
            1
        } else {
            0
        },
    );
    proof {
        assert(out@ =~= b0 + spec_enc_excerpt(*e));
    }
}

/// Appends one alias.
fn put_alias(out: &mut Vec<u8>, a: &(String, u32))
    ensures
        final(out)@ == old(out)@ + spec_enc_alias((a.0@, a.1)),
{
    let ghost b0 = out@;
    put_str(out, &a.0);
    put_u32(out, a.1);
    proof {
        lemma_assoc(b0, spec_enc_str(a.0@), spec_enc_u32(a.1));
    }
}

/// Appends a list of field pairs: the count, then each element.
fn put_fields(out: &mut Vec<u8>, v: &Vec<(String, String)>)
    ensures
        final(out)@ == old(out)@ + spec_enc_fields(fields_view(v@)),
{
    put_u64(out, v.len() as u64);
    let ghost vv = fields_view(v@);
    let ghost base = out@;
    let mut i: usize = 0;
    proof {
        assert(spec_enc_fields_each(vv.take(0)) =~= Seq::<u8>::empty());
        assert(out@ =~= base + spec_enc_fields_each(vv.take(0)));
    }
    while i < v.len()
        invariant
            vv == fields_view(v@),
            vv.len() == v@.len(),
            i <= v@.len(),
            out@ == base + spec_enc_fields_each(vv.take(i as int)),
        decreases v@.len() - i,
    {
        proof {
            assert(vv[i as int] == (v@[i as int].0@, v@[i as int].1@));
        }
        put_field(out, &v[i]);
        proof {
            lemma_enc_fields_snoc(vv.take(i as int), vv[i as int]);
            assert(vv.take(i as int).push(vv[i as int]) =~= vv.take(i + 1));
            lemma_assoc(spec_enc_fields_each(vv.take(i as int)), spec_enc_field(vv[i as int]), Seq::empty());
            assert(out@ =~= base + spec_enc_fields_each(vv.take(i + 1)));
        }
        i = i + 1;
    }
    proof {
        assert(vv.take(vv.len() as int) =~= vv);
        lemma_assoc(old(out)@, spec_enc_u64(vv.len() as u64), spec_enc_fields_each(vv));
        assert(out@ =~= old(out)@ + spec_enc_fields(vv));
    }
}

/// Appends a list of excerpts: the count, then each element.
fn put_excerpts(out: &mut Vec<u8>, v: &Vec<Excerpt>)
    ensures
        final(out)@ == old(out)@ + spec_enc_excerpts(v@),
{
    put_u64(out, v.len() as u64);
    let ghost vv = v@;
    let ghost base = out@;
    let mut i: usize = 0;
    proof {
        assert(spec_enc_excerpts_each(vv.take(0)) =~= Seq::<u8>::empty());
        assert(out@ =~= base + spec_enc_excerpts_each(vv.take(0)));
    }
    while i < v.len()
        invariant
            vv == v@,
            vv.len() == v@.len(),
            i <= v@.len(),
            out@ == base + spec_enc_excerpts_each(vv.take(i as int)),
        decreases v@.len() - i,
    {
        proof {
            assert(vv[i as int] == v@[i as int]);
        }
        put_excerpt(out, &v[i]);
        proof {
            lemma_enc_excerpts_snoc(vv.take(i as int), vv[i as int]);
            assert(vv.take(i as int).push(vv[i as int]) =~= vv.take(i + 1));
            lemma_assoc(spec_enc_excerpts_each(vv.take(i as int)), spec_enc_excerpt(vv[i as int]), Seq::empty());
            assert(out@ =~= base + spec_enc_excerpts_each(vv.take(i + 1)));
        }
        i = i + 1;
    }
    proof {
        assert(vv.take(vv.len() as int) =~= vv);
        lemma_assoc(old(out)@, spec_enc_u64(vv.len() as u64), spec_enc_excerpts_each(vv));
        assert(out@ =~= old(out)@ + spec_enc_excerpts(vv));
    }
}

/// Appends a list of aliases: the count, then each element.
fn put_aliases(out: &mut Vec<u8>, v: &Vec<(String, u32)>)
    ensures
        final(out)@ == old(out)@ + spec_enc_aliases(aliases_view(v@)),
{
    put_u64(out, v.len() as u64);
    let ghost vv = aliases_view(v@);
    let ghost base = out@;
    let mut i: usize = 0;
    proof {
        assert(spec_enc_aliases_each(vv.take(0)) =~= Seq::<u8>::empty());
        assert(out@ =~= base + spec_enc_aliases_each(vv.take(0)));
    }
    while i < v.len()
        invariant
            vv == aliases_view(v@),
            vv.len() == v@.len(),
            i <= v@.len(),
            out@ == base + spec_enc_aliases_each(vv.take(i as int)),
        decreases v@.len() - i,
    {
        proof {
            assert(vv[i as int] == (v@[i as int].0@, v@[i as int].1));
        }
        put_alias(out, &v[i]);
        proof {
            lemma_enc_aliases_snoc(vv.take(i as int), vv[i as int]);
            assert(vv.take(i as int).push(vv[i as int]) =~= vv.take(i + 1));
            lemma_assoc(spec_enc_aliases_each(vv.take(i as int)), spec_enc_alias(vv[i as int]), Seq::empty());
            assert(out@ =~= base + spec_enc_aliases_each(vv.take(i + 1)));
        }
        i = i + 1;
    }
    proof {
        assert(vv.take(vv.len() as int) =~= vv);
        lemma_assoc(old(out)@, spec_enc_u64(vv.len() as u64), spec_enc_aliases_each(vv));
        assert(out@ =~= old(out)@ + spec_enc_aliases(vv));
    }
}

/// Appends one per-entry result.
fn put_result(out: &mut Vec<u8>, r: &(usize, SearchResult))
    ensures
        final(out)@ == old(out)@ + spec_enc_result((r.0, r.1@)),
{
    let ghost b0 = out@;
    put_u64(out, r.0 as u64);
    put_u8(out, r.1.score);
    put_excerpts(out, &r.1.excerpts);
    proof {
        lemma_assoc(spec_enc_u64(r.0 as u64), seq![r.1.score], spec_enc_excerpts(r.1.excerpts@));
        lemma_assoc(
            b0,
            spec_enc_u64(r.0 as u64),
            seq![r.1.score] + spec_enc_excerpts(r.1.excerpts@),
        );
        lemma_assoc(b0 + spec_enc_u64(r.0 as u64), seq![r.1.score], spec_enc_excerpts(r.1.excerpts@));
        assert(out@ =~= b0 + spec_enc_result((r.0, r.1@)));
    }
}


/// Appends a list of per-entry results: the count, then each element.
fn put_results(out: &mut Vec<u8>, v: &Vec<(usize, SearchResult)>)
    ensures
        final(out)@ == old(out)@ + spec_enc_results(results_view(v@)),
{
    put_u64(out, v.len() as u64);
    let ghost vv = results_view(v@);
    let ghost base = out@;
    let mut i: usize = 0;
    proof {
        assert(spec_enc_results_each(vv.take(0)) =~= Seq::<u8>::empty());
        assert(out@ =~= base + spec_enc_results_each(vv.take(0)));
    }
    while i < v.len()
        invariant
            vv == results_view(v@),
            vv.len() == v@.len(),
            i <= v@.len(),
            out@ == base + spec_enc_results_each(vv.take(i as int)),
        decreases v@.len() - i,
    {
        proof {
            assert(vv[i as int] == (v@[i as int].0, v@[i as int].1@));
        }
        put_result(out, &v[i]);
        proof {
            lemma_enc_results_snoc(vv.take(i as int), vv[i as int]);
            assert(vv.take(i as int).push(vv[i as int]) =~= vv.take(i + 1));
            lemma_assoc(spec_enc_results_each(vv.take(i as int)), spec_enc_result(vv[i as int]), Seq::empty());
            assert(out@ =~= base + spec_enc_results_each(vv.take(i + 1)));
        }
        i = i + 1;
    }
    proof {
        assert(vv.take(vv.len() as int) =~= vv);
        lemma_assoc(old(out)@, spec_enc_u64(vv.len() as u64), spec_enc_results_each(vv));
        assert(out@ =~= old(out)@ + spec_enc_results(vv));
    }
}
/// Appends one entry.
fn put_entry(out: &mut Vec<u8>, e: &Entry)
    ensures
        final(out)@ == old(out)@ + spec_enc_entry(e@),
{
    let ghost b0 = out@;
    put_str(out, &e.title);
    put_str(out, &e.url);
    put_str(out, &e.contents);
    put_fields(out, &e.fields);
    proof {
        assert(out@ =~= b0 + spec_enc_entry(e@));
    }
}


/// Appends a list of entries: the count, then each element.
fn put_entries(out: &mut Vec<u8>, v: &Vec<Entry>)
    ensures
        final(out)@ == old(out)@ + spec_enc_entries(entries_view(v@)),
{
    put_u64(out, v.len() as u64);
    let ghost vv = entries_view(v@);
    let ghost base = out@;
    let mut i: usize = 0;
    proof {
        assert(spec_enc_entries_each(vv.take(0)) =~= Seq::<u8>::empty());
        assert(out@ =~= base + spec_enc_entries_each(vv.take(0)));
    }
    while i < v.len()
        invariant
            vv == entries_view(v@),
            vv.len() == v@.len(),
            i <= v@.len(),
            out@ == base + spec_enc_entries_each(vv.take(i as int)),
        decreases v@.len() - i,
    {
        proof {
            assert(vv[i as int] == v@[i as int]@);
        }
        put_entry(out, &v[i]);
        proof {
            lemma_enc_entries_snoc(vv.take(i as int), vv[i as int]);
            assert(vv.take(i as int).push(vv[i as int]) =~= vv.take(i + 1));
            lemma_assoc(spec_enc_entries_each(vv.take(i as int)), spec_enc_entry(vv[i as int]), Seq::empty());
            assert(out@ =~= base + spec_enc_entries_each(vv.take(i + 1)));
        }
        i = i + 1;
    }
    proof {
        assert(vv.take(vv.len() as int) =~= vv);
        lemma_assoc(old(out)@, spec_enc_u64(vv.len() as u64), spec_enc_entries_each(vv));
        assert(out@ =~= old(out)@ + spec_enc_entries(vv));
    }
}
/// Appends one keyed container.
fn put_container(out: &mut Vec<u8>, c: &(String, Container))
    ensures
        final(out)@ == old(out)@ + spec_enc_container((c.0@, c.1@)),
{
    let ghost b0 = out@;
    put_str(out, &c.0);
    put_results(out, &c.1.results);
    put_aliases(out, &c.1.aliases);
    proof {
        assert(out@ =~= b0 + spec_enc_container((c.0@, c.1@)));
    }
}


/// Appends a list of keyed containers: the count, then each element.
fn put_containers(out: &mut Vec<u8>, v: &Vec<(String, Container)>)
    ensures
        final(out)@ == old(out)@ + spec_enc_containers(containers_view(v@)),
{
    put_u64(out, v.len() as u64);
    let ghost vv = containers_view(v@);
    let ghost base = out@;
    let mut i: usize = 0;
    proof {
        assert(spec_enc_containers_each(vv.take(0)) =~= Seq::<u8>::empty());
        assert(out@ =~= base + spec_enc_containers_each(vv.take(0)));
    }
    while i < v.len()
        invariant
            vv == containers_view(v@),
            vv.len() == v@.len(),
            i <= v@.len(),
            out@ == base + spec_enc_containers_each(vv.take(i as int)),
        decreases v@.len() - i,
    {
        proof {
            assert(vv[i as int] == (v@[i as int].0@, v@[i as int].1@));
        }
        put_container(out, &v[i]);
        proof {
            lemma_enc_containers_snoc(vv.take(i as int), vv[i as int]);
            assert(vv.take(i as int).push(vv[i as int]) =~= vv.take(i + 1));
            lemma_assoc(spec_enc_containers_each(vv.take(i as int)), spec_enc_container(vv[i as int]), Seq::empty());
            assert(out@ =~= base + spec_enc_containers_each(vv.take(i + 1)));
        }
        i = i + 1;
    }
    proof {
        assert(vv.take(vv.len() as int) =~= vv);
        lemma_assoc(old(out)@, spec_enc_u64(vv.len() as u64), spec_enc_containers_each(vv));
        assert(out@ =~= old(out)@ + spec_enc_containers(vv));
    }
}
/// Appends the passed-through configuration.
fn put_pass(out: &mut Vec<u8>, p: &PassthroughConfig)
    ensures
        final(out)@ == old(out)@ + spec_enc_pass(p@),
{
    let ghost b0 = out@;
    put_str(out, &p.url_prefix);
    put_u8(
        out,
        match p.title_boost {
            TitleBoost::Minimal => 0,
            TitleBoost::Moderate => 1,
            TitleBoost::Large => 2,
            TitleBoost::Ridiculous => 3,
        },
    );
    put_u64(out, p.excerpt_buffer as u64);
    put_u64(out, p.excerpts_per_result as u64);
    put_u64(out, p.displayed_results_count as u64);
    proof {
        assert(out@ =~= b0 + spec_enc_pass(p@));
    }
}

impl Index {
    /// The number of indexed entries.
    pub fn entries_len(&self) -> (r: usize)
        ensures
            r == self@.entries.len(),
    {
        self.entries.len()
    }

    /// Serializes the index into the versioned envelope. It fails exactly
    /// when the payload is too long for its 32-bit length field.
    pub fn to_bytes(&self) -> (r: Option<Vec<u8>>)
        ensures
            (r is Some) == (spec_enc_payload(self@).len() <= u32::MAX),
            r is Some ==> r->0@ == spec_enc_index(self@),
    {
        let mut payload: Vec<u8> = Vec::new();
        put_pass(&mut payload, &self.config);
        put_entries(&mut payload, &self.entries);
        put_containers(&mut payload, &self.containers);
        proof {
            assert(Seq::<u8>::empty() + spec_enc_pass(self.config@) =~= spec_enc_pass(
                self.config@,
            ));
            assert(payload@ =~= spec_enc_payload(self@));
        }
        if payload.len() > (u32::MAX as usize) {
            return Option::None;
        }
        let mut out: Vec<u8> = Vec::new();
        put_u32(&mut out, 7);
        out.push(115);
        out.push(116);
        out.push(111);
        out.push(114);
        out.push(107);
        out.push(45);
        out.push(51);
        proof {
            assert(out@ =~= spec_enc_u32(7) + spec_tag());
        }
        put_u32(&mut out, payload.len() as u32);
        let ghost before = out@;
        let mut pl = payload;
        out.append(&mut pl);
        proof {
            assert(out@ =~= spec_enc_index(self@));
        }
        Option::Some(out)
    }
}

/// Reads one byte.
fn get_u8(bytes: &Vec<u8>, pos: usize) -> (r: Option<(u8, usize)>)
    requires
        pos <= bytes@.len(),
    ensures
        match r {
            Option::Some((v, p2)) => pos <= p2 <= bytes@.len() && spec_parse_u8(
                bytes@.skip(pos as int),
            ) == Option::Some((v, bytes@.skip(p2 as int))),
            Option::None => spec_parse_u8(bytes@.skip(pos as int)) is None,
        },
{
    if pos < bytes.len() {
        proof {
            assert(bytes@.skip(pos as int)[0] == bytes@[pos as int]);
            assert(bytes@.skip(pos as int).skip(1) =~= bytes@.skip(pos as int + 1));
        }
        Option::Some((bytes[pos], pos + 1))
    } else {
        Option::None
    }
}

/// Reads four big-endian bytes.
fn get_u32(bytes: &Vec<u8>, pos: usize) -> (r: Option<(u32, usize)>)
    requires
        pos <= bytes@.len(),
    ensures
        match r {
            Option::Some((v, p2)) => pos <= p2 <= bytes@.len() && spec_parse_u32(
                bytes@.skip(pos as int),
            ) == Option::Some((v, bytes@.skip(p2 as int))),
            Option::None => spec_parse_u32(bytes@.skip(pos as int)) is None,
        },
{
    if bytes.len() - pos >= 4 {
        let v = ((bytes[pos] as u32) << 24) | ((bytes[pos + 1] as u32) << 16) | ((bytes[pos
            + 2] as u32) << 8) | (bytes[pos + 3] as u32);
        proof {
            let sk = bytes@.skip(pos as int);
            assert(sk[0] == bytes@[pos as int]);
            assert(sk[1] == bytes@[pos as int + 1]);
            assert(sk[2] == bytes@[pos as int + 2]);
            assert(sk[3] == bytes@[pos as int + 3]);
            assert(sk.skip(4) =~= bytes@.skip(pos as int + 4));
        }
        Option::Some((v, pos + 4))
    } else {
        Option::None
    }
}

/// Reads eight big-endian bytes.
fn get_u64(bytes: &Vec<u8>, pos: usize) -> (r: Option<(u64, usize)>)
    requires
        pos <= bytes@.len(),
    ensures
        match r {
            Option::Some((v, p2)) => pos <= p2 <= bytes@.len() && spec_parse_u64(
                bytes@.skip(pos as int),
            ) == Option::Some((v, bytes@.skip(p2 as int))),
            Option::None => spec_parse_u64(bytes@.skip(pos as int)) is None,
        },
{
    if bytes.len() - pos >= 8 {
        let v = ((bytes[pos] as u64) << 56) | ((bytes[pos + 1] as u64) << 48) | ((bytes[pos
            + 2] as u64) << 40) | ((bytes[pos + 3] as u64) << 32) | ((bytes[pos + 4] as u64)
            << 24) | ((bytes[pos + 5] as u64) << 16) | ((bytes[pos + 6] as u64) << 8) | (bytes[pos
            + 7] as u64);
        proof {
            let sk = bytes@.skip(pos as int);
            assert(sk[0] == bytes@[pos as int]);
            assert(sk[1] == bytes@[pos as int + 1]);
            assert(sk[2] == bytes@[pos as int + 2]);
            assert(sk[3] == bytes@[pos as int + 3]);
            assert(sk[4] == bytes@[pos as int + 4]);
            assert(sk[5] == bytes@[pos as int + 5]);
            assert(sk[6] == bytes@[pos as int + 6]);
            assert(sk[7] == bytes@[pos as int + 7]);
            assert(sk.skip(8) =~= bytes@.skip(pos as int + 8));
        }
        Option::Some((v, pos + 8))
    } else {
        Option::None
    }
}

/// Reads one character.
fn get_char(bytes: &Vec<u8>, pos: usize) -> (r: Option<(char, usize)>)
    requires
        pos <= bytes@.len(),
    ensures
        match r {
            Option::Some((v, p2)) => pos <= p2 <= bytes@.len() && spec_parse_char(
                bytes@.skip(pos as int),
            ) == Option::Some((v, bytes@.skip(p2 as int))),
            Option::None => spec_parse_char(bytes@.skip(pos as int)) is None,
        },
{
    match get_u32(bytes, pos) {
        Option::None => Option::None,
        Option::Some((u, p2)) => match char_from_u32(u) {
            Option::Some(c) => {
                proof {
                    assert(c as u32 == u);
                    assert(char_code(c) == u);
                    assert(exists|d: char| #[trigger] char_code(d) == u);
                    let w = choose|d: char| #[trigger] char_code(d) == u;
                    assert(char_code(w) == u);
                    assert(w as u32 == u);
                    char_u32_cast(c, u);
                    char_u32_cast(w, u);
                    assert(w == c);
                }
                Option::Some((c, p2))
            },
            Option::None => {
                proof {
                    assert(!exists|d: char| #[trigger] char_code(d) == u) by {
                        if exists|d: char| #[trigger] char_code(d) == u {
                            let d = choose|d: char| #[trigger] char_code(d) == u;
                            assert(char_code(d) == u);
                            assert(d as u32 == u);
                            assert(false);
                        }
                    }
                }
                Option::None
            },
        },
    }
}

/// Reads a list of characters.
fn get_str(bytes: &Vec<u8>, pos: usize) -> (r: Option<(Vec<char>, usize)>)
    requires
        pos <= bytes@.len(),
    ensures
        match r {
            Option::Some((v, p2)) => pos <= p2 <= bytes@.len() && spec_parse_str(
                bytes@.skip(pos as int),
            ) == Option::Some((v@, bytes@.skip(p2 as int))),
            Option::None => spec_parse_str(bytes@.skip(pos as int)) is None,
        },
{
    match get_u64(bytes, pos) {
        Option::None => Option::None,
        Option::Some((n, p1)) => {
            let mut out: Vec<char> = Vec::new();
            let mut cur: usize = p1;
            let mut i: u64 = 0;
            proof {
                assert(out@ =~= Seq::empty());
            }
            while i < n
                invariant
                    i <= n,
                    pos <= p1 <= cur <= bytes@.len(),
                    spec_parse_u64(bytes@.skip(pos as int)) == Option::Some(
                        (n, bytes@.skip(p1 as int)),
                    ),
                    match spec_parse_str_n(bytes@.skip(cur as int), (n - i) as nat) {
                        Option::None => spec_parse_str_n(bytes@.skip(p1 as int), n as nat)
                            is None,
                        Option::Some((vs, rest)) => spec_parse_str_n(
                            bytes@.skip(p1 as int),
                            n as nat,
                        ) == Option::Some((out@ + vs, rest)),
                    },
                decreases n - i,
            {
                match get_char(bytes, cur) {
                    Option::None => {
                        return Option::None;
                    },
                    Option::Some((x, p2)) => {
                        let ghost prevv = out@;
                        out.push(x);
                        proof {
                            assert(out@ =~= prevv.push(x));
                            assert forall|vs: Seq<_>| true implies prevv + (seq![x] + vs)
                                =~= out@ + vs by {}
                        }
                        cur = p2;
                        i = i + 1;
                    },
                }
            }
            proof {
                assert(out@ + Seq::empty() =~= out@);
            }
            Option::Some((out, cur))
        },
    }
}

/// Reads a text into a string.
fn get_string(bytes: &Vec<u8>, pos: usize) -> (r: Option<(String, usize)>)
    requires
        pos <= bytes@.len(),
    ensures
        match r {
            Option::Some((v, p2)) => pos <= p2 <= bytes@.len() && spec_parse_str(
                bytes@.skip(pos as int),
            ) == Option::Some((v@, bytes@.skip(p2 as int))),
            Option::None => spec_parse_str(bytes@.skip(pos as int)) is None,
        },
{
    match get_str(bytes, pos) {
        Option::None => Option::None,
        Option::Some((cs, p2)) => Option::Some((crate::tokens::string_of(&cs), p2)),
    }
}

/// Reads one field pair.
fn get_field(bytes: &Vec<u8>, pos: usize) -> (r: Option<((String, String), usize)>)
    requires
        pos <= bytes@.len(),
    ensures
        match r {
            Option::Some((v, p2)) => pos <= p2 <= bytes@.len() && spec_parse_field(
                bytes@.skip(pos as int),
            ) == Option::Some(((v.0@, v.1@), bytes@.skip(p2 as int))),
            Option::None => spec_parse_field(bytes@.skip(pos as int)) is None,
        },
{
    match get_string(bytes, pos) {
        Option::None => Option::None,
        Option::Some((a, p1)) => match get_string(bytes, p1) {
            Option::None => Option::None,
            Option::Some((b, p2)) => Option::Some(((a, b), p2)),
        },
    }
}

/// Reads one excerpt.
fn get_excerpt(bytes: &Vec<u8>, pos: usize) -> (r: Option<(Excerpt, usize)>)
    requires
        pos <= bytes@.len(),
    ensures
        match r {
            Option::Some((v, p2)) => pos <= p2 <= bytes@.len() && spec_parse_excerpt(
                bytes@.skip(pos as int),
            ) == Option::Some((v, bytes@.skip(p2 as int))),
            Option::None => spec_parse_excerpt(bytes@.skip(pos as int)) is None,
        },
{
    match get_u64(bytes, pos) {
        Option::None => Option::None,
        Option::Some((wi, p1)) => {
            if wi > usize::MAX as u64 {
                return Option::None;
            }
            match get_u64(bytes, p1) {
                Option::None => Option::None,
                Option::Some((off, p2)) => {
                    if off > usize::MAX as u64 {
                        return Option::None;
                    }
                    match get_u32(bytes, p2) {
                        Option::None => Option::None,
                        Option::Some((imp, p3)) => match get_u8(bytes, p3) {
                            Option::None => Option::None,
                            Option::Some((f, p4)) => {
                                if f == 0 || f == 1 {
                                    Option::Some(
                                        (
                                            Excerpt {
                                                word_index: wi as usize,
                                                offset: off as usize,
                                                importance: imp,
                                                in_title: f == 1,
                                            },
                                            p4,
                                        ),
                                    )
                                } else {
                                    Option::None
                                }
                            },
                        },
                    }
                },
            }
        },
    }
}

/// Reads one alias.
fn get_alias(bytes: &Vec<u8>, pos: usize) -> (r: Option<((String, u32), usize)>)
    requires
        pos <= bytes@.len(),
    ensures
        match r {
            Option::Some((v, p2)) => pos <= p2 <= bytes@.len() && spec_parse_alias(
                bytes@.skip(pos as int),
            ) == Option::Some(((v.0@, v.1), bytes@.skip(p2 as int))),
            Option::None => spec_parse_alias(bytes@.skip(pos as int)) is None,
        },
{
    match get_string(bytes, pos) {
        Option::None => Option::None,
        Option::Some((t, p1)) => match get_u32(bytes, p1) {
            Option::None => Option::None,
            Option::Some((sim, p2)) => Option::Some(((t, sim), p2)),
        },
    }
}

/// Reads a list of field pairs.
fn get_fields(bytes: &Vec<u8>, pos: usize) -> (r: Option<(Vec<(String, String)>, usize)>)
    requires
        pos <= bytes@.len(),
    ensures
        match r {
            Option::Some((v, p2)) => pos <= p2 <= bytes@.len() && spec_parse_fields(
                bytes@.skip(pos as int),
            ) == Option::Some((fields_view(v@), bytes@.skip(p2 as int))),
            Option::None => spec_parse_fields(bytes@.skip(pos as int)) is None,
        },
{
    match get_u64(bytes, pos) {
        Option::None => Option::None,
        Option::Some((n, p1)) => {
            let mut out: Vec<(String, String)> = Vec::new();
            let mut cur: usize = p1;
            let mut i: u64 = 0;
            proof {
                assert(fields_view(out@) =~= Seq::empty());
            }
            while i < n
                invariant
                    i <= n,
                    pos <= p1 <= cur <= bytes@.len(),
                    spec_parse_u64(bytes@.skip(pos as int)) == Option::Some(
                        (n, bytes@.skip(p1 as int)),
                    ),
                    match spec_parse_fields_n(bytes@.skip(cur as int), (n - i) as nat) {
                        Option::None => spec_parse_fields_n(bytes@.skip(p1 as int), n as nat)
                            is None,
                        Option::Some((vs, rest)) => spec_parse_fields_n(
                            bytes@.skip(p1 as int),
                            n as nat,
                        ) == Option::Some((fields_view(out@) + vs, rest)),
                    },
                decreases n - i,
            {
                match get_field(bytes, cur) {
                    Option::None => {
                        return Option::None;
                    },
                    Option::Some((x, p2)) => {
                        let ghost prevv = fields_view(out@);
                        out.push(x);
                        proof {
                            assert(fields_view(out@) =~= prevv.push((x.0@, x.1@)));
                            assert forall|vs: Seq<_>| true implies prevv + (seq![(x.0@, x.1@)] + vs)
                                =~= fields_view(out@) + vs by {}
                        }
                        cur = p2;
                        i = i + 1;
                    },
                }
            }
            proof {
                assert(fields_view(out@) + Seq::empty() =~= fields_view(out@));
            }
            Option::Some((out, cur))
        },
    }
}

/// Reads a list of excerpts.
fn get_excerpts(bytes: &Vec<u8>, pos: usize) -> (r: Option<(Vec<Excerpt>, usize)>)
    requires
        pos <= bytes@.len(),
    ensures
        match r {
            Option::Some((v, p2)) => pos <= p2 <= bytes@.len() && spec_parse_excerpts(
                bytes@.skip(pos as int),
            ) == Option::Some((v@, bytes@.skip(p2 as int))),
            Option::None => spec_parse_excerpts(bytes@.skip(pos as int)) is None,
        },
{
    match get_u64(bytes, pos) {
        Option::None => Option::None,
        Option::Some((n, p1)) => {
            let mut out: Vec<Excerpt> = Vec::new();
            let mut cur: usize = p1;
            let mut i: u64 = 0;
            proof {
                assert(out@ =~= Seq::empty());
            }
            while i < n
                invariant
                    i <= n,
                    pos <= p1 <= cur <= bytes@.len(),
                    spec_parse_u64(bytes@.skip(pos as int)) == Option::Some(
                        (n, bytes@.skip(p1 as int)),
                    ),
                    match spec_parse_excerpts_n(bytes@.skip(cur as int), (n - i) as nat) {
                        Option::None => spec_parse_excerpts_n(bytes@.skip(p1 as int), n as nat)
                            is None,
                        Option::Some((vs, rest)) => spec_parse_excerpts_n(
                            bytes@.skip(p1 as int),
                            n as nat,
                        ) == Option::Some((out@ + vs, rest)),
                    },
                decreases n - i,
            {
                match get_excerpt(bytes, cur) {
                    Option::None => {
                        return Option::None;
                    },
                    Option::Some((x, p2)) => {
                        let ghost prevv = out@;
                        out.push(x);
                        proof {
                            assert(out@ =~= prevv.push(x));
                            assert forall|vs: Seq<_>| true implies prevv + (seq![x] + vs)
                                =~= out@ + vs by {}
                        }
                        cur = p2;
                        i = i + 1;
                    },
                }
            }
            proof {
                assert(out@ + Seq::empty() =~= out@);
            }
            Option::Some((out, cur))
        },
    }
}

/// Reads a list of aliases.
fn get_aliases(bytes: &Vec<u8>, pos: usize) -> (r: Option<(Vec<(String, u32)>, usize)>)
    requires
        pos <= bytes@.len(),
    ensures
        match r {
            Option::Some((v, p2)) => pos <= p2 <= bytes@.len() && spec_parse_aliases(
                bytes@.skip(pos as int),
            ) == Option::Some((aliases_view(v@), bytes@.skip(p2 as int))),
            Option::None => spec_parse_aliases(bytes@.skip(pos as int)) is None,
        },
{
    match get_u64(bytes, pos) {
        Option::None => Option::None,
        Option::Some((n, p1)) => {
            let mut out: Vec<(String, u32)> = Vec::new();
            let mut cur: usize = p1;
            let mut i: u64 = 0;
            proof {
                assert(aliases_view(out@) =~= Seq::empty());
            }
            while i < n
                invariant
                    i <= n,
                    pos <= p1 <= cur <= bytes@.len(),
                    spec_parse_u64(bytes@.skip(pos as int)) == Option::Some(
                        (n, bytes@.skip(p1 as int)),
                    ),
                    match spec_parse_aliases_n(bytes@.skip(cur as int), (n - i) as nat) {
                        Option::None => spec_parse_aliases_n(bytes@.skip(p1 as int), n as nat)
                            is None,
                        Option::Some((vs, rest)) => spec_parse_aliases_n(
                            bytes@.skip(p1 as int),
                            n as nat,
                        ) == Option::Some((aliases_view(out@) + vs, rest)),
                    },
                decreases n - i,
            {
                match get_alias(bytes, cur) {
                    Option::None => {
                        return Option::None;
                    },
                    Option::Some((x, p2)) => {
                        let ghost prevv = aliases_view(out@);
                        out.push(x);
                        proof {
                            assert(aliases_view(out@) =~= prevv.push((x.0@, x.1)));
                            assert forall|vs: Seq<_>| true implies prevv + (seq![(x.0@, x.1)] + vs)
                                =~= aliases_view(out@) + vs by {}
                        }
                        cur = p2;
                        i = i + 1;
                    },
                }
            }
            proof {
                assert(aliases_view(out@) + Seq::empty() =~= aliases_view(out@));
            }
            Option::Some((out, cur))
        },
    }
}

/// Reads one per-entry result.
fn get_result(bytes: &Vec<u8>, pos: usize) -> (r: Option<((usize, SearchResult), usize)>)
    requires
        pos <= bytes@.len(),
    ensures
        match r {
            Option::Some((v, p2)) => pos <= p2 <= bytes@.len() && spec_parse_result(
                bytes@.skip(pos as int),
            ) == Option::Some(((v.0, v.1@), bytes@.skip(p2 as int))),
            Option::None => spec_parse_result(bytes@.skip(pos as int)) is None,
        },
{
    match get_u64(bytes, pos) {
        Option::None => Option::None,
        Option::Some((e, p1)) => {
            if e > usize::MAX as u64 {
                return Option::None;
            }
            match get_u8(bytes, p1) {
                Option::None => Option::None,
                Option::Some((score, p2)) => match get_excerpts(bytes, p2) {
                    Option::None => Option::None,
                    Option::Some((excs, p3)) => Option::Some(
                        ((e as usize, SearchResult { excerpts: excs, score }), p3),
                    ),
                },
            }
        },
    }
}


/// Reads a list of per-entry results.
#[verifier::rlimit(100)]
fn get_results(bytes: &Vec<u8>, pos: usize) -> (r: Option<(Vec<(usize, SearchResult)>, usize)>)
    requires
        pos <= bytes@.len(),
    ensures
        match r {
            Option::Some((v, p2)) => pos <= p2 <= bytes@.len() && spec_parse_results(
                bytes@.skip(pos as int),
            ) == Option::Some((results_view(v@), bytes@.skip(p2 as int))),
            Option::None => spec_parse_results(bytes@.skip(pos as int)) is None,
        },
{
    match get_u64(bytes, pos) {
        Option::None => Option::None,
        Option::Some((n, p1)) => {
            let mut out: Vec<(usize, SearchResult)> = Vec::new();
            let mut cur: usize = p1;
            let mut i: u64 = 0;
            proof {
                assert(results_view(out@) =~= Seq::empty());
            }
            while i < n
                invariant
                    i <= n,
                    pos <= p1 <= cur <= bytes@.len(),
                    spec_parse_u64(bytes@.skip(pos as int)) == Option::Some(
                        (n, bytes@.skip(p1 as int)),
                    ),
                    match spec_parse_results_n(bytes@.skip(cur as int), (n - i) as nat) {
                        Option::None => spec_parse_results_n(bytes@.skip(p1 as int), n as nat)
                            is None,
                        Option::Some((vs, rest)) => spec_parse_results_n(
                            bytes@.skip(p1 as int),
                            n as nat,
                        ) == Option::Some((results_view(out@) + vs, rest)),
                    },
                decreases n - i,
            {
                match get_result(bytes, cur) {
                    Option::None => {
                        return Option::None;
                    },
                    Option::Some((x, p2)) => {
                        let ghost prevv = results_view(out@);
                        out.push(x);
                        proof {
                            assert(results_view(out@) =~= prevv.push((x.0, x.1@)));
                            assert forall|vs: Seq<_>| true implies prevv + (seq![(x.0, x.1@)] + vs)
                                =~= results_view(out@) + vs by {}
                        }
                        cur = p2;
                        i = i + 1;
                    },
                }
            }
            proof {
                assert(results_view(out@) + Seq::empty() =~= results_view(out@));
            }
            Option::Some((out, cur))
        },
    }
}
/// Reads one entry.
fn get_entry(bytes: &Vec<u8>, pos: usize) -> (r: Option<(Entry, usize)>)
    requires
        pos <= bytes@.len(),
    ensures
        match r {
            Option::Some((v, p2)) => pos <= p2 <= bytes@.len() && spec_parse_entry(
                bytes@.skip(pos as int),
            ) == Option::Some((v@, bytes@.skip(p2 as int))),
            Option::None => spec_parse_entry(bytes@.skip(pos as int)) is None,
        },
{
    match get_string(bytes, pos) {
        Option::None => Option::None,
        Option::Some((title, p1)) => match get_string(bytes, p1) {
            Option::None => Option::None,
            Option::Some((url, p2)) => match get_string(bytes, p2) {
                Option::None => Option::None,
                Option::Some((contents, p3)) => match get_fields(bytes, p3) {
                    Option::None => Option::None,
                    Option::Some((fields, p4)) => {
                        let e = Entry { title, url, contents, fields };
                        proof {
                            assert(e@ =~= (spec_parse_entry(bytes@.skip(pos as int))->0).0);
                        }
                        Option::Some((e, p4))
                    },
                },
            },
        },
    }
}


/// Reads a list of entries.
#[verifier::rlimit(100)]
fn get_entries(bytes: &Vec<u8>, pos: usize) -> (r: Option<(Vec<Entry>, usize)>)
    requires
        pos <= bytes@.len(),
    ensures
        match r {
            Option::Some((v, p2)) => pos <= p2 <= bytes@.len() && spec_parse_entries(
                bytes@.skip(pos as int),
            ) == Option::Some((entries_view(v@), bytes@.skip(p2 as int))),
            Option::None => spec_parse_entries(bytes@.skip(pos as int)) is None,
        },
{
    match get_u64(bytes, pos) {
        Option::None => Option::None,
        Option::Some((n, p1)) => {
            let mut out: Vec<Entry> = Vec::new();
            let mut cur: usize = p1;
            let mut i: u64 = 0;
            proof {
                assert(entries_view(out@) =~= Seq::empty());
            }
            while i < n
                invariant
                    i <= n,
                    pos <= p1 <= cur <= bytes@.len(),
                    spec_parse_u64(bytes@.skip(pos as int)) == Option::Some(
                        (n, bytes@.skip(p1 as int)),
                    ),
                    match spec_parse_entries_n(bytes@.skip(cur as int), (n - i) as nat) {
                        Option::None => spec_parse_entries_n(bytes@.skip(p1 as int), n as nat)
                            is None,
                        Option::Some((vs, rest)) => spec_parse_entries_n(
                            bytes@.skip(p1 as int),
                            n as nat,
                        ) == Option::Some((entries_view(out@) + vs, rest)),
                    },
                decreases n - i,
            {
                match get_entry(bytes, cur) {
                    Option::None => {
                        return Option::None;
                    },
                    Option::Some((x, p2)) => {
                        let ghost prevv = entries_view(out@);
                        out.push(x);
                        proof {
                            assert(entries_view(out@) =~= prevv.push(x@));
                            assert forall|vs: Seq<_>| true implies prevv + (seq![x@] + vs)
                                =~= entries_view(out@) + vs by {}
                        }
                        cur = p2;
                        i = i + 1;
                    },
                }
            }
            proof {
                assert(entries_view(out@) + Seq::empty() =~= entries_view(out@));
            }
            Option::Some((out, cur))
        },
    }
}
/// Reads one keyed container.
fn get_container(bytes: &Vec<u8>, pos: usize) -> (r: Option<((String, Container), usize)>)
    requires
        pos <= bytes@.len(),
    ensures
        match r {
            Option::Some((v, p2)) => pos <= p2 <= bytes@.len() && spec_parse_container(
                bytes@.skip(pos as int),
            ) == Option::Some(((v.0@, v.1@), bytes@.skip(p2 as int))),
            Option::None => spec_parse_container(bytes@.skip(pos as int)) is None,
        },
{
    match get_string(bytes, pos) {
        Option::None => Option::None,
        Option::Some((key, p1)) => match get_results(bytes, p1) {
            Option::None => Option::None,
            Option::Some((results, p2)) => match get_aliases(bytes, p2) {
                Option::None => Option::None,
                Option::Some((aliases, p3)) => {
                    let c = Container { results, aliases };
                    proof {
                        assert(c@ =~= ((spec_parse_container(bytes@.skip(pos as int))->0).0).1);
                    }
                    Option::Some(((key, c), p3))
                },
            },
        },
    }
}


/// Reads a list of keyed containers.
#[verifier::rlimit(100)]
fn get_containers(bytes: &Vec<u8>, pos: usize) -> (r: Option<(Vec<(String, Container)>, usize)>)
    requires
        pos <= bytes@.len(),
    ensures
        match r {
            Option::Some((v, p2)) => pos <= p2 <= bytes@.len() && spec_parse_containers(
                bytes@.skip(pos as int),
            ) == Option::Some((containers_view(v@), bytes@.skip(p2 as int))),
            Option::None => spec_parse_containers(bytes@.skip(pos as int)) is None,
        },
{
    match get_u64(bytes, pos) {
        Option::None => Option::None,
        Option::Some((n, p1)) => {
            let mut out: Vec<(String, Container)> = Vec::new();
            let mut cur: usize = p1;
            let mut i: u64 = 0;
            proof {
                assert(containers_view(out@) =~= Seq::empty());
            }
            while i < n
                invariant
                    i <= n,
                    pos <= p1 <= cur <= bytes@.len(),
                    spec_parse_u64(bytes@.skip(pos as int)) == Option::Some(
                        (n, bytes@.skip(p1 as int)),
                    ),
                    match spec_parse_containers_n(bytes@.skip(cur as int), (n - i) as nat) {
                        Option::None => spec_parse_containers_n(bytes@.skip(p1 as int), n as nat)
                            is None,
                        Option::Some((vs, rest)) => spec_parse_containers_n(
                            bytes@.skip(p1 as int),
                            n as nat,
                        ) == Option::Some((containers_view(out@) + vs, rest)),
                    },
                decreases n - i,
            {
                match get_container(bytes, cur) {
                    Option::None => {
                        return Option::None;
                    },
                    Option::Some((x, p2)) => {
                        let ghost prevv = containers_view(out@);
                        out.push(x);
                        proof {
                            assert(containers_view(out@) =~= prevv.push((x.0@, x.1@)));
                            assert forall|vs: Seq<_>| true implies prevv + (seq![(x.0@, x.1@)] + vs)
                                =~= containers_view(out@) + vs by {}
                        }
                        cur = p2;
                        i = i + 1;
                    },
                }
            }
            proof {
                assert(containers_view(out@) + Seq::empty() =~= containers_view(out@));
            }
            Option::Some((out, cur))
        },
    }
}
/// Reads the passed-through configuration.
fn get_pass(bytes: &Vec<u8>, pos: usize) -> (r: Option<(PassthroughConfig, usize)>)
    requires
        pos <= bytes@.len(),
    ensures
        match r {
            Option::Some((v, p2)) => pos <= p2 <= bytes@.len() && spec_parse_pass(
                bytes@.skip(pos as int),
            ) == Option::Some((v@, bytes@.skip(p2 as int))),
            Option::None => spec_parse_pass(bytes@.skip(pos as int)) is None,
        },
{
    match get_string(bytes, pos) {
        Option::None => Option::None,
        Option::Some((url_prefix, p1)) => match get_u8(bytes, p1) {
            Option::None => Option::None,
            Option::Some((bt, p2)) => {
                if bt > 3 {
                    return Option::None;
                }
                let title_boost = if bt == 0 {
                    TitleBoost::Minimal
                } else if bt == 1 {
                    TitleBoost::Moderate
                } else if bt == 2 {
                    TitleBoost::Large
                } else {
                    TitleBoost::Ridiculous
                };
                match get_u64(bytes, p2) {
                    Option::None => Option::None,
                    Option::Some((eb, p3)) => {
                        if eb > usize::MAX as u64 {
                            return Option::None;
                        }
                        match get_u64(bytes, p3) {
                            Option::None => Option::None,
                            Option::Some((epr, p4)) => {
                                if epr > usize::MAX as u64 {
                                    return Option::None;
                                }
                                match get_u64(bytes, p4) {
                                    Option::None => Option::None,
                                    Option::Some((drc, p5)) => {
                                        if drc > usize::MAX as u64 {
                                            return Option::None;
                                        }
                                        Option::Some(
                                            (
                                                PassthroughConfig {
                                                    url_prefix,
                                                    title_boost,
                                                    excerpt_buffer: eb as usize,
                                                    excerpts_per_result: epr as usize,
                                                    displayed_results_count: drc as usize,
                                                },
                                                p5,
                                            ),
                                        )
                                    },
                                }
                            },
                        }
                    },
                }
            },
        },
    }
}

/// Decodes a byte blob into an index: the envelope is split, the version tag
/// checked, and the payload parsed exactly. An unknown tag is reported as
/// such; any other fault is reported as malformed.
#[verifier::rlimit(100)]
pub fn parse_index(bytes: &Vec<u8>) -> (r: Result<Index, IndexParseError>)
    ensures
        (r is Ok) == (spec_decode_index(bytes@) is Some),
        r is Ok ==> r->Ok_0@ == spec_decode_index(bytes@)->0,
        r is Err ==> ((r->Err_0 is UnknownIndexVersion) == (spec_parse_envelope(bytes@) is Some
            && (spec_parse_envelope(bytes@)->0).0 != spec_tag())),
{
    match get_u32(bytes, 0) {
        Option::None => {
            proof {
                assert(bytes@.skip(0) =~= bytes@);
            }
            Result::Err(IndexParseError::Malformed)
        },
        Option::Some((l1, p1)) => {
            proof {
                assert(bytes@.skip(0) =~= bytes@);
            }
            if (bytes.len() - p1) < (l1 as usize) || (l1 as usize) > bytes.len() {
                proof {
                    assert(bytes@.skip(p1 as int).len() < l1);
                }
                return Result::Err(IndexParseError::Malformed);
            }
            let ghost r1 = bytes@.skip(p1 as int);
            proof {
                assert(r1.len() >= l1);
            }
            let tag_end = p1 + (l1 as usize);
            let mut tag_ok = l1 == 7;
            if tag_ok {
                tag_ok = bytes[p1] == 115 && bytes[p1 + 1] == 116 && bytes[p1 + 2] == 111
                    && bytes[p1 + 3] == 114 && bytes[p1 + 4] == 107 && bytes[p1 + 5] == 45
                    && bytes[p1 + 6] == 51;
            }
            proof {
                let tag = r1.take(l1 as int);
                if l1 == 7 {
                    assert(tag.len() == 7);
                    assert(tag[0] == bytes@[p1 as int]);
                    assert(tag[1] == bytes@[p1 as int + 1]);
                    assert(tag[2] == bytes@[p1 as int + 2]);
                    assert(tag[3] == bytes@[p1 as int + 3]);
                    assert(tag[4] == bytes@[p1 as int + 4]);
                    assert(tag[5] == bytes@[p1 as int + 5]);
                    assert(tag[6] == bytes@[p1 as int + 6]);
                    if bytes@[p1 as int] == 115 && bytes@[p1 as int + 1] == 116 && bytes@[p1 as int
                        + 2] == 111 && bytes@[p1 as int + 3] == 114 && bytes@[p1 as int + 4] == 107
                        && bytes@[p1 as int + 5] == 45 && bytes@[p1 as int + 6] == 51 {
                        assert(tag =~= spec_tag());
                    } else {
                        assert(tag != spec_tag());
                    }
                } else {
                    assert(tag.len() != spec_tag().len());
                    assert(tag != spec_tag());
                }
            }
            if !tag_ok {
                match get_u32(bytes, tag_end) {
                    Option::None => {
                        proof {
                            assert(bytes@.skip(tag_end as int) =~= r1.skip(l1 as int));
                        }
                        return Result::Err(IndexParseError::Malformed);
                    },
                    Option::Some((l2, p3)) => {
                        proof {
                            assert(bytes@.skip(tag_end as int) =~= r1.skip(l1 as int));
                        }
                        if (bytes.len() - p3) < (l2 as usize) || (l2 as usize) > bytes.len() {
                            proof {
                                assert(bytes@.skip(p3 as int).len() < l2);
                            }
                            return Result::Err(IndexParseError::Malformed);
                        }
                        let mut tag_chars: Vec<char> = Vec::new();
                        let mut ti: usize = p1;
                        while ti < tag_end
                            invariant
                                p1 <= ti <= tag_end,
                                tag_end <= bytes@.len(),
                            decreases tag_end - ti,
                        {
                            tag_chars.push(bytes[ti] as char);
                            ti = ti + 1;
                        }
                        return Result::Err(
                            IndexParseError::UnknownIndexVersion(
                                crate::tokens::string_of(&tag_chars),
                            ),
                        );
                    },
                }
            }
            let ghost r2 = r1.skip(l1 as int);
            match get_u32(bytes, tag_end) {
                Option::None => {
                    proof {
                        assert(bytes@.skip(tag_end as int) =~= r2);
                    }
                    Result::Err(IndexParseError::Malformed)
                },
                Option::Some((l2, p3)) => {
                    proof {
                        assert(bytes@.skip(tag_end as int) =~= r2);
                    }
                    if (bytes.len() - p3) < (l2 as usize) || (l2 as usize) > bytes.len() {
                        proof {
                            assert(bytes@.skip(p3 as int).len() < l2);
                        }
                        return Result::Err(IndexParseError::Malformed);
                    }
                    let pay_end = p3 + (l2 as usize);
                    let mut payload: Vec<u8> = Vec::new();
                    let mut bi: usize = p3;
                    while bi < pay_end
                        invariant
                            p3 <= bi <= pay_end <= bytes@.len(),
                            payload@ =~= bytes@.subrange(p3 as int, bi as int),
                        decreases pay_end - bi,
                    {
                        payload.push(bytes[bi]);
                        bi = bi + 1;
                    }
                    proof {
                        assert(payload@ =~= bytes@.skip(p3 as int).take(l2 as int));
                        assert(spec_parse_envelope(bytes@) == Option::Some(
                            (spec_tag(), payload@),
                        ));
                    }
                    match get_pass(&payload, 0) {
                        Option::None => {
                            proof {
                                assert(payload@.skip(0) =~= payload@);
                            }
                            Result::Err(IndexParseError::Malformed)
                        },
                        Option::Some((config, q1)) => {
                            proof {
                                assert(payload@.skip(0) =~= payload@);
                            }
                            match get_entries(&payload, q1) {
                                Option::None => Result::Err(IndexParseError::Malformed),
                                Option::Some((entries, q2)) => match get_containers(
                                    &payload,
                                    q2,
                                ) {
                                    Option::None => Result::Err(IndexParseError::Malformed),
                                    Option::Some((containers, q3)) => {
                                        if q3 == payload.len() {
                                            let idx = Index { entries, containers, config };
                                            proof {
                                                assert(payload@.skip(q3 as int).len() == 0);
                                                assert(idx@ =~= spec_parse_payload(payload@)->0);
                                            }
                                            Result::Ok(idx)
                                        } else {
                                            proof {
                                                assert(payload@.skip(q3 as int).len() > 0);
                                            }
                                            Result::Err(IndexParseError::Malformed)
                                        }
                                    },
                                },
                            }
                        },
                    }
                },
            }
        },
    }
}

} // verus!
