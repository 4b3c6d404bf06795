//! The wire format of an LZSS block, as a mathematical model.
//!
//! A block is a run of token groups followed by a four-byte little-endian
//! checksum. A group is a flag byte and up to eight tokens; the flag bits are
//! taken from the least significant up. A set bit announces one literal byte,
//! a clear bit a two-byte back-reference into the bytes already produced.

use crate::io::common::CodecError;
use vstd::prelude::*;

verus! {

/// Size of the sliding window.
pub const LZSS_WINDOW_SIZE: u32 = 0x1000;

/// The index that stands for "no node".
pub const LZSS_NODE_NULL: u32 = LZSS_WINDOW_SIZE;

/// The byte the window holds before anything is written to it.
pub const LZSS_FILL: u8 = 0x20;

/// Longest run a back-reference can name.
pub const LZSS_MATCH_MAX: u32 = 0x12;

/// A run must be longer than this to be worth a back-reference.
pub const LZSS_MATCH_THRESHOLD: u8 = 0x2;

/// Window slots, plus the mirror of its first `LZSS_MATCH_MAX - 1` bytes.
pub const LZSS_BUFFER_SIZE: usize = 0x1011;

/// What one byte adds to the checksum: its value, read as signed when
/// `signed` is set.
pub open spec fn checksum_term(c: u8, signed: bool) -> int {
    if signed && c >= 128 {
        c as int - 256
    } else {
        c as int
    }
}

/// The sum of the checksum terms of `data`.
pub open spec fn byte_sum(data: Seq<u8>, signed: bool) -> int
    decreases data.len(),
{
    if data.len() == 0 {
        0
    } else {
        byte_sum(data.drop_last(), signed) + checksum_term(data.last(), signed)
    }
}

/// The checksum of `data`: its byte sum modulo 2^32.
pub open spec fn lzss_checksum(data: Seq<u8>, signed: bool) -> u32 {
    (byte_sum(data, signed) % 0x1_0000_0000) as u32
}

/// The value of four bytes read as a little-endian unsigned integer.
pub open spec fn le_u32(b0: u8, b1: u8, b2: u8, b3: u8) -> u32 {
    (b0 as int + 0x100 * (b1 as int) + 0x1_0000 * (b2 as int) + 0x100_0000 * (b3 as int)) as u32
}

/// The byte at position `at` of the output, where every position before the
/// start holds the fill byte.
pub open spec fn history(out: Seq<u8>, at: int) -> u8 {
    if 0 <= at < out.len() {
        out[at]
    } else {
        LZSS_FILL
    }
}

/// How far back a reference reaches: its twelve-bit offset, where an offset
/// of zero names the byte a whole window back.
pub open spec fn reference_distance(b0: u8, b1: u8) -> int {
    let offset = b0 as int + 0x100 * (b1 as int / 0x10);
    if offset == 0 {
        LZSS_WINDOW_SIZE as int
    } else {
        offset
    }
}

/// How many bytes a reference produces: three to eighteen.
pub open spec fn reference_length(b1: u8) -> nat {
    (b1 as nat % 0x10) + LZSS_MATCH_THRESHOLD as nat + 1
}

/// `out` extended by `count` bytes, each a copy of the byte `distance` places
/// before it. A run may overlap the bytes it produces.
pub open spec fn copy_run(out: Seq<u8>, distance: int, count: nat) -> Seq<u8>
    decreases count,
{
    if count == 0 {
        out
    } else {
        copy_run(out.push(history(out, out.len() - distance)), distance, (count - 1) as nat)
    }
}

/// Whether bit `bit` of a flag byte announces a literal.
pub open spec fn flag_is_literal(flags: u8, bit: u8) -> bool {
    (flags >> bit) & 1 == 1
}

pub proof fn lemma_copy_run_len(out: Seq<u8>, distance: int, count: nat)
    ensures
        copy_run(out, distance, count).len() == out.len() + count,
    decreases count,
{
    if count > 0 {
        lemma_copy_run_len(
            out.push(history(out, out.len() - distance)),
            distance,
            (count - 1) as nat,
        );
    }
}

/// Decodes tokens from `s` at `pos` until `n` bytes are out. `bit` counts the
/// tokens already taken under the current flag byte `flags`; at eight, the
/// next flag byte is due. Gives the output and the position after the last
/// token, or the first failure.
pub open spec fn decode_tokens(
    s: Seq<u8>,
    pos: int,
    bit: int,
    flags: u8,
    out: Seq<u8>,
    n: nat,
) -> Result<(Seq<u8>, int), CodecError>
    decreases n - out.len(), (if bit >= 8 { 1int } else { 0int }),
{
    if out.len() >= n {
        Ok((out, pos))
    } else if bit >= 8 {
        if pos >= s.len() {
            Err(CodecError::Truncated)
        } else {
            decode_tokens(s, pos + 1, 0, s[pos], out, n)
        }
    } else if flag_is_literal(flags, bit as u8) {
        if pos >= s.len() {
            Err(CodecError::Truncated)
        } else {
            decode_tokens(s, pos + 1, bit + 1, flags, out.push(s[pos]), n)
        }
    } else {
        if pos + 2 > s.len() {
            Err(CodecError::Truncated)
        } else if out.len() + reference_length(s[pos + 1]) > n {
            Err(CodecError::Overflow)
        } else {
            proof {
                lemma_copy_run_len(
                    out,
                    reference_distance(s[pos], s[pos + 1]),
                    reference_length(s[pos + 1]),
                );
            }
            decode_tokens(
                s,
                pos + 2,
                bit + 1,
                flags,
                copy_run(out, reference_distance(s[pos], s[pos + 1]), reference_length(s[pos + 1])),
                n,
            )
        }
    }
}

/// The token part of a block that holds `n` bytes: what it decodes to and
/// where its checksum begins.
pub open spec fn decode_body(s: Seq<u8>, n: nat) -> Result<(Seq<u8>, int), CodecError> {
    decode_tokens(s, 0, 8, 0, Seq::empty(), n)
}

/// What the block at the start of `s` decodes to, for a declared length `n`.
/// The tokens must yield exactly `n` bytes, and the four bytes after them
/// must hold the checksum of those bytes.
pub open spec fn lzss_decode(s: Seq<u8>, n: nat, signed: bool) -> Result<Seq<u8>, CodecError> {
    match decode_body(s, n) {
        Err(e) => Err(e),
        Ok((out, end)) => if end + 4 > s.len() {
            Err(CodecError::Truncated)
        } else if le_u32(s[end], s[end + 1], s[end + 2], s[end + 3]) != lzss_checksum(out, signed) {
            Err(CodecError::MalformedStream)
        } else {
            Ok(out)
        },
    }
}

/// The number of bytes that the block at the start of `s` occupies, checksum
/// included, where it decodes.
pub open spec fn lzss_block_len(s: Seq<u8>, n: nat) -> int {
    match decode_body(s, n) {
        Err(_) => 0,
        Ok((_, end)) => end + 4,
    }
}

/// The window slot that holds position `at` of the output. The window is
/// written circularly, and its first write goes to slot `LZSS_WINDOW_SIZE - LZSS_MATCH_MAX`.
pub open spec fn slot(at: int) -> int {
    (LZSS_WINDOW_SIZE - LZSS_MATCH_MAX + at) % (LZSS_WINDOW_SIZE as int)
}

/// Slots lie inside the window, follow one another circularly, and differ
/// for positions less than a window apart.
pub proof fn lemma_slot(a: int, b: int)
    ensures
        0 <= slot(a) < LZSS_WINDOW_SIZE,
        slot(a + 1) == (slot(a) + 1) % (LZSS_WINDOW_SIZE as int),
        a != b && -(LZSS_WINDOW_SIZE as int) < a - b < LZSS_WINDOW_SIZE ==> slot(a) != slot(b),
        slot(0) == LZSS_WINDOW_SIZE - LZSS_MATCH_MAX,
{
}

/// Walking `k` slots on from the slot of `at` reaches the slot of `at + k`.
pub proof fn lemma_slot_walk(at: int, k: int)
    requires
        0 <= k,
    ensures
        (slot(at) + k) % (LZSS_WINDOW_SIZE as int) == slot(at + k),
{
}

/// The slot that byte `k` of a run is copied from: `offset` slots, which
/// is `distance` positions, behind the cursor of that byte, reckoned from
/// the cursor at the start of the run.
pub proof fn lemma_copy_slot(at: int, k: int, offset: int, distance: int)
    requires
        0 <= k,
        0 <= offset < LZSS_WINDOW_SIZE,
        distance == offset || distance == offset + LZSS_WINDOW_SIZE,
    ensures
        (slot(at) + LZSS_WINDOW_SIZE - offset + k) % (LZSS_WINDOW_SIZE as int) == slot(
            at + k - distance,
        ),
{
}

/// Whether the window `text` holds the last `LZSS_WINDOW_SIZE` positions of `out`, each in
/// its slot, with the fill byte for positions before the start.
pub open spec fn window_holds(text: Seq<u8>, out: Seq<u8>) -> bool {
    &&& text.len() >= LZSS_WINDOW_SIZE
    &&& forall|at: int|
        out.len() - LZSS_WINDOW_SIZE <= at < out.len() ==> text[slot(at)] == #[trigger] history(out, at)
}

/// The checksum after one more byte.
pub open spec fn checksum_add(sum: u32, c: u8, signed: bool) -> u32 {
    ((sum + checksum_term(c, signed)) % 0x1_0000_0000) as u32
}

/// Adding a byte to the checksum of `out` gives the checksum of `out` with
/// that byte appended.
pub proof fn lemma_checksum_push(out: Seq<u8>, c: u8, signed: bool)
    ensures
        checksum_add(lzss_checksum(out, signed), c, signed) == lzss_checksum(out.push(c), signed),
{
    assert(out.push(c).drop_last() =~= out);
    let total = byte_sum(out, signed);
    let term = checksum_term(c, signed);
    assert(byte_sum(out.push(c), signed) == total + term);
    vstd::arithmetic::div_mod::lemma_add_mod_noop(total, term, 0x1_0000_0000);
    vstd::arithmetic::div_mod::lemma_add_mod_noop(total % 0x1_0000_0000, term, 0x1_0000_0000);
    vstd::arithmetic::div_mod::lemma_mod_twice(total, 0x1_0000_0000);
}

/// Writing the next byte into its slot keeps the window in step with the
/// output.
pub proof fn lemma_window_push(text: Seq<u8>, out: Seq<u8>, c: u8)
    requires
        window_holds(text, out),
    ensures
        window_holds(text.update(slot(out.len() as int), c), out.push(c)),
{
    let text2 = text.update(slot(out.len() as int), c);
    let out2 = out.push(c);
    assert forall|at: int| out2.len() - LZSS_WINDOW_SIZE <= at < out2.len() implies text2[slot(at)]
        == #[trigger] history(out2, at) by {
        if at < out.len() {
            assert(text[slot(at)] == history(out, at));
            lemma_slot(at, out.len() as int);
        }
    }
}

/// The flag word the decoder keeps: the flag byte under eight marker bits,
/// shifted down once for each token taken.
pub open spec fn flag_word(flags: u8, taken: u32) -> u32 {
    ((flags as u32) | 0xff00u32) >> taken
}

/// The marker bits of the flag word count the tokens of a group: bit 8 stays
/// set through eight tokens and is clear after them, and the lowest bit is
/// the flag of the token that is due.
pub proof fn lemma_flag_word(flags: u8, taken: u32)
    by (bit_vector)
    requires
        taken < 8,
    ensures
        (((flags as u32) | 0xff00u32) >> taken) & 256 != 0,
        ((((flags as u32) | 0xff00u32) >> taken) & 1 != 0) == ((flags >> (taken as u8)) & 1 == 1),
        (((flags as u32) | 0xff00u32) >> taken) >> 1 == ((flags as u32) | 0xff00u32) >> ((taken
            + 1) as u32),
        ((((flags as u32) | 0xff00u32) >> 7u32) >> 1) & 256 == 0,
{
}

/// Masking with `LZSS_WINDOW_SIZE - 1` is the remainder by `LZSS_WINDOW_SIZE`.
pub proof fn lemma_mask_is_mod(x: u32)
    by (bit_vector)
    ensures
        x & 0xfff == x % 0x1000,
{
}

/// The two bytes of a reference split into a twelve-bit offset and a
/// four-bit length field.
pub proof fn lemma_reference_fields(b0: u8, b1: u8)
    by (bit_vector)
    ensures
        (b0 as u32) | (((b1 & 0xf0) as u32) << 4) == (b0 as u32) + 0x100 * ((b1 as u32) / 0x10),
        (b1 & 0x0f) == b1 % 0x10,
{
}

/// One step of decoding: a flag byte is due and is taken.
pub proof fn lemma_decode_flags(s: Seq<u8>, pos: int, flags: u8, out: Seq<u8>, n: nat)
    requires
        out.len() < n,
    ensures
        decode_tokens(s, pos, 8, flags, out, n) == (if pos >= s.len() {
            Err(CodecError::Truncated)
        } else {
            decode_tokens(s, pos + 1, 0, s[pos], out, n)
        }),
{
}

/// One step of decoding: the flag bit announces a literal.
pub proof fn lemma_decode_literal(s: Seq<u8>, pos: int, bit: int, flags: u8, out: Seq<u8>, n: nat)
    requires
        out.len() < n,
        0 <= bit < 8,
        flag_is_literal(flags, bit as u8),
    ensures
        decode_tokens(s, pos, bit, flags, out, n) == (if pos >= s.len() {
            Err(CodecError::Truncated)
        } else {
            decode_tokens(s, pos + 1, bit + 1, flags, out.push(s[pos]), n)
        }),
{
}

/// One step of decoding: the flag bit announces a back-reference.
pub proof fn lemma_decode_reference(
    s: Seq<u8>,
    pos: int,
    bit: int,
    flags: u8,
    out: Seq<u8>,
    n: nat,
)
    requires
        out.len() < n,
        0 <= bit < 8,
        !flag_is_literal(flags, bit as u8),
    ensures
        decode_tokens(s, pos, bit, flags, out, n) == (if pos + 2 > s.len() {
            Err(CodecError::Truncated)
        } else if out.len() + reference_length(s[pos + 1]) > n {
            Err(CodecError::Overflow)
        } else {
            decode_tokens(
                s,
                pos + 2,
                bit + 1,
                flags,
                copy_run(out, reference_distance(s[pos], s[pos + 1]), reference_length(s[pos + 1])),
                n,
            )
        }),
{
}

/// One unit of the token stream.
pub enum Token {
    /// One byte, as it stands.
    Literal(u8),
    /// The two bytes of a back-reference.
    Reference(u8, u8),
}

impl Token {
    /// The bytes of the token on the wire.
    pub open spec fn bytes(self) -> Seq<u8> {
        match self {
            Token::Literal(c) => seq![c],
            Token::Reference(b0, b1) => seq![b0, b1],
        }
    }

    /// How many bytes the token produces.
    pub open spec fn yield_len(self) -> nat {
        match self {
            Token::Literal(_) => 1,
            Token::Reference(_, b1) => reference_length(b1),
        }
    }

    /// `out` with the bytes that the token produces after it.
    pub open spec fn apply(self, out: Seq<u8>) -> Seq<u8> {
        match self {
            Token::Literal(c) => out.push(c),
            Token::Reference(b0, b1) => copy_run(
                out,
                reference_distance(b0, b1),
                reference_length(b1),
            ),
        }
    }
}

/// `out` with the bytes that the tokens produce, in turn, after it.
pub open spec fn expand(out: Seq<u8>, tokens: Seq<Token>) -> Seq<u8>
    decreases tokens.len(),
{
    if tokens.len() == 0 {
        out
    } else {
        tokens.last().apply(expand(out, tokens.drop_last()))
    }
}

/// The flag byte of a group of at most eight tokens: bit `i` is set where
/// token `i` is a literal.
pub open spec fn group_flags(group: Seq<Token>) -> u8
    decreases group.len(),
{
    if group.len() == 0 {
        0
    } else if group.last() is Literal {
        group_flags(group.drop_last()) | (1u8 << ((group.len() - 1) as u8))
    } else {
        group_flags(group.drop_last())
    }
}

/// The bytes of the tokens of a group, one token after the other.
pub open spec fn group_payload(group: Seq<Token>) -> Seq<u8>
    decreases group.len(),
{
    if group.len() == 0 {
        Seq::empty()
    } else {
        group_payload(group.drop_last()) + group.last().bytes()
    }
}

/// How many tokens the last group of a stream of `count` tokens holds.
pub open spec fn last_group_len(count: nat) -> nat {
    if count == 0 {
        0
    } else {
        ((count - 1) % 8 + 1) as nat
    }
}

/// The token stream on the wire: groups of eight tokens, each under its
/// flag byte; the last group may hold fewer.
pub open spec fn serialize(tokens: Seq<Token>) -> Seq<u8>
    decreases tokens.len(),
{
    if tokens.len() == 0 {
        Seq::empty()
    } else {
        let cut = tokens.len() - last_group_len(tokens.len());
        serialize(tokens.take(cut)) + seq![group_flags(tokens.skip(cut))] + group_payload(
            tokens.skip(cut),
        )
    }
}

/// The four bytes of `x`, least significant first.
pub open spec fn le_bytes(x: u32) -> Seq<u8> {
    seq![
        (x % 0x100) as u8,
        (x / 0x100 % 0x100) as u8,
        (x / 0x1_0000 % 0x100) as u8,
        (x / 0x100_0000) as u8,
    ]
}

/// A block: the serialized tokens, then the checksum of what they expand
/// to.
pub open spec fn block(tokens: Seq<Token>, signed: bool) -> Seq<u8> {
    serialize(tokens) + le_bytes(lzss_checksum(expand(Seq::empty(), tokens), signed))
}

/// Setting bit `k` of a flag byte whose bits from `k` up are clear sets
/// that bit and no other, and leaves the bits above clear.
pub proof fn lemma_set_flag(flags: u8, k: u8, j: u8)
    by (bit_vector)
    requires
        k < 8,
        j < 8,
        k < 8 ==> flags >> k == 0,
    ensures
        ((flags | (1u8 << k)) >> j) & 1 == 1 <==> (j == k || (flags >> j) & 1 == 1),
        j >= k ==> (flags >> j) & 1 != 1,
        k < 7 ==> (flags | (1u8 << k)) >> ((k + 1) as u8) == 0,
        k < 7 ==> flags >> ((k + 1) as u8) == 0,
{
}

/// The flag byte of a group tells its literals from its references, and
/// has no bit set beyond the group.
pub proof fn lemma_group_flags(group: Seq<Token>)
    requires
        group.len() <= 8,
    ensures
        forall|j: int|
            0 <= j < group.len() ==> (#[trigger] flag_is_literal(group_flags(group), j as u8)
                <==> group[j] is Literal),
        group.len() < 8 ==> group_flags(group) >> (group.len() as u8) == 0,
    decreases group.len(),
{
    if group.len() == 0 {
        assert(0u8 >> 0u8 == 0) by (bit_vector);
    } else {
        let front = group.drop_last();
        let k = (group.len() - 1) as u8;
        lemma_group_flags(front);
        let flags = group_flags(front);
        assert forall|j: int| 0 <= j < group.len() implies (#[trigger] flag_is_literal(
            group_flags(group),
            j as u8,
        ) <==> group[j] is Literal) by {
            lemma_set_flag(flags, k, j as u8);
            if j < k {
                assert(flag_is_literal(flags, j as u8) <==> front[j] is Literal);
            }
        }
        lemma_set_flag(flags, k, 0);
    }
}

/// How many bytes the tokens produce together.
pub open spec fn yield_total(tokens: Seq<Token>) -> nat
    decreases tokens.len(),
{
    if tokens.len() == 0 {
        0
    } else {
        yield_total(tokens.drop_last()) + tokens.last().yield_len()
    }
}

/// Expanding tokens adds as many bytes as they yield.
pub proof fn lemma_expand_len(out: Seq<u8>, tokens: Seq<Token>)
    ensures
        expand(out, tokens).len() == out.len() + yield_total(tokens),
    decreases tokens.len(),
{
    if tokens.len() > 0 {
        lemma_expand_len(out, tokens.drop_last());
        match tokens.last() {
            Token::Literal(_) => {},
            Token::Reference(b0, b1) => {
                lemma_copy_run_len(
                    expand(out, tokens.drop_last()),
                    reference_distance(b0, b1),
                    reference_length(b1),
                );
            },
        }
    }
}

/// A longer run of tokens yields more.
pub proof fn lemma_yield_grows(tokens: Seq<Token>, k: int)
    requires
        0 <= k <= tokens.len(),
    ensures
        yield_total(tokens.take(k)) + (tokens.len() - k) <= yield_total(tokens),
    decreases tokens.len() - k,
{
    if k < tokens.len() {
        lemma_yield_grows(tokens.drop_last(), k);
        assert(tokens.drop_last().take(k) =~= tokens.take(k));
    } else {
        assert(tokens.take(k) =~= tokens);
    }
}

/// Expanding two runs of tokens in turn is expanding their concatenation.
pub proof fn lemma_expand_concat(out: Seq<u8>, a: Seq<Token>, b: Seq<Token>)
    ensures
        expand(expand(out, a), b) == expand(out, a + b),
    decreases b.len(),
{
    if b.len() == 0 {
        assert(a + b =~= a);
    } else {
        lemma_expand_concat(out, a, b.drop_last());
        assert((a + b).drop_last() =~= a + b.drop_last());
    }
}

/// The payload of the first `j` tokens of a group opens the payload of the
/// group, and the bytes of token `j` follow it.
pub proof fn lemma_payload_prefix(group: Seq<Token>, j: int)
    requires
        0 <= j <= group.len(),
    ensures
        group_payload(group.take(j)).len() <= group_payload(group).len(),
        group_payload(group).take(group_payload(group.take(j)).len() as int) == group_payload(
            group.take(j),
        ),
        j < group.len() ==> group_payload(group.take(j + 1)) == group_payload(group.take(j))
            + group[j].bytes(),
    decreases group.len() - j,
{
    if j < group.len() {
        assert(group.take(j + 1).drop_last() =~= group.take(j));
        lemma_payload_prefix(group, j + 1);
        let longer = group_payload(group.take(j + 1));
        let shorter = group_payload(group.take(j));
        assert(group_payload(group).take(shorter.len() as int) =~= group_payload(group).take(
            longer.len() as int,
        ).take(shorter.len() as int));
        assert(longer.take(shorter.len() as int) =~= shorter);
    } else {
        assert(group.take(j) =~= group);
        assert(group_payload(group).take(group_payload(group).len() as int) =~= group_payload(
            group,
        ));
    }
}

/// Decoding a group. Where the stream holds at `pos` the flag byte of
/// `group` and then its payload, and a flag byte is due, decoding passes
/// through the state that the first `j` tokens of the group lead to,
/// provided that the output stays short of `n` bytes before each of them
/// and within `n` after the last.
pub proof fn lemma_decode_group(
    s: Seq<u8>,
    pos: int,
    flags: u8,
    group: Seq<Token>,
    out: Seq<u8>,
    n: nat,
    j: int,
)
    requires
        0 <= pos,
        group.len() <= 8,
        0 <= j <= group.len(),
        pos + 1 + group_payload(group).len() <= s.len(),
        s[pos] == group_flags(group),
        s.subrange(pos + 1, pos + 1 + group_payload(group).len()) == group_payload(group),
        out.len() + yield_total(group.take(j)) <= n,
        j == 0 ==> out.len() < n,
        j >= 1 ==> out.len() + yield_total(group.take(j - 1)) < n,
    ensures
        decode_tokens(s, pos, 8, flags, out, n) == decode_tokens(
            s,
            pos + 1 + group_payload(group.take(j)).len(),
            j,
            group_flags(group),
            expand(out, group.take(j)),
            n,
        ),
    decreases j,
{
    if j == 0 {
        assert(group.take(0) =~= Seq::<Token>::empty());
        lemma_decode_flags(s, pos, flags, out, n);
    } else {
        let prior = group.take(j - 1);
        let now = group.take(j);
        assert(now.drop_last() =~= prior);
        assert(now.last() == group[j - 1]);
        if j >= 2 {
            lemma_yield_grows(prior, j - 2);
            assert(prior.take(j - 2) =~= group.take(j - 2));
        }
        lemma_decode_group(s, pos, flags, group, out, n, j - 1);
        lemma_payload_prefix(group, j - 1);
        lemma_payload_prefix(group, j);
        lemma_group_flags(group);
        lemma_expand_len(out, prior);
        let at = pos + 1 + group_payload(prior).len();
        let mid = expand(out, prior);
        let payload = group_payload(group);
        let token = group[j - 1];
        assert(flag_is_literal(group_flags(group), (j - 1) as u8) <==> token is Literal);
        assert forall|i: int| 0 <= i < token.bytes().len() implies s[at + i]
            == token.bytes()[i] by {
            assert(s[at + i] == s.subrange(pos + 1, pos + 1 + payload.len())[at - pos - 1 + i]);
            assert(payload[at - pos - 1 + i] == payload.take(
                group_payload(now).len() as int,
            )[at - pos - 1 + i]);
        }
        match token {
            Token::Literal(c) => {
                assert(s[at] == token.bytes()[0]);
                lemma_decode_literal(s, at, j - 1, group_flags(group), mid, n);
            },
            Token::Reference(b0, b1) => {
                assert(s[at] == token.bytes()[0]);
                assert(s[at + 1] == token.bytes()[1]);
                lemma_decode_reference(s, at, j - 1, group_flags(group), mid, n);
            },
        }
    }
}

/// Where the decoder stands after a token stream: no token of the last
/// group is due. After full groups, and before the first, the next flag
/// byte is due.
pub open spec fn tokens_taken(count: nat) -> int {
    if count == 0 {
        8
    } else {
        last_group_len(count) as int
    }
}

/// A stream of tokens splits into the full groups before its last group,
/// and that group, which holds one to eight tokens.
pub proof fn lemma_last_group(tokens: Seq<Token>)
    requires
        tokens.len() > 0,
    ensures
        ({
            let cut = tokens.len() - last_group_len(tokens.len());
            let head = tokens.take(cut);
            let group = tokens.skip(cut);
            &&& 0 <= cut < tokens.len()
            &&& 1 <= group.len() <= 8
            &&& head.len() == cut
            &&& tokens_taken(head.len()) == 8
            &&& head + group == tokens
            &&& head + group.drop_last() == tokens.drop_last()
            &&& serialize(tokens) == serialize(head) + seq![group_flags(group)] + group_payload(
                group,
            )
            &&& yield_total(tokens) == yield_total(head) + yield_total(group)
            &&& yield_total(tokens.drop_last()) == yield_total(head) + yield_total(
                group.drop_last(),
            )
            &&& head.len() > 0 ==> yield_total(head.drop_last()) < yield_total(head)
        }),
{
    let cut = tokens.len() - last_group_len(tokens.len());
    let head = tokens.take(cut);
    let group = tokens.skip(cut);
    assert(head + group =~= tokens);
    assert(head + group.drop_last() =~= tokens.drop_last());
    lemma_yield_concat(head, group);
    lemma_yield_concat(head, group.drop_last());
}

/// Where a stream opens with a sequence of three parts, it holds each part
/// in its place.
pub proof fn lemma_stream_parts(s: Seq<u8>, front: Seq<u8>, flags: u8, payload: Seq<u8>)
    requires
        (front + seq![flags] + payload).len() <= s.len(),
        s.take((front + seq![flags] + payload).len() as int) == front + seq![flags] + payload,
    ensures
        s.take(front.len() as int) == front,
        s[front.len() as int] == flags,
        s.subrange(front.len() + 1 as int, front.len() + 1 + payload.len() as int) == payload,
{
    let wire = front + seq![flags] + payload;
    let pos = front.len() as int;
    assert(s.take(pos) =~= wire.take(pos));
    assert(wire.take(pos) =~= front);
    assert(s[pos] == s.take(wire.len() as int)[pos]);
    assert forall|i: int| 0 <= i < payload.len() implies s[pos + 1 + i] == payload[i] by {
        assert(s[pos + 1 + i] == s.take(wire.len() as int)[pos + 1 + i]);
    }
    assert(s.subrange(pos + 1, pos + 1 + payload.len()) =~= payload);
}

/// Decoding the tokens. Where the stream opens with the serialized tokens,
/// decoding passes through the state that the tokens lead to, provided that
/// the output stays short of `n` bytes before the last token and within `n`
/// after it.
pub proof fn lemma_decode_serialized(s: Seq<u8>, tokens: Seq<Token>, n: nat)
    requires
        serialize(tokens).len() <= s.len(),
        s.take(serialize(tokens).len() as int) == serialize(tokens),
        yield_total(tokens) <= n,
        tokens.len() > 0 ==> yield_total(tokens.drop_last()) < n,
    ensures
        decode_body(s, n) == decode_tokens(
            s,
            serialize(tokens).len() as int,
            tokens_taken(tokens.len()),
            group_flags(tokens.skip(tokens.len() - last_group_len(tokens.len()))),
            expand(Seq::empty(), tokens),
            n,
        ),
    decreases tokens.len(),
{
    if tokens.len() == 0 {
        assert(tokens.skip(0) =~= tokens);
    } else {
        let cut = tokens.len() - last_group_len(tokens.len());
        let head = tokens.take(cut);
        let group = tokens.skip(cut);
        let front = serialize(head);
        let pos = front.len() as int;
        let out = expand(Seq::empty(), head);
        lemma_last_group(tokens);
        lemma_stream_parts(s, front, group_flags(group), group_payload(group));
        lemma_decode_serialized(s, head, n);
        lemma_expand_len(Seq::empty(), head);
        assert(group.take(group.len() as int) == group) by {
            assert(group.take(group.len() as int) =~= group);
        }
        assert(group.take(group.len() - 1) == group.drop_last()) by {
            assert(group.take(group.len() - 1) =~= group.drop_last());
        }
        lemma_decode_group(
            s,
            pos,
            group_flags(head.skip(head.len() - last_group_len(head.len()))),
            group,
            out,
            n,
            group.len() as int,
        );
        lemma_expand_concat(Seq::empty(), head, group);
    }
}

/// Two runs of tokens yield together what they yield apart.
pub proof fn lemma_yield_concat(a: Seq<Token>, b: Seq<Token>)
    ensures
        yield_total(a + b) == yield_total(a) + yield_total(b),
    decreases b.len(),
{
    if b.len() == 0 {
        assert(a + b =~= a);
    } else {
        lemma_yield_concat(a, b.drop_last());
        assert((a + b).drop_last() =~= a + b.drop_last());
    }
}

/// Reading back the four bytes of a value gives the value.
pub proof fn lemma_le_bytes(x: u32)
    ensures
        le_bytes(x).len() == 4,
        le_u32(le_bytes(x)[0], le_bytes(x)[1], le_bytes(x)[2], le_bytes(x)[3]) == x,
{
}

/// A block decodes to what its tokens expand to, whatever follows it, and
/// takes up exactly its own length.
pub proof fn lemma_block_decodes(tokens: Seq<Token>, signed: bool, rest: Seq<u8>)
    ensures
        lzss_decode(block(tokens, signed) + rest, yield_total(tokens), signed) == Ok::<
            Seq<u8>,
            CodecError,
        >(expand(Seq::empty(), tokens)),
        lzss_block_len(block(tokens, signed) + rest, yield_total(tokens)) == block(
            tokens,
            signed,
        ).len(),
{
    let s = block(tokens, signed) + rest;
    let n = yield_total(tokens);
    let wire = serialize(tokens);
    let out = expand(Seq::empty(), tokens);
    let sum = lzss_checksum(out, signed);
    assert(s.take(wire.len() as int) =~= wire);
    if tokens.len() > 0 {
        assert(tokens.last().yield_len() >= 1);
    }
    lemma_decode_serialized(s, tokens, n);
    lemma_expand_len(Seq::empty(), tokens);
    lemma_le_bytes(sum);
    let end = wire.len() as int;
    assert(s[end] == le_bytes(sum)[0]);
    assert(s[end + 1] == le_bytes(sum)[1]);
    assert(s[end + 2] == le_bytes(sum)[2]);
    assert(s[end + 3] == le_bytes(sum)[3]);
}

/// How many bytes the tokens take on the wire, flag bytes not counted.
pub open spec fn wire_total(tokens: Seq<Token>) -> nat
    decreases tokens.len(),
{
    if tokens.len() == 0 {
        0
    } else {
        wire_total(tokens.drop_last()) + tokens.last().bytes().len()
    }
}

/// Two runs of tokens take on the wire together what they take apart.
pub proof fn lemma_wire_concat(a: Seq<Token>, b: Seq<Token>)
    ensures
        wire_total(a + b) == wire_total(a) + wire_total(b),
    decreases b.len(),
{
    if b.len() == 0 {
        assert(a + b =~= a);
    } else {
        lemma_wire_concat(a, b.drop_last());
        assert((a + b).drop_last() =~= a + b.drop_last());
    }
}

/// The payload of a group is as long as its tokens are on the wire, and no
/// token takes more bytes than it yields.
pub proof fn lemma_payload_len(group: Seq<Token>)
    ensures
        group_payload(group).len() == wire_total(group),
        group.len() <= wire_total(group) <= yield_total(group),
        wire_total(group) <= 2 * group.len(),
    decreases group.len(),
{
    if group.len() > 0 {
        lemma_payload_len(group.drop_last());
    }
}

/// The serialized tokens take one byte for each group of up to eight
/// tokens, and the bytes of the tokens.
pub proof fn lemma_serialize_len(tokens: Seq<Token>)
    ensures
        serialize(tokens).len() == wire_total(tokens) + (tokens.len() + 7) / 8,
    decreases tokens.len(),
{
    if tokens.len() > 0 {
        let cut = tokens.len() - last_group_len(tokens.len());
        let head = tokens.take(cut);
        let group = tokens.skip(cut);
        lemma_serialize_len(head);
        lemma_payload_len(group);
        lemma_wire_concat(head, group);
        assert(head + group =~= tokens);
    }
}

/// The serialized tokens are at most one eighth longer, rounded up, than
/// what they yield.
pub proof fn lemma_serialize_bound(tokens: Seq<Token>)
    ensures
        serialize(tokens).len() <= yield_total(tokens) + (yield_total(tokens) + 7) / 8,
{
    lemma_serialize_len(tokens);
    lemma_payload_len(tokens);
}

/// Shifting the mask of a group on by one token: a set bit while the group
/// has room, zero when it is full.
pub proof fn lemma_mask_step(k: u8)
    by (bit_vector)
    requires
        k < 8,
    ensures
        1u8 << k != 0,
        k < 7 ==> (1u8 << k) << 1u8 == 1u8 << ((k + 1) as u8),
        k == 7 ==> (1u8 << k) << 1u8 == 0,
{
}

/// The bytes of a reference, from its offset and its length field.
pub proof fn lemma_reference_bytes(offset: u32, field: u32)
    by (bit_vector)
    requires
        offset < 0x1000,
        field < 0x10,
    ensures
        offset & 0xff == offset % 0x100,
        ((offset >> 4) & 0xf0) | field == offset / 0x100 * 0x10 + field,
        ((offset >> 4) & 0xf0) | field < 0x100,
        offset & 0xff < 0x100,
{
}

/// Overflow guard: where a back-reference is due that would take the output
/// beyond the declared length, decoding ends in `Overflow`, whatever the
/// stream holds behind the reference.
pub proof fn lemma_overflow_guard(
    s: Seq<u8>,
    pos: int,
    bit: int,
    flags: u8,
    out: Seq<u8>,
    n: nat,
)
    requires
        out.len() < n,
        0 <= bit < 8,
        !flag_is_literal(flags, bit as u8),
        0 <= pos,
        pos + 2 <= s.len(),
        out.len() + reference_length(s[pos + 1]) > n,
    ensures
        decode_tokens(s, pos, bit, flags, out, n) == Err::<(Seq<u8>, int), CodecError>(
            CodecError::Overflow,
        ),
{
    lemma_decode_reference(s, pos, bit, flags, out, n);
}

/// A block that opens with a back-reference longer than the declared length
/// is refused with `Overflow`.
pub proof fn lemma_overflow_at_start(s: Seq<u8>, n: nat, signed: bool)
    requires
        s.len() >= 3,
        !flag_is_literal(s[0], 0),
        0 < n < reference_length(s[2]),
    ensures
        lzss_decode(s, n, signed) == Err::<Seq<u8>, CodecError>(CodecError::Overflow),
{
    lemma_decode_flags(s, 0, 0, Seq::empty(), n);
    lemma_overflow_guard(s, 1, 0, s[0], Seq::empty(), n);
}

/// A declared length of zero: no token is read, and the block is its
/// checksum, which must be that of no bytes.
pub proof fn lemma_decode_nothing(s: Seq<u8>, signed: bool)
    ensures
        decode_body(s, 0) == Ok::<(Seq<u8>, int), CodecError>((Seq::empty(), 0)),
        lzss_decode(s, 0, signed) == (if s.len() < 4 {
            Err::<Seq<u8>, CodecError>(CodecError::Truncated)
        } else if le_u32(s[0], s[1], s[2], s[3]) != 0 {
            Err(CodecError::MalformedStream)
        } else {
            Ok(Seq::empty())
        }),
{
    assert(byte_sum(Seq::<u8>::empty(), signed) == 0);
}

/// What the tokens of a block yield, where they decode.
pub open spec fn body_out(s: Seq<u8>, n: nat) -> Seq<u8> {
    decode_body(s, n)->Ok_0.0
}

/// Where the tokens of a block end, where they decode.
pub open spec fn body_end(s: Seq<u8>, n: nat) -> int {
    decode_body(s, n)->Ok_0.1
}

/// The value of the four bytes of `s` from `at` on.
pub open spec fn trailer_at(s: Seq<u8>, at: int) -> u32 {
    le_u32(s[at], s[at + 1], s[at + 2], s[at + 3])
}

/// Checksum exactness: a block decodes if and only if its tokens yield the
/// declared length and the four bytes behind them hold the checksum of what
/// they yield; and it is refused as malformed if and only if the tokens
/// yield the declared length and the four bytes hold another value.
pub proof fn lemma_checksum_exact(s: Seq<u8>, n: nat, signed: bool)
    ensures
        lzss_decode(s, n, signed) is Ok <==> (decode_body(s, n) is Ok && body_end(s, n) + 4
            <= s.len() && trailer_at(s, body_end(s, n)) == lzss_checksum(body_out(s, n), signed)),
        lzss_decode(s, n, signed) is Ok ==> lzss_decode(s, n, signed)->Ok_0 == body_out(s, n)
            && body_out(s, n).len() == n,
        lzss_decode(s, n, signed) == Err::<Seq<u8>, CodecError>(CodecError::MalformedStream) <==> (
        decode_body(s, n) is Ok && body_end(s, n) + 4 <= s.len() && trailer_at(s, body_end(s, n))
            != lzss_checksum(body_out(s, n), signed)),
{
    if decode_body(s, n) is Ok {
        lemma_decode_reads(s, s, 0, 8, 0, Seq::empty(), n);
    } else {
        lemma_decode_errors(s, 0, 8, 0, Seq::empty(), n);
    }
}

/// The tokens fail only for want of bytes or for a reference that is too
/// long.
pub proof fn lemma_decode_errors(
    s: Seq<u8>,
    pos: int,
    bit: int,
    flags: u8,
    out: Seq<u8>,
    n: nat,
)
    requires
        decode_tokens(s, pos, bit, flags, out, n) is Err,
    ensures
        decode_tokens(s, pos, bit, flags, out, n)->Err_0 != CodecError::MalformedStream,
    decreases n - out.len(), (if bit >= 8 { 1int } else { 0int }),
{
    if out.len() >= n {
    } else if bit >= 8 {
        if pos < s.len() {
            lemma_decode_errors(s, pos + 1, 0, s[pos], out, n);
        }
    } else if flag_is_literal(flags, bit as u8) {
        if pos < s.len() {
            lemma_decode_errors(s, pos + 1, bit + 1, flags, out.push(s[pos]), n);
        }
    } else {
        if pos + 2 <= s.len() && out.len() + reference_length(s[pos + 1]) <= n {
            lemma_copy_run_len(
                out,
                reference_distance(s[pos], s[pos + 1]),
                reference_length(s[pos + 1]),
            );
            lemma_decode_errors(
                s,
                pos + 2,
                bit + 1,
                flags,
                copy_run(
                    out,
                    reference_distance(s[pos], s[pos + 1]),
                    reference_length(s[pos + 1]),
                ),
                n,
            );
        }
    }
}

/// Decoding reads the stream front to back, and no further than it says.
/// Where the tokens of `s` decode from a state on, they end at a position
/// inside `s`, or where they began, with `n` bytes out if fewer were out
/// before; and the tokens of any stream that holds the same bytes up to
/// that position decode alike.
pub proof fn lemma_decode_reads(
    s: Seq<u8>,
    other: Seq<u8>,
    pos: int,
    bit: int,
    flags: u8,
    out: Seq<u8>,
    n: nat,
)
    requires
        0 <= pos,
        0 <= bit,
        decode_tokens(s, pos, bit, flags, out, n) is Ok,
        other == s || ({
            let end = decode_tokens(s, pos, bit, flags, out, n)->Ok_0.1;
            end <= other.len() && other.take(end) == s.take(end)
        }),
    ensures
        decode_tokens(other, pos, bit, flags, out, n) == decode_tokens(s, pos, bit, flags, out, n),
        pos <= decode_tokens(s, pos, bit, flags, out, n)->Ok_0.1,
        decode_tokens(s, pos, bit, flags, out, n)->Ok_0.1 <= s.len() || decode_tokens(
            s,
            pos,
            bit,
            flags,
            out,
            n,
        )->Ok_0.1 == pos,
        out.len() < n ==> decode_tokens(s, pos, bit, flags, out, n)->Ok_0.0.len() == n,
    decreases n - out.len(), (if bit >= 8 { 1int } else { 0int }),
{
    let end = decode_tokens(s, pos, bit, flags, out, n)->Ok_0.1;
    if out.len() >= n {
    } else if bit >= 8 {
        lemma_decode_flags(s, pos, flags, out, n);
        lemma_decode_reads(s, other, pos + 1, 0, s[pos], out, n);
        if other != s {
            assert(other[pos] == other.take(end)[pos] && s[pos] == s.take(end)[pos]);
        }
        lemma_decode_flags(other, pos, flags, out, n);
    } else if flag_is_literal(flags, bit as u8) {
        lemma_decode_literal(s, pos, bit, flags, out, n);
        lemma_decode_reads(s, other, pos + 1, bit + 1, flags, out.push(s[pos]), n);
        if other != s {
            assert(other[pos] == other.take(end)[pos] && s[pos] == s.take(end)[pos]);
        }
        lemma_decode_literal(other, pos, bit, flags, out, n);
    } else {
        lemma_decode_reference(s, pos, bit, flags, out, n);
        let grown = copy_run(
            out,
            reference_distance(s[pos], s[pos + 1]),
            reference_length(s[pos + 1]),
        );
        lemma_copy_run_len(
            out,
            reference_distance(s[pos], s[pos + 1]),
            reference_length(s[pos + 1]),
        );
        lemma_decode_reads(s, other, pos + 2, bit + 1, flags, grown, n);
        if other != s {
            assert(other[pos] == other.take(end)[pos] && s[pos] == s.take(end)[pos]);
            assert(other[pos + 1] == other.take(end)[pos + 1] && s[pos + 1] == s.take(end)[pos
                + 1]);
        }
        lemma_decode_reference(other, pos, bit, flags, out, n);
    }
}

/// A changed checksum: where a block decodes, the block with one of the
/// four bytes of its checksum changed is refused as malformed.
pub proof fn lemma_checksum_change(s: Seq<u8>, n: nat, signed: bool, at: int, byte: u8)
    requires
        lzss_decode(s, n, signed) is Ok,
        lzss_block_len(s, n) - 4 <= at < lzss_block_len(s, n),
        byte != s[at],
    ensures
        lzss_decode(s.update(at, byte), n, signed) == Err::<Seq<u8>, CodecError>(
            CodecError::MalformedStream,
        ),
{
    let other = s.update(at, byte);
    let end = decode_body(s, n)->Ok_0.1;
    lemma_decode_reads(s, s, 0, 8, 0, Seq::empty(), n);
    assert(other.take(end) =~= s.take(end));
    lemma_decode_reads(s, other, 0, 8, 0, Seq::empty(), n);
}

/// Whether `b` is `a` with some of its bytes `from` replaced by `to`.
pub open spec fn swapped(a: Seq<u8>, b: Seq<u8>, from: u8, to: u8) -> bool {
    &&& a.len() == b.len()
    &&& forall|i: int| 0 <= i < a.len() ==> #[trigger] b[i] == a[i] || (a[i] == from && b[i] == to)
}

/// In how many places two sequences of one length differ.
pub open spec fn changes(a: Seq<u8>, b: Seq<u8>) -> nat
    decreases a.len(),
{
    if a.len() == 0 || b.len() != a.len() {
        0
    } else {
        changes(a.drop_last(), b.drop_last()) + (if a.last() != b.last() {
            1nat
        } else {
            0nat
        })
    }
}

/// Appending a byte to each of two sequences of which one is the other
/// with bytes replaced.
pub proof fn lemma_swapped_push(a: Seq<u8>, b: Seq<u8>, from: u8, to: u8, x: u8, y: u8)
    requires
        swapped(a, b, from, to),
        y == x || (x == from && y == to),
    ensures
        swapped(a.push(x), b.push(y), from, to),
        changes(a.push(x), b.push(y)) == changes(a, b) + (if x != y {
            1nat
        } else {
            0nat
        }),
{
    assert(a.push(x).drop_last() =~= a);
    assert(b.push(y).drop_last() =~= b);
}

/// Copying a run in each of two sequences of which one is the other with
/// bytes replaced.
pub proof fn lemma_swapped_copy(
    a: Seq<u8>,
    b: Seq<u8>,
    from: u8,
    to: u8,
    distance: int,
    count: nat,
)
    requires
        swapped(a, b, from, to),
    ensures
        swapped(copy_run(a, distance, count), copy_run(b, distance, count), from, to),
        changes(copy_run(a, distance, count), copy_run(b, distance, count)) >= changes(a, b),
    decreases count,
{
    if count > 0 {
        let x = history(a, a.len() - distance);
        let y = history(b, b.len() - distance);
        if 0 <= a.len() - distance < a.len() {
            assert(b[a.len() - distance] == a[a.len() - distance] || (a[a.len() - distance]
                == from && b[a.len() - distance] == to));
        }
        lemma_swapped_push(a, b, from, to, x, y);
        lemma_swapped_copy(a.push(x), b.push(y), from, to, distance, (count - 1) as nat);
    }
}

/// Expanding tokens after each of two sequences of which one is the other
/// with bytes replaced.
pub proof fn lemma_swapped_expand(a: Seq<u8>, b: Seq<u8>, from: u8, to: u8, tokens: Seq<Token>)
    requires
        swapped(a, b, from, to),
    ensures
        swapped(expand(a, tokens), expand(b, tokens), from, to),
        changes(expand(a, tokens), expand(b, tokens)) >= changes(a, b),
    decreases tokens.len(),
{
    if tokens.len() > 0 {
        let front = tokens.drop_last();
        lemma_swapped_expand(a, b, from, to, front);
        match tokens.last() {
            Token::Literal(c) => {
                lemma_swapped_push(expand(a, front), expand(b, front), from, to, c, c);
            },
            Token::Reference(b0, b1) => {
                lemma_swapped_copy(
                    expand(a, front),
                    expand(b, front),
                    from,
                    to,
                    reference_distance(b0, b1),
                    reference_length(b1),
                );
            },
        }
    }
}

/// The byte sums of two sequences of which one is the other with bytes
/// replaced differ by as many times the difference of the two bytes as the
/// sequences differ in places.
pub proof fn lemma_swapped_sum(a: Seq<u8>, b: Seq<u8>, from: u8, to: u8, signed: bool)
    requires
        swapped(a, b, from, to),
    ensures
        byte_sum(b, signed) - byte_sum(a, signed) == changes(a, b) * (checksum_term(to, signed)
            - checksum_term(from, signed)),
        changes(a, b) <= a.len(),
    decreases a.len(),
{
    if a.len() > 0 {
        let step = checksum_term(to, signed) - checksum_term(from, signed);
        let before = changes(a.drop_last(), b.drop_last());
        assert(swapped(a.drop_last(), b.drop_last(), from, to)) by {
            assert forall|i: int| 0 <= i < a.len() - 1 implies #[trigger] b.drop_last()[i]
                == a.drop_last()[i] || (a.drop_last()[i] == from && b.drop_last()[i] == to) by {
                assert(b[i] == a[i] || (a[i] == from && b[i] == to));
            }
        }
        lemma_swapped_sum(a.drop_last(), b.drop_last(), from, to, signed);
        assert(b[a.len() - 1] == a[a.len() - 1] || (a[a.len() - 1] == from && b[a.len() - 1]
            == to));
        assert((before + 1) * step == before * step + step) by (nonlinear_arith);
        if a.last() != b.last() {
            assert(changes(a, b) == before + 1);
            assert(checksum_term(b.last(), signed) - checksum_term(a.last(), signed) == step);
        } else {
            assert(changes(a, b) == before);
        }
    } else {
        assert(changes(a, b) == 0);
        assert(0 * (checksum_term(to, signed) - checksum_term(from, signed)) == 0);
    }
}

/// A changed literal: where one literal of the tokens of a block is given
/// another byte and the checksum is left as it was, the block is refused
/// as malformed, provided that it holds fewer than 2^24 bytes.
pub proof fn lemma_literal_change(
    tokens: Seq<Token>,
    at: int,
    byte: u8,
    signed: bool,
    rest: Seq<u8>,
)
    requires
        0 <= at < tokens.len(),
        tokens[at] is Literal,
        tokens[at] != Token::Literal(byte),
        yield_total(tokens) < 0x100_0000,
    ensures
        lzss_decode(
            serialize(tokens.update(at, Token::Literal(byte))) + le_bytes(
                lzss_checksum(expand(Seq::empty(), tokens), signed),
            ) + rest,
            yield_total(tokens),
            signed,
        ) == Err::<Seq<u8>, CodecError>(CodecError::MalformedStream),
{
    let from = tokens[at]->Literal_0;
    let changed = tokens.update(at, Token::Literal(byte));
    let front = tokens.take(at);
    let back = tokens.skip(at + 1);
    let out = expand(Seq::empty(), tokens);
    let other = expand(Seq::empty(), changed);
    let n = yield_total(tokens);
    let sum = lzss_checksum(out, signed);
    let wire = serialize(changed);
    let s = wire + le_bytes(sum) + rest;
    let mid = expand(Seq::empty(), front);
    // both runs of tokens expand alike up to the literal
    assert(tokens =~= front + seq![tokens[at]] + back);
    assert(changed =~= front + seq![Token::Literal(byte)] + back);
    lemma_expand_concat(Seq::empty(), front + seq![tokens[at]], back);
    lemma_expand_concat(Seq::empty(), front + seq![Token::Literal(byte)], back);
    lemma_expand_concat(Seq::empty(), front, seq![tokens[at]]);
    lemma_expand_concat(Seq::empty(), front, seq![Token::Literal(byte)]);
    assert(expand(mid, seq![tokens[at]]) == mid.push(from)) by {
        assert(seq![tokens[at]].drop_last() =~= Seq::<Token>::empty());
        assert(expand(mid, Seq::<Token>::empty()) == mid);
    }
    assert(expand(mid, seq![Token::Literal(byte)]) == mid.push(byte)) by {
        assert(seq![Token::Literal(byte)].drop_last() =~= Seq::<Token>::empty());
        assert(expand(mid, Seq::<Token>::empty()) == mid);
    }
    // from the literal on, one is the other with bytes replaced
    assert(swapped(mid, mid, from, byte));
    lemma_swapped_sum(mid, mid, from, byte, signed);
    lemma_swapped_push(mid, mid, from, byte, from, byte);
    lemma_swapped_expand(mid.push(from), mid.push(byte), from, byte, back);
    lemma_swapped_sum(out, other, from, byte, signed);
    lemma_expand_len(Seq::empty(), tokens);
    lemma_expand_len(Seq::empty(), changed);
    // so their checksums differ
    let count = changes(out, other);
    let step = checksum_term(byte, signed) - checksum_term(from, signed);
    assert(changes(mid, mid) == 0) by {
        assert(0 == changes(mid, mid) * step) by {
            assert(byte_sum(mid, signed) - byte_sum(mid, signed) == 0);
        }
        assert(step != 0);
        assert(changes(mid, mid) * step == 0 ==> changes(mid, mid) == 0) by (nonlinear_arith)
            requires
                step != 0,
        ;
    }
    assert(1 <= count <= n);
    assert(-255 <= step <= 255 && step != 0);
    assert(count * step != 0 && -0xff00_0000 < count * step < 0xff00_0000) by (nonlinear_arith)
        requires
            1 <= count < 0x100_0000,
            -255 <= step <= 255,
            step != 0,
    ;
    assert(lzss_checksum(other, signed) != sum);
    // and the changed block decodes up to its checksum
    assert(s.take(wire.len() as int) =~= wire);
    if changed.len() > 0 {
        assert(changed.last().yield_len() >= 1);
    }
    lemma_decode_serialized(s, changed, n);
    lemma_le_bytes(sum);
    let end = wire.len() as int;
    assert(s[end] == le_bytes(sum)[0]);
    assert(s[end + 1] == le_bytes(sum)[1]);
    assert(s[end + 2] == le_bytes(sum)[2]);
    assert(s[end + 3] == le_bytes(sum)[3]);
}

} // verus!
