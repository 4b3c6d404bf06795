//! LZSS blocks: a token stream under flag bytes, closed by a checksum.
//!
//! `read_lzss` decodes a block from a byte source, `write_lzss` compresses
//! bytes into a block on a byte sink. What a block is, and what each of the
//! two gives, is stated over the models in `format` and `encoder`; the
//! compressor's dictionary is in `tree`, and the order of its trees, with
//! what follows from it for the matches, in `order`.

pub mod encoder;
pub mod format;
pub mod order;
pub mod tree;

use crate::io::common::{ByteReader, ByteSink, ByteSource, CodecError};
use crate::io::compression::lzss::encoder::{
    first_load, first_window, lemma_behind, lemma_loaded, lemma_round_trip, lemma_start,
    lemma_warm_step, loaded_state, lzss_encode, lzss_tokens, start, warm, Encoder,
};
use crate::io::compression::lzss::format::{
    checksum_add, copy_run, decode_body, decode_tokens, flag_word, group_flags, group_payload,
    history, last_group_len, le_bytes, lemma_checksum_push, lemma_copy_run_len, lemma_copy_slot,
    lemma_decode_flags, lemma_decode_literal, lemma_decode_reference, lemma_flag_word,
    lemma_mask_is_mod, lemma_mask_step, lemma_payload_len, lemma_reference_bytes,
    lemma_reference_fields, lemma_serialize_bound, lemma_serialize_len, lemma_slot,
    lemma_window_push, lemma_yield_grows, lzss_block_len, lzss_checksum, lzss_decode,
    reference_distance, reference_length, serialize, slot, window_holds, yield_total, Token,
    LZSS_BUFFER_SIZE, LZSS_FILL, LZSS_MATCH_MAX, LZSS_MATCH_THRESHOLD, LZSS_WINDOW_SIZE,
};
use crate::io::compression::lzss::tree::{blank, lemma_blank, LzssContext};
use vstd::prelude::*;
use vstd::slice::slice_subrange;

verus! {

/// The result of a read with its bytes as a sequence.
pub open spec fn decoded(r: Result<Vec<u8>, CodecError>) -> Result<Seq<u8>, CodecError> {
    match r {
        Ok(v) => Ok(v@),
        Err(e) => Err(e),
    }
}

/// A window that holds the fill byte in every slot.
pub fn fresh_window() -> (w: [u8; LZSS_BUFFER_SIZE])
    ensures
        forall|i: int| 0 <= i < LZSS_BUFFER_SIZE ==> w@[i] == LZSS_FILL,
        window_holds(w@, Seq::empty()),
{
    let text_buf: [u8; LZSS_BUFFER_SIZE] = [LZSS_FILL; LZSS_BUFFER_SIZE];
    assert forall|at: int| 0 - LZSS_WINDOW_SIZE <= at < 0 implies text_buf@[slot(at)]
        == #[trigger] history(Seq::<u8>::empty(), at) by {
        lemma_slot(at, 0);
    }
    text_buf
}

/// Emits one decoded byte: adds it to the checksum, appends it to the
/// output, writes it to the window at the cursor and moves the cursor on.
pub fn lzss_decompression_helper(
    checksum: &mut u32,
    dst: &mut Vec<u8>,
    text_buf: &mut [u8; LZSS_BUFFER_SIZE],
    r: &mut u32,
    bytes_left: &mut usize,
    c: u8,
    signed_checksum: bool,
)
    requires
        *old(bytes_left) > 0,
        *old(r) < LZSS_WINDOW_SIZE,
    ensures
        *final(checksum) == checksum_add(*old(checksum), c, signed_checksum),
        final(dst)@ == old(dst)@.push(c),
        *final(bytes_left) == *old(bytes_left) - 1,
        final(text_buf)@ == old(text_buf)@.update(*old(r) as int, c),
        *final(r) == (*old(r) + 1) % (LZSS_WINDOW_SIZE as int),
{
    *checksum = lzss_checksum_add(*checksum, c, signed_checksum);
    dst.push(c);
    *bytes_left -= 1;
    text_buf[*r as usize] = c;
    proof {
        lemma_mask_is_mod((*r + 1) as u32);
    }
    *r = (*r + 1) & (LZSS_WINDOW_SIZE - 1);
}

/// Emits a back-reference: `count` bytes, each copied from the window
/// `offset` slots behind the cursor and emitted before the next is read, so
/// that a run may reach into the bytes it has just produced.
pub fn lzss_copy_run(
    checksum: &mut u32,
    dst: &mut Vec<u8>,
    text_buf: &mut [u8; LZSS_BUFFER_SIZE],
    r: &mut u32,
    bytes_left: &mut usize,
    offset: u32,
    count: u8,
    signed_checksum: bool,
)
    requires
        offset < LZSS_WINDOW_SIZE,
        count <= LZSS_MATCH_MAX,
        *old(bytes_left) >= count,
        *old(r) == slot(old(dst)@.len() as int),
        window_holds(old(text_buf)@, old(dst)@),
        *old(checksum) == lzss_checksum(old(dst)@, signed_checksum),
    ensures
        final(dst)@ == copy_run(
            old(dst)@,
            if offset == 0 {
                LZSS_WINDOW_SIZE as int
            } else {
                offset as int
            },
            count as nat,
        ),
        *final(bytes_left) == *old(bytes_left) - count,
        *final(r) == slot(final(dst)@.len() as int),
        window_holds(final(text_buf)@, final(dst)@),
        *final(checksum) == lzss_checksum(final(dst)@, signed_checksum),
{
    let ghost dist: int = if offset == 0 {
        LZSS_WINDOW_SIZE as int
    } else {
        offset as int
    };
    let ghost before = dst@;
    proof {
        lemma_slot(before.len() as int, 0);
    }
    let origin: u32 = *r + LZSS_WINDOW_SIZE - offset;
    let mut k: u8 = 0;
    while k < count
        invariant
            k <= count <= LZSS_MATCH_MAX,
            1 <= dist <= LZSS_WINDOW_SIZE,
            dist == offset || dist == offset + LZSS_WINDOW_SIZE,
            offset < LZSS_WINDOW_SIZE,
            *bytes_left == *old(bytes_left) - k,
            *old(bytes_left) >= count,
            dst@.len() == before.len() + k,
            copy_run(dst@, dist, (count - k) as nat) == copy_run(before, dist, count as nat),
            *r == slot(dst@.len() as int),
            origin == slot(before.len() as int) + LZSS_WINDOW_SIZE - offset,
            window_holds(text_buf@, dst@),
            *checksum == lzss_checksum(dst@, signed_checksum),
        decreases count - k,
    {
        let at: u32 = (origin + k as u32) & (LZSS_WINDOW_SIZE - 1);
        proof {
            let len = dst@.len() as int;
            lemma_mask_is_mod((origin + k as u32) as u32);
            lemma_copy_slot(before.len() as int, k as int, offset as int, dist);
            lemma_slot(len - dist, 0);
            lemma_slot(len, 0);
            assert(at == slot(len - dist));
            assert(text_buf@[slot(len - dist)] == history(dst@, len - dist));
        }
        let c = text_buf[at as usize];
        proof {
            lemma_window_push(text_buf@, dst@, c);
            lemma_checksum_push(dst@, c, signed_checksum);
        }
        lzss_decompression_helper(checksum, dst, text_buf, r, bytes_left, c, signed_checksum);
        k += 1;
    }
}

/// Reading LZSS blocks from a byte source.
pub trait LzssCompressionReadExt: ByteSource {
    /// Decodes the block at the front of the source into `expected_length`
    /// bytes and checks its checksum, taken over signed bytes when
    /// `signed_checksum` is set. On success the source stands just behind the
    /// block.
    fn read_lzss(&mut self, expected_length: usize, signed_checksum: bool) -> (r: Result<
        Vec<u8>,
        CodecError,
    >)
        ensures
            decoded(r) == lzss_decode(
                old(self).unread(),
                expected_length as nat,
                signed_checksum,
            ),
            r is Ok ==> final(self).unread() == old(self).unread().skip(
                lzss_block_len(old(self).unread(), expected_length as nat),
            ),
    ;
}

impl<'a> LzssCompressionReadExt for ByteReader<'a> {
    fn read_lzss(&mut self, expected_length: usize, signed_checksum: bool) -> (r: Result<
        Vec<u8>,
        CodecError,
    >)
        ensures
            final(self).source() == old(self).source(),
    {
        let ghost s0 = self.unread();
        let ghost n = expected_length as nat;
        let mut text_buf = fresh_window();
        let mut bytes_left = expected_length;
        let mut dst: Vec<u8> = Vec::new();
        let mut r: u32 = LZSS_WINDOW_SIZE - LZSS_MATCH_MAX;
        let mut checksum: u32 = 0;
        let mut flags: u32 = 0;
        let ghost mut pos: int = 0;
        let ghost mut bit: u32 = 8;
        let ghost mut fb: u8 = 0;
        proof {
            assert(s0.skip(0) =~= s0);
            assert(dst@ =~= Seq::<u8>::empty());
            assert(0u32 >> 1u32 & 256 == 0) by (bit_vector);
            lemma_slot(0, 0);
        }
        while bytes_left != 0
            invariant
                n == expected_length,
                s0 == old(self).unread(),
                self.source() == old(self).source(),
                dst@.len() + bytes_left == n,
                0 <= pos <= s0.len(),
                self.unread() == s0.skip(pos),
                decode_tokens(s0, pos, bit as int, fb, dst@, n) == decode_body(s0, n),
                r == slot(dst@.len() as int),
                window_holds(text_buf@, dst@),
                checksum == lzss_checksum(dst@, signed_checksum),
                (bit == 8 && (flags >> 1u32) & 256 == 0) || (1 <= bit < 8 && flags == flag_word(
                    fb,
                    (bit - 1) as u32,
                )),
            decreases bytes_left,
        {
            flags = flags >> 1;
            if flags & 256 == 0 {
                proof {
                    if bit < 8 {
                        lemma_flag_word(fb, (bit - 1) as u32);
                        lemma_flag_word(fb, bit);
                    }
                    lemma_decode_flags(s0, pos, fb, dst@, n);
                }
                let c = match self.read_u8() {
                    Ok(c) => c,
                    Err(e) => {
                        return Err(e);
                    },
                };
                flags = c as u32 | 0xff00;
                proof {
                    assert(s0.skip(pos).skip(1) =~= s0.skip(pos + 1));
                    fb = c;
                    bit = 0;
                    pos = pos + 1;
                    assert(flag_word(fb, 0) == (c as u32 | 0xff00u32)) by (bit_vector)
                        requires
                            fb == c,
                    ;
                }
            } else {
                proof {
                    lemma_flag_word(fb, (bit - 1) as u32);
                }
            }
            assert(bit < 8 && flags == flag_word(fb, bit));
            proof {
                lemma_flag_word(fb, bit);
            }
            if flags & 1 != 0 {
                proof {
                    lemma_decode_literal(s0, pos, bit as int, fb, dst@, n);
                }
                let c = match self.read_u8() {
                    Ok(c) => c,
                    Err(e) => {
                        return Err(e);
                    },
                };
                proof {
                    assert(s0.skip(pos).skip(1) =~= s0.skip(pos + 1));
                    lemma_window_push(text_buf@, dst@, c);
                    lemma_checksum_push(dst@, c, signed_checksum);
                    lemma_slot(dst@.len() as int, 0);
                }
                lzss_decompression_helper(
                    &mut checksum,
                    &mut dst,
                    &mut text_buf,
                    &mut r,
                    &mut bytes_left,
                    c,
                    signed_checksum,
                );
                proof {
                    pos = pos + 1;
                }
            } else {
                proof {
                    lemma_decode_reference(s0, pos, bit as int, fb, dst@, n);
                }
                let b0 = match self.read_u8() {
                    Ok(c) => c,
                    Err(e) => {
                        return Err(e);
                    },
                };
                proof {
                    assert(s0.skip(pos).skip(1) =~= s0.skip(pos + 1));
                }
                let b1 = match self.read_u8() {
                    Ok(c) => c,
                    Err(e) => {
                        return Err(e);
                    },
                };
                proof {
                    assert(s0.skip(pos + 1).skip(1) =~= s0.skip(pos + 2));
                    lemma_reference_fields(b0, b1);
                }
                let i: u32 = b0 as u32 | (((b1 & 0xf0) as u32) << 4);
                let j: u8 = (b1 & 0x0f) + LZSS_MATCH_THRESHOLD;
                if (j as usize) + 1 > bytes_left {
                    return Err(CodecError::Overflow);
                }
                let ghost before = dst@;
                lzss_copy_run(
                    &mut checksum,
                    &mut dst,
                    &mut text_buf,
                    &mut r,
                    &mut bytes_left,
                    i,
                    j + 1,
                    signed_checksum,
                );
                proof {
                    lemma_copy_run_len(
                        before,
                        reference_distance(b0, b1),
                        reference_length(b1),
                    );
                    pos = pos + 2;
                }
            }
            proof {
                bit = (bit + 1) as u32;
                lemma_flag_word(fb, 7);
            }
        }
        let b0 = self.read_u8()?;
        proof {
            assert(s0.skip(pos).skip(1) =~= s0.skip(pos + 1));
        }
        let b1 = self.read_u8()?;
        proof {
            assert(s0.skip(pos + 1).skip(1) =~= s0.skip(pos + 2));
        }
        let b2 = self.read_u8()?;
        proof {
            assert(s0.skip(pos + 2).skip(1) =~= s0.skip(pos + 3));
        }
        let b3 = self.read_u8()?;
        proof {
            assert(s0.skip(pos + 3).skip(1) =~= s0.skip(pos + 4));
        }
        let csr: u32 = b0 as u32 + 0x100 * (b1 as u32) + 0x1_0000 * (b2 as u32) + 0x100_0000 * (
        b3 as u32);
        if csr != checksum {
            return Err(CodecError::MalformedStream);
        }
        Ok(dst)
    }
}

/// The state of the compressor, from the context and the counters that the
/// compressor keeps beside it.
pub open spec fn state(context: LzssContext, r: u32, s: u32, len: u32, loaded: usize) -> Encoder {
    Encoder {
        dict: context@,
        match_position: context.match_position as int,
        match_length: context.match_length as int,
        r: r as int,
        s: s as int,
        len: len as int,
        loaded: loaded as int,
    }
}

/// Adds one input byte to the checksum.
fn lzss_checksum_add(checksum: u32, c: u8, signed_checksum: bool) -> (sum: u32)
    ensures
        sum == checksum_add(checksum, c, signed_checksum),
{
    let term: u32 = if signed_checksum && c >= 128 {
        0xffff_ff00u32 + c as u32
    } else {
        c as u32
    };
    checksum.wrapping_add(term)
}

/// Inserts the `LZSS_MATCH_MAX` positions before the cursor, nearest first,
/// and then the cursor.
fn lzss_warm(context: &mut LzssContext, r: u32, Ghost(data): Ghost<Seq<u8>>)
    requires
        r == LZSS_WINDOW_SIZE - LZSS_MATCH_MAX,
        state(*old(context), r, 0, first_load(data) as u32, first_load(data) as usize)
            == loaded_state(data),
    ensures
        state(*final(context), r, 0, first_load(data) as u32, first_load(data) as usize) == start(
            data,
        ),
{
    let ghost len = first_load(data) as u32;
    let ghost loaded = first_load(data) as usize;
    proof {
        let text = first_window(data);
        lemma_blank(text);
        lemma_loaded(data);
    }
    let mut i: u32 = 1;
    while i <= LZSS_MATCH_MAX
        invariant
            1 <= i <= LZSS_MATCH_MAX + 1,
            r == LZSS_WINDOW_SIZE - LZSS_MATCH_MAX,
            state(*context, r, 0, len, loaded).settled(data),
            state(*context, r, 0, len, loaded).done() == 0,
            state(*context, r, 0, len, loaded).nodes_behind(1, i - 1),
            warm(state(*context, r, 0, len, loaded), i as int) == start(data),
        decreases LZSS_MATCH_MAX + 1 - i,
    {
        let ghost e = state(*context, r, 0, len, loaded);
        proof {
            lemma_warm_step(e, data, i as int);
        }
        context.insert_node(r - i);
        assert(state(*context, r, 0, len, loaded) == e.enter(r - i));
        i += 1;
    }
    let ghost e = state(*context, r, 0, len, loaded);
    proof {
        lemma_behind(r as int, r as int);
    }
    context.insert_node(r);
    assert(state(*context, r, 0, len, loaded) == e.enter(r as int));
}

/// Moves the window on by one byte: takes the oldest position out of the
/// trees, writes the next input byte there while input remains, moves the
/// cursor on and inserts it, unless nothing is left to encode.
fn lzss_shift(
    context: &mut LzssContext,
    r: &mut u32,
    s: &mut u32,
    len: &mut u32,
    data_index: &mut usize,
    checksum: &mut u32,
    data: &[u8],
    signed_checksum: bool,
)
    requires
        state(*old(context), *old(r), *old(s), *old(len), *old(data_index)).calm(data@),
        *old(len) > 0,
        *old(checksum) == lzss_checksum(
            data@.take(*old(data_index) as int),
            signed_checksum,
        ),
    ensures
        state(*final(context), *final(r), *final(s), *final(len), *final(data_index)) == state(
            *old(context),
            *old(r),
            *old(s),
            *old(len),
            *old(data_index),
        ).shift(data@),
        *final(checksum) == lzss_checksum(
            data@.take(*final(data_index) as int),
            signed_checksum,
        ),
{
    let ghost e = state(*context, *r, *s, *len, *data_index);
    proof {
        e.lemma_moved(data@);
        lemma_mask_is_mod((*s + 1) as u32);
        lemma_mask_is_mod((*r + 1) as u32);
    }
    context.delete_node(*s);
    if *data_index < data.len() {
        let c = data[*data_index];
        proof {
            lemma_checksum_push(data@.take(*data_index as int), c, signed_checksum);
            assert(data@.take(*data_index as int).push(c) =~= data@.take(*data_index + 1));
        }
        *checksum = lzss_checksum_add(*checksum, c, signed_checksum);
        *data_index += 1;
        context.text_buffer[*s as usize] = c;
        if *s < LZSS_MATCH_MAX - 1 {
            context.text_buffer[(*s + LZSS_WINDOW_SIZE) as usize] = c;
        }
        assert(context@ =~= e.dict.remove(e.s).store(e.s, c));
        *s = (*s + 1) & (LZSS_WINDOW_SIZE - 1);
        *r = (*r + 1) & (LZSS_WINDOW_SIZE - 1);
        assert(state(*context, *r, *s, *len, *data_index) == e.moved(data@));
        context.insert_node(*r);
    } else {
        *s = (*s + 1) & (LZSS_WINDOW_SIZE - 1);
        *r = (*r + 1) & (LZSS_WINDOW_SIZE - 1);
        *len -= 1;
        assert(state(*context, *r, *s, *len, *data_index) == e.moved(data@));
        if *len != 0 {
            context.insert_node(*r);
        }
    }
}

/// The longest input that `write_lzss` takes: the length of the block it
/// writes must fit the count it returns.
pub const LZSS_MAX_INPUT: usize = 0xe000_0000;

/// Writing LZSS blocks to a byte sink.
pub trait LzssCompressionWriteExt: ByteSink {
    /// Compresses `data` and appends the block to the sink: the tokens that
    /// a greedy search for the longest match in the window gives, and the
    /// checksum of `data`, taken over signed bytes when `signed_checksum`
    /// is set. Returns the length of the block.
    fn write_lzss(&mut self, data: &[u8], signed_checksum: bool) -> (code_size: u32)
        requires
            data@.len() <= LZSS_MAX_INPUT,
        ensures
            final(self).written() == old(self).written() + lzss_encode(data@, signed_checksum),
            code_size == lzss_encode(data@, signed_checksum).len(),
            lzss_decode(lzss_encode(data@, signed_checksum), data@.len(), signed_checksum) == Ok::<
                Seq<u8>,
                CodecError,
            >(data@),
    ;
}

/// Whether the group buffer of the compressor holds the tokens of the group
/// in progress: their flag byte, and then their bytes.
pub open spec fn group_held(buffer: Seq<u8>, code_index: int, group: Seq<Token>) -> bool {
    &&& group.len() <= 8
    &&& buffer.len() == 17
    &&& buffer[0] == group_flags(group)
    &&& code_index == 1 + group_payload(group).len()
    &&& code_index <= 17
    &&& buffer.subrange(1, code_index) == group_payload(group)
}

/// Loads the first bytes of `data` into the window of a new context and
/// inserts the first positions: the state before the first step.
fn lzss_prime(data: &[u8], signed_checksum: bool) -> (primed: (LzssContext, u32, usize, u32))
    ensures
        state(
            primed.0,
            (LZSS_WINDOW_SIZE - LZSS_MATCH_MAX) as u32,
            0,
            primed.1,
            primed.2,
        ) == start(data@),
        primed.1 == first_load(data@),
        primed.2 == first_load(data@),
        primed.3 == lzss_checksum(data@.take(primed.2 as int), signed_checksum),
{
    let mut len: u32 = 0;
    let r: u32 = LZSS_WINDOW_SIZE - LZSS_MATCH_MAX;
    let stop_pos = data.len();
    let mut data_index: usize = 0;
    let mut checksum: u32 = 0;
    let mut context = LzssContext::new();
    proof {
        assert(data@.take(0) =~= Seq::<u8>::empty());
    }
    while len < LZSS_MATCH_MAX && data_index < stop_pos
        invariant
            stop_pos == data@.len(),
            r == LZSS_WINDOW_SIZE - LZSS_MATCH_MAX,
            len == data_index,
            len <= LZSS_MATCH_MAX,
            data_index <= stop_pos,
            context.match_position == 0,
            context.match_length == 0,
            context@ == blank(context@.text),
            context@.text.len() == LZSS_BUFFER_SIZE,
            forall|i: int|
                0 <= i < LZSS_BUFFER_SIZE ==> context@.text[i] == (if r <= i < r + len {
                    data@[i - r]
                } else {
                    LZSS_FILL
                }),
            checksum == lzss_checksum(data@.take(data_index as int), signed_checksum),
        decreases stop_pos - data_index,
    {
        let c = data[data_index];
        proof {
            lemma_checksum_push(data@.take(data_index as int), c, signed_checksum);
            assert(data@.take(data_index as int).push(c) =~= data@.take(data_index + 1));
        }
        context.text_buffer[(r + len) as usize] = c;
        checksum = lzss_checksum_add(checksum, c, signed_checksum);
        data_index += 1;
        len += 1;
    }
    proof {
        assert(context@.text =~= first_window(data@));
        assert(state(context, r, 0, len, data_index) == loaded_state(data@));
    }
    lzss_warm(&mut context, r, Ghost(data@));
    (context, len, data_index, checksum)
}

/// Puts the next token into the group buffer: a literal, with its flag bit
/// set, where the match, cut down to the input that is left, is no longer
/// than the threshold; else the two bytes of a reference to the match.
/// Returns the number of input bytes that the token stands for.
fn lzss_put_token(
    code_buffer: &mut [u8; 17],
    code_index: &mut usize,
    mask: u8,
    context: &LzssContext,
    r: u32,
    len: u32,
    Ghost(group): Ghost<Seq<Token>>,
    Ghost(e): Ghost<Encoder>,
    Ghost(data): Ghost<Seq<u8>>,
) -> (last: u32)
    requires
        e.inv(data),
        e.len > 0,
        e.dict == context@,
        e.match_position == context.match_position,
        e.match_length == context.match_length,
        e.r == r,
        e.len == len,
        group.len() < 8,
        mask == 1u8 << (group.len() as u8),
        group_held(old(code_buffer)@, *old(code_index) as int, group),
    ensures
        last == e.takes(),
        1 <= last <= len,
        group_held(final(code_buffer)@, *final(code_index) as int, group.push(e.token())),
{
    let ghost token = e.token();
    proof {
        e.lemma_token(data);
        e.lemma_bounds(data);
        lemma_payload_len(group);
        lemma_payload_len(group.push(token));
        assert(group.push(token).drop_last() =~= group);
    }
    let run: u32 = if context.match_length > len {
        len
    } else {
        context.match_length
    };
    if run <= LZSS_MATCH_THRESHOLD as u32 {
        code_buffer[0] = code_buffer[0] | mask;
        code_buffer[*code_index] = context.text_buffer[r as usize];
        *code_index += 1;
        proof {
            assert(code_buffer@.subrange(1, *code_index as int) =~= group_payload(group)
                + token.bytes());
        }
        1
    } else {
        proof {
            lemma_mask_is_mod((r + LZSS_WINDOW_SIZE - context.match_position) as u32);
            lemma_behind(r as int, context.match_position as int);
        }
        let encoded_position = (r + LZSS_WINDOW_SIZE - context.match_position) & (LZSS_WINDOW_SIZE
            - 1);
        let field: u32 = run - (LZSS_MATCH_THRESHOLD as u32 + 1);
        proof {
            lemma_reference_bytes(encoded_position, field);
        }
        code_buffer[*code_index] = (encoded_position & 0xff) as u8;
        *code_index += 1;
        code_buffer[*code_index] = (((encoded_position >> 4) & 0xf0) | field) as u8;
        *code_index += 1;
        proof {
            assert(code_buffer@.subrange(1, *code_index as int) =~= group_payload(group)
                + token.bytes());
        }
        run
    }
}

/// Moves the window on by `count` bytes.
fn lzss_advance(
    context: &mut LzssContext,
    r: &mut u32,
    s: &mut u32,
    len: &mut u32,
    data_index: &mut usize,
    checksum: &mut u32,
    data: &[u8],
    signed_checksum: bool,
    count: u32,
)
    requires
        state(*old(context), *old(r), *old(s), *old(len), *old(data_index)).inv(data@),
        1 <= count <= *old(len),
        *old(checksum) == lzss_checksum(
            data@.take(*old(data_index) as int),
            signed_checksum,
        ),
    ensures
        state(*final(context), *final(r), *final(s), *final(len), *final(data_index)) == state(
            *old(context),
            *old(r),
            *old(s),
            *old(len),
            *old(data_index),
        ).advance(data@, count as nat),
        state(*final(context), *final(r), *final(s), *final(len), *final(data_index)).inv(data@),
        *final(checksum) == lzss_checksum(
            data@.take(*final(data_index) as int),
            signed_checksum,
        ),
{
    let ghost e = state(*context, *r, *s, *len, *data_index);
    proof {
        e.lemma_bounds(data@);
    }
    let mut i: u32 = 0;
    while i < count
        invariant
            i <= count,
            state(*context, *r, *s, *len, *data_index).calm(data@),
            count - i <= *len,
            state(*context, *r, *s, *len, *data_index).inv(data@),
            state(*context, *r, *s, *len, *data_index).advance(data@, (count - i) as nat)
                == e.advance(data@, count as nat),
            *checksum == lzss_checksum(
                data@.take(*data_index as int),
                signed_checksum,
            ),
        decreases count - i,
    {
        proof {
            let now = state(*context, *r, *s, *len, *data_index);
            now.lemma_shift(data@);
            now.shift(data@).lemma_bounds(data@);
        }
        lzss_shift(context, r, s, len, data_index, checksum, data, signed_checksum);
        i += 1;
    }
}

/// Whether the sink and the group buffer hold the tokens emitted so far:
/// the sink the block before it and the full groups, the buffer the group in
/// progress; `mask` is the flag bit of the next token, and `code_size` counts
/// the bytes written.
#[verifier::opaque]
pub open spec fn emitting(
    written: Seq<u8>,
    base: Seq<u8>,
    tokens: Seq<Token>,
    buffer: Seq<u8>,
    code_index: int,
    mask: u8,
    code_size: u32,
) -> bool {
    let cut = tokens.len() - tokens.len() % 8;
    &&& mask == 1u8 << ((tokens.len() % 8) as u8)
    &&& group_held(buffer, code_index, tokens.skip(cut))
    &&& written == base + serialize(tokens.take(cut))
    &&& code_size == serialize(tokens.take(cut)).len()
}

/// The group in progress, of the tokens emitted so far.
pub open spec fn open_group(tokens: Seq<Token>) -> Seq<Token> {
    tokens.skip(tokens.len() - tokens.len() % 8)
}

/// While tokens are being emitted, the buffer holds the group in progress,
/// which has room for a token, and the mask is the flag bit of that token;
/// the bytes written so far leave room in the count for a group and a
/// checksum.
proof fn lemma_emitting_group(
    written: Seq<u8>,
    base: Seq<u8>,
    tokens: Seq<Token>,
    buffer: Seq<u8>,
    code_index: int,
    mask: u8,
    code_size: u32,
)
    requires
        emitting(written, base, tokens, buffer, code_index, mask, code_size),
    ensures
        open_group(tokens).len() < 8,
        mask == 1u8 << (open_group(tokens).len() as u8),
        group_held(buffer, code_index, open_group(tokens)),
        code_size <= yield_total(tokens) + (yield_total(tokens) + 7) / 8,
{
    reveal(emitting);
    let cut = tokens.len() - tokens.len() % 8;
    lemma_serialize_bound(tokens.take(cut));
    lemma_yield_grows(tokens, cut);
}

/// A token put into a group that still has room after it is emitted.
proof fn lemma_emitting_kept(
    written: Seq<u8>,
    base: Seq<u8>,
    tokens: Seq<Token>,
    token: Token,
    buffer: Seq<u8>,
    code_index: int,
    mask: u8,
    code_size: u32,
    held: Seq<u8>,
    held_index: int,
)
    requires
        emitting(written, base, tokens, buffer, code_index, mask, code_size),
        group_held(held, held_index, open_group(tokens).push(token)),
        mask << 1u8 != 0,
    ensures
        emitting(written, base, tokens.push(token), held, held_index, mask << 1u8, code_size),
{
    reveal(emitting);
    let count = tokens.len();
    let cut = count - count % 8;
    let after = tokens.push(token);
    lemma_mask_step((count % 8) as u8);
    assert(count % 8 < 7);
    assert(after.len() % 8 == count % 8 + 1);
    assert(after.skip(cut) =~= tokens.skip(cut).push(token));
    assert(after.take(cut) =~= tokens.take(cut));
}

/// A token that fills its group is emitted once the group is written and
/// the buffer is set up for the next.
proof fn lemma_emitting_flushed(
    written: Seq<u8>,
    base: Seq<u8>,
    tokens: Seq<Token>,
    token: Token,
    buffer: Seq<u8>,
    code_index: int,
    mask: u8,
    code_size: u32,
    held: Seq<u8>,
    held_index: int,
    fresh: Seq<u8>,
)
    requires
        emitting(written, base, tokens, buffer, code_index, mask, code_size),
        group_held(held, held_index, open_group(tokens).push(token)),
        mask << 1u8 == 0,
        code_size + held_index <= u32::MAX,
        fresh.len() == 17,
        fresh[0] == 0,
    ensures
        emitting(
            written + held.subrange(0, held_index),
            base,
            tokens.push(token),
            fresh,
            1,
            1,
            (code_size + held_index) as u32,
        ),
{
    reveal(emitting);
    let count = tokens.len();
    let cut = count - count % 8;
    let after = tokens.push(token);
    let group = after.skip(cut);
    let front = serialize(tokens.take(cut));
    lemma_mask_step((count % 8) as u8);
    if count % 8 < 7 {
        lemma_mask_step((count % 8 + 1) as u8);
    }
    assert(count % 8 == 7);
    assert(after.len() % 8 == 0);
    assert(group =~= tokens.skip(cut).push(token));
    assert(after.take(cut) =~= tokens.take(cut));
    assert(cut == after.len() - last_group_len(
        after.len(),
    ));
    assert(after.take(after.len() as int) =~= after);
    assert(after.skip(after.len() as int) =~= Seq::<Token>::empty());
    assert(1u8 << 0u8 == 1u8) by (bit_vector);
    let rest = held.subrange(0, held_index);
    assert(rest =~= seq![group_flags(group)] + group_payload(group));
    assert(serialize(after) == front + seq![group_flags(group)] + group_payload(group));
    assert(written + rest =~= base + serialize(after));
    assert(fresh.subrange(1, 1) =~= Seq::<u8>::empty());
}

/// Emits the next token: puts it into the group buffer and, where that
/// makes the group full, writes the group to the sink and starts the next.
/// Returns the number of input bytes that the token stands for.
fn lzss_emit(
    sink: &mut Vec<u8>,
    code_buffer: &mut [u8; 17],
    code_index: &mut usize,
    mask: &mut u8,
    code_size: &mut u32,
    context: &LzssContext,
    r: u32,
    len: u32,
    Ghost(base): Ghost<Seq<u8>>,
    Ghost(tokens): Ghost<Seq<Token>>,
    Ghost(e): Ghost<Encoder>,
    Ghost(data): Ghost<Seq<u8>>,
) -> (last: u32)
    requires
        e.inv(data),
        e.len > 0,
        e.dict == context@,
        e.match_position == context.match_position,
        e.match_length == context.match_length,
        e.r == r,
        e.len == len,
        data.len() <= LZSS_MAX_INPUT,
        yield_total(tokens) == e.done(),
        emitting(
            old(sink)@,
            base,
            tokens,
            old(code_buffer)@,
            *old(code_index) as int,
            *old(mask),
            *old(code_size),
        ),
    ensures
        last == e.takes(),
        1 <= last <= len,
        yield_total(tokens.push(e.token())) == e.done() + e.takes(),
        emitting(
            final(sink)@,
            base,
            tokens.push(e.token()),
            final(code_buffer)@,
            *final(code_index) as int,
            *final(mask),
            *final(code_size),
        ),
{
    let ghost token = e.token();
    let ghost before = code_buffer@;
    let ghost before_index = *code_index as int;
    let ghost before_mask = *mask;
    proof {
        e.lemma_token(data);
        e.lemma_bounds(data);
        lemma_emitting_group(
            sink@,
            base,
            tokens,
            before,
            before_index,
            before_mask,
            *code_size,
        );
        assert(tokens.push(token).drop_last() =~= tokens);
    }
    let last = lzss_put_token(
        code_buffer,
        code_index,
        *mask,
        context,
        r,
        len,
        Ghost(open_group(tokens)),
        Ghost(e),
        Ghost(data),
    );
    *mask = *mask << 1u8;
    if *mask == 0 {
        let ghost held = code_buffer@;
        let ghost held_index = *code_index as int;
        let ghost written = sink@;
        sink.write_all(slice_subrange(code_buffer.as_slice(), 0, *code_index));
        *code_size += *code_index as u32;
        code_buffer[0] = 0;
        *mask = 1;
        *code_index = 1;
        proof {
            lemma_emitting_flushed(
                written,
                base,
                tokens,
                token,
                before,
                before_index,
                before_mask,
                *old(code_size),
                held,
                held_index,
                code_buffer@,
            );
        }
    } else {
        proof {
            lemma_emitting_kept(
                sink@,
                base,
                tokens,
                token,
                before,
                before_index,
                before_mask,
                *code_size,
                code_buffer@,
                *code_index as int,
            );
        }
    }
    last
}

/// What is still to be written of the tokens emitted so far: the group in
/// progress, as the buffer holds it, if it holds a token.
proof fn lemma_emitting_rest(
    written: Seq<u8>,
    base: Seq<u8>,
    tokens: Seq<Token>,
    buffer: Seq<u8>,
    code_index: int,
    mask: u8,
    code_size: u32,
)
    requires
        emitting(written, base, tokens, buffer, code_index, mask, code_size),
    ensures
        1 <= code_index <= 17,
        buffer.len() == 17,
        code_index > 1 ==> written + buffer.subrange(0, code_index) == base + serialize(tokens),
        code_index == 1 ==> written == base + serialize(tokens),
        serialize(tokens).len() == code_size + (if code_index > 1 {
            code_index
        } else {
            0
        }),
{
    reveal(emitting);
    let count = tokens.len();
    let cut = count - count % 8;
    let group = tokens.skip(cut);
    let front = serialize(tokens.take(cut));
    lemma_payload_len(group);
    if code_index > 1 {
        assert(count % 8 > 0);
        assert(cut == count - last_group_len(count));
        let rest = buffer.subrange(0, code_index);
        assert(rest =~= seq![group_flags(group)] + group_payload(group));
        assert(serialize(tokens) == front + seq![group_flags(group)] + group_payload(group));
        assert(written + rest =~= base + (front + seq![group_flags(group)] + group_payload(
            group,
        )));
    } else {
        assert(group.len() == 0);
        assert(tokens.take(cut) =~= tokens);
    }
}

/// Closes the block: writes the group in progress, if it holds a token, and
/// the checksum. Returns the length of the block.
fn lzss_finish(
    sink: &mut Vec<u8>,
    code_buffer: &[u8; 17],
    code_index: usize,
    mask: u8,
    code_size: u32,
    checksum: u32,
    Ghost(base): Ghost<Seq<u8>>,
    Ghost(tokens): Ghost<Seq<Token>>,
) -> (total: u32)
    requires
        yield_total(tokens) <= LZSS_MAX_INPUT,
        emitting(old(sink)@, base, tokens, code_buffer@, code_index as int, mask, code_size),
    ensures
        final(sink)@ == base + (serialize(tokens) + le_bytes(checksum)),
        total == (serialize(tokens) + le_bytes(checksum)).len(),
{
    let mut total = code_size;
    proof {
        lemma_emitting_rest(
            sink@,
            base,
            tokens,
            code_buffer@,
            code_index as int,
            mask,
            code_size,
        );
        lemma_serialize_bound(tokens);
    }
    if code_index > 1 {
        sink.write_all(slice_subrange(code_buffer.as_slice(), 0, code_index));
        total += code_index as u32;
    }
    let trailer: [u8; 4] = [
        (checksum % 0x100) as u8,
        (checksum / 0x100 % 0x100) as u8,
        (checksum / 0x1_0000 % 0x100) as u8,
        (checksum / 0x100_0000) as u8,
    ];
    sink.write_all(trailer.as_slice());
    assert(trailer@ =~= le_bytes(checksum));
    assert(sink@ =~= base + (serialize(tokens) + le_bytes(checksum)));
    total + 4
}

impl LzssCompressionWriteExt for Vec<u8> {
    fn write_lzss(&mut self, data: &[u8], signed_checksum: bool) -> (code_size: u32) {
        let ghost base = self@;
        let mut code_size: u32 = 0;
        let mut code_buffer: [u8; 17] = [0; 17];
        let mut mask: u8 = 1;
        let mut code_index: usize = 1;
        let mut s: u32 = 0;
        let mut r: u32 = LZSS_WINDOW_SIZE - LZSS_MATCH_MAX;
        let (mut context, mut len, mut data_index, mut checksum) = lzss_prime(
            data,
            signed_checksum,
        );
        let ghost mut tokens: Seq<Token> = Seq::empty();
        proof {
            lemma_round_trip(data@, signed_checksum, Seq::empty());
            assert(lzss_encode(data@, signed_checksum) + Seq::<u8>::empty() =~= lzss_encode(
                data@,
                signed_checksum,
            ));
            lemma_start(data@);
            start(data@).lemma_bounds(data@);
            start(data@).lemma_tokens_step(data@);
            lemma_emitting_first(base, code_buffer@);
            assert(tokens + start(data@).tokens(data@) =~= lzss_tokens(data@));
        }
        while len != 0
            invariant
                data@.len() <= LZSS_MAX_INPUT,
                state(context, r, s, len, data_index).inv(data@),
                tokens + state(context, r, s, len, data_index).tokens(data@) == lzss_tokens(
                    data@,
                ),
                yield_total(tokens) == state(context, r, s, len, data_index).done(),
                emitting(self@, base, tokens, code_buffer@, code_index as int, mask, code_size),
                checksum == lzss_checksum(
                    data@.take(data_index as int),
                    signed_checksum,
                ),
            decreases state(context, r, s, len, data_index).left(data@),
        {
            let ghost e = state(context, r, s, len, data_index);
            let last = lzss_emit(
                self,
                &mut code_buffer,
                &mut code_index,
                &mut mask,
                &mut code_size,
                &context,
                r,
                len,
                Ghost(base),
                Ghost(tokens),
                Ghost(e),
                Ghost(data@),
            );
            proof {
                e.lemma_tokens_step(data@);
                e.lemma_advance_done(data@, e.takes());
                assert(tokens.push(e.token()) + e.advance(data@, e.takes()).tokens(data@)
                    =~= tokens + e.tokens(data@));
                tokens = tokens.push(e.token());
            }
            lzss_advance(
                &mut context,
                &mut r,
                &mut s,
                &mut len,
                &mut data_index,
                &mut checksum,
                data,
                signed_checksum,
                last,
            );
        }
        proof {
            let e = state(context, r, s, len, data_index);
            e.lemma_tokens_step(data@);
            e.lemma_bounds(data@);
            assert(tokens =~= lzss_tokens(data@));
            assert(data@.take(data_index as int) =~= data@);
        }
        lzss_finish(
            self,
            &code_buffer,
            code_index,
            mask,
            code_size,
            checksum,
            Ghost(base),
            Ghost(tokens),
        )
    }
}

/// Before the first token, an untouched buffer and sink hold the tokens
/// emitted so far: none.
proof fn lemma_emitting_first(base: Seq<u8>, buffer: Seq<u8>)
    requires
        buffer.len() == 17,
        buffer[0] == 0,
    ensures
        emitting(base, base, Seq::empty(), buffer, 1, 1, 0),
{
    reveal(emitting);
    let tokens = Seq::<Token>::empty();
    assert(1u8 << 0u8 == 1u8) by (bit_vector);
    assert(tokens.skip(0) =~= tokens);
    assert(tokens.take(0) =~= tokens);
    assert(buffer.subrange(1, 1) =~= Seq::<u8>::empty());
    assert(base + serialize(tokens) =~= base);
}

} // verus!
