//! The compressor as a state machine over sequences: what it holds, how one
//! token follows from its state, why the tokens it emits expand to its
//! input, and why each match it uses is a longest one of its dictionary.

use crate::io::common::CodecError;
use crate::io::compression::lzss::format::{
    block, byte_sum, copy_run, expand, history, le_bytes, lemma_block_decodes, lemma_expand_concat,
    lemma_expand_len, lemma_payload_len, lemma_serialize_len, lemma_slot, lemma_slot_walk,
    lemma_window_push, lzss_block_len, lzss_checksum, lzss_decode, reference_distance,
    reference_length, serialize, slot, window_holds, wire_total, yield_total, Token,
    LZSS_BUFFER_SIZE, LZSS_FILL, LZSS_MATCH_MAX, LZSS_MATCH_THRESHOLD, LZSS_WINDOW_SIZE,
};
use crate::io::compression::lzss::order::{lemma_blank_ordered, reaches};
use crate::io::compression::lzss::tree::{
    agree_len, blank, common_prefix, lemma_blank, same_at, Dictionary,
};
use vstd::prelude::*;

verus! {

/// The state of the compressor between two steps.
pub struct Encoder {
    /// The window and the trees.
    pub dict: Dictionary,
    /// The node of the longest match found for the cursor.
    pub match_position: int,
    /// The length of that match.
    pub match_length: int,
    /// The cursor: the window position of the next byte to encode.
    pub r: int,
    /// The window position that the next input byte is written to.
    pub s: int,
    /// How many bytes from the cursor on are input not yet encoded.
    pub len: int,
    /// How many input bytes have been written to the window.
    pub loaded: int,
}

/// How many positions `x` lies behind the cursor `r`, circularly.
pub open spec fn behind(r: int, x: int) -> int {
    (r - x) % (LZSS_WINDOW_SIZE as int)
}

/// The window position after `i`.
pub open spec fn next(i: int) -> int {
    (i + 1) % (LZSS_WINDOW_SIZE as int)
}

/// Whether the window mirrors its first bytes behind its end.
pub open spec fn mirrored(text: Seq<u8>) -> bool {
    forall|j: int|
        0 <= j < LZSS_MATCH_MAX - 1 ==> #[trigger] text[LZSS_WINDOW_SIZE + j] == text[j]
}

/// The window with byte `c` at position `at`, and at its mirror where it
/// has one.
pub open spec fn stored(text: Seq<u8>, at: int, c: u8) -> Seq<u8> {
    if at < LZSS_MATCH_MAX - 1 {
        text.update(at, c).update(at + LZSS_WINDOW_SIZE, c)
    } else {
        text.update(at, c)
    }
}

/// Writing the next input byte to its slot, and to the mirror of the slot,
/// keeps the window in step with the input and mirrored.
pub proof fn lemma_stored_window(text: Seq<u8>, data: Seq<u8>, loaded: int)
    requires
        text.len() == LZSS_BUFFER_SIZE,
        0 <= loaded < data.len(),
        window_holds(text, data.take(loaded)),
        mirrored(text),
    ensures
        window_holds(stored(text, slot(loaded), data[loaded]), data.take(loaded + 1)),
        mirrored(stored(text, slot(loaded), data[loaded])),
        stored(text, slot(loaded), data[loaded]).len() == LZSS_BUFFER_SIZE,
{
    let c = data[loaded];
    let at = slot(loaded);
    let after = stored(text, at, c);
    let pushed = text.update(at, c);
    lemma_slot(loaded, 0);
    lemma_window_push(text, data.take(loaded), c);
    assert(data.take(loaded).push(c) =~= data.take(loaded + 1));
    assert forall|p: int| loaded + 1 - LZSS_WINDOW_SIZE <= p < loaded + 1 implies after[slot(p)]
        == #[trigger] history(data.take(loaded + 1), p) by {
        lemma_slot(p, 0);
        assert(pushed[slot(p)] == history(data.take(loaded + 1), p));
    }
    assert forall|j: int| 0 <= j < LZSS_MATCH_MAX - 1 implies #[trigger] after[LZSS_WINDOW_SIZE
        + j] == after[j] by {
        assert(text[LZSS_WINDOW_SIZE + j] == text[j]);
    }
}

/// How the distance behind the cursor behaves: it lies inside the window,
/// is zero for the cursor alone, tells positions apart, and grows by one as
/// the cursor moves on.
pub proof fn lemma_behind(r: int, x: int)
    requires
        0 <= r < LZSS_WINDOW_SIZE,
        0 <= x < LZSS_WINDOW_SIZE,
    ensures
        0 <= behind(r, x) < LZSS_WINDOW_SIZE,
        behind(r, x) == 0 <==> x == r,
        behind(r, x) == (r + LZSS_WINDOW_SIZE - x) % (LZSS_WINDOW_SIZE as int),
        0 <= next(r) < LZSS_WINDOW_SIZE,
        x != next(r) ==> behind(next(r), x) == behind(r, x) + 1,
        forall|y: int| 0 <= y < LZSS_WINDOW_SIZE && behind(r, y) == behind(r, x) ==> y == x,
{
}

/// The distance between two slots is the distance between their positions,
/// modulo the window size.
pub proof fn lemma_behind_slots(a: int, b: int)
    ensures
        behind(slot(a), slot(b)) == (a - b) % (LZSS_WINDOW_SIZE as int),
{
}

impl Encoder {
    /// How many input bytes have been encoded.
    pub open spec fn done(self) -> int {
        self.loaded - self.len
    }

    /// The state after `node` has been inserted and its match noted.
    pub open spec fn enter(self, node: int) -> Encoder {
        let found = self.dict.find(node, self.match_position);
        Encoder {
            dict: self.dict.insert(node, found),
            match_position: found.position,
            match_length: found.length,
            r: self.r,
            s: self.s,
            len: self.len,
            loaded: self.loaded,
        }
    }

    /// The state after the window has moved on by one byte, before the new
    /// cursor is inserted: the oldest position has left the trees and,
    /// while input remains, has taken the next input byte; where none
    /// remains, one byte less is left to encode.
    pub open spec fn moved(self, data: Seq<u8>) -> Encoder {
        let freed = self.dict.remove(self.s);
        if self.loaded < data.len() {
            Encoder {
                dict: freed.store(self.s, data[self.loaded]),
                match_position: self.match_position,
                match_length: self.match_length,
                r: next(self.r),
                s: next(self.s),
                len: self.len,
                loaded: self.loaded + 1,
            }
        } else {
            Encoder {
                dict: freed,
                match_position: self.match_position,
                match_length: self.match_length,
                r: next(self.r),
                s: next(self.s),
                len: self.len - 1,
                loaded: self.loaded,
            }
        }
    }

    /// The state after the window has moved on by one byte: the new cursor
    /// is inserted unless nothing is left to encode.
    pub open spec fn shift(self, data: Seq<u8>) -> Encoder {
        let moved = self.moved(data);
        if moved.len != 0 {
            moved.enter(moved.r)
        } else {
            moved
        }
    }

    /// The state after the window has moved on by `count` bytes.
    pub open spec fn advance(self, data: Seq<u8>, count: nat) -> Encoder
        decreases count,
    {
        if count == 0 {
            self
        } else {
            self.shift(data).advance(data, (count - 1) as nat)
        }
    }

    /// The match length, cut down to the input that is left.
    pub open spec fn run(self) -> int {
        if self.match_length > self.len {
            self.len
        } else {
            self.match_length
        }
    }

    /// How many input bytes the next token stands for.
    pub open spec fn takes(self) -> nat {
        if self.run() <= LZSS_MATCH_THRESHOLD {
            1
        } else {
            self.run() as nat
        }
    }

    /// The next token: a literal where the match is no longer than the
    /// threshold, else a reference to the match.
    pub open spec fn token(self) -> Token {
        if self.run() <= LZSS_MATCH_THRESHOLD {
            Token::Literal(self.dict.text[self.r])
        } else {
            let back = behind(self.r, self.match_position);
            Token::Reference(
                (back % 0x100) as u8,
                (back / 0x100 * 0x10 + (self.run() - LZSS_MATCH_THRESHOLD - 1)) as u8,
            )
        }
    }

    /// How many input bytes are still to encode.
    pub open spec fn left(self, data: Seq<u8>) -> int {
        if self.done() < data.len() {
            data.len() - self.done()
        } else {
            0
        }
    }

    /// The tokens that the compressor emits from this state on.
    pub open spec fn tokens(self, data: Seq<u8>) -> Seq<Token>
        decreases self.left(data),
    {
        if self.len <= 0 || self.done() >= data.len() {
            Seq::empty()
        } else {
            proof {
                self.lemma_advance_done(data, self.takes());
            }
            seq![self.token()] + self.advance(data, self.takes()).tokens(data)
        }
    }

    /// Each shift encodes one byte.
    pub proof fn lemma_advance_done(self, data: Seq<u8>, count: nat)
        ensures
            self.advance(data, count).done() == self.done() + count,
        decreases count,
    {
        if count > 0 {
            self.shift(data).lemma_advance_done(data, (count - 1) as nat);
        }
    }

    /// What holds of the window and the counters between two steps. The
    /// trees are well formed. The window holds the input that was written
    /// to it, each byte in its slot, and mirrors its first bytes behind its
    /// end. The cursor and the write position are the slots of the next
    /// byte to encode and of the next byte to load.
    pub open spec fn settled(self, data: Seq<u8>) -> bool {
        &&& self.dict.wf()
        &&& self.dict.text.len() == LZSS_BUFFER_SIZE
        &&& 0 <= self.len <= LZSS_MATCH_MAX
        &&& self.len <= self.loaded <= data.len()
        &&& self.loaded < data.len() ==> self.len == LZSS_MATCH_MAX
        &&& self.r == slot(self.done())
        &&& self.s == slot(self.done() + LZSS_MATCH_MAX)
        &&& window_holds(self.dict.text, data.take(self.loaded))
        &&& mirrored(self.dict.text)
    }

    /// Every node lies between `lo` and `hi` positions behind the cursor.
    pub open spec fn nodes_behind(self, lo: int, hi: int) -> bool {
        forall|x: int| #[trigger] self.dict.contains(x) ==> lo <= behind(self.r, x) <= hi
    }

    /// The match is of a length up to the longest and, where that is above
    /// zero, a position behind the cursor, within reach of a reference,
    /// that agrees with the cursor over that length.
    pub open spec fn match_behind(self) -> bool {
        &&& 0 <= self.match_length <= LZSS_MATCH_MAX
        &&& self.match_length > 0 ==> {
            &&& 0 <= self.match_position < LZSS_WINDOW_SIZE
            &&& 1 <= behind(self.r, self.match_position) <= LZSS_WINDOW_SIZE - LZSS_MATCH_MAX
            &&& common_prefix(self.dict.text, self.r, self.match_position, self.match_length)
        }
    }

    /// The window and the counters are settled, and no node lies further
    /// behind the cursor than a reference reaches.
    pub open spec fn calm(self, data: Seq<u8>) -> bool {
        &&& self.settled(data)
        &&& self.nodes_behind(0, LZSS_WINDOW_SIZE - LZSS_MATCH_MAX)
    }

    /// What holds between two steps: the state is calm and, while input is
    /// left, the match is a true one.
    #[verifier::opaque]
    pub open spec fn inv(self, data: Seq<u8>) -> bool {
        &&& self.calm(data)
        &&& self.len > 0 ==> self.match_behind()
    }

    /// Inserting the cursor, where every node lies behind it, gives a true
    /// match.
    pub proof fn lemma_enter(self, data: Seq<u8>, hi: int)
        requires
            self.settled(data),
            self.nodes_behind(1, hi),
            0 <= hi <= LZSS_WINDOW_SIZE - LZSS_MATCH_MAX,
        ensures
            self.enter(self.r).settled(data),
            self.enter(self.r).nodes_behind(0, hi),
            self.enter(self.r).match_behind(),
            self.enter(self.r).len == self.len,
            self.enter(self.r).loaded == self.loaded,
    {
        lemma_slot(self.done(), 0);
        assert(behind(self.r, self.r) == 0);
        self.dict.lemma_insert(self.r, self.match_position);
        let after = self.enter(self.r);
        assert forall|x: int| #[trigger] after.dict.contains(x) implies 0 <= behind(after.r, x)
            <= hi by {
            if x != self.r {
                assert(self.dict.contains(x));
            }
        }
        if after.match_length > 0 {
            assert(self.dict.contains(after.match_position));
        }
    }

    /// After the window has moved on by one byte, every node lies behind
    /// the new cursor.
    #[verifier::rlimit(20)]
    pub proof fn lemma_moved(self, data: Seq<u8>)
        requires
            self.calm(data),
            self.len > 0,
        ensures
            self.moved(data).settled(data),
            self.moved(data).nodes_behind(1, LZSS_WINDOW_SIZE - LZSS_MATCH_MAX),
            self.moved(data).done() == self.done() + 1,
            self.moved(data).len >= self.len - 1,
            self.dict.remove(self.s).wf(),
            !self.dict.remove(self.s).contains(self.s),
            0 <= self.s < LZSS_WINDOW_SIZE,
            0 <= self.moved(data).r < LZSS_WINDOW_SIZE,
            0 <= self.moved(data).s < LZSS_WINDOW_SIZE,
            !self.moved(data).dict.contains(self.moved(data).r),
    {
        let freed = self.dict.remove(self.s);
        let moved = self.moved(data);
        let r = next(self.r);
        self.dict.lemma_remove(self.s);
        lemma_slot(self.done(), 0);
        lemma_slot(self.done() + LZSS_MATCH_MAX, 0);
        lemma_slot(self.done() + 1, 0);
        lemma_slot(self.done() + 1 + LZSS_MATCH_MAX, 0);
        lemma_behind_slots(self.done(), self.done() + LZSS_MATCH_MAX);
        lemma_behind(r, r);
        if self.loaded < data.len() {
            freed.lemma_store(self.s, data[self.loaded]);
            lemma_stored_window(self.dict.text, data, self.loaded);
        }
        assert forall|x: int| #[trigger] moved.dict.contains(x) implies 1 <= behind(r, x)
            <= LZSS_WINDOW_SIZE - LZSS_MATCH_MAX by {
            assert(freed.contains(x));
            assert(self.dict.contains(x));
            lemma_behind(self.r, x);
            lemma_behind(self.r, self.s);
        }
    }

    /// One shift leads to a state in which all holds that holds between two
    /// steps.
    pub proof fn lemma_shift(self, data: Seq<u8>)
        requires
            self.calm(data),
            self.len > 0,
        ensures
            self.shift(data).inv(data),
            self.shift(data).done() == self.done() + 1,
            self.shift(data).len >= self.len - 1,
    {
        reveal(Encoder::inv);
        self.lemma_moved(data);
        let moved = self.moved(data);
        if moved.len != 0 {
            moved.lemma_enter(data, LZSS_WINDOW_SIZE - LZSS_MATCH_MAX);
        }
    }

    /// Shifting by no more bytes than are left to encode keeps what holds
    /// between two steps.
    pub proof fn lemma_advance(self, data: Seq<u8>, count: nat)
        requires
            self.calm(data),
            count <= self.len,
            count == 0 ==> self.inv(data),
        ensures
            self.advance(data, count).inv(data),
            self.advance(data, count).done() == self.done() + count,
        decreases count,
    {
        reveal(Encoder::inv);
        if count > 0 {
            self.lemma_shift(data);
            self.shift(data).lemma_advance(data, (count - 1) as nat);
        }
    }

    /// The next token stands for the bytes that are next to encode: it is
    /// no longer than what is left, and applied to the input encoded so far
    /// it gives the input up to the end of what it stands for. A reference
    /// is to a run that stands in the input, or in the fill before it.
    pub proof fn lemma_token(self, data: Seq<u8>)
        requires
            self.inv(data),
            self.len > 0,
        ensures
            1 <= self.takes() <= self.len,
            self.token().yield_len() == self.takes(),
            self.token().apply(data.take(self.done())) == data.take(self.done() + self.takes()),
            self.token() is Literal ==> self.token() == Token::Literal(data[self.done()]),
            self.token() is Reference ==> recurs(
                data,
                self.done(),
                behind(self.r, self.match_position),
                self.takes() as int,
            ) && 1 <= behind(self.r, self.match_position) <= LZSS_WINDOW_SIZE - LZSS_MATCH_MAX
                && 0 <= self.match_position < LZSS_WINDOW_SIZE && LZSS_MATCH_THRESHOLD
                < self.match_length <= LZSS_MATCH_MAX,
            self.token() is Literal <==> self.run() <= LZSS_MATCH_THRESHOLD,
    {
        reveal(Encoder::inv);
        let at = self.done();
        let text = self.dict.text;
        let out = data.take(self.loaded);
        lemma_slot(at, 0);
        if self.run() <= LZSS_MATCH_THRESHOLD {
            assert(text[slot(at)] == history(out, at));
            assert(data.take(at).push(data[at]) =~= data.take(at + 1));
        } else {
            let back = behind(self.r, self.match_position);
            let count = self.run();
            let b0 = (back % 0x100) as u8;
            let b1 = (back / 0x100 * 0x10 + (count - LZSS_MATCH_THRESHOLD - 1)) as u8;
            assert(reference_distance(b0, b1) == back);
            assert(reference_length(b1) == count);
            lemma_behind_slots(at, at - back);
            lemma_slot(at - back, 0);
            lemma_behind(self.r, self.match_position);
            lemma_behind(self.r, slot(at - back));
            assert(self.match_position == slot(at - back));
            assert forall|p: int| at <= p < at + count implies #[trigger] echo(data, p, back) by {
                let i = p - at;
                assert(same_at(text, self.r, self.match_position, i));
                lemma_window_flat(text, out, at, i);
                lemma_window_flat(text, out, at - back, i);
            }
            lemma_copy_matches(data, at, back, count as nat);
        }
    }

    /// What holds between two steps bounds the counters: the cursor and the
    /// write position lie in the window, at most `LZSS_MATCH_MAX` bytes are
    /// left in it to encode, and input is left to encode exactly while
    /// some is left in the window.
    pub proof fn lemma_bounds(self, data: Seq<u8>)
        requires
            self.inv(data),
        ensures
            self.calm(data),
            0 <= self.r < LZSS_WINDOW_SIZE,
            0 <= self.s < LZSS_WINDOW_SIZE,
            0 <= self.len <= LZSS_MATCH_MAX,
            self.len <= self.loaded <= data.len(),
            0 <= self.done() <= data.len(),
            self.len > 0 <==> self.done() < data.len(),
            self.len == 0 ==> self.loaded == data.len(),
    {
        reveal(Encoder::inv);
        lemma_slot(self.done(), 0);
        lemma_slot(self.done() + LZSS_MATCH_MAX, 0);
    }

    /// While input is left, the tokens from a state on are the next token
    /// and the tokens from the state after it on; when none is left, there
    /// are no more tokens.
    pub proof fn lemma_tokens_step(self, data: Seq<u8>)
        requires
            self.inv(data),
        ensures
            self.len > 0 ==> self.tokens(data) == seq![self.token()] + self.advance(
                data,
                self.takes(),
            ).tokens(data),
            self.len > 0 ==> self.advance(data, self.takes()).left(data) < self.left(data),
            self.len == 0 ==> self.tokens(data) == Seq::<Token>::empty(),
    {
        self.lemma_bounds(data);
        self.lemma_advance_done(data, self.takes());
    }

    /// The tokens emitted from a state on, applied to the input encoded so
    /// far, give the whole input.
    pub proof fn lemma_tokens_expand(self, data: Seq<u8>)
        requires
            self.inv(data),
        ensures
            expand(data.take(self.done()), self.tokens(data)) == data,
        decreases self.left(data),
    {
        reveal(Encoder::inv);
        if self.len <= 0 || self.done() >= data.len() {
            assert(data.take(self.done()) =~= data);
        } else {
            let token = self.token();
            let after = self.advance(data, self.takes());
            self.lemma_token(data);
            self.lemma_advance(data, self.takes());
            after.lemma_tokens_expand(data);
            let out = data.take(self.done());
            lemma_expand_concat(out, seq![token], after.tokens(data));
            assert(seq![token].drop_last() =~= Seq::<Token>::empty());
            assert(seq![token].last() == token);
            assert(expand(out, Seq::<Token>::empty()) == out);
            assert(expand(out, seq![token]) == token.apply(out));
        }
    }
}

/// Whether the byte at position `at` of `data` equals the byte `distance`
/// places before it, where the places before the start hold the fill byte.
pub open spec fn echo(data: Seq<u8>, at: int, distance: int) -> bool {
    history(data.take(at), at - distance) == data[at]
}

/// Whether the `count` bytes of `data` from `at` on repeat the bytes
/// `distance` places before them.
pub open spec fn recurs(data: Seq<u8>, at: int, distance: int, count: int) -> bool {
    &&& 0 <= at
    &&& at + count <= data.len()
    &&& forall|p: int| at <= p < at + count ==> #[trigger] echo(data, p, distance)
}

/// Copying a run that repeats the bytes `distance` places before it
/// reproduces the input.
pub proof fn lemma_copy_matches(data: Seq<u8>, at: int, distance: int, count: nat)
    requires
        recurs(data, at, distance, count as int),
    ensures
        copy_run(data.take(at), distance, count) == data.take(at + count),
    decreases count,
{
    if count > 0 {
        assert(echo(data, at, distance));
        assert(data.take(at).push(data[at]) =~= data.take(at + 1));
        assert forall|p: int| at + 1 <= p < at + count implies #[trigger] echo(
            data,
            p,
            distance,
        ) by {}
        lemma_copy_matches(data, at + 1, distance, (count - 1) as nat);
    }
}

/// Reading the window straight on from a slot, into the mirror where the
/// window ends, gives the bytes of the positions that follow.
pub proof fn lemma_window_flat(text: Seq<u8>, out: Seq<u8>, at: int, i: int)
    requires
        text.len() == LZSS_BUFFER_SIZE,
        window_holds(text, out),
        forall|j: int|
            0 <= j < LZSS_MATCH_MAX - 1 ==> #[trigger] text[LZSS_WINDOW_SIZE + j] == text[j],
        0 <= i < LZSS_MATCH_MAX,
        out.len() - LZSS_WINDOW_SIZE <= at + i < out.len(),
    ensures
        0 <= slot(at) + i < LZSS_BUFFER_SIZE,
        text[slot(at) + i] == history(out, at + i),
{
    lemma_slot(at, 0);
    lemma_slot_walk(at, i);
    assert(text[slot(at + i)] == history(out, at + i));
    let flat = slot(at) + i;
    if flat >= LZSS_WINDOW_SIZE {
        assert(text[LZSS_WINDOW_SIZE + (flat - LZSS_WINDOW_SIZE)] == text[flat
            - LZSS_WINDOW_SIZE]);
    }
}

/// The window before the first step: fill bytes, with the first bytes of
/// the input, up to `LZSS_MATCH_MAX` of them, at the cursor.
pub open spec fn first_window(data: Seq<u8>) -> Seq<u8> {
    Seq::new(
        LZSS_BUFFER_SIZE as nat,
        |i: int|
            if LZSS_WINDOW_SIZE - LZSS_MATCH_MAX <= i < LZSS_WINDOW_SIZE - LZSS_MATCH_MAX
                + data.len() && i < LZSS_WINDOW_SIZE {
                data[i - (LZSS_WINDOW_SIZE - LZSS_MATCH_MAX)]
            } else {
                LZSS_FILL
            },
    )
}

/// How many bytes of the input are in the window before the first step.
pub open spec fn first_load(data: Seq<u8>) -> int {
    if data.len() < LZSS_MATCH_MAX {
        data.len() as int
    } else {
        LZSS_MATCH_MAX as int
    }
}

/// The state with the first bytes of the input in the window and no node.
pub open spec fn loaded_state(data: Seq<u8>) -> Encoder {
    Encoder {
        dict: blank(first_window(data)),
        match_position: 0,
        match_length: 0,
        r: LZSS_WINDOW_SIZE - LZSS_MATCH_MAX,
        s: 0,
        len: first_load(data),
        loaded: first_load(data),
    }
}

/// The state after the positions from `k` to `LZSS_MATCH_MAX` places before
/// the cursor have been inserted, nearest first, and then the cursor.
pub open spec fn warm(e: Encoder, k: int) -> Encoder
    decreases LZSS_MATCH_MAX + 1 - k,
{
    if k > LZSS_MATCH_MAX || k < 1 {
        e.enter(e.r)
    } else {
        warm(e.enter(e.r - k), k + 1)
    }
}

/// The state before the first step: the window holds the first bytes of
/// the input, and the trees hold the `LZSS_MATCH_MAX` positions before the
/// cursor, which begin in the fill, and the cursor.
pub open spec fn start(data: Seq<u8>) -> Encoder {
    warm(loaded_state(data), 1)
}

/// The tokens that the compressor emits for `data`.
pub open spec fn lzss_tokens(data: Seq<u8>) -> Seq<Token> {
    start(data).tokens(data)
}

/// The block that the compressor writes for `data`: its tokens, and the
/// checksum of `data`.
pub open spec fn lzss_encode(data: Seq<u8>, signed: bool) -> Seq<u8> {
    serialize(lzss_tokens(data)) + le_bytes(lzss_checksum(data, signed))
}

/// Inserting the position `k` places before the cursor, where every node
/// lies fewer places behind it, leaves every node at most `k` places behind
/// it.
pub proof fn lemma_warm_step(e: Encoder, data: Seq<u8>, k: int)
    requires
        e.settled(data),
        e.done() == 0,
        1 <= k <= LZSS_MATCH_MAX,
        e.nodes_behind(1, k - 1),
    ensures
        0 <= e.r - k < LZSS_WINDOW_SIZE,
        !e.dict.contains(e.r - k),
        e.enter(e.r - k).settled(data),
        e.enter(e.r - k).done() == 0,
        e.enter(e.r - k).nodes_behind(1, k),
{
    lemma_slot(0, 0);
    let node = e.r - k;
    lemma_behind(e.r, node);
    e.dict.lemma_insert(node, e.match_position);
    let after = e.enter(node);
    assert forall|x: int| #[trigger] after.dict.contains(x) implies 1 <= behind(after.r, x)
        <= k by {
        if x != node {
            assert(e.dict.contains(x));
        }
    }
}

/// Inserting the positions before the cursor leads to a state in which all
/// holds that holds between two steps.
pub proof fn lemma_warm(e: Encoder, data: Seq<u8>, k: int)
    requires
        e.settled(data),
        e.done() == 0,
        1 <= k <= LZSS_MATCH_MAX + 1,
        e.nodes_behind(1, k - 1),
    ensures
        warm(e, k).inv(data),
        warm(e, k).done() == 0,
    decreases LZSS_MATCH_MAX + 1 - k,
{
    reveal(Encoder::inv);
    lemma_slot(0, 0);
    if k > LZSS_MATCH_MAX {
        e.lemma_enter(data, k - 1);
    } else {
        lemma_warm_step(e, data, k);
        lemma_warm(e.enter(e.r - k), data, k + 1);
    }
}

/// With the first bytes of the input loaded, the window and the counters
/// are settled, and there is no node.
pub proof fn lemma_loaded(data: Seq<u8>)
    ensures
        loaded_state(data).settled(data),
        loaded_state(data).done() == 0,
        loaded_state(data).nodes_behind(1, 0),
{
    let e = loaded_state(data);
    let text = first_window(data);
    lemma_blank(text);
    lemma_slot(0, 0);
    lemma_slot(LZSS_MATCH_MAX as int, 0);
    assert forall|at: int| e.loaded - LZSS_WINDOW_SIZE <= at < e.loaded implies text[slot(at)]
        == #[trigger] history(data.take(e.loaded), at) by {
        lemma_slot(at, 0);
    }
}

/// Before the first step all holds that holds between two steps.
pub proof fn lemma_start(data: Seq<u8>)
    ensures
        start(data).inv(data),
        start(data).done() == 0,
{
    reveal(Encoder::inv);
    lemma_loaded(data);
    lemma_warm(loaded_state(data), data, 1);
}

/// The tokens emitted for an input expand to that input.
pub proof fn lemma_tokens_sound(data: Seq<u8>)
    ensures
        expand(Seq::empty(), lzss_tokens(data)) == data,
        yield_total(lzss_tokens(data)) == data.len(),
{
    lemma_start(data);
    start(data).lemma_tokens_expand(data);
    assert(data.take(0) =~= Seq::<u8>::empty());
    lemma_expand_len(Seq::empty(), lzss_tokens(data));
}

/// Round trip: the block written for `data` decodes to `data`, for the
/// length of `data` and the same way of summing, whatever follows the block
/// in the stream; and decoding takes up exactly the block.
pub proof fn lemma_round_trip(data: Seq<u8>, signed: bool, rest: Seq<u8>)
    ensures
        lzss_decode(lzss_encode(data, signed) + rest, data.len(), signed) == Ok::<
            Seq<u8>,
            CodecError,
        >(data),
        lzss_block_len(lzss_encode(data, signed) + rest, data.len()) == lzss_encode(
            data,
            signed,
        ).len(),
{
    lemma_tokens_sound(data);
    lemma_block_decodes(lzss_tokens(data), signed, rest);
}

/// A block is at most one eighth longer than its input, rounded up, and
/// four bytes.
pub proof fn lemma_encode_bound(data: Seq<u8>, signed: bool)
    ensures
        4 <= lzss_encode(data, signed).len() <= data.len() + (data.len() + 7) / 8 + 4,
{
    lemma_tokens_sound(data);
    lemma_serialize_len(lzss_tokens(data));
    lemma_payload_len(lzss_tokens(data));
}

/// The block for no input is the checksum of no bytes: four zero bytes.
pub proof fn lemma_encode_nothing(signed: bool)
    ensures
        lzss_tokens(Seq::empty()) == Seq::<Token>::empty(),
        lzss_encode(Seq::empty(), signed) == seq![0u8, 0u8, 0u8, 0u8],
{
    let data = Seq::<u8>::empty();
    assert(start(data).tokens(data) == Seq::<Token>::empty()) by {
        lemma_start(data);
        start(data).lemma_bounds(data);
        start(data).lemma_tokens_step(data);
    }
    assert(serialize(Seq::<Token>::empty()) =~= Seq::<u8>::empty());
    assert(byte_sum(data, signed) == 0);
    assert(lzss_encode(data, signed) =~= seq![0u8, 0u8, 0u8, 0u8]);
}

/// Whether no three bytes of `data` repeat the three bytes that stand a
/// distance within reach of a reference before them, in `data` or in the
/// fill before it.
pub open spec fn incompressible(data: Seq<u8>) -> bool {
    forall|at: int, distance: int|
        1 <= distance <= LZSS_WINDOW_SIZE - LZSS_MATCH_MAX ==> !#[trigger] recurs(
            data,
            at,
            distance,
            LZSS_MATCH_THRESHOLD + 1,
        )
}

/// The tokens that give each byte of `data` as a literal.
pub open spec fn literal_tokens(data: Seq<u8>) -> Seq<Token> {
    Seq::new(data.len(), |i: int| Token::Literal(data[i]))
}

impl Encoder {
    /// Where nothing repeats, every token from a state on is a literal.
    pub proof fn lemma_tokens_literal(self, data: Seq<u8>)
        requires
            self.inv(data),
            incompressible(data),
        ensures
            self.tokens(data) == literal_tokens(data).skip(self.done()),
        decreases self.left(data),
    {
        self.lemma_bounds(data);
        self.lemma_tokens_step(data);
        if self.len > 0 {
            let after = self.advance(data, self.takes());
            self.lemma_token(data);
            if self.token() is Reference {
                let back = behind(self.r, self.match_position);
                assert(recurs(data, self.done(), back, LZSS_MATCH_THRESHOLD + 1)) by {
                    assert forall|p: int|
                        self.done() <= p < self.done() + LZSS_MATCH_THRESHOLD
                            + 1 implies #[trigger] echo(data, p, back) by {}
                }
            }
            self.lemma_advance(data, self.takes());
            after.lemma_tokens_literal(data);
            assert(seq![self.token()] + literal_tokens(data).skip(self.done() + 1)
                =~= literal_tokens(data).skip(self.done()));
        } else {
            assert(literal_tokens(data).skip(self.done()) =~= Seq::<Token>::empty());
        }
    }
}

/// Incompressible input: where nothing repeats, the block holds each byte
/// of the input as a literal, under one flag byte for each eight bytes, and
/// the checksum: it is one eighth longer than the input, rounded up, and
/// four bytes.
pub proof fn lemma_incompressible(data: Seq<u8>, signed: bool)
    requires
        incompressible(data),
    ensures
        lzss_tokens(data) == literal_tokens(data),
        lzss_encode(data, signed) == serialize(literal_tokens(data)) + le_bytes(
            lzss_checksum(data, signed),
        ),
        lzss_encode(data, signed).len() == data.len() + (data.len() + 7) / 8 + 4,
{
    lemma_start(data);
    start(data).lemma_tokens_literal(data);
    assert(literal_tokens(data).skip(0) =~= literal_tokens(data));
    lemma_serialize_len(literal_tokens(data));
    lemma_literal_wire(data);
}

/// Literals take one byte each on the wire.
pub proof fn lemma_literal_wire(data: Seq<u8>)
    ensures
        wire_total(literal_tokens(data)) == data.len(),
    decreases data.len(),
{
    if data.len() > 0 {
        lemma_literal_wire(data.drop_last());
        assert(literal_tokens(data).drop_last() =~= literal_tokens(data.drop_last()));
    }
}

impl Encoder {
    /// Whether the match is a longest one: no node but the cursor that
    /// begins with the byte at the cursor agrees with the cursor over more
    /// places than the match length.
    pub open spec fn sharp(self) -> bool {
        forall|y: int|
            self.dict.contains(y) && y != self.r && self.dict.text[y] == self.dict.text[self.r]
                ==> #[trigger] agree_len(self.dict.text, self.r, y, 1) <= self.match_length
    }

    /// Inserting the cursor into ordered trees, where every node lies
    /// behind it, keeps them ordered and gives a longest match.
    pub proof fn lemma_enter_sharp(self, data: Seq<u8>, hi: int)
        requires
            self.settled(data),
            self.nodes_behind(1, hi),
            0 <= hi <= LZSS_WINDOW_SIZE - LZSS_MATCH_MAX,
            self.dict.is_ordered(),
        ensures
            self.enter(self.r).dict.is_ordered(),
            self.enter(self.r).sharp(),
    {
        lemma_slot(self.done(), 0);
        lemma_behind(self.r, self.r);
        self.dict.lemma_insert(self.r, self.match_position);
        self.dict.lemma_insert_ordered(self.r, self.match_position);
        let after = self.enter(self.r);
        assert forall|y: int|
            after.dict.contains(y) && y != after.r && after.dict.text[y]
                == after.dict.text[after.r] implies #[trigger] agree_len(
            after.dict.text,
            after.r,
            y,
            1,
        ) <= after.match_length by {
            assert(self.dict.contains(y));
        }
    }

    /// One shift keeps ordered trees ordered, and gives a longest match
    /// while input is left.
    pub proof fn lemma_shift_sharp(self, data: Seq<u8>)
        requires
            self.calm(data),
            self.len > 0,
            self.dict.is_ordered(),
        ensures
            self.shift(data).dict.is_ordered(),
            self.shift(data).len > 0 ==> self.shift(data).sharp(),
    {
        let freed = self.dict.remove(self.s);
        let moved = self.moved(data);
        self.lemma_moved(data);
        self.dict.lemma_remove(self.s);
        self.dict.lemma_remove_ordered(self.s);
        if self.loaded < data.len() {
            lemma_slot(self.done(), 0);
            lemma_slot(self.done() + LZSS_MATCH_MAX, 0);
            lemma_behind_slots(self.done(), self.done() + LZSS_MATCH_MAX);
            assert forall|x: int, k: int|
                freed.contains(x) && 0 <= k < LZSS_MATCH_MAX implies !#[trigger] reaches(
                x,
                k,
                self.s,
            ) by {
                assert(self.dict.contains(x));
                lemma_behind(self.r, x);
                lemma_behind(self.r, self.s);
                if reaches(x, k, self.s) {
                    lemma_reach(self.r, self.s, x, k);
                }
            }
            freed.lemma_store_keeps_order(self.s, data[self.loaded]);
        }
        if moved.len != 0 {
            moved.lemma_enter_sharp(data, LZSS_WINDOW_SIZE - LZSS_MATCH_MAX);
        }
    }
}

/// A key that reaches the write position, or its mirror, starts at the
/// write position or less than `LZSS_MATCH_MAX` places before it: as far
/// behind the cursor as the write position, or further.
pub proof fn lemma_reach(r: int, s: int, x: int, k: int)
    requires
        0 <= r < LZSS_WINDOW_SIZE,
        0 <= s < LZSS_WINDOW_SIZE,
        0 <= x < LZSS_WINDOW_SIZE,
        0 <= k < LZSS_MATCH_MAX,
        behind(r, s) == LZSS_WINDOW_SIZE - LZSS_MATCH_MAX,
        reaches(x, k, s),
    ensures
        behind(r, x) == LZSS_WINDOW_SIZE - LZSS_MATCH_MAX + k,
{
}

/// The state after `k` steps of the compressor: each step emits a token
/// and moves the window on by the bytes that the token stands for.
pub open spec fn run(data: Seq<u8>, k: nat) -> Encoder
    decreases k,
{
    if k == 0 {
        start(data)
    } else {
        let e = run(data, (k - 1) as nat);
        if e.len > 0 {
            e.advance(data, e.takes())
        } else {
            e
        }
    }
}

/// Inserting the first positions into ordered trees keeps them ordered,
/// and ends with a longest match.
pub proof fn lemma_warm_sharp(e: Encoder, data: Seq<u8>, k: int)
    requires
        e.settled(data),
        e.done() == 0,
        1 <= k <= LZSS_MATCH_MAX + 1,
        e.nodes_behind(1, k - 1),
        e.dict.is_ordered(),
    ensures
        warm(e, k).dict.is_ordered(),
        warm(e, k).sharp(),
    decreases LZSS_MATCH_MAX + 1 - k,
{
    lemma_slot(0, 0);
    if k > LZSS_MATCH_MAX {
        e.lemma_enter_sharp(data, k - 1);
    } else {
        lemma_warm_step(e, data, k);
        e.dict.lemma_insert_ordered(e.r - k, e.match_position);
        lemma_warm_sharp(e.enter(e.r - k), data, k + 1);
    }
}

/// Greedy choice: in every state that the compressor passes through, all
/// holds that holds between two steps, the trees are ordered by their keys
/// and, while input is left, the match is a longest one.
pub proof fn lemma_run(data: Seq<u8>, k: nat)
    ensures
        run(data, k).inv(data),
        run(data, k).dict.is_ordered(),
        run(data, k).len > 0 ==> run(data, k).sharp(),
    decreases k,
{
    if k == 0 {
        lemma_start(data);
        lemma_loaded(data);
        let first = loaded_state(data);
        lemma_blank(first_window(data));
        lemma_blank_ordered(first.dict);
        lemma_warm_sharp(first, data, 1);
    } else {
        let e = run(data, (k - 1) as nat);
        lemma_run(data, (k - 1) as nat);
        if e.len > 0 {
            e.lemma_token(data);
            e.lemma_bounds(data);
            e.lemma_advance_sharp(data, e.takes());
        }
    }
}

impl Encoder {
    /// Shifting by no more bytes than are left to encode keeps ordered
    /// trees ordered, and ends with a longest match while input is left.
    pub proof fn lemma_advance_sharp(self, data: Seq<u8>, count: nat)
        requires
            self.calm(data),
            1 <= count <= self.len,
            self.dict.is_ordered(),
        ensures
            self.advance(data, count).inv(data),
            self.advance(data, count).dict.is_ordered(),
            self.advance(data, count).len > 0 ==> self.advance(data, count).sharp(),
        decreases count,
    {
        reveal(Encoder::inv);
        self.lemma_shift(data);
        self.lemma_shift_sharp(data);
        if count > 1 {
            self.shift(data).lemma_advance_sharp(data, (count - 1) as nat);
        } else {
            assert(self.advance(data, 1) == self.shift(data)) by {
                reveal_with_fuel(Encoder::advance, 2);
            }
        }
    }
}

/// The tokens of a block are the tokens of the states that the compressor
/// passes through: while input is left in the state after `k` steps, token
/// `k` of the block is the token of that state, and the tokens from that
/// state on are the tokens of the block from `k` on.
pub proof fn lemma_run_tokens(data: Seq<u8>, k: nat)
    ensures
        k <= lzss_tokens(data).len() ==> run(data, k).tokens(data) == lzss_tokens(data).skip(
            k as int,
        ),
        k > lzss_tokens(data).len() ==> run(data, k).len == 0,
        run(data, k).len > 0 ==> k < lzss_tokens(data).len() && lzss_tokens(data)[k as int]
            == run(data, k).token(),
    decreases k,
{
    let all = lzss_tokens(data);
    let now = run(data, k);
    lemma_run(data, k);
    now.lemma_tokens_step(data);
    if k == 0 {
        assert(all.skip(0) =~= all);
    } else {
        let e = run(data, (k - 1) as nat);
        lemma_run_tokens(data, (k - 1) as nat);
        lemma_run(data, (k - 1) as nat);
        e.lemma_tokens_step(data);
        assert(now == (if e.len > 0 {
            e.advance(data, e.takes())
        } else {
            e
        }));
        if k - 1 < all.len() {
            assert(all.skip(k - 1).len() > 0);
            assert(e.len > 0);
            let rest = seq![e.token()] + now.tokens(data);
            assert(rest.skip(1) =~= now.tokens(data));
            assert(all.skip(k - 1).skip(1) =~= all.skip(k as int));
        } else if k - 1 == all.len() {
            // no token is left: nothing is left to encode
            assert(e.tokens(data).len() == 0);
            assert(e.len > 0 ==> (seq![e.token()] + now.tokens(data)).len() > 0);
            e.lemma_bounds(data);
        }
    }
    if now.len > 0 {
        let rest = seq![now.token()] + now.advance(data, now.takes()).tokens(data);
        assert(rest[0] == now.token());
        assert(rest.len() > 0);
        assert(all.skip(k as int).len() == all.len() - k);
    }
}

} // verus!
