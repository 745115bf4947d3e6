//! The windowed word buffer: a byte store of fixed capacity, three cursors
//! into it, and the compaction that keeps the window moving.
//!
//! The buffer does no I/O. Its owner appends bytes from the source with
//! [`InputBuffer::fill`] whenever a scan reports [`BufferError::BufferExhausted`]
//! (compaction frees room at the end of the store for that), and calls
//! [`InputBuffer::end_input`] once the source has no more bytes.

use vstd::prelude::*;
use crate::words::{
    after_word, consumed, has_word, is_separator, lemma_run_len, run_len, scan_extent,
    word_end, word_of, word_start, SEPARATOR,
};

verus! {

/// What can go wrong while building or driving the buffer.
#[derive(Debug, Clone, Copy, PartialEq, Eq, Structural)]
pub enum BufferError {
    /// The construction parameters are invalid.
    ConfigurationError,
    /// Fewer bytes are resident ahead of the scan cursor than the operation
    /// needs; the owner may append more and try again.
    BufferExhausted,
    /// A rewind would move the scan cursor before the start of the word.
    InvalidRewind,
    /// A single lookahead asked for more than the configured maximum.
    LookaheadTooLarge,
    /// The input has ended and no word is left in it.
    EndOfInput,
    /// The byte source failed while the owner was refilling the buffer.
    SourceReadError,
}

/// How many bytes were dropped from the front of the store between `old`
/// and `new`.
pub open spec fn dropped(old: BufferView, new: BufferView) -> int {
    old.store.len() - new.store.len()
}

/// The threshold offset: `num / den` of `size`, rounded to the nearest
/// integer with halves rounded up.
pub open spec fn rounded_threshold(num: nat, den: nat, size: nat) -> nat {
    let p = num * size;
    if 2 * (p % den) >= den {
        p / den + 1
    } else {
        p / den
    }
}

/// Whether construction with these parameters succeeds: positive sizes, a
/// lookahead no larger than the capacity, a fraction strictly between 0 and
/// 1, and a threshold that falls inside the store.
pub open spec fn valid_config(buffer_size: nat, max_lookahead_size: nat, num: nat, den: nat) -> bool {
    &&& buffer_size > 0
    &&& max_lookahead_size > 0
    &&& max_lookahead_size <= buffer_size
    &&& 0 < num < den
    &&& rounded_threshold(num, den, buffer_size) < buffer_size
}

/// The abstract state of an [`InputBuffer`].
pub struct BufferView {
    /// The resident bytes, from the start of the store.
    pub store: Seq<u8>,
    /// The fixed capacity of the store.
    pub capacity: nat,
    pub word_head: nat,
    pub word_tail: nat,
    pub next: nat,
    pub max_lookahead: nat,
    pub threshold: nat,
    /// Whether the owner has reported that the source has no more bytes.
    pub at_end: bool,
}

impl BufferView {
    pub open spec fn wf(self) -> bool {
        &&& self.word_head <= self.word_tail <= self.store.len()
        &&& self.word_head <= self.next <= self.store.len()
        &&& self.store.len() <= self.capacity
        &&& 0 < self.capacity <= u32::MAX
        &&& 0 < self.max_lookahead <= self.capacity
        &&& self.threshold < self.capacity
    }

    /// The resident bytes that the scan cursor has not consumed yet.
    pub open spec fn rest(self) -> Seq<u8> {
        self.store.subrange(self.next as int, self.store.len() as int)
    }

    /// The bytes of the current word.
    pub open spec fn word(self) -> Seq<u8> {
        self.store.subrange(self.word_head as int, self.word_tail as int)
    }

    /// The state after compaction: the bytes before `word_head` are dropped
    /// and every cursor moves left by that many.
    pub open spec fn compacted(self) -> BufferView {
        BufferView {
            store: self.store.skip(self.word_head as int),
            word_head: 0,
            word_tail: (self.word_tail - self.word_head) as nat,
            next: (self.next - self.word_head) as nat,
            ..self
        }
    }

    /// The state after a successful `lookahead(step)`: the scan cursor moves
    /// `step` bytes on, and the store is compacted when the cursor reaches
    /// the threshold.
    pub open spec fn looked_ahead(self, step: nat) -> BufferView {
        let moved = BufferView { next: self.next + step, ..self };
        if moved.next >= self.threshold {
            moved.compacted()
        } else {
            moved
        }
    }

    /// The state after a successful `back(step)`.
    pub open spec fn backed(self, step: nat) -> BufferView {
        BufferView { next: (self.next - step) as nat, ..self }
    }

    /// The resident bytes from the start of the current word on: what
    /// compaction keeps.
    pub open spec fn live(self) -> Seq<u8> {
        self.store.subrange(self.word_head as int, self.store.len() as int)
    }

    /// The same configuration: capacity, lookahead bound, threshold and
    /// end-of-input flag.
    pub open spec fn same_config(self, other: BufferView) -> bool {
        &&& self.capacity == other.capacity
        &&& self.max_lookahead == other.max_lookahead
        &&& self.threshold == other.threshold
        &&& self.at_end == other.at_end
    }
}

/// A fixed-capacity byte window over an input stream that reports one word
/// at a time.
pub struct InputBuffer {
    buffer: Vec<u8>,
    buffer_size: usize,
    word_head: usize,
    word_tail: usize,
    next: usize,
    max_lookahead_size: usize,
    threshold: usize,
    at_end: bool,
}

impl View for InputBuffer {
    type V = BufferView;

    closed spec fn view(&self) -> BufferView {
        BufferView {
            store: self.buffer@,
            capacity: self.buffer_size as nat,
            word_head: self.word_head as nat,
            word_tail: self.word_tail as nat,
            next: self.next as nat,
            max_lookahead: self.max_lookahead_size as nat,
            threshold: self.threshold as nat,
            at_end: self.at_end,
        }
    }
}

impl InputBuffer {
    /// Builds an empty buffer of `buffer_size` bytes whose compaction
    /// threshold is `threshold_num / threshold_den` of the capacity, rounded
    /// to the nearest byte.
    pub fn new(buffer_size: u32, max_lookahead_size: usize, threshold_num: u32, threshold_den: u32) -> (r: Result<InputBuffer, BufferError>)
        ensures
            r is Ok <==> valid_config(buffer_size as nat, max_lookahead_size as nat, threshold_num as nat, threshold_den as nat),
            r is Err ==> r == Err::<InputBuffer, BufferError>(BufferError::ConfigurationError),
            r matches Ok(b) ==> b@ == (BufferView {
                store: seq![],
                capacity: buffer_size as nat,
                word_head: 0,
                word_tail: 0,
                next: 0,
                max_lookahead: max_lookahead_size as nat,
                threshold: rounded_threshold(threshold_num as nat, threshold_den as nat, buffer_size as nat),
                at_end: false,
            }),
    {
        let size = buffer_size as usize;
        if buffer_size == 0 || max_lookahead_size == 0 || max_lookahead_size > size
            || threshold_num == 0 || threshold_num >= threshold_den {
            return Err(BufferError::ConfigurationError);
        }
        let num = threshold_num as u64;
        let den = threshold_den as u64;
        assert(num * (buffer_size as u64) <= 0xffff_fffe_0000_0001u64) by (nonlinear_arith)
            requires
                num <= 0xffff_ffffu64,
                buffer_size <= 0xffff_ffffu32,
        ;
        let p: u64 = num * (buffer_size as u64);
        let q: u64 = p / den;
        let rem: u64 = p % den;
        assert(q <= p) by (nonlinear_arith)
            requires
                den > 0,
                q == p / den,
        ;
        let threshold: u64 = if 2 * rem >= den {
            q + 1
        } else {
            q
        };
        if threshold >= buffer_size as u64 {
            return Err(BufferError::ConfigurationError);
        }
        Ok(InputBuffer {
            buffer: Vec::with_capacity(size),
            buffer_size: size,
            word_head: 0,
            word_tail: 0,
            next: 0,
            max_lookahead_size,
            threshold: threshold as usize,
            at_end: false,
        })
    }
}

impl InputBuffer {
    /// Rewinds the scan cursor by `step` bytes, un-consuming them. A rewind
    /// past the start of the current word is refused.
    pub fn back(&mut self, step: usize) -> (r: Result<(), BufferError>)
        requires
            old(self)@.wf(),
        ensures
            r is Ok <==> step <= old(self)@.next - old(self)@.word_head,
            r is Ok ==> final(self)@ == old(self)@.backed(step as nat),
            r is Err ==> r == Err::<(), BufferError>(BufferError::InvalidRewind) && final(self)@ == old(self)@,
            final(self)@.wf(),
    {
        if step > self.next - self.word_head {
            return Err(BufferError::InvalidRewind);
        }
        self.next = self.next - step;
        Ok(())
    }

    /// Compaction: drops the bytes before the current word, moves the live
    /// bytes to the start of the store and shifts every cursor left by the
    /// same amount. The room this frees at the end of the store is for
    /// [`InputBuffer::fill`].
    pub fn flush(&mut self)
        requires
            old(self)@.wf(),
        ensures
            final(self)@ == old(self)@.compacted(),
            final(self)@.wf(),
    {
        let gap = self.word_head;
        let len = self.buffer.len();
        let mut moved: Vec<u8> = Vec::with_capacity(self.buffer_size);
        let mut i: usize = gap;
        while i < len
            invariant
                gap <= i <= len,
                len == self.buffer@.len(),
                moved@ == self.buffer@.subrange(gap as int, i as int),
            decreases len - i,
        {
            moved.push(self.buffer[i]);
            i = i + 1;
        }
        self.buffer = moved;
        self.word_head = 0;
        self.word_tail = self.word_tail - gap;
        self.next = self.next - gap;
        assert(self.buffer@ =~= old(self)@.store.skip(gap as int));
    }

    /// Consumes the next `step` bytes and returns them. When the cursor
    /// reaches the threshold the store is compacted first; the bytes are read
    /// at their shifted place. One lookahead takes at most
    /// `max_lookahead_size` bytes.
    pub fn lookahead(&mut self, step: usize) -> (r: Result<Vec<u8>, BufferError>)
        requires
            old(self)@.wf(),
        ensures
            final(self)@.wf(),
            step > old(self)@.max_lookahead ==> r == Err::<Vec<u8>, BufferError>(BufferError::LookaheadTooLarge),
            step <= old(self)@.max_lookahead && step > old(self)@.rest().len()
                ==> r == Err::<Vec<u8>, BufferError>(BufferError::BufferExhausted),
            r is Err ==> final(self)@ == old(self)@,
            r is Ok <==> step <= old(self)@.max_lookahead && step <= old(self)@.rest().len(),
            r matches Ok(bytes) ==> bytes@ == old(self)@.rest().take(step as int)
                && final(self)@ == old(self)@.looked_ahead(step as nat),
    {
        if step > self.max_lookahead_size {
            return Err(BufferError::LookaheadTooLarge);
        }
        if step > self.buffer.len() - self.next {
            return Err(BufferError::BufferExhausted);
        }
        let ghost before = self@;
        self.next = self.next + step;
        if self.next >= self.threshold {
            self.flush();
        }
        let start = self.next - step;
        let mut bytes: Vec<u8> = Vec::with_capacity(step);
        let mut i: usize = 0;
        while i < step
            invariant
                start + step == self.next,
                self.next <= self.buffer@.len(),
                bytes@ == self.buffer@.subrange(start as int, start + i),
                i <= step,
            decreases step - i,
        {
            bytes.push(self.buffer[start + i]);
            i = i + 1;
        }
        assert(bytes@ =~= before.rest().take(step as int));
        Ok(bytes)
    }

    /// Appends bytes from the source behind the resident ones, as many as fit
    /// in the store, and returns how many were taken.
    pub fn fill(&mut self, data: &[u8]) -> (n: usize)
        requires
            old(self)@.wf(),
        ensures
            n as int == if data@.len() <= old(self)@.capacity - old(self)@.store.len() {
                data@.len() as int
            } else {
                old(self)@.capacity - old(self)@.store.len()
            },
            final(self)@ == (BufferView { store: old(self)@.store + data@.take(n as int), ..old(self)@ }),
            final(self)@.wf(),
    {
        let room = self.buffer_size - self.buffer.len();
        let n: usize = if data.len() <= room {
            data.len()
        } else {
            room
        };
        let mut i: usize = 0;
        while i < n
            invariant
                n <= data@.len(),
                n <= room,
                room == self.buffer_size - old(self).buffer@.len(),
                i <= n,
                self.buffer@ == old(self).buffer@ + data@.take(i as int),
                self.buffer_size == old(self).buffer_size,
                self.word_head == old(self).word_head,
                self.word_tail == old(self).word_tail,
                self.next == old(self).next,
                self.max_lookahead_size == old(self).max_lookahead_size,
                self.threshold == old(self).threshold,
                self.at_end == old(self).at_end,
            decreases n - i,
        {
            self.buffer.push(data[i]);
            i = i + 1;
            assert(self.buffer@ =~= old(self).buffer@ + data@.take(i as int));
        }
        n
    }

    /// Records that the source has no more bytes: a word that runs to the
    /// end of the resident bytes is then complete.
    pub fn end_input(&mut self)
        requires
            old(self)@.wf(),
        ensures
            final(self)@ == (BufferView { at_end: true, ..old(self)@ }),
            final(self)@.wf(),
    {
        self.at_end = true;
    }
}

/// Compaction changes no reported content: the unread bytes and the bytes
/// of the current word are the same before and after it, so the words that
/// later scans report are those that a store too large to need compaction
/// would report.
pub proof fn lemma_compaction_preserves_words(v: BufferView)
    requires
        v.wf(),
    ensures
        v.compacted().wf(),
        v.compacted().same_config(v),
        v.compacted().rest() == v.rest(),
        v.compacted().word() == v.word(),
        v.compacted().live() == v.live(),
        v.compacted().word_head == 0,
{
    let c = v.compacted();
    assert(c.rest() =~= v.rest());
    assert(c.word() =~= v.word());
    assert(c.live() =~= v.live());
}

/// A lookahead of `k` bytes followed by a rewind of `k` bytes is always
/// allowed and gives back the same unread bytes and the same current word.
/// Where the lookahead did not move the window (the cursor stayed below the
/// threshold, or the word already started the store), the state is exactly
/// the one before.
pub proof fn lemma_lookahead_then_back(v: BufferView, k: nat)
    requires
        v.wf(),
        k <= v.max_lookahead,
        k <= v.rest().len(),
    ensures
        k <= v.looked_ahead(k).next - v.looked_ahead(k).word_head,
        v.looked_ahead(k).backed(k).wf(),
        v.looked_ahead(k).backed(k).rest() == v.rest(),
        v.looked_ahead(k).backed(k).word() == v.word(),
        v.next + k < v.threshold || v.word_head == 0 ==> v.looked_ahead(k).backed(k) == v,
{
    lemma_looked_ahead(v, k);
    let l = v.looked_ahead(k);
    let b = l.backed(k);
    assert(b.rest() =~= v.rest()) by {
        assert(b.live() == v.live());
        assert(b.next - b.word_head == v.next - v.word_head);
    }
    assert(b.word() =~= v.word()) by {
        assert(b.live() == v.live());
        assert(b.word_tail - b.word_head == v.word_tail - v.word_head);
    }
    if v.word_head == 0 {
        assert(v.store.skip(0) =~= v.store);
    }
}

/// What a scan relies on of one successful lookahead.
proof fn lemma_looked_ahead(v: BufferView, step: nat)
    requires
        v.wf(),
        step <= v.rest().len(),
    ensures
        v.looked_ahead(step).wf(),
        v.looked_ahead(step).same_config(v),
        v.looked_ahead(step).live() == v.live(),
        v.looked_ahead(step).rest() == v.rest().skip(step as int),
        v.looked_ahead(step).word_tail - v.looked_ahead(step).word_head == v.word_tail - v.word_head,
        v.looked_ahead(step).next - v.looked_ahead(step).word_head == v.next - v.word_head + step,
        v.looked_ahead(step).store.len() - v.looked_ahead(step).next == v.store.len() - v.next - step,
        v.looked_ahead(step).store.len() <= v.store.len(),
        v.looked_ahead(step).store == v.store.skip(dropped(v, v.looked_ahead(step))),
        v.next + step < v.threshold ==> v.looked_ahead(step).store == v.store,
{
    let moved = BufferView { next: v.next + step, ..v };
    assert(moved.rest() =~= v.rest().skip(step as int));
    lemma_compaction_preserves_words(moved);
    assert(v.store.skip(0) =~= v.store);
}

/// A position of `v` whose bytes onward are those of `o`'s unread bytes from
/// `off` on stands at `o.next + off` in `o`'s store.
proof fn lemma_position(o: BufferView, v: BufferView, pos: nat, off: nat)
    requires
        o.next <= o.store.len(),
        pos <= v.store.len(),
        off <= o.rest().len(),
        v.store.subrange(pos as int, v.store.len() as int) == o.rest().skip(off as int),
    ensures
        pos + dropped(o, v) == o.next + off,
{
    assert(v.store.subrange(pos as int, v.store.len() as int).len() == v.store.len() - pos);
}

/// Dropping a prefix of a store that is itself a suffix of `o` leaves a
/// suffix of `o`.
proof fn lemma_suffix_trans(o: Seq<u8>, b: Seq<u8>, a: Seq<u8>)
    requires
        b.len() <= o.len(),
        b == o.skip(o.len() - b.len()),
        a.len() <= b.len(),
        a == b.skip(b.len() - a.len()),
    ensures
        a == o.skip(o.len() - a.len()),
{
    assert(a =~= o.skip(o.len() - a.len()));
}

impl InputBuffer {
    /// Scans the next word: skips separators, takes the maximal run of
    /// non-separator bytes after them as the current word, and leaves the
    /// scan cursor on the first byte after the separators that follow it.
    /// Returns the word's bounds in the store.
    ///
    /// A word that runs to the end of the resident bytes is complete only
    /// once the input has ended; before that the scan reports
    /// `BufferExhausted`, having consumed only the leading separators. With
    /// the input ended and no word left, it reports `EndOfInput`.
    pub fn advance(&mut self) -> (r: Result<(usize, usize), BufferError>)
        requires
            old(self)@.wf(),
        ensures
            final(self)@.wf(),
            final(self)@.same_config(old(self)@),
            r is Ok <==> has_word(old(self)@.rest(), old(self)@.at_end),
            r matches Ok((h, t)) ==> h == final(self)@.word_head && t == final(self)@.word_tail
                && final(self)@.word() == word_of(old(self)@.rest())
                && final(self)@.rest() == after_word(old(self)@.rest()),
            r == Err::<(usize, usize), BufferError>(BufferError::EndOfInput)
                <==> old(self)@.at_end && !has_word(old(self)@.rest(), true),
            r == Err::<(usize, usize), BufferError>(BufferError::BufferExhausted)
                <==> !old(self)@.at_end && !has_word(old(self)@.rest(), false),
            r is Err ==> final(self)@.rest() == old(self)@.rest().skip(word_start(old(self)@.rest()) as int)
                && final(self)@.word().len() == 0,
            // the store loses at most a prefix, and is untouched when the
            // scan stays below the threshold
            dropped(old(self)@, final(self)@) >= 0,
            final(self)@.store == old(self)@.store.skip(dropped(old(self)@, final(self)@)),
            old(self)@.next + scan_extent(old(self)@.rest(), old(self)@.at_end) < old(self)@.threshold
                ==> final(self)@.store == old(self)@.store,
            // where the cursors land, counted in the old store
            r is Ok ==> final(self)@.word_head + dropped(old(self)@, final(self)@)
                    == old(self)@.next + word_start(old(self)@.rest())
                && final(self)@.word_tail + dropped(old(self)@, final(self)@)
                    == old(self)@.next + word_end(old(self)@.rest())
                && final(self)@.next + dropped(old(self)@, final(self)@)
                    == old(self)@.next + consumed(old(self)@.rest())
                && final(self)@.word_tail <= final(self)@.next,
            r is Err ==> final(self)@.word_head + dropped(old(self)@, final(self)@)
                    == old(self)@.next + word_start(old(self)@.rest())
                && final(self)@.word_tail == final(self)@.word_head
                && final(self)@.next == final(self)@.word_head,
    {
        let ghost s = self@.rest();
        let ghost mut reach: int = self.next as int;
        self.word_head = self.next;
        self.word_tail = self.next;
        assert(self@.live() =~= s);
        // Skip the separators before the word.
        loop
            invariant
                self@.wf(),
                self@.same_config(old(self)@),
                s == old(self)@.rest(),
                old(self)@.wf(),
                self@.store.len() <= old(self)@.store.len(),
                self@.store == old(self)@.store.skip(dropped(old(self)@, self@)),
                reach <= self.next + dropped(old(self)@, self@) + 1,
                reach <= old(self)@.store.len(),
                reach < old(self)@.threshold ==> self@.store == old(self)@.store,
                self@.live() == s,
                self.word_tail == self.word_head,
                forall|j: int| 0 <= j < self.next - self.word_head ==> is_separator(#[trigger] s[j]),
            ensures
                self.next - self.word_head < s.len(),
                !is_separator(s[self.next - self.word_head]),
            decreases self.buffer@.len() - self.next,
        {
            if self.next == self.buffer.len() {
                proof {
                    lemma_run_len(s, true, s.len());
                }
                self.word_head = self.next;
                self.word_tail = self.next;
                assert(self@.rest() =~= s.skip(s.len() as int));
                proof {
                    lemma_position(old(self)@, self@, self.word_head as nat, s.len());
                }
                if self.at_end {
                    return Err(BufferError::EndOfInput);
                } else {
                    return Err(BufferError::BufferExhausted);
                }
            }
            proof {
                lemma_looked_ahead(self@, 1);
            }
            let ghost before = self@;
            let ghost c = self.next - self.word_head;
            let bytes = match self.lookahead(1) {
                Ok(b) => b,
                Err(e) => {
                    return Err(e);
                },
            };
            proof {
                lemma_suffix_trans(old(self)@.store, before.store, self@.store);
                let pos = self.next + dropped(old(self)@, self@);
                if pos > reach {
                    reach = pos;
                }
            }
            assert(bytes@[0] == s[c]);
            if bytes[0] != SEPARATOR {
                let _ = self.back(1);
                break;
            }
        }
        let ghost a = (self.next - self.word_head) as nat;
        proof {
            lemma_run_len(s, true, a);
        }
        self.word_head = self.next;
        self.word_tail = self.next;
        let ghost s1 = self@.live();
        assert(s1 =~= s.skip(a as int));
        // Take the word.
        loop
            invariant_except_break
                self.word_tail == self.word_head,
                forall|j: int| 0 <= j < self.next - self.word_head ==> !is_separator(#[trigger] s1[j]),
            invariant
                self@.wf(),
                self@.same_config(old(self)@),
                s == old(self)@.rest(),
                old(self)@.wf(),
                self@.store.len() <= old(self)@.store.len(),
                self@.store == old(self)@.store.skip(dropped(old(self)@, self@)),
                reach <= self.next + dropped(old(self)@, self@) + 1,
                reach <= old(self)@.store.len(),
                reach < old(self)@.threshold ==> self@.store == old(self)@.store,
                self@.live() == s1,
                s1 == s.skip(a as int),
                a == word_start(s),
                a < s.len(),
                !is_separator(s1[0]),
            ensures
                self@.wf(),
                self@.same_config(old(self)@),
                s == old(self)@.rest(),
                old(self)@.wf(),
                self@.store.len() <= old(self)@.store.len(),
                self@.store == old(self)@.store.skip(dropped(old(self)@, self@)),
                reach <= self.next + dropped(old(self)@, self@) + 1,
                reach <= old(self)@.store.len(),
                reach < old(self)@.threshold ==> self@.store == old(self)@.store,
                self@.live() == s1,
                self.word_tail < self.next,
                is_separator(s1[self.word_tail - self.word_head]),
                self.next - self.word_head == self.word_tail - self.word_head + 1,
                forall|j: int| 0 <= j < self.word_tail - self.word_head ==> !is_separator(#[trigger] s1[j]),
            decreases self.buffer@.len() - self.next,
        {
            if self.next == self.buffer.len() {
                proof {
                    lemma_run_len(s1, false, s1.len());
                    assert(s.skip(a as int) == s1);
                }
                if self.at_end {
                    self.word_tail = self.next;
                    assert(self@.word() =~= word_of(s));
                    assert(self@.rest() =~= after_word(s));
                    proof {
                        assert(word_end(s) == s.len());
                        lemma_position(old(self)@, self@, self.word_head as nat, a);
                        assert(self@.rest() =~= s.skip(s.len() as int));
                        lemma_position(old(self)@, self@, self.next as nat, s.len());
                    }
                    return Ok((self.word_head, self.word_tail));
                } else {
                    self.next = self.word_head;
                    assert(self@.rest() =~= s.skip(a as int));
                    proof {
                        lemma_position(old(self)@, self@, self.word_head as nat, a);
                    }
                    return Err(BufferError::BufferExhausted);
                }
            }
            proof {
                lemma_looked_ahead(self@, 1);
            }
            let ghost before = self@;
            let ghost c = self.next - self.word_head;
            let bytes = match self.lookahead(1) {
                Ok(b) => b,
                Err(e) => {
                    return Err(e);
                },
            };
            proof {
                lemma_suffix_trans(old(self)@.store, before.store, self@.store);
                let pos = self.next + dropped(old(self)@, self@);
                if pos > reach {
                    reach = pos;
                }
            }
            assert(bytes@[0] == s1[c]);
            if bytes[0] == SEPARATOR {
                self.word_tail = self.next - 1;
                break;
            }
        }
        let ghost k = (self.word_tail - self.word_head) as nat;
        proof {
            lemma_run_len(s1, false, k);
        }
        // Skip the separators after the word.
        loop
            invariant
                self@.wf(),
                self@.same_config(old(self)@),
                s == old(self)@.rest(),
                old(self)@.wf(),
                self@.store.len() <= old(self)@.store.len(),
                self@.store == old(self)@.store.skip(dropped(old(self)@, self@)),
                reach <= self.next + dropped(old(self)@, self@) + 1,
                reach <= old(self)@.store.len(),
                reach < old(self)@.threshold ==> self@.store == old(self)@.store,
                self@.live() == s1,
                s1 == s.skip(a as int),
                a == word_start(s),
                a < s.len(),
                k == run_len(s1, false),
                self.word_tail - self.word_head == k,
                k < self.next - self.word_head,
                forall|j: int| k <= j < self.next - self.word_head ==> is_separator(#[trigger] s1[j]),
            decreases self.buffer@.len() - self.next,
        {
            let ghost m = (self.next - self.word_head - k) as nat;
            let ghost u = s1.skip(k as int);
            if self.next == self.buffer.len() {
                proof {
                    assert forall|j: int| 0 <= j < m implies is_separator(#[trigger] u[j]) by {
                        assert(u[j] == s1[k + j]);
                    }
                    lemma_run_len(u, true, m);
                    assert(u =~= s.skip((a + k) as int));
                    assert(word_end(s) == a + k);
                }
                assert(self@.word() =~= word_of(s));
                assert(self@.rest() =~= after_word(s));
                proof {
                    lemma_position(old(self)@, self@, self.word_head as nat, a);
                    assert(self@.rest() =~= s.skip(s.len() as int));
                    lemma_position(old(self)@, self@, self.next as nat, s.len());
                }
                return Ok((self.word_head, self.word_tail));
            }
            proof {
                lemma_looked_ahead(self@, 1);
            }
            let ghost before = self@;
            let bytes = match self.lookahead(1) {
                Ok(b) => b,
                Err(e) => {
                    return Err(e);
                },
            };
            proof {
                lemma_suffix_trans(old(self)@.store, before.store, self@.store);
                let pos = self.next + dropped(old(self)@, self@);
                if pos > reach {
                    reach = pos;
                }
            }
            assert(bytes@[0] == s1[(k + m) as int]);
            if bytes[0] != SEPARATOR {
                let _ = self.back(1);
                proof {
                    assert forall|j: int| 0 <= j < m implies is_separator(#[trigger] u[j]) by {
                        assert(u[j] == s1[k + j]);
                    }
                    assert(u[m as int] == s1[(k + m) as int]);
                    lemma_run_len(u, true, m);
                    assert(u =~= s.skip((a + k) as int));
                    assert(word_end(s) == a + k);
                    assert(self@.rest() =~= s1.skip((k + m) as int));
                    assert(s1.skip((k + m) as int) =~= s.skip((a + k + m) as int));
                    lemma_position(old(self)@, self@, self.word_head as nat, a);
                    lemma_position(old(self)@, self@, self.next as nat, a + k + m);
                }
                assert(self@.word() =~= word_of(s));
                assert(self@.rest() =~= after_word(s));
                return Ok((self.word_head, self.word_tail));
            }
        }
    }
}

impl InputBuffer {
    /// The bytes of the current word.
    pub fn word(&self) -> (r: Vec<u8>)
        requires
            self@.wf(),
        ensures
            r@ == self@.word(),
    {
        let mut out: Vec<u8> = Vec::with_capacity(self.word_tail - self.word_head);
        let mut i: usize = self.word_head;
        while i < self.word_tail
            invariant
                self.word_head <= i <= self.word_tail,
                self.word_tail <= self.buffer@.len(),
                out@ == self.buffer@.subrange(self.word_head as int, i as int),
            decreases self.word_tail - i,
        {
            out.push(self.buffer[i]);
            i = i + 1;
        }
        out
    }

    /// The capacity of the byte store, in bytes.
    pub fn buffer_size(&self) -> (r: usize)
        ensures
            r == self@.capacity,
    {
        self.buffer_size
    }

    /// The capacity that the byte store's allocation has now; at least the
    /// number of resident bytes.
    pub fn capacity(&self) -> (r: usize)
        ensures
            r >= self@.store.len(),
    {
        allocated(&self.buffer)
    }

    /// How many more bytes [`InputBuffer::fill`] can take now.
    pub fn free_space(&self) -> (r: usize)
        requires
            self@.wf(),
        ensures
            r == self@.capacity - self@.store.len(),
    {
        self.buffer_size - self.buffer.len()
    }

    pub fn max_lookahead_size(&self) -> (r: usize)
        ensures
            r == self@.max_lookahead,
    {
        self.max_lookahead_size
    }

    /// The offset at which the scan cursor triggers compaction.
    pub fn threshold(&self) -> (r: usize)
        ensures
            r == self@.threshold,
    {
        self.threshold
    }

    pub fn word_head(&self) -> (r: usize)
        ensures
            r == self@.word_head,
    {
        self.word_head
    }

    pub fn word_tail(&self) -> (r: usize)
        ensures
            r == self@.word_tail,
    {
        self.word_tail
    }

    /// The scan cursor.
    pub fn next(&self) -> (r: usize)
        ensures
            r == self@.next,
    {
        self.next
    }

    /// Whether the owner has reported the end of the input.
    pub fn input_ended(&self) -> (r: bool)
        ensures
            r == self@.at_end,
    {
        self.at_end
    }
}

/// Relies on `Vec::capacity`: the number of elements the vector can hold
/// without reallocating, never less than its length.
#[verifier::external_body]
fn allocated(v: &Vec<u8>) -> (r: usize)
    ensures
        r >= v@.len(),
{
    v.capacity()
}

impl InputBuffer {
    /// Compacts the store so that the owner can refill it, and returns the
    /// room there is then. When even after compaction the current word fills
    /// the whole store no byte can be taken, and the buffer reports
    /// `BufferExhausted`.
    pub fn make_room(&mut self) -> (r: Result<usize, BufferError>)
        requires
            old(self)@.wf(),
        ensures
            final(self)@ == old(self)@.compacted(),
            final(self)@.wf(),
            r is Ok <==> final(self)@.store.len() < final(self)@.capacity,
            r matches Ok(n) ==> n == final(self)@.capacity - final(self)@.store.len(),
            r is Err ==> r == Err::<usize, BufferError>(BufferError::BufferExhausted),
    {
        self.flush();
        let room = self.buffer_size - self.buffer.len();
        if room == 0 {
            Err(BufferError::BufferExhausted)
        } else {
            Ok(room)
        }
    }
}

} // verus!
