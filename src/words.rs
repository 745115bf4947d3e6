//! Words over raw bytes: what the scanner reports, stated over sequences.

use vstd::prelude::*;

verus! {

/// The byte that separates words.
pub const SEPARATOR: u8 = 32;

pub open spec fn is_separator(b: u8) -> bool {
    b == SEPARATOR
}

/// Length of the longest prefix of `s` whose bytes are all separators
/// (when `sep`) or all non-separators (when `!sep`).
pub open spec fn run_len(s: Seq<u8>, sep: bool) -> nat
    decreases s.len(),
{
    if s.len() > 0 && is_separator(s[0]) == sep {
        1 + run_len(s.drop_first(), sep)
    } else {
        0
    }
}

/// Offset of the first byte of the next word.
pub open spec fn word_start(s: Seq<u8>) -> nat {
    run_len(s, true)
}

/// Offset just past the last byte of the next word.
pub open spec fn word_end(s: Seq<u8>) -> nat {
    word_start(s) + run_len(s.skip(word_start(s) as int), false)
}

/// The next word of `s`: the first maximal run of non-separator bytes.
pub open spec fn word_of(s: Seq<u8>) -> Seq<u8> {
    s.subrange(word_start(s) as int, word_end(s) as int)
}

/// What is left of `s` once its next word and the separators after it are
/// consumed.
pub open spec fn after_word(s: Seq<u8>) -> Seq<u8> {
    s.skip((word_end(s) + run_len(s.skip(word_end(s) as int), true)) as int)
}

/// How many bytes of `s` one scan consumes: the next word and the
/// separators around it.
pub open spec fn consumed(s: Seq<u8>) -> nat {
    (s.len() - after_word(s).len()) as nat
}

/// How far into `s` one scan reads: when the scan stops on the first byte
/// of the following word it has read that byte too and stepped back over
/// it; otherwise it reads to the end of `s`.
pub open spec fn scan_extent(s: Seq<u8>, at_end: bool) -> nat {
    if has_word(s, at_end) && consumed(s) < s.len() {
        consumed(s) + 1
    } else {
        s.len()
    }
}

/// Whether `s` holds a complete word: one that is followed by a separator,
/// or that runs to the end of `s` when no more input follows.
pub open spec fn has_word(s: Seq<u8>, at_end: bool) -> bool {
    word_start(s) < s.len() && (word_end(s) < s.len() || at_end)
}

/// The first `n` words reported by successive scans of `s`.
pub open spec fn scan_words(s: Seq<u8>, n: nat) -> Seq<Seq<u8>>
    decreases n,
{
    if n == 0 {
        seq![]
    } else {
        seq![word_of(s)] + scan_words(after_word(s), (n - 1) as nat)
    }
}

/// The input after `n` successive scans of `s`.
pub open spec fn scan_rest(s: Seq<u8>, n: nat) -> Seq<u8>
    decreases n,
{
    if n == 0 {
        s
    } else {
        scan_rest(after_word(s), (n - 1) as nat)
    }
}

/// A word as the scanner reports it: non-empty, with no separator in it.
pub open spec fn is_word(w: Seq<u8>) -> bool {
    w.len() > 0 && forall|j: int| 0 <= j < w.len() ==> !is_separator(#[trigger] w[j])
}

/// The words of `ws` written one after another with one separator between
/// neighbours.
pub open spec fn join(ws: Seq<Seq<u8>>) -> Seq<u8>
    decreases ws.len(),
{
    if ws.len() == 0 {
        seq![]
    } else if ws.len() == 1 {
        ws[0]
    } else {
        ws[0] + seq![SEPARATOR] + join(ws.drop_first())
    }
}

/// A prefix of `n` bytes that all match `sep`, followed by the end of `s` or
/// a byte that does not, is the run that `run_len` measures.
pub proof fn lemma_run_len(s: Seq<u8>, sep: bool, n: nat)
    requires
        n <= s.len(),
        forall|j: int| 0 <= j < n ==> is_separator(#[trigger] s[j]) == sep,
        n == s.len() || is_separator(s[n as int]) != sep,
    ensures
        run_len(s, sep) == n,
    decreases n,
{
    if n > 0 {
        let t = s.drop_first();
        assert forall|j: int| 0 <= j < n - 1 implies is_separator(#[trigger] t[j]) == sep by {
            assert(t[j] == s[j + 1]);
        }
        if n < s.len() {
            assert(t[n - 1] == s[n as int]);
        }
        lemma_run_len(t, sep, (n - 1) as nat);
        assert(is_separator(s[0]) == sep);
    }
}

/// A join of words starts with the first byte of its first word.
proof fn lemma_join_first(ws: Seq<Seq<u8>>)
    requires
        ws.len() > 0,
        is_word(ws[0]),
    ensures
        join(ws).len() > 0,
        join(ws)[0] == ws[0][0],
{
    if ws.len() > 1 {
        assert((ws[0] + seq![SEPARATOR] + join(ws.drop_first()))[0] == ws[0][0]);
    }
}

/// One scan of joined words reports the first of them and leaves the join
/// of the others.
proof fn lemma_scan_join_once(ws: Seq<Seq<u8>>)
    requires
        ws.len() > 0,
        forall|i: int| 0 <= i < ws.len() ==> is_word(#[trigger] ws[i]),
    ensures
        has_word(join(ws), true),
        word_of(join(ws)) == ws[0],
        after_word(join(ws)) == join(ws.drop_first()),
{
    let s = join(ws);
    let w = ws[0];
    assert(is_word(w));
    lemma_join_first(ws);
    lemma_run_len(s, true, 0);
    assert(s.skip(0) =~= s);
    if ws.len() == 1 {
        assert forall|j: int| 0 <= j < s.len() implies !is_separator(#[trigger] s[j]) by {
            assert(s[j] == w[j]);
        }
        lemma_run_len(s, false, s.len());
        assert(word_of(s) =~= w);
        lemma_run_len(s.skip(s.len() as int), true, 0);
        assert(after_word(s) =~= join(ws.drop_first()));
    } else {
        let rest = join(ws.drop_first());
        assert(is_word(ws.drop_first()[0]));
        lemma_join_first(ws.drop_first());
        assert forall|j: int| 0 <= j < w.len() implies !is_separator(#[trigger] s[j]) by {
            assert(s[j] == w[j]);
        }
        assert(s[w.len() as int] == SEPARATOR);
        lemma_run_len(s, false, w.len());
        assert(word_of(s) =~= w);
        let u = s.skip(w.len() as int);
        assert(u[0] == SEPARATOR);
        assert(u[1] == rest[0]);
        lemma_run_len(u, true, 1);
        assert(after_word(s) =~= rest);
    }
}

/// Successive scans of words written with one separator between
/// neighbours report exactly those words, in order, each scan finding a
/// complete word; after the last, nothing is left.
pub proof fn lemma_scan_joined_words(ws: Seq<Seq<u8>>)
    requires
        forall|i: int| 0 <= i < ws.len() ==> is_word(#[trigger] ws[i]),
    ensures
        scan_words(join(ws), ws.len()) == ws,
        scan_rest(join(ws), ws.len()).len() == 0,
        forall|i: nat| i < ws.len() ==> has_word(#[trigger] scan_rest(join(ws), i), true),
    decreases ws.len(),
{
    if ws.len() > 0 {
        let tail = ws.drop_first();
        assert forall|i: int| 0 <= i < tail.len() implies is_word(#[trigger] tail[i]) by {
            assert(tail[i] == ws[i + 1]);
        }
        lemma_scan_join_once(ws);
        lemma_scan_joined_words(tail);
        assert(scan_words(join(ws), ws.len()) =~= ws);
        assert forall|i: nat| i < ws.len() implies has_word(#[trigger] scan_rest(join(ws), i), true) by {
            if i > 0 {
                assert(scan_rest(join(ws), i) == scan_rest(join(tail), (i - 1) as nat));
            }
        }
    }
}

/// Input with no separator holds one word, the whole input, which is
/// complete only once no more input follows.
pub proof fn lemma_no_separator(s: Seq<u8>)
    requires
        s.len() > 0,
        forall|j: int| 0 <= j < s.len() ==> !is_separator(#[trigger] s[j]),
    ensures
        !has_word(s, false),
        has_word(s, true),
        word_of(s) == s,
        after_word(s).len() == 0,
{
    lemma_run_len(s, true, 0);
    assert(s.skip(0) =~= s);
    lemma_run_len(s, false, s.len());
    assert(word_of(s) =~= s);
    lemma_run_len(s.skip(s.len() as int), true, 0);
}

/// Input made only of separators holds no word.
pub proof fn lemma_only_separators(s: Seq<u8>, at_end: bool)
    requires
        forall|j: int| 0 <= j < s.len() ==> is_separator(#[trigger] s[j]),
    ensures
        !has_word(s, at_end),
{
    lemma_run_len(s, true, s.len());
}

} // verus!
