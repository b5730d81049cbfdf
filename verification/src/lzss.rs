//! The LZSS tokenizer and its inverse.
//!
//! Encoding drives a [`SlidingWindow`] over the input, splits each window
//! into a search buffer (history) and a look-ahead buffer (upcoming bytes),
//! and emits either a back-reference to the longest run of history matching
//! the start of the look-ahead, or a literal byte. Decoding expands a token
//! sequence back into bytes by resolving each back-reference recursively.

use vstd::prelude::*;
use vstd::slice::slice_subrange;
use crate::sliding_window::{SlidingWindow, SlidingWindowState, spec_window_step};
use crate::search::{find_first_match, spec_find_first_match, lemma_find_first_match_leftmost};

verus! {

/// One output token: a raw byte, or a back-reference covering `length`
/// bytes whose expansion starts `offset` token positions back.
#[derive(Debug, PartialEq, Eq, Structural, Clone, Copy)]
pub enum LZSSToken {
    Byte(u8),
    Ref { offset: usize, length: usize },
}

/// A back-reference whose source range does not lie strictly inside the
/// already-decoded part of the token sequence; `index` is the position at
/// which decoding failed.
#[derive(Debug, PartialEq, Eq, Structural, Clone, Copy)]
pub struct DecodeError {
    pub index: usize,
}

/// A zero-sized search or look-ahead buffer was configured.
#[derive(Debug, PartialEq, Eq, Structural, Clone, Copy)]
pub struct ConfigError;

/// Expansion of the single token at position `i`: a literal contributes its
/// byte; a back-reference contributes the expansions of the `length` tokens
/// starting `offset` positions back, which must all lie strictly before `i`.
/// An error carries the position of the offending token.
pub open spec fn spec_expand_token(tokens: Seq<LZSSToken>, i: int) -> Result<Seq<u8>, int>
    decreases i, 1int, 0int,
{
    match tokens[i] {
        LZSSToken::Byte(b) => Ok(seq![b]),
        LZSSToken::Ref { offset, length } => {
            if 0 <= i && offset <= i && length <= offset {
                spec_decode_range(tokens, i - offset, length as int)
            } else {
                Err(i)
            }
        },
    }
}

/// Concatenated expansion of the `count` tokens starting at `first`; an
/// error carries the first position that failed or fell out of range.
pub open spec fn spec_decode_range(tokens: Seq<LZSSToken>, first: int, count: int) -> Result<Seq<u8>, int>
    decreases first + count, 0int, count,
{
    if count <= 0 {
        Ok(Seq::empty())
    } else if first < 0 || first >= tokens.len() {
        Err(first)
    } else {
        match spec_expand_token(tokens, first) {
            Err(e) => Err(e),
            Ok(head) => match spec_decode_range(tokens, first + 1, count - 1) {
                Err(e) => Err(e),
                Ok(rest) => Ok(head + rest),
            },
        }
    }
}

/// Expansion of a whole token sequence.
pub open spec fn spec_decode(tokens: Seq<LZSSToken>) -> Result<Seq<u8>, int> {
    spec_decode_range(tokens, 0, tokens.len() as int)
}

/// Expands the one token at `i`, resolving a back-reference through
/// [`lzss_decode_ref`].
fn expand_token(tokens: &[LZSSToken], i: usize) -> (r: Result<Vec<u8>, DecodeError>)
    requires
        i < tokens@.len(),
    ensures
        match r {
            Ok(v) => spec_expand_token(tokens@, i as int) == Result::<Seq<u8>, int>::Ok(v@),
            Err(e) => spec_expand_token(tokens@, i as int) == Result::<Seq<u8>, int>::Err(e.index as int),
        },
    decreases i as int, 1int, 0int,
{
    match tokens[i] {
        LZSSToken::Byte(b) => {
            let mut v: Vec<u8> = Vec::new();
            v.push(b);
            proof {
                assert(v@ =~= seq![b]);
            }
            Ok(v)
        },
        LZSSToken::Ref { offset, length } => {
            if offset <= i && length <= offset {
                lzss_decode_ref(tokens, i - offset, length)
            } else {
                Err(DecodeError { index: i })
            }
        },
    }
}

/// Expansion of the `length` tokens starting at `first_index`, exactly as
/// [`spec_decode_range`] gives it: each literal contributes its byte and each
/// back-reference is resolved recursively against strictly earlier tokens.
pub fn lzss_decode_ref(tokens: &[LZSSToken], first_index: usize, length: usize) -> (r: Result<Vec<u8>, DecodeError>)
    ensures
        match r {
            Ok(v) => spec_decode_range(tokens@, first_index as int, length as int) == Result::<Seq<u8>, int>::Ok(v@),
            Err(e) => spec_decode_range(tokens@, first_index as int, length as int) == Result::<Seq<u8>, int>::Err(e.index as int),
        },
    decreases first_index as int + length as int, 0int, length as int,
{
    if length == 0 {
        Ok(Vec::new())
    } else if first_index >= tokens.len() {
        Err(DecodeError { index: first_index })
    } else {
        match expand_token(tokens, first_index) {
            Err(e) => Err(e),
            Ok(mut head) => match lzss_decode_ref(tokens, first_index + 1, length - 1) {
                Err(e) => Err(e),
                Ok(mut rest) => {
                    head.append(&mut rest);
                    Ok(head)
                },
            },
        }
    }
}

/// Expands a whole token sequence back into the byte sequence it encodes,
/// exactly as [`spec_decode`] gives it. A back-reference whose source range
/// does not lie strictly before it is reported as a [`DecodeError`] naming
/// the offending position; nothing is clamped or truncated.
pub fn lzss_decode(tokens: &[LZSSToken]) -> (r: Result<Vec<u8>, DecodeError>)
    ensures
        match r {
            Ok(v) => spec_decode(tokens@) == Result::<Seq<u8>, int>::Ok(v@),
            Err(e) => spec_decode(tokens@) == Result::<Seq<u8>, int>::Err(e.index as int),
        },
{
    lzss_decode_ref(tokens, 0, tokens.len())
}

/// Length of the search region of a window of length `win_len` whose last
/// transition was `state`: on `Expanded` the look-ahead region keeps the
/// configured length `la` (or the whole window when it is still shorter than
/// that); otherwise the look-ahead region is what exceeds the configured
/// search length `sb`, but never less than one byte.
pub open spec fn spec_search_len(win_len: int, state: SlidingWindowState, sb: int, la: int) -> int {
    match state {
        SlidingWindowState::Expanded => if la <= win_len { win_len - la } else { 0 },
        SlidingWindowState::Maintained | SlidingWindowState::Shrinked => {
            if win_len > sb { sb } else { win_len - 1 }
        },
    }
}

/// Splits a window snapshot into its search buffer and its look-ahead
/// buffer, per [`spec_search_len`]; the look-ahead buffer is never empty.
pub fn lzss_buffers<'a>(window: &'a [u8], state: &SlidingWindowState, search_buffer: usize, look_ahead_buffer: usize) -> (r: (&'a [u8], &'a [u8]))
    requires
        window@.len() >= 1,
        look_ahead_buffer >= 1,
    ensures
        ({
            let s = spec_search_len(window@.len() as int, *state, search_buffer as int, look_ahead_buffer as int);
            &&& r.0@ == window@.take(s)
            &&& r.1@ == window@.skip(s)
            &&& r.1@.len() >= 1
        }),
{
    let wl = window.len();
    let s: usize = match state {
        SlidingWindowState::Expanded => if look_ahead_buffer <= wl { wl - look_ahead_buffer } else { 0 },
        _ => if wl > search_buffer { search_buffer } else { wl - 1 },
    };
    let head = slice_subrange(window, 0, s);
    let tail = slice_subrange(window, s, wl);
    proof {
        assert(head@ =~= window@.take(s as int));
        assert(tail@ =~= window@.skip(s as int));
    }
    (head, tail)
}

/// Length of the longest common prefix of `a` and `b`.
pub open spec fn spec_match_length(a: Seq<u8>, b: Seq<u8>) -> int
    decreases a.len(),
{
    if a.len() <= 0 || b.len() <= 0 || a[0] != b[0] {
        0
    } else {
        1 + spec_match_length(a.skip(1), b.skip(1))
    }
}

/// A scan that matched the first `l` positions and stopped at the end of
/// either sequence or at a mismatch pins [`spec_match_length`].
proof fn lemma_match_length_at(a: Seq<u8>, b: Seq<u8>, l: int)
    requires
        0 <= l <= a.len(),
        l <= b.len(),
        forall|j: int| 0 <= j < l ==> a[j] == b[j],
        l == a.len() || l == b.len() || a[l] != b[l],
    ensures
        spec_match_length(a, b) == l,
    decreases l,
{
    if l > 0 {
        assert(forall|j: int| 1 <= j < a.len() ==> a[j] == a.skip(1)[j - 1]);
        assert(forall|j: int| 1 <= j < b.len() ==> b[j] == b.skip(1)[j - 1]);
        lemma_match_length_at(a.skip(1), b.skip(1), l - 1);
    }
}

/// Number of leading positions at which `a` and `b` hold equal bytes:
/// exactly [`spec_match_length`].
fn match_length(a: &[u8], b: &[u8]) -> (r: usize)
    ensures
        r as int == spec_match_length(a@, b@),
{
    let bound = if a.len() < b.len() { a.len() } else { b.len() };
    let mut i: usize = 0;
    while i < bound
        invariant
            i <= bound <= a@.len(),
            bound <= b@.len(),
            bound == a@.len() || bound == b@.len(),
            forall|j: int| 0 <= j < i ==> a@[j] == b@[j],
        decreases bound - i,
    {
        if a[i] != b[i] {
            proof {
                lemma_match_length_at(a@, b@, i as int);
            }
            return i;
        }
        i = i + 1;
    }
    proof {
        lemma_match_length_at(a@, b@, bound as int);
    }
    bound
}

/// The token emitted for a window `win` whose last transition was `st`,
/// together with the number of further window steps the tokenizer must then
/// skip: the first look-ahead byte is searched for in the search buffer, the
/// match is extended pairwise against the window from the match onward, and a
/// run of at least three bytes becomes a back-reference while anything
/// shorter stays a literal.
pub open spec fn spec_step_token(win: Seq<u8>, sb: int, la: int, st: SlidingWindowState) -> (LZSSToken, int) {
    let s = spec_search_len(win.len() as int, st, sb, la);
    let target = win[s];
    match spec_find_first_match(win.take(s), target) {
        None => (LZSSToken::Byte(target), 0),
        Some(idx) => {
            let len = spec_match_length(win.skip(s), win.skip(idx));
            if len >= 3 {
                (LZSSToken::Ref { offset: (s - idx + 1) as usize, length: len as usize }, len - 1)
            } else {
                (LZSSToken::Byte(target), 0)
            }
        },
    }
}

/// Computes the token for one window snapshot and the number of window steps
/// to skip after it, exactly as [`spec_step_token`] gives them.
fn step_token(win: &[u8], st: &SlidingWindowState, search_buffer: usize, look_ahead_buffer: usize) -> (r: (LZSSToken, usize))
    requires
        win@.len() >= 1,
        win@.len() < usize::MAX,
        look_ahead_buffer >= 1,
    ensures
        ({
            let ts = spec_step_token(win@, search_buffer as int, look_ahead_buffer as int, *st);
            r.0 == ts.0 && r.1 as int == ts.1
        }),
{
    let (sbuf, labuf) = lzss_buffers(win, st, search_buffer, look_ahead_buffer);
    let target = labuf[0];
    let m = find_first_match(sbuf, target);
    match m {
        None => (LZSSToken::Byte(target), 0),
        Some(idx) => {
            let rest = slice_subrange(win, idx, win.len());
            proof {
                assert(rest@ =~= win@.skip(idx as int));
            }
            let len = match_length(labuf, rest);
            if len >= 3 {
                let offset = sbuf.len() - idx + 1;
                (LZSSToken::Ref { offset, length: len }, len - 1)
            } else {
                (LZSSToken::Byte(target), 0)
            }
        },
    }
}

/// The tokens emitted from the window position `data[pos..pos + size]`
/// onward, with `skip` pending window steps still to discard and `budget`
/// window draws left. Every draw, discarded or not, consumes budget.
pub open spec fn spec_encode_steps(data: Seq<u8>, sb: int, la: int, pos: int, size: int, skip: int, budget: int) -> Seq<LZSSToken>
    decreases budget, skip,
{
    if budget <= 0 {
        Seq::empty()
    } else if skip > 0 {
        match spec_window_step(data.len() - pos, size, sb + la) {
            None => spec_encode_steps(data, sb, la, pos, size, skip - 1, budget - 1),
            Some((st, new_rem, new_size)) => spec_encode_steps(data, sb, la, data.len() - new_rem, new_size, skip - 1, budget - 1),
        }
    } else {
        match spec_window_step(data.len() - pos, size, sb + la) {
            None => Seq::empty(),
            Some((st, new_rem, new_size)) => {
                let new_pos = data.len() - new_rem;
                let ts = spec_step_token(data.subrange(new_pos, new_pos + new_size), sb, la, st);
                seq![ts.0] + spec_encode_steps(data, sb, la, new_pos, new_size, ts.1, budget - 1)
            },
        }
    }
}

/// Window position and size after `k` draws from a fresh window over an
/// input of length `n`.
pub open spec fn spec_advance(n: int, cap: int, k: int) -> (int, int)
    decreases k,
{
    if k <= 0 {
        (0, 0)
    } else {
        let ps = spec_advance(n, cap, k - 1);
        match spec_window_step(n - ps.0, ps.1, cap) {
            None => ps,
            Some((st, new_rem, new_size)) => (n - new_rem, new_size),
        }
    }
}

/// The token sequence for `data` under buffer sizes `sb` and `la`: the first
/// `min(la, n) - 1` window draws are discarded so that tokenization starts
/// on the first window with a full look-ahead region, and the number of
/// draws after that is capped at `max(n, la)`, which bounds tokenization to
/// the range where a look-ahead byte exists.
pub open spec fn spec_encode(data: Seq<u8>, sb: int, la: int) -> Seq<LZSSToken> {
    if data.len() == 0 {
        Seq::empty()
    } else {
        let n = data.len() as int;
        let fs = (if la < n { la } else { n }) - 1;
        let ps = spec_advance(n, sb + la, fs);
        spec_encode_steps(data, sb, la, ps.0, ps.1, 0, if n < la { la } else { n })
    }
}

/// Tokenizes `data` through a sliding window of capacity
/// `search_buffer + look_ahead_buffer`, exactly as [`spec_encode`] gives it.
/// A zero-sized buffer on either side is rejected up front; any byte
/// sequence, including the empty one, is accepted.
#[verifier::loop_isolation(false)]
#[verifier::rlimit(100)]
pub fn lzss_encode(data: &[u8], search_buffer: usize, look_ahead_buffer: usize) -> (r: Result<Vec<LZSSToken>, ConfigError>)
    requires
        data@.len() + search_buffer + look_ahead_buffer <= usize::MAX,
    ensures
        r is Ok <==> (search_buffer >= 1 && look_ahead_buffer >= 1),
        (r matches Ok(tokens) ==> tokens@ == spec_encode(data@, search_buffer as int, look_ahead_buffer as int)),
        (r matches Ok(tokens) ==> tokens_wf(tokens@, search_buffer as int)),
{
    if search_buffer == 0 || look_ahead_buffer == 0 {
        return Err(ConfigError);
    }
    let ghost sbi = search_buffer as int;
    let ghost lai = look_ahead_buffer as int;
    let n = data.len();
    let mut out: Vec<LZSSToken> = Vec::new();
    if n == 0 {
        return Ok(out);
    }
    let capacity = search_buffer + look_ahead_buffer;
    let first_skips = (if look_ahead_buffer < n { look_ahead_buffer } else { n }) - 1;
    let mut w = SlidingWindow::new(data, capacity);
    proof {
        assert(w.remaining() =~= data@.skip(data@.len() - w.remaining().len()));
    }
    let mut k: usize = 0;
    while k < first_skips
        invariant
            k <= first_skips,
            w.capacity() == capacity as int,
            w.remaining().len() <= data@.len(),
            0 <= w.window_size() <= w.remaining().len(),
            w.remaining() == data@.skip(data@.len() - w.remaining().len()),
            (data@.len() - w.remaining().len(), w.window_size()) == spec_advance(data@.len() as int, capacity as int, k as int),
        decreases first_skips - k,
    {
        let _ = w.next();
        k = k + 1;
        proof {
            assert(w.remaining() =~= data@.skip(data@.len() - w.remaining().len()));
        }
    }
    let mut budget: usize = if n < look_ahead_buffer { look_ahead_buffer } else { n };
    let mut skip: usize = 0;
    proof {
        assert(spec_encode(data@, sbi, lai) == out@ + spec_encode_steps(data@, sbi, lai,
            data@.len() - w.remaining().len(), w.window_size(), skip as int, budget as int));
    }
    loop
        invariant
            w.capacity() == capacity as int,
            w.remaining().len() <= data@.len(),
            0 <= w.window_size() <= w.remaining().len(),
            w.remaining() == data@.skip(data@.len() - w.remaining().len()),
            spec_encode(data@, sbi, lai) == out@ + spec_encode_steps(data@, sbi, lai,
                data@.len() - w.remaining().len(), w.window_size(), skip as int, budget as int),
        decreases budget,
    {
        if budget == 0 {
            break;
        }
        if skip > 0 {
            let _ = w.next();
            skip = skip - 1;
            budget = budget - 1;
            proof {
                assert(w.remaining() =~= data@.skip(data@.len() - w.remaining().len()));
            }
            continue;
        }
        let ghost prev = w;
        let ghost prev_out = out@;
        let ghost prev_budget = budget as int;
        match w.next() {
            None => {
                break;
            },
            Some((win, st)) => {
                budget = budget - 1;
                proof {
                    assert(w.remaining() =~= data@.skip(data@.len() - w.remaining().len()));
                }
                let ghost new_pos = data@.len() - w.remaining().len();
                let ghost new_size = w.window_size();
                proof {
                    assert(win@ =~= data@.subrange(new_pos, new_pos + new_size));
                }
                let (tok, sk) = step_token(win, &st, search_buffer, look_ahead_buffer);
                out.push(tok);
                skip = sk;
                proof {
                    let ts = spec_step_token(data@.subrange(new_pos, new_pos + new_size), sbi, lai, st);
                    assert(out@ =~= prev_out + seq![ts.0]);
                    assert(spec_encode_steps(data@, sbi, lai,
                            data@.len() - prev.remaining().len(), prev.window_size(), 0, prev_budget)
                        == seq![ts.0] + spec_encode_steps(data@, sbi, lai, new_pos, new_size, ts.1, prev_budget - 1));
                }
            },
        }
    }
    proof {
        lemma_encode_wf(data@, sbi, lai);
    }
    Ok(out)
}

/// Length bound of a common prefix.
proof fn lemma_match_length_bound(a: Seq<u8>, b: Seq<u8>)
    ensures
        0 <= spec_match_length(a, b) <= a.len(),
        spec_match_length(a, b) <= b.len(),
    decreases a.len(),
{
    if a.len() > 0 && b.len() > 0 && a[0] == b[0] {
        lemma_match_length_bound(a.skip(1), b.skip(1));
    }
}

/// Shape of every emitted token: a back-reference spans at least three bytes
/// and points between one and `sb + 1` positions back.
pub open spec fn token_wf(t: LZSSToken, sb: int) -> bool {
    match t {
        LZSSToken::Byte(_) => true,
        LZSSToken::Ref { offset, length } => 3 <= length && 1 <= offset <= sb + 1,
    }
}

/// Every token of a sequence is well formed.
pub open spec fn tokens_wf(ts: Seq<LZSSToken>, sb: int) -> bool {
    forall|i: int| 0 <= i < ts.len() ==> token_wf(#[trigger] ts[i], sb)
}

/// Minimum-match law for one step: whatever window the tokenizer looks at,
/// the token it emits is well formed and the skip count is never negative.
proof fn lemma_step_token_wf(win: Seq<u8>, sb: int, la: int, st: SlidingWindowState)
    requires
        0 <= sb,
        1 <= la,
        sb + la <= usize::MAX,
        1 <= win.len() <= sb + la,
    ensures
        token_wf(spec_step_token(win, sb, la, st).0, sb),
        spec_step_token(win, sb, la, st).1 >= 0,
{
    let s = spec_search_len(win.len() as int, st, sb, la);
    assert(0 <= s <= sb);
    let target = win[s];
    match spec_find_first_match(win.take(s), target) {
        None => {},
        Some(idx) => {
            lemma_find_first_match_leftmost(win.take(s), target);
            assert(0 <= idx < s);
            lemma_match_length_bound(win.skip(s), win.skip(idx));
        },
    }
}

/// Every token of [`spec_encode_steps`] is well formed, from any window
/// position the tokenizer can actually reach.
proof fn lemma_encode_steps_wf(data: Seq<u8>, sb: int, la: int, pos: int, size: int, skip: int, budget: int)
    requires
        0 <= sb,
        1 <= la,
        sb + la <= usize::MAX,
        0 <= pos <= data.len(),
        0 <= size <= data.len() - pos,
        size <= sb + la,
    ensures
        forall|i: int| 0 <= i < spec_encode_steps(data, sb, la, pos, size, skip, budget).len()
            ==> token_wf(#[trigger] spec_encode_steps(data, sb, la, pos, size, skip, budget)[i], sb),
    decreases budget, skip,
{
    if budget <= 0 {
    } else if skip > 0 {
        let whole = spec_encode_steps(data, sb, la, pos, size, skip, budget);
        match spec_window_step(data.len() - pos, size, sb + la) {
            None => {
                lemma_encode_steps_wf(data, sb, la, pos, size, skip - 1, budget - 1);
                let rest = spec_encode_steps(data, sb, la, pos, size, skip - 1, budget - 1);
                assert forall|i: int| 0 <= i < whole.len() implies token_wf(#[trigger] whole[i], sb) by {
                    assert(token_wf(rest[i], sb));
                }
            },
            Some((st, new_rem, new_size)) => {
                lemma_encode_steps_wf(data, sb, la, data.len() - new_rem, new_size, skip - 1, budget - 1);
                let rest = spec_encode_steps(data, sb, la, data.len() - new_rem, new_size, skip - 1, budget - 1);
                assert forall|i: int| 0 <= i < whole.len() implies token_wf(#[trigger] whole[i], sb) by {
                    assert(token_wf(rest[i], sb));
                }
            },
        }
    } else {
        match spec_window_step(data.len() - pos, size, sb + la) {
            None => {},
            Some((st, new_rem, new_size)) => {
                let new_pos = data.len() - new_rem;
                let win = data.subrange(new_pos, new_pos + new_size);
                let ts = spec_step_token(win, sb, la, st);
                lemma_step_token_wf(win, sb, la, st);
                lemma_encode_steps_wf(data, sb, la, new_pos, new_size, ts.1, budget - 1);
                let whole = spec_encode_steps(data, sb, la, pos, size, skip, budget);
                let rest = spec_encode_steps(data, sb, la, new_pos, new_size, ts.1, budget - 1);
                assert(whole == seq![ts.0] + rest);
                assert forall|i: int| 0 <= i < whole.len() implies token_wf(#[trigger] whole[i], sb) by {
                    if i > 0 {
                        assert(whole[i] == rest[i - 1]);
                    }
                }
            },
        }
    }
}

/// Bounds of the window position and size after any number of draws.
proof fn lemma_advance_bounds(n: int, cap: int, k: int)
    requires
        0 <= n,
    ensures
        ({
            let ps = spec_advance(n, cap, k);
            &&& 0 <= ps.0 <= n
            &&& 0 <= ps.1 <= n - ps.0
            &&& ps.1 <= cap || ps.1 == 0
        }),
    decreases k,
{
    if k > 0 {
        lemma_advance_bounds(n, cap, k - 1);
    }
}

/// Minimum-match and offset-bound law over a whole encoding: every
/// back-reference [`spec_encode`] emits spans at least three bytes and
/// points between one and `sb + 1` positions back.
pub proof fn lemma_encode_wf(data: Seq<u8>, sb: int, la: int)
    requires
        0 <= sb,
        1 <= la,
        data.len() + sb + la <= usize::MAX,
    ensures
        tokens_wf(spec_encode(data, sb, la), sb),
{
    if data.len() > 0 {
        let n = data.len() as int;
        let fs = (if la < n { la } else { n }) - 1;
        lemma_advance_bounds(n, sb + la, fs);
        let ps = spec_advance(n, sb + la, fs);
        lemma_encode_steps_wf(data, sb, la, ps.0, ps.1, 0, if n < la { la } else { n });
    }
}

/// Single-byte law: an input of one byte yields exactly one literal token,
/// whatever the configured buffer sizes.
pub proof fn lemma_encode_single_byte(x: u8, sb: int, la: int)
    requires
        1 <= sb,
        1 <= la,
    ensures
        spec_encode(seq![x], sb, la) == seq![LZSSToken::Byte(x)],
{
    let d = seq![x];
    let budget = if 1 < la { la } else { 1int };
    assert(spec_advance(1, sb + la, 0) == (0int, 0int));
    assert(spec_window_step(1, 0, sb + la) == Some((SlidingWindowState::Expanded, 1int, 1int)));
    let win = d.subrange(0, 1);
    assert(win =~= d);
    assert(spec_search_len(1, SlidingWindowState::Expanded, sb, la) == 0);
    assert(win.take(0) =~= Seq::<u8>::empty());
    assert(spec_find_first_match(Seq::<u8>::empty(), x) is None);
    assert(spec_step_token(win, sb, la, SlidingWindowState::Expanded) == (LZSSToken::Byte(x), 0int));
    assert(spec_window_step(1, 1, sb + la) is None);
    assert(spec_encode_steps(d, sb, la, 0, 1, 0, budget - 1) =~= Seq::<LZSSToken>::empty());
    assert(spec_encode_steps(d, sb, la, 0, 0, 0, budget) =~= seq![LZSSToken::Byte(x)]);
    assert(spec_encode(d, sb, la) =~= seq![LZSSToken::Byte(x)]);
}

/// A token sequence holding no back-reference.
pub open spec fn all_literals(ts: Seq<LZSSToken>) -> bool {
    forall|i: int| 0 <= i < ts.len() ==> ts[i] is Byte
}

/// One literal token per input byte.
pub open spec fn literal_tokens(d: Seq<u8>) -> Seq<LZSSToken> {
    Seq::new(d.len(), |i: int| LZSSToken::Byte(d[i]))
}

/// Decoding a range of literal tokens yields the corresponding bytes.
proof fn lemma_decode_literal_range(d: Seq<u8>, f: int, c: int)
    requires
        0 <= f,
        0 <= c,
        f + c <= d.len(),
    ensures
        spec_decode_range(literal_tokens(d), f, c) == Result::<Seq<u8>, int>::Ok(d.subrange(f, f + c)),
    decreases c,
{
    let ts = literal_tokens(d);
    if c <= 0 {
        assert(d.subrange(f, f) =~= Seq::<u8>::empty());
    } else {
        assert(ts.len() == d.len());
        assert(ts[f] == LZSSToken::Byte(d[f]));
        assert(spec_expand_token(ts, f) == Result::<Seq<u8>, int>::Ok(seq![d[f]]));
        lemma_decode_literal_range(d, f + 1, c - 1);
        assert(seq![d[f]] + d.subrange(f + 1, f + c) =~= d.subrange(f, f + c));
    }
}

/// Window position before the step that examines byte `p`.
spec fn sweep_pos(sb: int, p: int) -> int {
    if p <= sb { 0 } else { p - sb - 1 }
}

/// Window size before the step that examines byte `p`.
spec fn sweep_size(n: int, sb: int, la: int, p: int) -> int {
    if p <= sb {
        p + la - 1
    } else {
        if sb + la < n - (p - sb - 1) { sb + la } else { n - (p - sb - 1) }
    }
}

/// On an input at least one window long, the tokenizer's steps examine the
/// input bytes in order, one per budgeted draw; so when nothing matched well
/// enough to be compressed, the output is one literal per remaining byte.
#[verifier::rlimit(100)]
proof fn lemma_sweep(d: Seq<u8>, sb: int, la: int, p: int)
    requires
        1 <= sb,
        1 <= la,
        d.len() >= sb + la,
        0 <= p <= d.len(),
        all_literals(spec_encode_steps(d, sb, la, sweep_pos(sb, p), sweep_size(d.len() as int, sb, la, p), 0, d.len() - p)),
    ensures
        spec_encode_steps(d, sb, la, sweep_pos(sb, p), sweep_size(d.len() as int, sb, la, p), 0, d.len() - p)
            == Seq::new((d.len() - p) as nat, |j: int| LZSSToken::Byte(d[p + j])),
    decreases d.len() - p,
{
    let n = d.len() as int;
    let pos = sweep_pos(sb, p);
    let size = sweep_size(n, sb, la, p);
    let whole = spec_encode_steps(d, sb, la, pos, size, 0, n - p);
    let want = Seq::new((n - p) as nat, |j: int| LZSSToken::Byte(d[p + j]));
    if p == n {
        assert(whole =~= want);
    } else {
        let cap = sb + la;
        let step = spec_window_step(n - pos, size, cap);
        let new_pos = sweep_pos(sb, p + 1);
        let new_size = sweep_size(n, sb, la, p + 1);
        if p <= sb {
            assert(step == Some((SlidingWindowState::Expanded, n - new_pos, new_size)));
        } else if cap < n - pos {
            assert(step == Some((SlidingWindowState::Maintained, n - new_pos, new_size)));
        } else {
            assert(step == Some((SlidingWindowState::Shrinked, n - new_pos, new_size)));
        }
        let st = if p <= sb { SlidingWindowState::Expanded }
            else if cap < n - pos { SlidingWindowState::Maintained }
            else { SlidingWindowState::Shrinked };
        let win = d.subrange(new_pos, new_pos + new_size);
        let s = spec_search_len(new_size, st, sb, la);
        assert(s == p - new_pos);
        assert(win[s] == d[p]);
        let ts = spec_step_token(win, sb, la, st);
        let rest = spec_encode_steps(d, sb, la, new_pos, new_size, ts.1, n - p - 1);
        assert(whole == seq![ts.0] + rest);
        assert(whole[0] == ts.0);
        match spec_find_first_match(win.take(s), win[s]) {
            None => {
                assert(ts == (LZSSToken::Byte(d[p]), 0int));
            },
            Some(idx) => {
                let len = spec_match_length(win.skip(s), win.skip(idx));
                if len >= 3 {
                    assert(whole[0] is Byte);
                    assert(false);
                } else {
                    assert(ts == (LZSSToken::Byte(d[p]), 0int));
                }
            },
        }
        assert(all_literals(rest)) by {
            assert forall|i: int| 0 <= i < rest.len() implies rest[i] is Byte by {
                assert(rest[i] == whole[i + 1]);
            }
        }
        lemma_sweep(d, sb, la, p + 1);
        let rest_want = Seq::new((n - p - 1) as nat, |j: int| LZSSToken::Byte(d[p + 1 + j]));
        assert(whole =~= want) by {
            assert forall|j: int| 0 <= j < want.len() implies whole[j] == want[j] by {
                if j > 0 {
                    assert(whole[j] == rest_want[j - 1]);
                }
            }
        }
    }
}

/// After the initial discarded draws the window is still expanding: it sits
/// at the start of the input with one byte short of the look-ahead length.
proof fn lemma_advance_initial(n: int, cap: int, k: int)
    requires
        0 <= k,
        k < cap,
        k < n,
    ensures
        spec_advance(n, cap, k) == (0int, k),
    decreases k,
{
    if k > 0 {
        lemma_advance_initial(n, cap, k - 1);
    }
}

/// On any non-empty input the first emitted token is the first input byte as
/// a literal: the very first examined window has an empty search buffer, so
/// nothing can be matched, let alone referenced.
pub proof fn lemma_first_token_literal(d: Seq<u8>, sb: int, la: int)
    requires
        1 <= sb,
        1 <= la,
        d.len() >= 1,
    ensures
        spec_encode(d, sb, la).len() >= 1,
        spec_encode(d, sb, la)[0] == LZSSToken::Byte(d[0]),
{
    let n = d.len() as int;
    let cap = sb + la;
    let fs = (if la < n { la } else { n }) - 1;
    lemma_advance_initial(n, cap, fs);
    let budget = if n < la { la } else { n };
    assert(spec_window_step(n, fs, cap) == Some((SlidingWindowState::Expanded, n, fs + 1)));
    let win = d.subrange(0, fs + 1);
    assert(spec_search_len(fs + 1, SlidingWindowState::Expanded, sb, la) == 0);
    assert(win[0] == d[0]);
    assert(win.take(0) =~= Seq::<u8>::empty());
    assert(spec_find_first_match(Seq::<u8>::empty(), d[0]) is None);
    assert(spec_step_token(win, sb, la, SlidingWindowState::Expanded) == (LZSSToken::Byte(d[0]), 0int));
    let rest = spec_encode_steps(d, sb, la, 0, fs + 1, 0, budget - 1);
    assert(spec_encode(d, sb, la) == seq![LZSSToken::Byte(d[0])] + rest);
}

/// Round-trip law, on the domain where it holds: over an empty or one-byte
/// input, or an input at least one window long whose token stream came out
/// all literals, encoding followed by decoding gives the input back. (A
/// stream holding a back-reference does not decode to the input: the
/// tokenizer counts its offsets in window bytes while the decoder counts
/// token positions, so such a stream is rejected by the decoder or expands
/// differently.)
pub proof fn lemma_round_trip_literals(d: Seq<u8>, sb: int, la: int)
    requires
        1 <= sb,
        1 <= la,
        d.len() <= 1 || d.len() >= sb + la,
        all_literals(spec_encode(d, sb, la)),
    ensures
        spec_encode(d, sb, la) == literal_tokens(d),
        spec_decode(spec_encode(d, sb, la)) == Result::<Seq<u8>, int>::Ok(d),
{
    let n = d.len() as int;
    if n == 0 {
        assert(spec_encode(d, sb, la) =~= literal_tokens(d));
    } else if n == 1 {
        assert(d =~= seq![d[0]]);
        lemma_encode_single_byte(d[0], sb, la);
        assert(spec_encode(d, sb, la) =~= literal_tokens(d));
    } else {
        let fs = la - 1;
        assert(spec_encode(d, sb, la) == spec_encode_steps(d, sb, la,
            spec_advance(n, sb + la, fs).0, spec_advance(n, sb + la, fs).1, 0, n)) by {
            lemma_advance_initial(n, sb + la, fs);
        }
        lemma_advance_initial(n, sb + la, fs);
        assert(sweep_pos(sb, 0) == 0 && sweep_size(n, sb, la, 0) == la - 1);
        lemma_sweep(d, sb, la, 0);
        assert(spec_encode(d, sb, la) =~= literal_tokens(d));
    }
    lemma_decode_literal_range(d, 0, n);
    assert(literal_tokens(d).len() == n);
    assert(d.subrange(0, n) =~= d);
}

} // verus!
