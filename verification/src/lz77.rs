use vstd::prelude::*;

use crate::config::CodecConfig;
use crate::errors::CodecError;

verus! {

/// A token of the dictionary-substitution stage: either one plain byte, or a
/// reference to `length` bytes starting `offset` bytes before the current end
/// of the output produced so far.
#[derive(Clone, Copy, PartialEq, Eq, Structural, Debug)]
pub enum Token {
    Literal(u8),
    Match { offset: u16, length: u16 },
}

/// Length of the greedy byte-by-byte run equality between the text starting
/// at `a` and the text starting at `b`, reading at most `limit` bytes and
/// never past the end of `data`. This is the length the match finder assigns
/// to a candidate start position `a` for a cursor `b`.
pub open spec fn run_len(data: Seq<u8>, a: int, b: int, limit: int) -> int
    decreases limit,
{
    if limit <= 0 || b < 0 || b >= data.len() || data[a] != data[b] {
        0
    } else {
        1 + run_len(data, a + 1, b + 1, limit - 1)
    }
}

/// Basic facts about `run_len`: it is a non-negative length, it stays within
/// `limit` and within `data`, and the two runs it measures are bytewise equal.
pub proof fn lemma_run_len_props(data: Seq<u8>, a: int, b: int, limit: int)
    ensures
        0 <= run_len(data, a, b, limit),
        run_len(data, a, b, limit) <= limit || run_len(data, a, b, limit) == 0,
        0 <= b <= data.len() ==> b + run_len(data, a, b, limit) <= data.len(),
        forall|j: int|
            0 <= j < run_len(data, a, b, limit) ==> data[a + j] == #[trigger] data[b + j],
    decreases limit,
{
    if !(limit <= 0 || b < 0 || b >= data.len() || data[a] != data[b]) {
        lemma_run_len_props(data, a + 1, b + 1, limit - 1);
        assert forall|j: int| 0 <= j < run_len(data, a, b, limit) implies data[a + j]
            == #[trigger] data[b + j] by {
            if j > 0 {
                assert(data[(a + 1) + (j - 1)] == data[(b + 1) + (j - 1)]);
            }
        }
    }
}

/// What `find_longest_match` promises: `len` is the maximum of `run_len`
/// over every candidate start in the window before `cur`, and when a match
/// exists, `off` points at the first start position that reaches that
/// maximum — so among equal-length matches the largest offset wins, the
/// documented tie-break. When nothing in the window matches, the pair is
/// `(cur, 0)` and only the zero length is meaningful.
pub open spec fn is_best_match(data: Seq<u8>, cur: int, w: int, off: int, len: int) -> bool {
    let lo = if cur > w {
        cur - w
    } else {
        0
    };
    &&& 0 <= len <= w
    &&& cur + len <= data.len()
    &&& forall|s: int| lo <= s < cur ==> run_len(data, s, cur, w) <= len
    &&& (len > 0 ==> {
        &&& 1 <= off <= cur
        &&& off <= w
        &&& run_len(data, cur - off, cur, w) == len
        &&& forall|s: int| lo <= s < cur - off ==> run_len(data, s, cur, w) < len
    })
    &&& (len == 0 ==> off == cur)
}

/// Two pairs that both satisfy `is_best_match` are equal: the contract of
/// the match finder pins its result completely.
pub proof fn lemma_best_match_unique(
    data: Seq<u8>,
    cur: int,
    w: int,
    off1: int,
    len1: int,
    off2: int,
    len2: int,
)
    requires
        is_best_match(data, cur, w, off1, len1),
        is_best_match(data, cur, w, off2, len2),
    ensures
        off1 == off2,
        len1 == len2,
{
    let lo = if cur > w {
        cur - w
    } else {
        0
    };
    if len1 > 0 {
        assert(run_len(data, cur - off1, cur, w) <= len2);
    }
    if len2 > 0 {
        assert(run_len(data, cur - off2, cur, w) <= len1);
    }
    if len1 > 0 && len2 > 0 && off1 != off2 {
        if off1 < off2 {
            assert(run_len(data, cur - off1, cur, w) < len2);
        } else {
            assert(run_len(data, cur - off2, cur, w) < len1);
        }
    }
}

/// The pair the match finder returns, as a mathematical function: the unique
/// pair satisfying `is_best_match`.
pub open spec fn spec_find(data: Seq<u8>, cur: int, w: int) -> (int, int) {
    choose|r: (int, int)| is_best_match(data, cur, w, r.0, r.1)
}

/// The token sequence the encoder produces from cursor `i` on: the best
/// match when it reaches `min_match`, else one literal. (The guards on `l`
/// only keep the recursion well-founded on values no execution reaches.)
pub open spec fn spec_lz77_tokens(data: Seq<u8>, cfg: CodecConfig, i: int) -> Seq<Token>
    decreases data.len() - i,
{
    if i < 0 || i >= data.len() {
        Seq::empty()
    } else {
        let r = spec_find(data, i, cfg.window_size as int);
        if r.1 < cfg.min_match as int || r.1 < 1 || r.1 > data.len() - i {
            seq![Token::Literal(data[i])] + spec_lz77_tokens(data, cfg, i + 1)
        } else {
            seq![Token::Match { offset: r.0 as u16, length: r.1 as u16 }] + spec_lz77_tokens(
                data,
                cfg,
                i + r.1,
            )
        }
    }
}

/// Whether replaying `t` on top of `out_len` bytes of already-produced
/// output stays inside the produced bytes and the window bounds.
pub open spec fn token_ok(out_len: int, cfg: CodecConfig, t: Token) -> bool {
    match t {
        Token::Literal(_) => true,
        Token::Match { offset, length } => {
            &&& 1 <= offset <= out_len
            &&& offset <= cfg.window_size
            &&& 1 <= length <= cfg.window_size
        },
    }
}

/// Append `len` bytes to `out`, each copied from `off` bytes before the
/// current end, one at a time in increasing index order — so a copy may
/// overlap the bytes it is itself producing.
pub open spec fn copy_run(out: Seq<u8>, off: int, len: int) -> Seq<u8>
    decreases len,
{
    if len <= 0 {
        out
    } else {
        copy_run(out.push(out[out.len() - off]), off, len - 1)
    }
}

/// The output after replaying one token on top of `out`.
pub open spec fn apply_token(out: Seq<u8>, t: Token) -> Seq<u8> {
    match t {
        Token::Literal(b) => out.push(b),
        Token::Match { offset, length } => copy_run(out, offset as int, length as int),
    }
}

/// Replay a token sequence from an empty output. `None` means some token
/// reads before the start of the output or past the window bounds.
pub open spec fn spec_replay(ts: Seq<Token>, cfg: CodecConfig) -> Option<Seq<u8>>
    decreases ts.len(),
{
    if ts.len() == 0 {
        Some(Seq::empty())
    } else {
        match spec_replay(ts.drop_last(), cfg) {
            Some(out) => if token_ok(out.len() as int, cfg, ts.last()) {
                Some(apply_token(out, ts.last()))
            } else {
                None
            },
            None => None,
        }
    }
}

/// Every token of `ts` respects the window bounds at the position where it
/// is replayed: offsets stay within the bytes produced before it and within
/// `window_size`, lengths within `window_size`.
pub open spec fn tokens_in_window(ts: Seq<Token>, cfg: CodecConfig) -> bool {
    forall|k: int|
        0 <= k < ts.len() ==> {
            &&& spec_replay(#[trigger] ts.take(k), cfg) is Some
            &&& token_ok(spec_replay(ts.take(k), cfg)->Some_0.len() as int, cfg, ts[k])
        }
}

/// Once a prefix of a token sequence fails to replay, the whole sequence
/// fails too.
pub proof fn lemma_replay_prefix_none(ts: Seq<Token>, cfg: CodecConfig, k: int)
    requires
        0 <= k <= ts.len(),
        spec_replay(ts.take(k), cfg) is None,
    ensures
        spec_replay(ts, cfg) is None,
    decreases ts.len(),
{
    if k == ts.len() {
        assert(ts.take(k) =~= ts);
    } else {
        assert(ts.drop_last().take(k) =~= ts.take(k));
        lemma_replay_prefix_none(ts.drop_last(), cfg, k);
    }
}

/// Replaying a valid match against data it was found in extends the output
/// by exactly the matched bytes: if the `len` bytes at `cur - off` equal the
/// `len` bytes at `cur`, the byte-by-byte copy reproduces `data` up to
/// `cur + len`.
pub proof fn lemma_copy_run_extends(data: Seq<u8>, cur: int, off: int, len: int)
    requires
        1 <= off <= cur,
        0 <= len,
        cur + len <= data.len(),
        forall|j: int| 0 <= j < len ==> data[cur - off + j] == #[trigger] data[cur + j],
    ensures
        copy_run(data.take(cur), off, len) == data.take(cur + len),
    decreases len,
{
    if len > 0 {
        let out = data.take(cur);
        assert(data[cur - off + 0] == data[cur + 0]);
        assert(out[out.len() - off] == data[cur - off]);
        assert(out.push(data[cur]) =~= data.take(cur + 1));
        assert forall|j: int| 0 <= j < len - 1 implies data[(cur + 1) - off + j]
            == #[trigger] data[(cur + 1) + j] by {
            assert(data[cur - off + (j + 1)] == data[cur + (j + 1)]);
        }
        lemma_copy_run_extends(data, cur + 1, off, len - 1);
    }
}

/// Find the longest backward match for the bytes at `cur` within the
/// configured window.
///
/// The scan walks candidate start positions in increasing order and keeps a
/// strictly longer match only, so ties favour the first (leftmost) start
/// that reaches the maximum length — that is, the largest offset. With no
/// match in the window the result is `(cur, 0)`.
#[verifier::loop_isolation(false)]
pub fn find_longest_match(data: &[u8], cur: usize, cfg: &CodecConfig) -> (r: (usize, usize))
    requires
        cur <= data.len(),
        cfg.wf(),
    ensures
        is_best_match(data@, cur as int, cfg.window_size as int, r.0 as int, r.1 as int),
{
    let w: usize = cfg.window_size as usize;
    let lo: usize = if cur > w {
        cur - w
    } else {
        0
    };
    let mut max_len: usize = 0;
    let mut match_index: usize = 0;
    let mut start: usize = lo;

    while start < cur
        invariant
            lo <= start <= cur,
            max_len <= w,
            cur + max_len <= data.len(),
            forall|s: int| lo <= s < start ==> run_len(data@, s, cur as int, w as int) <= max_len,
            max_len > 0 ==> {
                &&& lo <= match_index < start
                &&& run_len(data@, match_index as int, cur as int, w as int) == max_len
                &&& forall|s: int|
                    lo <= s < match_index ==> run_len(data@, s, cur as int, w as int) < max_len
            },
            max_len == 0 ==> match_index == 0,
        decreases cur - start,
    {
        // Greedy extension: equal bytes, bounded by the window and the end
        // of the data.
        let mut r: usize = start;
        let mut c: usize = cur;
        while c < data.len() && data[r] == data[c] && c - cur < w
            invariant
                cur <= c <= data.len(),
                r == start + (c - cur),
                c - cur <= w,
                run_len(data@, start as int, cur as int, w as int) == (c - cur) + run_len(
                    data@,
                    r as int,
                    c as int,
                    w as int - (c - cur),
                ),
            decreases data.len() - c,
        {
            r += 1;
            c += 1;
        }
        let len = c - cur;
        assert(run_len(data@, r as int, c as int, w as int - (c - cur)) == 0);

        if len > max_len {
            max_len = len;
            match_index = start;
        }
        start += 1;
    }

    if max_len == 0 {
        (cur, 0)
    } else {
        (cur - match_index, max_len)
    }
}

/// Tokenize `data`: at each cursor, take the best window match if it reaches
/// `min_match`, otherwise emit the byte as a literal. The resulting tokens
/// replay to exactly `data` and every match respects the window bounds.
#[verifier::loop_isolation(false)]
pub fn lz77_encode(data: &[u8], cfg: &CodecConfig) -> (tokens: Vec<Token>)
    requires
        cfg.wf(),
    ensures
        spec_replay(tokens@, *cfg) == Some(data@),
        tokens_in_window(tokens@, *cfg),
        tokens@ == spec_lz77_tokens(data@, *cfg, 0),
{
    let mut tokens: Vec<Token> = Vec::new();
    let mut i: usize = 0;
    proof {
        assert(Seq::<Token>::empty() + spec_lz77_tokens(data@, *cfg, 0) =~= spec_lz77_tokens(
            data@,
            *cfg,
            0,
        ));
    }

    while i < data.len()
        invariant
            i <= data.len(),
            spec_replay(tokens@, *cfg) == Some(data@.take(i as int)),
            tokens_in_window(tokens@, *cfg),
            spec_lz77_tokens(data@, *cfg, 0) == tokens@ + spec_lz77_tokens(data@, *cfg, i as int),
        decreases data.len() - i,
    {
        let (offset, length) = find_longest_match(data, i, cfg);
        let ghost prev = tokens@;
        proof {
            let w = cfg.window_size as int;
            let ghost cand = (offset as int, length as int);
            assert(is_best_match(data@, i as int, w, cand.0, cand.1));
            let r = spec_find(data@, i as int, w);
            assert(is_best_match(data@, i as int, w, r.0, r.1));
            lemma_best_match_unique(data@, i as int, w, cand.0, cand.1, r.0, r.1);
        }

        if length < cfg.min_match as usize {
            let t = Token::Literal(data[i]);
            proof {
                assert(tokens@.push(t).drop_last() =~= tokens@);
                assert(data@.take(i as int).push(data@[i as int]) =~= data@.take(i + 1));
                assert(spec_lz77_tokens(data@, *cfg, i as int) == seq![t] + spec_lz77_tokens(
                    data@,
                    *cfg,
                    i + 1,
                ));
                assert(prev + (seq![t] + spec_lz77_tokens(data@, *cfg, i + 1)) =~= prev.push(t)
                    + spec_lz77_tokens(data@, *cfg, i + 1));
            }
            tokens.push(t);
            i += 1;
        } else {
            proof {
                lemma_run_len_props(data@, i - offset, i as int, cfg.window_size as int);
            }
            let t = Token::Match { offset: offset as u16, length: length as u16 };
            proof {
                assert(tokens@.push(t).drop_last() =~= tokens@);
                lemma_copy_run_extends(data@, i as int, offset as int, length as int);
                assert(spec_lz77_tokens(data@, *cfg, i as int) == seq![t] + spec_lz77_tokens(
                    data@,
                    *cfg,
                    i + length,
                ));
                assert(prev + (seq![t] + spec_lz77_tokens(data@, *cfg, i + length)) =~= prev.push(
                    t,
                ) + spec_lz77_tokens(data@, *cfg, i + length));
            }
            tokens.push(t);
            i += length;
        }

        proof {
            assert forall|k: int| 0 <= k < tokens@.len() implies {
                &&& spec_replay(#[trigger] tokens@.take(k), *cfg) is Some
                &&& token_ok(spec_replay(tokens@.take(k), *cfg)->Some_0.len() as int, *cfg,
                tokens@[k])
            } by {
                if k < prev.len() {
                    assert(tokens@.take(k) =~= prev.take(k));
                } else {
                    assert(tokens@.take(k) =~= prev);
                }
            }
        }
    }
    proof {
        assert(data@.take(data@.len() as int) =~= data@);
        assert(tokens@ + spec_lz77_tokens(data@, *cfg, data@.len() as int) =~= tokens@);
    }
    tokens
}

/// Replay a token sequence into bytes. Fails with `CorruptStream` exactly
/// when some token would read before the start of the output or past the
/// window bounds.
#[verifier::loop_isolation(false)]
pub fn lz77_decode(tokens: &[Token], cfg: &CodecConfig) -> (r: Result<Vec<u8>, CodecError>)
    ensures
        match r {
            Ok(out) => spec_replay(tokens@, *cfg) == Some(out@),
            Err(e) => spec_replay(tokens@, *cfg) is None && e == CodecError::CorruptStream,
        },
{
    let mut out: Vec<u8> = Vec::new();
    let mut k: usize = 0;

    while k < tokens.len()
        invariant
            k <= tokens.len(),
            spec_replay(tokens@.take(k as int), *cfg) == Some(out@),
        decreases tokens.len() - k,
    {
        proof {
            assert(tokens@.take(k + 1).drop_last() =~= tokens@.take(k as int));
            assert(tokens@.take(k + 1).last() == tokens@[k as int]);
        }
        match tokens[k] {
            Token::Literal(b) => {
                out.push(b);
            },
            Token::Match { offset, length } => {
                let off = offset as usize;
                let len = length as usize;
                if off < 1 || off > out.len() || off > cfg.window_size as usize || len < 1 || len
                    > cfg.window_size as usize {
                    proof {
                        lemma_replay_prefix_none(tokens@, *cfg, k + 1);
                    }
                    return Err(CodecError::CorruptStream);
                }
                let ghost out0 = out@;
                let mut j: usize = 0;
                while j < len
                    invariant
                        j <= len,
                        1 <= off <= out0.len(),
                        out@.len() == out0.len() + j,
                        copy_run(out0, off as int, len as int) == copy_run(
                            out@,
                            off as int,
                            len as int - j,
                        ),
                    decreases len - j,
                {
                    let b = out[out.len() - off];
                    out.push(b);
                    j += 1;
                }
            },
        }
        k += 1;
    }
    proof {
        assert(tokens@.take(tokens@.len() as int) =~= tokens@);
    }
    Ok(out)
}

} // verus!
