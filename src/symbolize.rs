//! The symbolizer: one greedy pass that turns bytes into literals and
//! back-references.
use crate::locator::{top_k, Locator};
use crate::symbol::{
    is_block_of, lemma_copy_back, lz77_body_ok, lz77_decode, same_at, Symbol, MAX_DISTANCE,
    MAX_LENGTH,
};
use vstd::prelude::*;

verus! {

/// How many of the latest candidate positions are tried at each position.
pub const MAX_CANDIDATES: usize = 30;

/// The length of the common run of `data` from `i + k` and from `j + k`,
/// plus `k`, stopping at `MAX_LENGTH` and at the end of the data.
pub open spec fn match_len_from(data: Seq<u8>, i: int, j: int, k: int) -> int
    decreases MAX_LENGTH - k,
{
    if k >= MAX_LENGTH || i + k >= data.len() || j + k >= data.len() || data[i + k] != data[j
        + k] || k < 0 {
        k
    } else {
        match_len_from(data, i, j, k + 1)
    }
}

/// The length of the common run of `data` from `i` and from `j`, at most
/// `MAX_LENGTH`.
pub open spec fn match_len(data: Seq<u8>, i: int, j: int) -> int {
    match_len_from(data, i, j, 0)
}

/// A candidate position that a reference from `i` may use.
pub open spec fn reachable(i: int, loc: int) -> bool {
    loc < i && i - loc <= MAX_DISTANCE
}

/// The best match among the first `c` candidates `refs` from `i`, as
/// `(length, distance)`: the first reachable candidate with the longest
/// match, or `(0, 0)`.
pub open spec fn best_upto(data: Seq<u8>, i: int, refs: Seq<usize>, c: int) -> (nat, nat)
    decreases c,
{
    if c <= 0 {
        (0, 0)
    } else {
        let prev = best_upto(data, i, refs, c - 1);
        let loc = refs[c - 1] as int;
        if reachable(i, loc) && match_len(data, i, loc) > prev.0 {
            (match_len(data, i, loc) as nat, (i - loc) as nat)
        } else {
            prev
        }
    }
}

/// The state of the greedy parse: the position it has reached, what the
/// match finder holds (registrations, window starts, rolling hash), and the
/// symbols so far.
pub struct ParseState {
    pub cursor: nat,
    pub reg: Map<nat, usize>,
    pub cur: nat,
    pub prev: nat,
    pub next: nat,
    pub hash: usize,
    pub syms: Seq<Symbol>,
}

/// The rolling hash after one more byte.
pub open spec fn roll(h: usize, b: u8) -> usize {
    ((h << 5usize) ^ (b as usize)) & 0x7fffusize
}

/// The state after registering position `loc` under hash `h`: a position
/// 20000 or more past the current window's start opens a new window, and
/// the current one becomes the previous one.
pub open spec fn register_st(st: ParseState, h: usize, loc: nat) -> ParseState {
    let rotate = loc - st.cur >= 20000;
    ParseState {
        cursor: st.cursor,
        reg: st.reg.insert(loc, h),
        cur: if rotate {
            loc
        } else {
            st.cur
        },
        prev: if rotate {
            st.cur
        } else {
            st.prev
        },
        next: loc + 1,
        hash: st.hash,
        syms: st.syms,
    }
}

/// The state after position `i`: the hash takes the byte two ahead; at the
/// parse position the best match among the latest `MAX_CANDIDATES`
/// positions of the same hash in the windows becomes a reference when it
/// is at least three bytes long, else the byte becomes a literal; the
/// position is then registered when its key is complete.
pub open spec fn parse_step(data: Seq<u8>, i: nat, st: ParseState) -> ParseState {
    let hashed = i + 2 < data.len();
    let h = if hashed {
        roll(st.hash, data[(i + 2) as int])
    } else {
        st.hash
    };
    let st1 = ParseState {
        cursor: st.cursor,
        reg: st.reg,
        cur: st.cur,
        prev: st.prev,
        next: st.next,
        hash: h,
        syms: st.syms,
    };
    if st.cursor > i {
        if hashed {
            register_st(st1, h, i)
        } else {
            st1
        }
    } else {
        let cands = top_k(st.reg, h, st.prev as int, st.next as int, MAX_CANDIDATES as nat);
        let b = if hashed {
            best_upto(data, i as int, cands, cands.len() as int)
        } else {
            (0nat, 0nat)
        };
        let sym = if b.0 >= 3 {
            Symbol::Reference { length: b.0 as usize, distance: b.1 as usize }
        } else {
            Symbol::Literal(data[i as int])
        };
        let st2 = ParseState {
            cursor: if b.0 >= 3 {
                i + b.0
            } else {
                i + 1
            },
            reg: st.reg,
            cur: st.cur,
            prev: st.prev,
            next: st.next,
            hash: h,
            syms: st.syms.push(sym),
        };
        if hashed {
            register_st(st2, h, i)
        } else {
            st2
        }
    }
}

/// The state before the first position: the hash holds the first two bytes.
pub open spec fn parse_start(data: Seq<u8>) -> ParseState {
    let h0 = if data.len() > 0 {
        roll(0, data[0])
    } else {
        0
    };
    let h1 = if data.len() > 1 {
        roll(h0, data[1])
    } else {
        h0
    };
    ParseState {
        cursor: 0,
        reg: Map::empty(),
        cur: 0,
        prev: 0,
        next: 0,
        hash: h1,
        syms: Seq::empty(),
    }
}

/// The state after the first `i` positions.
pub open spec fn parse_state(data: Seq<u8>, i: nat) -> ParseState
    decreases i,
{
    if i == 0 {
        parse_start(data)
    } else {
        parse_step(data, (i - 1) as nat, parse_state(data, (i - 1) as nat))
    }
}

/// The greedy parse of `data`, ended by the end of the block.
pub open spec fn greedy_parse(data: Seq<u8>) -> Seq<Symbol> {
    parse_state(data, data.len()).syms.push(Symbol::EndOfBlock)
}

/// Splits `data` into symbols in one greedy pass: at each position the
/// longest match among the latest candidates of the match finder becomes a
/// reference when it is at least three bytes long, else the byte becomes a
/// literal. The symbols read back as `data` and end with the end of the
/// block.
#[verifier::rlimit(80)]
pub fn symbolize(data: &[u8]) -> (r: Vec<Symbol>)
    ensures
        r@ == greedy_parse(data@),
        is_block_of(r@, data@),
{
    let n = data.len();
    let mut symbols: Vec<Symbol> = Vec::new();
    let mut locator = Locator::new();
    let mut cursor: usize = 0;
    if n > 0 {
        locator.slide_hash(data[0]);
    }
    if n > 1 {
        locator.slide_hash(data[1]);
    }
    let mut i: usize = 0;
    proof {
        let st0 = parse_state(data@, 0);
        assert(st0 == parse_start(data@));
        assert(st0.hash == locator.hash_value());
        assert(st0.reg == locator.registered());
        assert(st0.syms == symbols@);
        assert(st0.cur == locator.current_start());
        assert(st0.prev == locator.window_start());
        assert(st0.next == locator.next_location());
    }
    while i < n
        invariant
            n == data@.len(),
            i <= cursor <= n,
            locator.wf(),
            locator.next_location() <= i,
            lz77_body_ok(symbols@),
            lz77_decode(symbols@) == data@.take(cursor as int),
            parse_state(data@, i as nat) == (ParseState {
                cursor: cursor as nat,
                reg: locator.registered(),
                cur: locator.current_start(),
                prev: locator.window_start(),
                next: locator.next_location(),
                hash: locator.hash_value(),
                syms: symbols@,
            }),
        decreases n - i,
    {
        let ghost st = parse_state(data@, i as nat);
        proof {
            assert(parse_state(data@, (i + 1) as nat) == parse_step(data@, i as nat, st));
        }
        let hash: Option<usize> = if n - i > 2 {
            Some(locator.slide_hash(data[i + 2]))
        } else {
            None
        };
        if cursor > i {
            if let Some(h) = hash {
                locator.register(h, i);
            }
            i = i + 1;
            continue;
        }
        let (length, distance) = match hash {
            Some(h) => {
                let candidates = locator.locate(h, MAX_CANDIDATES);
                longest_duplicate(data, i, &candidates)
            },
            None => (0, 0),
        };
        let ghost before = symbols@;
        if length >= 3 {
            let s = Symbol::Reference { length, distance };
            symbols.push(s);
            proof {
                assert(symbols@.drop_last() =~= before);
                lemma_copy_back(data@, i as nat, (i - distance) as nat, length as nat);
            }
            cursor = i + length;
        } else {
            symbols.push(Symbol::Literal(data[i]));
            proof {
                assert(symbols@.drop_last() =~= before);
                assert(data@.take(i as int).push(data@[i as int]) =~= data@.take(i + 1));
            }
            cursor = i + 1;
        }
        if let Some(h) = hash {
            locator.register(h, i);
        }
        i = i + 1;
    }
    let ghost body = symbols@;
    symbols.push(Symbol::EndOfBlock);
    proof {
        assert(symbols@.drop_last() =~= body);
        assert(data@.take(cursor as int) =~= data@);
    }
    symbols
}

/// The length of the common run of `data` from `i` and from `j`, at most
/// `MAX_LENGTH` bytes.
pub fn duplicate_length(data: &[u8], i: usize, j: usize) -> (r: usize)
    requires
        i <= data@.len(),
        j <= data@.len(),
    ensures
        r == match_len(data@, i as int, j as int),
        r <= MAX_LENGTH,
        i + r <= data@.len(),
        j + r <= data@.len(),
        forall|k: int| 0 <= k < r ==> #[trigger] same_at(data@, i as int, j as int, k),
{
    let mut len: usize = 0;
    while len < MAX_LENGTH && len < data.len() - i && len < data.len() - j && data[i + len]
        == data[j + len]
        invariant
            len <= MAX_LENGTH,
            i + len <= data@.len(),
            j + len <= data@.len(),
            match_len(data@, i as int, j as int) == match_len_from(
                data@,
                i as int,
                j as int,
                len as int,
            ),
            forall|k: int| 0 <= k < len ==> #[trigger] same_at(data@, i as int, j as int, k),
        decreases MAX_LENGTH - len,
    {
        len = len + 1;
    }
    len
}

/// The longest match from `i` among the candidate positions that a
/// reference can reach, as `(length, distance)`; `(0, 0)` when none can.
/// Among equally long matches the earliest candidate wins.
pub fn longest_duplicate(data: &[u8], i: usize, refs: &Vec<usize>) -> (r: (usize, usize))
    requires
        i <= data@.len(),
    ensures
        forall|c: int|
            0 <= c < refs@.len() && reachable(i as int, refs@[c] as int) ==> match_len(
                data@,
                i as int,
                #[trigger] refs@[c] as int,
            ) <= r.0,
        r.0 == 0 ==> r.1 == 0,
        r.0 > 0 ==> exists|c: int|
            0 <= c < refs@.len() && reachable(i as int, #[trigger] refs@[c] as int) && r.1 == i
                - refs@[c] && r.0 == match_len(data@, i as int, refs@[c] as int) && forall|c2: int|
                0 <= c2 < c && reachable(i as int, refs@[c2] as int) ==> match_len(
                    data@,
                    i as int,
                    #[trigger] refs@[c2] as int,
                ) < r.0,
        r.0 > 0 ==> 1 <= r.1 <= MAX_DISTANCE && r.1 <= i,
        r.0 == best_upto(data@, i as int, refs@, refs@.len() as int).0,
        r.1 == best_upto(data@, i as int, refs@, refs@.len() as int).1,
        r.0 <= MAX_LENGTH,
        i + r.0 <= data@.len(),
        forall|k: int| 0 <= k < r.0 ==> #[trigger] same_at(data@, i as int, i - r.1, k),
{
    let mut len: usize = 0;
    let mut distance: usize = 0;
    let mut c: usize = 0;
    while c < refs.len()
        invariant
            i <= data@.len(),
            c <= refs@.len(),
            forall|c2: int|
                0 <= c2 < c && reachable(i as int, refs@[c2] as int) ==> match_len(
                    data@,
                    i as int,
                    #[trigger] refs@[c2] as int,
                ) <= len,
            len == 0 ==> distance == 0,
            len > 0 ==> exists|c2: int|
                0 <= c2 < c && reachable(i as int, #[trigger] refs@[c2] as int) && distance == i
                    - refs@[c2] && len == match_len(data@, i as int, refs@[c2] as int) && forall|
                    c3: int,
                |
                    0 <= c3 < c2 && reachable(i as int, refs@[c3] as int) ==> match_len(
                        data@,
                        i as int,
                        #[trigger] refs@[c3] as int,
                    ) < len,
            len > 0 ==> 1 <= distance <= MAX_DISTANCE && distance <= i,
            len == best_upto(data@, i as int, refs@, c as int).0,
            distance == best_upto(data@, i as int, refs@, c as int).1,
            len <= MAX_LENGTH,
            i + len <= data@.len(),
            forall|k: int| 0 <= k < len ==> #[trigger] same_at(data@, i as int, i - distance, k),
        decreases refs.len() - c,
    {
        let loc = refs[c];
        if loc < i && i - loc <= MAX_DISTANCE {
            let candidate = duplicate_length(data, i, loc);
            if candidate > len {
                proof {
                    let cc = c as int;
                    assert(reachable(i as int, refs@[cc] as int));
                    assert forall|c3: int|
                        0 <= c3 < cc && reachable(i as int, refs@[c3] as int) implies match_len(
                        data@,
                        i as int,
                        #[trigger] refs@[c3] as int,
                    ) < candidate by {}
                }
                len = candidate;
                distance = i - loc;
            }
        }
        c = c + 1;
    }
    (len, distance)
}

} // verus!
