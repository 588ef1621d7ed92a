//! The packed trie: a frozen trie (with shared suffix blocks) read directly
//! from its base-64 binary encoding.
//!
//! The stream is never unpacked into nodes.  A node is a contiguous block of
//! fixed-width words in the decoded body; each word is one edge, laid out as
//! `[ char_idx | pointer | last ]` from most significant bit to least.  An
//! edge whose character index is 0 marks a valid word ending (TERMINAL); the
//! word whose `last` bit is set closes its block.

use vstd::prelude::*;
use vstd::arithmetic::power2::{lemma2_to64, pow2};
use vstd::bits::lemma_u32_shl_is_mul;
use crate::bitbuf::{bv_bits, bv_get, bv_len};
use crate::codec::{
    all_b64, b64_read, decode_chars, chars_of, field_val, lemma_field_val_bound,
    read_bits_in, read_field_chars, stream_bits, TrieError,
};
use crate::constants::{
    ALPHABET_START_CHAR, CHAR_WIDTH_FIELD, HEADER_WIDTH_FIELD, OFFSET_SIGN_FIELD,
    OFFSET_VAL_FIELD, POINTER_WIDTH_FIELD, TERMINAL, VERSION, VERSION_FIELD,
};

verus! {

/// The mathematical content of a packed trie: the decoded body bits, the
/// alphabet table, the signed pointer offset and the two field widths.
#[verifier::ext_equal]
pub struct TrieView {
    /// The decoded body, one bit per position.
    pub bits: Seq<bool>,
    /// The alphabet; entry `j` has character index `j + 1`, index 0 being
    /// the TERMINAL sentinel.
    pub alphabet: Seq<char>,
    /// The signed offset applied to every child pointer.
    pub offset: int,
    /// The width in bits of the character-index field of a word.
    pub char_width: nat,
    /// The width in bits of the pointer field of a word.
    pub pointer_width: nat,
}

impl TrieView {
    /// The width in bits of one packed word.
    pub open spec fn word_width(self) -> nat {
        self.char_width + self.pointer_width + 1
    }
}

/// What opening a stream yields: the decoded trie, or the error the stream
/// deserves.  The header is read field by field, in order, so the error of
/// the first failing read is reported.
pub open spec fn spec_open(s: Seq<char>) -> Result<TrieView, TrieError> {
    match b64_read(s, 0, HEADER_WIDTH_FIELD as int) {
        Err(e) => Err(e),
        Ok(h) => {
            let hw = h as int;
            if s.len() < hw {
                Err(TrieError::Truncated)
            } else {
                let header = s.take(hw);
                match b64_read(header, 10, VERSION_FIELD as int) {
                    Err(e) => Err(e),
                    Ok(version) => {
                        if version != VERSION {
                            Err(TrieError::UnsupportedVersion)
                        } else {
                            match b64_read(header, 20, OFFSET_SIGN_FIELD as int) {
                                Err(e) => Err(e),
                                Ok(sign) => match b64_read(header, 21, OFFSET_VAL_FIELD as int) {
                                    Err(e) => Err(e),
                                    Ok(val) => match b64_read(header, 42, CHAR_WIDTH_FIELD as int) {
                                        Err(e) => Err(e),
                                        Ok(cw) => match b64_read(
                                            header,
                                            50,
                                            POINTER_WIDTH_FIELD as int,
                                        ) {
                                            Err(e) => Err(e),
                                            Ok(pw) => spec_open_tail(s, header, sign, val, cw, pw),
                                        },
                                    },
                                },
                            }
                        }
                    },
                }
            }
        },
    }
}

/// The tail of [`spec_open`]: width checks, the alphabet table, the body.
pub open spec fn spec_open_tail(
    s: Seq<char>,
    header: Seq<char>,
    sign: u32,
    val: u32,
    cw: u32,
    pw: u32,
) -> Result<TrieView, TrieError> {
    if cw < 1 || pw < 1 || cw + pw + 1 > 32 {
        Err(TrieError::UnsupportedFormat)
    } else {
        let alphabet = header.skip(ALPHABET_START_CHAR as int);
        if exists|j: int| 0 <= j < alphabet.len() && #[trigger] alphabet[j] == TERMINAL {
            Err(TrieError::UnsupportedFormat)
        } else {
            let body = s.skip(header.len() as int);
            if !all_b64(body) {
                Err(TrieError::UnsupportedFormat)
            } else {
                Ok(
                    TrieView {
                        bits: stream_bits(body),
                        alphabet: alphabet,
                        offset: if sign == 1 {
                            -(val as int)
                        } else {
                            val as int
                        },
                        char_width: cw as nat,
                        pointer_width: pw as nat,
                    },
                )
            }
        }
    }
}

/// The 1-based position of the last occurrence of `c` in the alphabet, or
/// -1 when `c` does not occur.  The table is built front to back, a later
/// duplicate entry overwriting an earlier one, so the last occurrence wins.
pub open spec fn alpha_last_index(alpha: Seq<char>, c: char) -> int
    decreases alpha.len(),
{
    if alpha.len() == 0 {
        -1
    } else if alpha[alpha.len() - 1] == c {
        alpha.len() - 1
    } else {
        alpha_last_index(alpha.drop_last(), c)
    }
}

pub proof fn lemma_alpha_last_index(alpha: Seq<char>, c: char)
    ensures
        alpha_last_index(alpha, c) >= -1,
        alpha_last_index(alpha, c) == -1 ==> forall|j: int| 0 <= j < alpha.len() ==> alpha[j] != c,
        alpha_last_index(alpha, c) >= 0 ==> alpha_last_index(alpha, c) < alpha.len() && alpha[
            alpha_last_index(alpha, c)
        ] == c,
    decreases alpha.len(),
{
    if alpha.len() > 0 && alpha[alpha.len() - 1] != c {
        lemma_alpha_last_index(alpha.drop_last(), c);
        if alpha_last_index(alpha, c) == -1 {
            assert forall|j: int| 0 <= j < alpha.len() implies alpha[j] != c by {
                if j < alpha.len() - 1 {
                    assert(alpha.drop_last()[j] == alpha[j]);
                }
            }
        } else {
            let ix = alpha_last_index(alpha, c);
            assert(alpha.drop_last()[ix] == alpha[ix]);
        }
    }
}

/// The character index the table assigns to a token: 0 for the TERMINAL
/// sentinel, the 1-based position of the last alphabet entry equal to the
/// token, or `None` when the token is not in the table.
pub open spec fn tok_index(alpha: Seq<char>, c: char) -> Option<int> {
    if c == TERMINAL {
        Some(0int)
    } else if alpha_last_index(alpha, c) >= 0 {
        Some(alpha_last_index(alpha, c) + 1)
    } else {
        None
    }
}

impl TrieView {
    /// Whether word `w` lies entirely inside the body.
    pub open spec fn word_in_range(self, w: int) -> bool {
        0 <= w && (w + 1) * self.word_width() <= self.bits.len()
    }

    /// The character index of the edge at word `w`: the first `char_width`
    /// bits of the word.
    pub open spec fn edge_char(self, w: int) -> nat {
        field_val(self.bits, w * self.word_width(), self.char_width)
    }

    /// The pointer field of the edge at word `w`: the `pointer_width` bits
    /// after the character index.
    pub open spec fn edge_ptr(self, w: int) -> nat {
        field_val(self.bits, w * self.word_width() + self.char_width, self.pointer_width)
    }

    /// The `last` flag of the edge at word `w`: its least significant bit.
    /// A set flag closes the block.
    pub open spec fn edge_last(self, w: int) -> bool {
        self.bits[w * self.word_width() + self.char_width + self.pointer_width]
    }

    /// The word index of the child block of the edge at word `w`.
    pub open spec fn child_of(self, w: int) -> int {
        w + self.offset + self.edge_ptr(w)
    }

    /// The traversal fuel a query starts with: one more than the number of
    /// whole words in the body.  On a well-formed body every root-to-leaf
    /// path visits distinct words, so a query that runs out of fuel has
    /// found a cycle, which only a corrupt stream can hold.
    pub open spec fn fuel0(self) -> nat {
        self.bits.len() / self.word_width() + 1
    }
}

/// The number of body bits at or after word `w`; the measure by which a
/// block scan descends.
pub open spec fn rem_words(t: TrieView, w: int) -> int {
    if t.bits.len() - w * t.word_width() >= 0 {
        t.bits.len() - w * t.word_width()
    } else {
        0
    }
}

/// What a breadth-first search of the packed body emits, frame by frame, in
/// depth-first order (the two orders agree on the fixed-depth matches of a
/// non-prefix query; a prefix query's matches are here grouped by subtree).
///
/// The scan starts at word `w` with the accumulated word `memo`, whose
/// length is the pattern position.  `None` reports a corrupt stream: a word
/// that runs past the body, a character index beyond the alphabet, or fuel
/// exhausted on a pointer cycle.
pub open spec fn search_from(
    t: TrieView,
    p: Seq<char>,
    prefix: bool,
    memo: Seq<char>,
    w: int,
    fuel: nat,
) -> Option<Seq<Seq<char>>>
    decreases fuel, rem_words(t, w),
    via search_from_decreases
{
    let i = memo.len() as int;
    let is_last = i >= p.len();
    let token = if is_last {
        TERMINAL
    } else {
        p[i]
    };
    let is_wild = token == '*' || (prefix && is_last);
    let tok = tok_index(t.alphabet, token);
    if !is_wild && tok is None {
        Some(Seq::empty())
    } else if !t.word_in_range(w) {
        None
    } else {
        let c_idx = t.edge_char(w) as int;
        let tok_idx = if is_wild {
            0int
        } else {
            tok.unwrap()
        };
        let matched = is_wild || c_idx == tok_idx;
        if matched && c_idx > t.alphabet.len() {
            None
        } else if matched && c_idx == 0 && is_last && !is_wild {
            Some(seq![memo])
        } else {
            let from_edge: Option<Seq<Seq<char>>> = if matched && c_idx == 0 && is_last {
                Some(seq![memo])
            } else if matched && c_idx != 0 {
                if fuel == 0 {
                    None
                } else {
                    search_from(
                        t,
                        p,
                        prefix,
                        memo.push(t.alphabet[c_idx - 1]),
                        t.child_of(w),
                        (fuel - 1) as nat,
                    )
                }
            } else {
                Some(Seq::empty())
            };
            match from_edge {
                None => None,
                Some(cs) => {
                    if t.edge_last(w) {
                        Some(cs)
                    } else {
                        match search_from(t, p, prefix, memo, w + 1, fuel) {
                            None => None,
                            Some(rest) => Some(cs + rest),
                        }
                    }
                },
            }
        }
    }
}

#[via_fn]
proof fn search_from_decreases(
    t: TrieView,
    p: Seq<char>,
    prefix: bool,
    memo: Seq<char>,
    w: int,
    fuel: nat,
) {
    if t.word_in_range(w) {
        assert((w + 1) * t.word_width() == w * t.word_width() + t.word_width())
            by (nonlinear_arith);
    }
}

/// What a query emits, before the reversal that orders matches latest
/// discovery first.
pub open spec fn spec_search(t: TrieView, p: Seq<char>, prefix: bool) -> Option<Seq<Seq<char>>> {
    search_from(t, p, prefix, Seq::empty(), 0, t.fuel0())
}

/// Whether the word `m` matches the pattern `p`: for a plain search the
/// lengths are equal, for a prefix search the word is at least as long, and
/// every pattern position holds either the wildcard or the word's character
/// at that position.
pub open spec fn matches_pattern(p: Seq<char>, m: Seq<char>, prefix: bool) -> bool {
    &&& if prefix {
        m.len() >= p.len()
    } else {
        m.len() == p.len()
    }
    &&& forall|j: int| 0 <= j < p.len() ==> p[j] == '*' || p[j] == m[j]
}

/// Whether the word `m` extends the accumulated word `memo`.
pub open spec fn extends_memo(m: Seq<char>, memo: Seq<char>) -> bool {
    m.len() >= memo.len() && m.take(memo.len() as int) == memo
}

/// Every word a block scan emits extends the scan's accumulated word and
/// matches the pattern.  Instantiated at the root this is the engine's shape
/// law: `search(p)` returns only words of length `|p|` (at least `|p|`, for
/// a prefix search) that agree with `p` at every non-wildcard position.
pub proof fn lemma_search_from_shape(
    t: TrieView,
    p: Seq<char>,
    prefix: bool,
    memo: Seq<char>,
    w: int,
    fuel: nat,
)
    requires
        search_from(t, p, prefix, memo, w, fuel) is Some,
        !prefix ==> memo.len() <= p.len(),
        forall|j: int| 0 <= j < memo.len() && j < p.len() ==> p[j] == '*' || p[j] == memo[j],
    ensures
        forall|k: int|
            0 <= k < search_from(t, p, prefix, memo, w, fuel).unwrap().len() ==> {
                let m = #[trigger] search_from(t, p, prefix, memo, w, fuel).unwrap()[k];
                matches_pattern(p, m, prefix) && extends_memo(m, memo)
            },
    decreases fuel, rem_words(t, w),
{
    let r = search_from(t, p, prefix, memo, w, fuel).unwrap();
    let i = memo.len() as int;
    let is_last = i >= p.len();
    let token = if is_last {
        TERMINAL
    } else {
        p[i]
    };
    let is_wild = token == '*' || (prefix && is_last);
    let tok = tok_index(t.alphabet, token);
    if !is_wild && tok is None {
    } else if !t.word_in_range(w) {
    } else {
        let c_idx = t.edge_char(w) as int;
        let tok_idx = if is_wild {
            0int
        } else {
            tok.unwrap()
        };
        let matched = is_wild || c_idx == tok_idx;
        if matched && c_idx > t.alphabet.len() {
        } else if matched && c_idx == 0 && is_last && !is_wild {
            assert(memo.take(memo.len() as int) =~= memo);
            assert(r == seq![memo]);
        } else {
            let cs: Seq<Seq<char>> = if matched && c_idx == 0 && is_last {
                seq![memo]
            } else if matched && c_idx != 0 {
                search_from(
                    t,
                    p,
                    prefix,
                    memo.push(t.alphabet[c_idx - 1]),
                    t.child_of(w),
                    (fuel - 1) as nat,
                ).unwrap()
            } else {
                Seq::empty()
            };
            assert(memo.take(memo.len() as int) =~= memo);
            if matched && c_idx != 0 {
                let c = t.alphabet[c_idx - 1];
                let memo2 = memo.push(c);
                if !is_wild {
                    lemma_alpha_last_index(t.alphabet, token);
                    assert(t.alphabet[tok_idx - 1] == token);
                }
                assert(forall|j: int|
                    0 <= j < memo2.len() && j < p.len() ==> p[j] == '*' || p[j] == memo2[j]);
                lemma_search_from_shape(t, p, prefix, memo2, t.child_of(w), (fuel - 1) as nat);
                assert forall|k: int| 0 <= k < cs.len() implies {
                    let m = #[trigger] cs[k];
                    matches_pattern(p, m, prefix) && extends_memo(m, memo)
                } by {
                    let m = cs[k];
                    assert(extends_memo(m, memo2));
                    assert(memo2.take(memo.len() as int) =~= memo);
                    assert(m.take(memo.len() as int) =~= m.take(memo2.len() as int).take(
                        memo.len() as int,
                    ));
                }
            }
            if !t.edge_last(w) {
                assert((w + 1) * t.word_width() == w * t.word_width() + t.word_width())
                    by (nonlinear_arith);
                lemma_search_from_shape(t, p, prefix, memo, w + 1, fuel);
                let rest = search_from(t, p, prefix, memo, w + 1, fuel).unwrap();
                assert(r == cs + rest);
                assert forall|k: int| 0 <= k < r.len() implies {
                    let m = #[trigger] r[k];
                    matches_pattern(p, m, prefix) && extends_memo(m, memo)
                } by {
                    if k < cs.len() {
                        assert(r[k] == cs[k]);
                    } else {
                        assert(r[k] == rest[k - cs.len()]);
                    }
                }
            }
        }
    }
}

/// The shape law at the root: a non-prefix search returns only words of the
/// pattern's length, a prefix search only words at least that long, and
/// every returned word agrees with the pattern at each non-wildcard
/// position.
pub proof fn lemma_search_matches_pattern(t: TrieView, p: Seq<char>, prefix: bool)
    requires
        spec_search(t, p, prefix) is Some,
    ensures
        forall|k: int|
            0 <= k < spec_search(t, p, prefix).unwrap().len() ==> matches_pattern(
                p,
                #[trigger] spec_search(t, p, prefix).unwrap()[k],
                prefix,
            ),
{
    lemma_search_from_shape(t, p, prefix, Seq::empty(), 0, t.fuel0());
}

/// Whether word `e` belongs to the block that contains word `w1` at or after
/// `w1`: every word from `w1` up to `e` is open (its `last` flag clear).
pub open spec fn same_block(t: TrieView, w1: int, e: int) -> bool {
    &&& 0 <= w1 <= e
    &&& t.word_in_range(e)
    &&& forall|k: int| w1 <= k < e ==> !(#[trigger] t.edge_last(k))
}

/// A stream invariant the encoder guarantees: within one block every edge
/// carries a distinct character index.
pub open spec fn blocks_distinct(t: TrieView) -> bool {
    forall|w1: int, e: int|
        #[trigger] same_block(t, w1, e) && w1 < e ==> t.edge_char(w1) != t.edge_char(e)
}

/// A stream invariant the encoder guarantees: the alphabet entries are
/// pairwise distinct characters.
pub open spec fn alphabet_distinct(t: TrieView) -> bool {
    forall|j1: int, j2: int|
        0 <= j1 < j2 < t.alphabet.len() ==> #[trigger] t.alphabet[j1] != #[trigger] t.alphabet[j2]
}

/// The character index a literal (wildcard-free) scan at pattern position
/// `i` looks for.
pub open spec fn literal_tok(t: TrieView, p: Seq<char>, i: int) -> int {
    if i >= p.len() {
        0int
    } else {
        tok_index(t.alphabet, p[i]).unwrap()
    }
}

/// A literal scan emits at most one word, and only by matching an edge
/// whose character index is the one the pattern position asks for.
proof fn lemma_search_from_literal(t: TrieView, p: Seq<char>, memo: Seq<char>, w: int, fuel: nat)
    requires
        blocks_distinct(t),
        forall|j: int| 0 <= j < p.len() ==> p[j] != '*',
        search_from(t, p, false, memo, w, fuel) is Some,
    ensures
        search_from(t, p, false, memo, w, fuel).unwrap().len() <= 1,
        search_from(t, p, false, memo, w, fuel).unwrap().len() >= 1 ==> exists|e: int|
            same_block(t, w, e) && #[trigger] t.edge_char(e) == literal_tok(
                t,
                p,
                memo.len() as int,
            ),
    decreases fuel, rem_words(t, w),
{
    let r = search_from(t, p, false, memo, w, fuel).unwrap();
    let i = memo.len() as int;
    let is_last = i >= p.len();
    let token = if is_last {
        TERMINAL
    } else {
        p[i]
    };
    let tok = tok_index(t.alphabet, token);
    if tok is None {
    } else if !t.word_in_range(w) {
    } else {
        let c_idx = t.edge_char(w) as int;
        let tok_idx = tok.unwrap();
        let matched = c_idx == tok_idx;
        if matched && c_idx > t.alphabet.len() {
        } else if matched && c_idx == 0 && is_last {
            assert(same_block(t, w, w));
            assert(t.edge_char(w) == literal_tok(t, p, i));
        } else {
            let cs: Seq<Seq<char>> = if matched && c_idx != 0 {
                search_from(
                    t,
                    p,
                    false,
                    memo.push(t.alphabet[c_idx - 1]),
                    t.child_of(w),
                    (fuel - 1) as nat,
                ).unwrap()
            } else {
                Seq::empty()
            };
            if matched && c_idx != 0 {
                lemma_search_from_literal(
                    t,
                    p,
                    memo.push(t.alphabet[c_idx - 1]),
                    t.child_of(w),
                    (fuel - 1) as nat,
                );
            }
            if !t.edge_last(w) {
                assert((w + 1) * t.word_width() == w * t.word_width() + t.word_width())
                    by (nonlinear_arith);
                lemma_search_from_literal(t, p, memo, w + 1, fuel);
                let rest = search_from(t, p, false, memo, w + 1, fuel).unwrap();
                assert(r == cs + rest);
                if cs.len() >= 1 && rest.len() >= 1 {
                    let e = choose|e: int|
                        same_block(t, w + 1, e) && #[trigger] t.edge_char(e) == literal_tok(
                            t,
                            p,
                            i,
                        );
                    assert(same_block(t, w, e));
                    assert(t.edge_char(w) != t.edge_char(e));
                    assert(false);
                }
                if cs.len() >= 1 {
                    assert(same_block(t, w, w));
                }
                if rest.len() >= 1 {
                    let e = choose|e: int|
                        same_block(t, w + 1, e) && #[trigger] t.edge_char(e) == literal_tok(
                            t,
                            p,
                            i,
                        );
                    assert(same_block(t, w, e));
                }
            } else {
                if cs.len() >= 1 {
                    assert(same_block(t, w, w));
                }
            }
        }
    }
}

/// Every word a block scan emits extends the accumulated word; a word of
/// the accumulated word's own length is that word itself, owed to a
/// TERMINAL edge of the block; a longer word continues with the character
/// of one of the block's edges; and, under the encoder's distinctness
/// invariants, no word is emitted twice.
proof fn lemma_search_from_distinct(
    t: TrieView,
    p: Seq<char>,
    prefix: bool,
    memo: Seq<char>,
    w: int,
    fuel: nat,
)
    requires
        blocks_distinct(t),
        alphabet_distinct(t),
        search_from(t, p, prefix, memo, w, fuel) is Some,
    ensures
        ({
            let r = search_from(t, p, prefix, memo, w, fuel).unwrap();
            &&& forall|k: int| 0 <= k < r.len() ==> extends_memo(#[trigger] r[k], memo)
            &&& ((exists|k: int| 0 <= k < r.len() && (#[trigger] r[k]).len() == memo.len())
                ==> exists|e: int| same_block(t, w, e) && #[trigger] t.edge_char(e) == 0)
            &&& forall|k: int|
                0 <= k < r.len() && (#[trigger] r[k]).len() > memo.len() ==> exists|e: int|
                    same_block(t, w, e) && 1 <= #[trigger] t.edge_char(e) <= t.alphabet.len()
                        && r[k][memo.len() as int] == t.alphabet[t.edge_char(e) - 1]
            &&& forall|k1: int, k2: int| 0 <= k1 < k2 < r.len() ==> r[k1] != r[k2]
        }),
    decreases fuel, rem_words(t, w),
{
    let r = search_from(t, p, prefix, memo, w, fuel).unwrap();
    let i = memo.len() as int;
    let is_last = i >= p.len();
    let token = if is_last {
        TERMINAL
    } else {
        p[i]
    };
    let is_wild = token == '*' || (prefix && is_last);
    let tok = tok_index(t.alphabet, token);
    assert(memo.take(i) =~= memo);
    if !is_wild && tok is None {
    } else if !t.word_in_range(w) {
    } else {
        let c_idx = t.edge_char(w) as int;
        let tok_idx = if is_wild {
            0int
        } else {
            tok.unwrap()
        };
        let matched = is_wild || c_idx == tok_idx;
        if matched && c_idx > t.alphabet.len() {
        } else if matched && c_idx == 0 && is_last && !is_wild {
            assert(same_block(t, w, w));
        } else {
            let cs: Seq<Seq<char>> = if matched && c_idx == 0 && is_last {
                seq![memo]
            } else if matched && c_idx != 0 {
                search_from(
                    t,
                    p,
                    prefix,
                    memo.push(t.alphabet[c_idx - 1]),
                    t.child_of(w),
                    (fuel - 1) as nat,
                ).unwrap()
            } else {
                Seq::empty()
            };
            assert(same_block(t, w, w));
            if matched && c_idx != 0 {
                let memo2 = memo.push(t.alphabet[c_idx - 1]);
                lemma_search_from_distinct(t, p, prefix, memo2, t.child_of(w), (fuel - 1) as nat);
                assert(memo2.take(i) =~= memo);
                assert forall|k: int| 0 <= k < cs.len() implies extends_memo(#[trigger] cs[k], memo)
                    && cs[k].len() > memo.len() && cs[k][i] == t.alphabet[c_idx - 1] by {
                    assert(extends_memo(cs[k], memo2));
                    assert(cs[k][i] == cs[k].take(i + 1)[i]);
                    assert(cs[k].take(i) =~= cs[k].take(i + 1).take(i));
                }
            }
            if !t.edge_last(w) {
                assert((w + 1) * t.word_width() == w * t.word_width() + t.word_width())
                    by (nonlinear_arith);
                lemma_search_from_distinct(t, p, prefix, memo, w + 1, fuel);
                let rest = search_from(t, p, prefix, memo, w + 1, fuel).unwrap();
                assert(r == cs + rest);
                assert forall|e: int| same_block(t, w + 1, e) implies same_block(t, w, e) by {
                    assert forall|k: int| w <= k < e implies !(#[trigger] t.edge_last(k)) by {
                        if k > w {
                        }
                    }
                }
                assert forall|k: int| 0 <= k < r.len() implies extends_memo(
                    #[trigger] r[k],
                    memo,
                ) by {
                    if k < cs.len() {
                        assert(r[k] == cs[k]);
                    } else {
                        assert(r[k] == rest[k - cs.len()]);
                    }
                }
                assert forall|k: int|
                    0 <= k < r.len() && (#[trigger] r[k]).len() > memo.len() implies exists|e: int|
                        same_block(t, w, e) && 1 <= #[trigger] t.edge_char(e) <= t.alphabet.len()
                            && r[k][memo.len() as int] == t.alphabet[t.edge_char(e) - 1] by {
                    if k < cs.len() {
                        assert(r[k] == cs[k]);
                        if matched && c_idx != 0 {
                            assert(same_block(t, w, w) && 1 <= t.edge_char(w) <= t.alphabet.len()
                                && r[k][memo.len() as int] == t.alphabet[t.edge_char(w) - 1]);
                        }
                    } else {
                        assert(r[k] == rest[k - cs.len()]);
                        let e = choose|e: int|
                            same_block(t, w + 1, e) && 1 <= #[trigger] t.edge_char(e)
                                <= t.alphabet.len() && rest[k - cs.len()][memo.len() as int]
                                == t.alphabet[t.edge_char(e) - 1];
                        assert(same_block(t, w, e));
                    }
                }
                if exists|k: int| 0 <= k < r.len() && (#[trigger] r[k]).len() == memo.len() {
                    let k = choose|k: int|
                        0 <= k < r.len() && (#[trigger] r[k]).len() == memo.len();
                    if k < cs.len() {
                        assert(r[k] == cs[k]);
                        assert(matched && c_idx == 0 && is_last);
                    } else {
                        assert(r[k] == rest[k - cs.len()]);
                        let e = choose|e: int|
                            same_block(t, w + 1, e) && #[trigger] t.edge_char(e) == 0;
                        assert(same_block(t, w, e));
                    }
                }
                assert forall|k1: int, k2: int| 0 <= k1 < k2 < r.len() implies r[k1] != r[k2] by {
                    if k2 < cs.len() {
                        assert(r[k1] == cs[k1] && r[k2] == cs[k2]);
                    } else if k1 >= cs.len() {
                        assert(r[k1] == rest[k1 - cs.len()] && r[k2] == rest[k2 - cs.len()]);
                    } else {
                        let m1 = cs[k1];
                        let m2 = rest[k2 - cs.len()];
                        assert(r[k1] == m1 && r[k2] == m2);
                        if matched && c_idx == 0 && is_last {
                            assert(m1 == memo);
                            if m2.len() == memo.len() {
                                let e = choose|e: int|
                                    same_block(t, w + 1, e) && #[trigger] t.edge_char(e) == 0;
                                assert(same_block(t, w, e));
                                assert(t.edge_char(w) != t.edge_char(e));
                                assert(false);
                            } else {
                                assert(extends_memo(m2, memo));
                            }
                        } else {
                            assert(matched && c_idx != 0);
                            if m2.len() == memo.len() {
                                assert(m2.take(i) =~= m2);
                                assert(m2 == memo);
                            } else {
                                let e = choose|e: int|
                                    same_block(t, w + 1, e) && 1 <= #[trigger] t.edge_char(e)
                                        <= t.alphabet.len() && m2[memo.len() as int]
                                        == t.alphabet[t.edge_char(e) - 1];
                                assert(same_block(t, w, e));
                                assert(t.edge_char(w) != t.edge_char(e));
                                assert(t.alphabet[c_idx - 1] != t.alphabet[t.edge_char(e) - 1]);
                                assert(m1[i] != m2[i]);
                            }
                        }
                    }
                }
            }
        }
    }
}

/// No word appears twice among a search's results, for a stream whose
/// blocks carry distinct edge characters and whose alphabet entries are
/// distinct, as the encoder guarantees.
pub proof fn lemma_search_no_duplicates(t: TrieView, p: Seq<char>, prefix: bool)
    requires
        blocks_distinct(t),
        alphabet_distinct(t),
        spec_search(t, p, prefix) is Some,
    ensures
        forall|k1: int, k2: int|
            0 <= k1 < k2 < spec_search(t, p, prefix).unwrap().len() ==> spec_search(
                t,
                p,
                prefix,
            ).unwrap()[k1] != spec_search(t, p, prefix).unwrap()[k2],
{
    lemma_search_from_distinct(t, p, prefix, Seq::empty(), 0, t.fuel0());
}

/// A literal pattern, one with no wildcard, matches at most one word.
pub proof fn lemma_literal_at_most_one(t: TrieView, p: Seq<char>)
    requires
        blocks_distinct(t),
        forall|j: int| 0 <= j < p.len() ==> p[j] != '*',
        spec_search(t, p, false) is Some,
    ensures
        spec_search(t, p, false).unwrap().len() <= 1,
{
    lemma_search_from_literal(t, p, Seq::empty(), 0, t.fuel0());
}

/// Whether the packed body, scanned from word `w` with `fuel` descents
/// left, accepts the word `m` from position `i`: some edge of the block
/// carries `m[i]` and leads to a block accepting the rest, or, when the
/// whole word is consumed, some edge of the block is TERMINAL.
pub open spec fn accepts_from(t: TrieView, m: Seq<char>, i: int, w: int, fuel: nat) -> bool
    decreases fuel, rem_words(t, w),
    via accepts_from_decreases
{
    if !t.word_in_range(w) {
        false
    } else {
        let c_idx = t.edge_char(w) as int;
        let here = if i >= m.len() {
            c_idx == 0
        } else if 1 <= c_idx && c_idx <= t.alphabet.len() && t.alphabet[c_idx - 1] == m[i] && fuel
            > 0 {
            accepts_from(t, m, i + 1, t.child_of(w), (fuel - 1) as nat)
        } else {
            false
        };
        here || (!t.edge_last(w) && accepts_from(t, m, i, w + 1, fuel))
    }
}

#[via_fn]
proof fn accepts_from_decreases(t: TrieView, m: Seq<char>, i: int, w: int, fuel: nat) {
    if t.word_in_range(w) {
        assert((w + 1) * t.word_width() == w * t.word_width() + t.word_width())
            by (nonlinear_arith);
    }
}

/// Whether the trie stores the word `m`.
pub open spec fn accepts_word(t: TrieView, m: Seq<char>) -> bool {
    accepts_from(t, m, 0, 0, t.fuel0())
}

proof fn lemma_contains_concat<A>(a: Seq<A>, b: Seq<A>, x: A)
    ensures
        (a + b).contains(x) <==> a.contains(x) || b.contains(x),
{
    if (a + b).contains(x) {
        let k = choose|k: int| 0 <= k < (a + b).len() && (a + b)[k] == x;
        if k < a.len() {
            assert(a[k] == x);
        } else {
            assert(b[k - a.len()] == x);
        }
    }
    if a.contains(x) {
        let k = choose|k: int| 0 <= k < a.len() && a[k] == x;
        assert((a + b)[k] == x);
    }
    if b.contains(x) {
        let k = choose|k: int| 0 <= k < b.len() && b[k] == x;
        assert((a + b)[a.len() + k] == x);
    }
}

/// A scan under an all-wildcard pattern emits exactly the extensions of its
/// accumulated word, of the pattern's length, that the body accepts from
/// this block.
proof fn lemma_search_from_wild(t: TrieView, p: Seq<char>, memo: Seq<char>, w: int, fuel: nat)
    requires
        forall|j: int| 0 <= j < p.len() ==> p[j] == '*',
        memo.len() <= p.len(),
        search_from(t, p, false, memo, w, fuel) is Some,
    ensures
        forall|m: Seq<char>|
            search_from(t, p, false, memo, w, fuel).unwrap().contains(m) <==> (m.len() == p.len()
                && extends_memo(m, memo) && accepts_from(t, m, memo.len() as int, w, fuel)),
    decreases fuel, rem_words(t, w),
{
    let r = search_from(t, p, false, memo, w, fuel).unwrap();
    let i = memo.len() as int;
    let is_last = i >= p.len();
    let token = if is_last {
        TERMINAL
    } else {
        p[i]
    };
    let is_wild = token == '*';
    if !t.word_in_range(w) {
        assert(false);
    } else {
        let c_idx = t.edge_char(w) as int;
        assert(memo.take(i) =~= memo);
        if is_last && c_idx == 0 {
            assert(r == seq![memo]);
            assert forall|m: Seq<char>|
                r.contains(m) <==> (m.len() == p.len() && extends_memo(m, memo) && accepts_from(
                    t,
                    m,
                    i,
                    w,
                    fuel,
                )) by {
                if r.contains(m) {
                    let k = choose|k: int| 0 <= k < r.len() && r[k] == m;
                    assert(m == memo);
                }
                if m.len() == p.len() && extends_memo(m, memo) {
                    assert(m.take(i) =~= m);
                    assert(m == memo);
                    assert(r[0] == memo);
                }
            }
        } else if !is_wild && !(is_last && c_idx == 0) && is_last {
            // literal TERMINAL scan over a non-terminal edge: nothing here
            let rest: Seq<Seq<char>> = if !t.edge_last(w) {
                search_from(t, p, false, memo, w + 1, fuel).unwrap()
            } else {
                Seq::empty()
            };
            if !t.edge_last(w) {
                assert((w + 1) * t.word_width() == w * t.word_width() + t.word_width())
                    by (nonlinear_arith);
                lemma_search_from_wild(t, p, memo, w + 1, fuel);
                assert(r =~= Seq::<Seq<char>>::empty() + rest);
                assert(r =~= rest);
            } else {
                assert(r =~= Seq::<Seq<char>>::empty());
            }
            assert forall|m: Seq<char>|
                r.contains(m) <==> (m.len() == p.len() && extends_memo(m, memo) && accepts_from(
                    t,
                    m,
                    i,
                    w,
                    fuel,
                )) by {
                if m.len() == p.len() {
                    assert(i >= m.len());
                }
            }
        } else {
            // a wildcard position: every edge is matched
            assert(is_wild);
            assert(i < p.len());
            if c_idx > t.alphabet.len() {
                assert(false);
            }
            let rest: Seq<Seq<char>> = if !t.edge_last(w) {
                search_from(t, p, false, memo, w + 1, fuel).unwrap()
            } else {
                Seq::empty()
            };
            if !t.edge_last(w) {
                assert((w + 1) * t.word_width() == w * t.word_width() + t.word_width())
                    by (nonlinear_arith);
                lemma_search_from_wild(t, p, memo, w + 1, fuel);
            }
            if c_idx == 0 {
                if !t.edge_last(w) {
                    assert(r =~= Seq::<Seq<char>>::empty() + rest);
                    assert(r =~= rest);
                } else {
                    assert(r =~= Seq::<Seq<char>>::empty());
                }
                assert forall|m: Seq<char>|
                    r.contains(m) <==> (m.len() == p.len() && extends_memo(m, memo)
                        && accepts_from(t, m, i, w, fuel)) by {
                    if m.len() == p.len() {
                        assert(i < m.len());
                    }
                }
            } else {
                assert(fuel > 0);
                let cv = t.alphabet[c_idx - 1];
                let memo2 = memo.push(cv);
                let cs = search_from(
                    t,
                    p,
                    false,
                    memo2,
                    t.child_of(w),
                    (fuel - 1) as nat,
                ).unwrap();
                lemma_search_from_wild(t, p, memo2, t.child_of(w), (fuel - 1) as nat);
                assert(r == cs + rest);
                assert(memo2.take(i) =~= memo);
                assert forall|m: Seq<char>|
                    r.contains(m) <==> (m.len() == p.len() && extends_memo(m, memo)
                        && accepts_from(t, m, i, w, fuel)) by {
                    lemma_contains_concat(cs, rest, m);
                    if m.len() == p.len() {
                        assert(i < m.len());
                        if extends_memo(m, memo2) {
                            assert(m.take(i) =~= m.take(i + 1).take(i));
                            assert(m[i] == m.take(i + 1)[i]);
                        }
                        if extends_memo(m, memo) && m[i] == cv {
                            assert(m.take(i + 1) =~= memo2);
                        }
                    }
                }
            }
        }
    }
}

/// An all-wildcard pattern of length `L` enumerates exactly the stored
/// words of length `L`: a word is among the results if and only if the trie
/// accepts it and its length is `L`.  By the no-duplicates law each such
/// word appears exactly once.
pub proof fn lemma_search_all_wild(t: TrieView, p: Seq<char>)
    requires
        forall|j: int| 0 <= j < p.len() ==> p[j] == '*',
        spec_search(t, p, false) is Some,
    ensures
        forall|m: Seq<char>|
            spec_search(t, p, false).unwrap().contains(m) <==> (m.len() == p.len() && accepts_word(
                t,
                m,
            )),
{
    lemma_search_from_wild(t, p, Seq::empty(), 0, t.fuel0());
    assert forall|m: Seq<char>| extends_memo(m, Seq::<char>::empty()) by {
        assert(m.take(0) =~= Seq::<char>::empty());
    }
}

/// A pattern tests positive exactly when its search returns matches: the
/// boolean of `test` and the list of `search` are governed by one match
/// list, and the reversal that orders the list keeps its emptiness.  The
/// same holds of `test_pfx` against `search_pfx`.
pub proof fn lemma_test_iff_search_nonempty(t: TrieView, p: Seq<char>, prefix: bool)
    requires
        spec_search(t, p, prefix) is Some,
    ensures
        spec_search(t, p, prefix).unwrap().len() > 0 <==> spec_search(
            t,
            p,
            prefix,
        ).unwrap().reverse().len() > 0,
{
}

/// The character sequences of a list of strings.
pub open spec fn views_of(v: Seq<String>) -> Seq<Seq<char>> {
    v.map_values(|s: String| s@)
}

proof fn lemma_views_of_push(v: Seq<String>, s: String)
    ensures
        views_of(v.push(s)) == views_of(v).push(s@),
{
    assert(views_of(v.push(s)) =~= views_of(v).push(s@));
}

/// Relies on String::push: appends one character to the string.
#[verifier::external_body]
pub(crate) fn push_char(s: &mut String, c: char)
    ensures
        final(s)@ == old(s)@.push(c),
{
    s.push(c)
}

/// Packed binary trie with test and search operations supporting wildcard
/// and prefix matching.
///
/// The trie is instantiated from its base-64 binary encoding and is frozen:
/// elements cannot be added or removed.
pub struct PackedTrie {
    /// Signed offset applied to every child pointer.
    pub offset: i32,
    /// The decoded body bits.
    pub data: bit_vec::BitVec,
    /// The alphabet; entry `j` has character index `j + 1`.
    pub alphabet: Vec<char>,
    /// Width in bits of one packed word.
    pub word_width: usize,
    /// Mask extracting the pointer field of a shifted word.
    pub pointer_mask: u32,
    /// Mask extracting the character index of a shifted word.
    pub char_mask: u32,
    /// Right-shift that aligns the character index of a word.
    pub char_shift: u32,
    /// Width in bits of the character-index field.
    pub char_width: u32,
    /// Width in bits of the pointer field.
    pub pointer_width: u32,
}

impl View for PackedTrie {
    type V = TrieView;

    open spec fn view(&self) -> TrieView {
        TrieView {
            bits: bv_bits(self.data),
            alphabet: self.alphabet@,
            offset: self.offset as int,
            char_width: self.char_width as nat,
            pointer_width: self.pointer_width as nat,
        }
    }
}

impl PackedTrie {
    /// Well-formedness: the widths are possible, the derived masks and
    /// shifts agree with the widths, the offset fits its 21-bit field, and
    /// the alphabet holds no TERMINAL sentinel.  `from` establishes this and
    /// every query requires it.
    pub open spec fn wf(&self) -> bool {
        &&& 1 <= self.char_width
        &&& 1 <= self.pointer_width
        &&& self.char_width + self.pointer_width + 1 <= 32
        &&& self.word_width == self.char_width + self.pointer_width + 1
        &&& self.char_shift == self.pointer_width + 1
        &&& self.char_mask == pow2(self.char_width as nat) - 1
        &&& self.pointer_mask == pow2(self.pointer_width as nat) - 1
        &&& -0x1FFFFF <= self.offset <= 0x1FFFFF
        &&& self.alphabet@.len() <= 1013
        &&& forall|j: int| 0 <= j < self.alphabet@.len() ==> self.alphabet@[j] != TERMINAL
    }

    /// Load a packed trie from its base-64 binary encoding.
    #[verifier::rlimit(100)]
    pub fn from(packed: &str) -> (res: Result<PackedTrie, TrieError>)
        requires
            6 * packed@.len() <= usize::MAX,
        ensures
            res matches Ok(t) ==> t.wf() && (spec_open(packed@) matches Ok(v) && t@ == v),
            res matches Err(e) ==> spec_open(packed@) == Err::<TrieView, TrieError>(e),
    {
        let chars = chars_of(packed);
        let h = match read_field_chars(&chars, 0, HEADER_WIDTH_FIELD) {
            Ok(h) => h,
            Err(e) => {
                return Err(e);
            },
        };
        proof {
            lemma_field_val_bound(stream_bits(packed@), 0, HEADER_WIDTH_FIELD as nat);
            lemma2_to64();
        }
        let hw = h as usize;
        if chars.len() < hw {
            return Err(TrieError::Truncated);
        }
        let mut header: Vec<char> = Vec::new();
        let mut i: usize = 0;
        while i < hw
            invariant
                i <= hw,
                hw <= chars@.len(),
                chars@ == packed@,
                header@.len() == i,
                forall|j: int| 0 <= j < i ==> header@[j] == chars@[j],
            decreases hw - i,
        {
            let c = chars[i];
            header.push(c);
            i += 1;
        }
        proof {
            assert(header@ =~= packed@.take(hw as int));
        }
        let mut ptr: usize = HEADER_WIDTH_FIELD;
        let version = match read_field_chars(&header, ptr, VERSION_FIELD) {
            Ok(v) => v,
            Err(e) => {
                return Err(e);
            },
        };
        ptr = ptr + VERSION_FIELD;
        if version != VERSION {
            return Err(TrieError::UnsupportedVersion);
        }
        let sign = match read_field_chars(&header, ptr, OFFSET_SIGN_FIELD) {
            Ok(v) => v,
            Err(e) => {
                return Err(e);
            },
        };
        ptr = ptr + OFFSET_SIGN_FIELD;
        let val = match read_field_chars(&header, ptr, OFFSET_VAL_FIELD) {
            Ok(v) => v,
            Err(e) => {
                return Err(e);
            },
        };
        ptr = ptr + OFFSET_VAL_FIELD;
        proof {
            lemma_field_val_bound(stream_bits(header@), 21, OFFSET_VAL_FIELD as nat);
            lemma2_to64();
        }
        let offset: i32 = if sign == 1 {
            -(val as i32)
        } else {
            val as i32
        };
        let cw = match read_field_chars(&header, ptr, CHAR_WIDTH_FIELD) {
            Ok(v) => v,
            Err(e) => {
                return Err(e);
            },
        };
        ptr = ptr + CHAR_WIDTH_FIELD;
        let pw = match read_field_chars(&header, ptr, POINTER_WIDTH_FIELD) {
            Ok(v) => v,
            Err(e) => {
                return Err(e);
            },
        };
        proof {
            lemma_field_val_bound(stream_bits(header@), 42, CHAR_WIDTH_FIELD as nat);
            lemma_field_val_bound(stream_bits(header@), 50, POINTER_WIDTH_FIELD as nat);
        }
        if cw < 1 || pw < 1 || cw + pw + 1 > 32 {
            return Err(TrieError::UnsupportedFormat);
        }
        let mut alphabet: Vec<char> = Vec::new();
        let mut i2: usize = ALPHABET_START_CHAR;
        #[verifier::loop_isolation(false)]
        while i2 < header.len()
            invariant
                ALPHABET_START_CHAR <= i2 <= header@.len(),
                alphabet@.len() == i2 - ALPHABET_START_CHAR,
                forall|j: int|
                    0 <= j < alphabet@.len() ==> alphabet@[j] == header@[ALPHABET_START_CHAR + j],
                forall|j: int| 0 <= j < alphabet@.len() ==> alphabet@[j] != TERMINAL,
            decreases header@.len() - i2,
        {
            let c = header[i2];
            if c == TERMINAL {
                proof {
                    let alpha = header@.skip(ALPHABET_START_CHAR as int);
                    assert(alpha[i2 - ALPHABET_START_CHAR] == TERMINAL);
                    assert(spec_open(packed@) == Err::<TrieView, TrieError>(
                        TrieError::UnsupportedFormat,
                    ));
                }
                return Err(TrieError::UnsupportedFormat);
            }
            alphabet.push(c);
            i2 += 1;
        }
        proof {
            assert(alphabet@ =~= header@.skip(ALPHABET_START_CHAR as int));
        }
        let mut body: Vec<char> = Vec::new();
        let mut i3: usize = hw;
        while i3 < chars.len()
            invariant
                hw <= i3 <= chars@.len(),
                chars@ == packed@,
                body@.len() == i3 - hw,
                forall|j: int| 0 <= j < body@.len() ==> body@[j] == chars@[hw + j],
            decreases chars@.len() - i3,
        {
            let c = chars[i3];
            body.push(c);
            i3 += 1;
        }
        proof {
            assert(body@ =~= packed@.skip(hw as int));
        }
        let data = match decode_chars(&body) {
            Ok(d) => d,
            Err(e) => {
                return Err(e);
            },
        };
        let word_width = (cw + pw + 1) as usize;
        let char_shift = 1 + pw;
        proof {
            lemma2_to64();
            vstd::bits::lemma_u32_pow2_no_overflow(pw as nat);
            vstd::bits::lemma_u32_pow2_no_overflow(cw as nat);
            lemma_u32_shl_is_mul(1u32, pw);
            lemma_u32_shl_is_mul(1u32, cw);
        }
        let pointer_mask = (1u32 << pw) - 1;
        let char_mask = (1u32 << cw) - 1;
        let trie = PackedTrie {
            offset,
            data,
            alphabet,
            word_width,
            pointer_mask,
            char_mask,
            char_shift,
            char_width: cw,
            pointer_width: pw,
        };
        proof {
            let s = packed@;
            let hdr = s.take(hw as int);
            assert(header@ == hdr);
            assert(b64_read(s, 0, HEADER_WIDTH_FIELD as int) == Ok::<u32, TrieError>(h));
            assert(b64_read(hdr, 10, VERSION_FIELD as int) == Ok::<u32, TrieError>(version));
            assert(b64_read(hdr, 20, OFFSET_SIGN_FIELD as int) == Ok::<u32, TrieError>(sign));
            assert(b64_read(hdr, 21, OFFSET_VAL_FIELD as int) == Ok::<u32, TrieError>(val));
            assert(b64_read(hdr, 42, CHAR_WIDTH_FIELD as int) == Ok::<u32, TrieError>(cw));
            assert(b64_read(hdr, 50, POINTER_WIDTH_FIELD as int) == Ok::<u32, TrieError>(pw));
            assert(spec_open(s) == spec_open_tail(s, hdr, sign, val, cw, pw));
            let alpha = hdr.skip(ALPHABET_START_CHAR as int);
            assert(alphabet@ == alpha);
            assert(!(exists|j: int| 0 <= j < alpha.len() && #[trigger] alpha[j] == TERMINAL));
            assert(body@ == s.skip(hdr.len() as int));
            assert(all_b64(body@));
            let v = spec_open_tail(s, hdr, sign, val, cw, pw).unwrap();
            assert(trie.wf());
            assert(spec_open_tail(s, hdr, sign, val, cw, pw) matches Ok(vv) && vv == v);
            assert(trie@ =~= v);
        }
        Ok(trie)
    }

    /// The character index the table assigns to `c`, or `None` when `c` is
    /// neither TERMINAL nor in the alphabet.
    fn alpha_index(&self, c: char) -> (r: Option<u32>)
        requires
            self.wf(),
        ensures
            r is Some <==> tok_index(self@.alphabet, c) is Some,
            r matches Some(ix) ==> tok_index(self@.alphabet, c) == Some(ix as int),
    {
        if c == TERMINAL {
            return Some(0);
        }
        let mut j: usize = self.alphabet.len();
        proof {
            assert(self.alphabet@.take(j as int) =~= self.alphabet@);
        }
        while j > 0
            invariant
                self.wf(),
                c != TERMINAL,
                j <= self.alphabet@.len(),
                alpha_last_index(self.alphabet@, c) == alpha_last_index(
                    self.alphabet@.take(j as int),
                    c,
                ),
            decreases j,
        {
            proof {
                assert(self.alphabet@.take(j as int).drop_last() =~= self.alphabet@.take(
                    j as int - 1,
                ));
            }
            if self.alphabet[j - 1] == c {
                return Some(j as u32);
            }
            j -= 1;
        }
        proof {
            assert(self.alphabet@.take(0) =~= Seq::<char>::empty());
        }
        None
    }

    /// Scan the block that starts at word `w`, matching pattern position
    /// `depth`, and append every match found in this subtree to `out`.
    fn scan_block(
        &self,
        p: &Vec<char>,
        prefix: bool,
        memo: &String,
        depth: usize,
        w: i64,
        fuel: usize,
        out: &mut Vec<String>,
    ) -> (res: Result<(), TrieError>)
        requires
            self.wf(),
            depth == memo@.len(),
            depth + fuel <= usize::MAX,
        ensures
            res matches Ok(()) ==> (search_from(self@, p@, prefix, memo@, w as int, fuel as nat)
                matches Some(ms) && views_of(final(out)@) == views_of(old(out)@) + ms),
            res matches Err(e) ==> e == TrieError::CorruptData && search_from(
                self@,
                p@,
                prefix,
                memo@,
                w as int,
                fuel as nat,
            ) is None,
        decreases fuel, rem_words(self@, w as int),
    {
        let ghost t = self@;
        let ghost sres = search_from(t, p@, prefix, memo@, w as int, fuel as nat);
        let l = p.len();
        let is_last = depth >= l;
        let token: char = if is_last {
            TERMINAL
        } else {
            p[depth]
        };
        let is_wild = token == '*' || (prefix && is_last);
        let tok_idx: u32 = if is_wild {
            0
        } else {
            match self.alpha_index(token) {
                Some(ix) => ix,
                None => {
                    proof {
                        assert(sres == Some(Seq::<Seq<char>>::empty()));
                        assert(views_of(out@) + Seq::<Seq<char>>::empty() =~= views_of(out@));
                    }
                    return Ok(());
                },
            }
        };
        let bits_len = bv_len(&self.data);
        let ww = self.word_width;
        if w < 0 {
            return Err(TrieError::CorruptData);
        }
        proof {
            assert(((w as u128) + 1) * (ww as u128) < 0x8000_0000_0000_0000u128
                * 0x2_0000_0000_0000_0000u128) by (nonlinear_arith)
                requires
                    (w as u128) + 1 < 0x8000_0000_0000_0000u128 || (w as u128) + 1
                        == 0x8000_0000_0000_0000u128,
                    (ww as u128) < 0x2_0000_0000_0000_0000u128,
            ;
        }
        if ((w as u128) + 1) * (ww as u128) > (bits_len as u128) {
            proof {
                assert(!t.word_in_range(w as int));
            }
            return Err(TrieError::CorruptData);
        }
        proof {
            assert(t.word_in_range(w as int));
            assert(w + 1 <= (w + 1) * (ww as int)) by (nonlinear_arith)
                requires
                    w >= 0,
                    ww >= 1,
            ;
            assert((w + 1) * 3 <= ((w as int) + 1) * (ww as int)) by (nonlinear_arith)
                requires
                    w >= 0,
                    ww >= 3,
            ;
            assert((w as int) * (ww as int) + ww as int == ((w as int) + 1) * (ww as int))
                by (nonlinear_arith);
        }
        let wu = w as usize;
        let start = wu * ww;
        let cw = self.char_width as usize;
        let pw = self.pointer_width as usize;
        let char_idx: u32 = read_bits_in(&self.data, start, cw);
        let ptr: u32 = read_bits_in(&self.data, start + cw, pw);
        let last: bool = bv_get(&self.data, start + cw + pw).unwrap();
        proof {
            assert(char_idx == t.edge_char(w as int));
            assert(ptr == t.edge_ptr(w as int));
            assert(last == t.edge_last(w as int));
        }
        let matched = is_wild || char_idx == tok_idx;
        let alpha_len = self.alphabet.len();
        if matched && (char_idx as usize) > alpha_len {
            return Err(TrieError::CorruptData);
        }
        if matched && char_idx == 0 && is_last && !is_wild {
            let m = memo.clone();
            out.push(m);
            proof {
                lemma_views_of_push(old(out)@, m);
                assert(views_of(old(out)@).push(memo@) =~= views_of(old(out)@) + seq![memo@]);
            }
            return Ok(());
        }
        let ghost out_entry = out@;
        if matched && char_idx == 0 && is_last {
            let m = memo.clone();
            out.push(m);
            proof {
                lemma_views_of_push(out_entry, m);
                assert(views_of(out_entry).push(memo@) =~= views_of(out_entry) + seq![memo@]);
            }
        } else if matched && char_idx != 0 {
            if fuel == 0 {
                return Err(TrieError::CorruptData);
            }
            let new_char = self.alphabet[(char_idx as usize) - 1];
            let mut new_memo = memo.clone();
            push_char(&mut new_memo, new_char);
            proof {
                lemma2_to64();
                if self.pointer_width < 31 {
                    vstd::arithmetic::power2::lemma_pow2_strictly_increases(
                        self.pointer_width as nat,
                        31,
                    );
                }
                assert((w + 1) * 3 <= ((w as int) + 1) * (ww as int)) by (nonlinear_arith)
                    requires
                        w >= 0,
                        ww >= 3,
                ;
            }
            let child: i64 = w + (self.offset as i64) + (ptr as i64);
            let r = self.scan_block(p, prefix, &new_memo, depth + 1, child, fuel - 1, out);
            match r {
                Err(e) => {
                    return Err(e);
                },
                Ok(()) => {},
            }
        }
        let ghost cs: Seq<Seq<char>> = if matched && char_idx == 0 && is_last {
            seq![memo@]
        } else if matched && char_idx != 0 {
            search_from(
                t,
                p@,
                prefix,
                memo@.push(t.alphabet[char_idx as int - 1]),
                t.child_of(w as int),
                (fuel - 1) as nat,
            ).unwrap()
        } else {
            Seq::empty()
        };
        proof {
            if !(matched && char_idx == 0 && is_last) && !(matched && char_idx != 0) {
                assert(views_of(out@) =~= views_of(out_entry) + cs);
            }
            assert(views_of(out@) == views_of(out_entry) + cs);
        }
        if last {
            return Ok(());
        }
        let r = self.scan_block(p, prefix, memo, depth, w + 1, fuel, out);
        proof {
            if r is Ok {
                let rest = search_from(t, p@, prefix, memo@, w as int + 1, fuel as nat).unwrap();
                assert(views_of(final(out)@) =~= views_of(out_entry) + (cs + rest));
            }
        }
        r
    }

    /// The fully-qualified search: every match of the pattern, with `'*'`
    /// matching any single alphabet character, ordered latest discovery
    /// first.
    fn search_with(&self, needle: &str, prefix: bool) -> (res: Result<Vec<String>, TrieError>)
        requires
            self.wf(),
        ensures
            res matches Ok(v) ==> (spec_search(self@, needle@, prefix) matches Some(ms)
                && views_of(v@) == ms.reverse()),
            res matches Err(e) ==> e == TrieError::CorruptData && spec_search(
                self@,
                needle@,
                prefix,
            ) is None,
    {
        let pvec = chars_of(needle);
        let bits_len = bv_len(&self.data);
        let ww = self.word_width;
        proof {
            vstd::arithmetic::div_mod::lemma_div_is_ordered_by_denominator(
                bits_len as int,
                3,
                ww as int,
            );
        }
        let fuel = bits_len / ww + 1;
        let empty = String::new();
        let mut acc: Vec<String> = Vec::new();
        match self.scan_block(&pvec, prefix, &empty, 0, 0i64, fuel, &mut acc) {
            Err(e) => {
                return Err(e);
            },
            Ok(()) => {},
        }
        let mut rev: Vec<String> = Vec::new();
        let n = acc.len();
        let mut k: usize = 0;
        while k < n
            invariant
                k <= n,
                n == acc@.len(),
                rev@.len() == k,
                forall|j: int| 0 <= j < k ==> #[trigger] rev@[j]@ == acc@[n - 1 - j]@,
            decreases n - k,
        {
            let s = acc[n - 1 - k].clone();
            rev.push(s);
            k += 1;
        }
        proof {
            assert(views_of(rev@) =~= views_of(acc@).reverse());
        }
        Ok(rev)
    }

    /// Test if a string matching the given pattern exists in the trie.
    ///
    /// Uses '*' for wildcard matching.
    pub fn test(&self, needle: &str) -> (res: Result<bool, TrieError>)
        requires
            self.wf(),
        ensures
            res matches Ok(b) ==> (spec_search(self@, needle@, false) matches Some(ms) && b == (
            ms.len() > 0)),
            res matches Err(e) ==> e == TrieError::CorruptData && spec_search(
                self@,
                needle@,
                false,
            ) is None,
    {
        match self.search_with(needle, false) {
            Ok(v) => {
                proof {
                    let ms = spec_search(self@, needle@, false).unwrap();
                    assert(views_of(v@).len() == v@.len());
                    assert(ms.reverse().len() == ms.len());
                }
                Ok(v.len() > 0)
            },
            Err(e) => Err(e),
        }
    }

    /// Test if a string matching the given prefix pattern exists in the
    /// trie.
    ///
    /// Uses '*' for wildcard matching.
    pub fn test_pfx(&self, needle: &str) -> (res: Result<bool, TrieError>)
        requires
            self.wf(),
        ensures
            res matches Ok(b) ==> (spec_search(self@, needle@, true) matches Some(ms) && b == (
            ms.len() > 0)),
            res matches Err(e) ==> e == TrieError::CorruptData && spec_search(
                self@,
                needle@,
                true,
            ) is None,
    {
        match self.search_with(needle, true) {
            Ok(v) => {
                proof {
                    let ms = spec_search(self@, needle@, true).unwrap();
                    assert(views_of(v@).len() == v@.len());
                    assert(ms.reverse().len() == ms.len());
                }
                Ok(v.len() > 0)
            },
            Err(e) => Err(e),
        }
    }

    /// Find all words matching the given pattern in the trie.
    ///
    /// Uses '*' for wildcard matching.  Matches come most recently
    /// discovered first: the reverse of the depth-first discovery order,
    /// which for the fixed-depth matches of a plain search coincides with
    /// breadth-first discovery order.
    pub fn search(&self, needle: &str) -> (res: Result<Vec<String>, TrieError>)
        requires
            self.wf(),
        ensures
            res matches Ok(v) ==> (spec_search(self@, needle@, false) matches Some(ms)
                && views_of(v@) == ms.reverse()),
            res matches Err(e) ==> e == TrieError::CorruptData && spec_search(
                self@,
                needle@,
                false,
            ) is None,
    {
        self.search_with(needle, false)
    }

    /// Find all words that use the given pattern as a prefix.
    ///
    /// Uses '*' for wildcard matching.  Matches come in the reverse of the
    /// depth-first discovery order, subtree by subtree.
    pub fn search_pfx(&self, needle: &str) -> (res: Result<Vec<String>, TrieError>)
        requires
            self.wf(),
        ensures
            res matches Ok(v) ==> (spec_search(self@, needle@, true) matches Some(ms)
                && views_of(v@) == ms.reverse()),
            res matches Err(e) ==> e == TrieError::CorruptData && spec_search(
                self@,
                needle@,
                true,
            ) is None,
    {
        self.search_with(needle, true)
    }
}

} // verus!
