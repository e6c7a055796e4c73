//! Dictionary-based word segmentation.
//!
//! A chunk of text without spaces is seen as a graph over its character
//! positions. From a position where some word of the dictionary begins, an
//! edge leads to the end of each such word. From a position where none
//! begins, one "unknown" edge leads to the next position where one does, or
//! to the end of the chunk. The segmentation is the path from the start to the
//! end that has the fewest bytes on unknown edges and, among those, the fewest
//! edges; of several such paths the one whose boundaries come first in
//! lexicographic order is taken.
//!
//! Positions count characters, so each one is a character boundary of the
//! text; unknown spans are weighed by the bytes of their UTF-8 encoding.
use vstd::prelude::*;
use vstd::utf8::encode_scalar;
use vstd::utf8::encode_utf8;
use crate::dict::Dict;
use crate::dict::SizedDict;
use crate::dict::chars_of;
use crate::dict::terminals_prefix;
use crate::dict::view_sized;
use crate::dict::word_at;
use crate::tokenizer::split_whitespace;
use crate::tokenizer::whitespace_chunks;
use crate::tokenizer::without_white_space;

verus! {

// ---------------------------------------------------------------------------
// The segmentation graph
/// `t[u..v]` is a word of `d`.
pub open spec fn is_word(d: Set<Seq<char>>, t: Seq<char>, u: int, v: int) -> bool {
    0 <= u < v <= t.len() && d.contains(t.subrange(u, v))
}

/// Some word of `d` begins at `u`.
pub open spec fn word_starts(d: Set<Seq<char>>, t: Seq<char>, u: int) -> bool {
    exists|v: int| is_word(d, t, u, v)
}

/// The first position from `p` on where a word begins, or the end of `t`.
pub open spec fn next_word_start(d: Set<Seq<char>>, t: Seq<char>, p: int) -> int
    decreases t.len() - p,
{
    if p >= t.len() {
        t.len() as int
    } else if word_starts(d, t, p) {
        p
    } else {
        next_word_start(d, t, p + 1)
    }
}

/// An edge of the graph: a word that begins at `u`, or, where none does, the
/// unknown span from `u` to the next position where one does.
pub open spec fn is_edge(d: Set<Seq<char>>, t: Seq<char>, u: int, v: int) -> bool {
    &&& 0 <= u < v <= t.len()
    &&& if word_starts(d, t, u) {
        is_word(d, t, u, v)
    } else {
        v == next_word_start(d, t, u + 1)
    }
}

/// The number of bytes of the UTF-8 encoding of `s`.
pub open spec fn utf8_len(s: Seq<char>) -> nat {
    encode_utf8(s).len()
}

/// The unknown bytes that an edge carries: none on a word.
pub open spec fn edge_unknown(d: Set<Seq<char>>, t: Seq<char>, u: int, v: int) -> nat {
    if word_starts(d, t, u) {
        0
    } else {
        utf8_len(t.subrange(u, v))
    }
}

/// `b` lists the boundaries of a path of edges from `u` to the end of `t`.
pub open spec fn is_path(d: Set<Seq<char>>, t: Seq<char>, u: int, b: Seq<int>) -> bool {
    &&& b.len() >= 1
    &&& b[0] == u
    &&& b.last() == t.len()
    &&& forall|j: int| 0 <= j < b.len() - 1 ==> is_edge(d, t, #[trigger] b[j], b[j + 1])
}

/// The unknown bytes along the path `b`.
pub open spec fn unknown_bytes(d: Set<Seq<char>>, t: Seq<char>, b: Seq<int>) -> nat
    decreases b.len(),
{
    if b.len() < 2 {
        0
    } else {
        edge_unknown(d, t, b[0], b[1]) + unknown_bytes(d, t, b.drop_first())
    }
}

/// The number of edges of the path `b`: the number of tokens.
pub open spec fn hops(b: Seq<int>) -> int {
    b.len() - 1
}

/// `(u1, h1)` comes strictly before `(u2, h2)`: fewer unknown bytes, or as
/// many and fewer edges.
pub open spec fn costs_less(u1: int, h1: int, u2: int, h2: int) -> bool {
    u1 < u2 || (u1 == u2 && h1 < h2)
}

/// Lexicographic order on boundary lists.
pub open spec fn lex_le(a: Seq<int>, b: Seq<int>) -> bool
    decreases a.len(),
{
    if a.len() == 0 {
        true
    } else if b.len() == 0 {
        false
    } else if a[0] != b[0] {
        a[0] < b[0]
    } else {
        lex_le(a.drop_first(), b.drop_first())
    }
}

/// `b` is at least as good as `p`: it costs less, or the same and comes first.
pub open spec fn no_worse(d: Set<Seq<char>>, t: Seq<char>, b: Seq<int>, p: Seq<int>) -> bool {
    ||| costs_less(
        unknown_bytes(d, t, b) as int,
        hops(b),
        unknown_bytes(d, t, p) as int,
        hops(p),
    )
    ||| (unknown_bytes(d, t, b) == unknown_bytes(d, t, p) && hops(b) == hops(p) && lex_le(b, p))
}

/// `b` is the chosen path from `u`: it is no worse than any path from `u`.
pub open spec fn is_best_path(d: Set<Seq<char>>, t: Seq<char>, u: int, b: Seq<int>) -> bool {
    &&& is_path(d, t, u, b)
    &&& forall|p: Seq<int>| #[trigger] is_path(d, t, u, p) ==> no_worse(d, t, b, p)
}

/// The chosen path from `u` to the end.
pub open spec fn best_from(d: Set<Seq<char>>, t: Seq<char>, u: int) -> Seq<int> {
    choose|b: Seq<int>| is_best_path(d, t, u, b)
}

/// The pieces of `t` between consecutive boundaries of `b`.
pub open spec fn pieces(t: Seq<char>, b: Seq<int>) -> Seq<Seq<char>> {
    Seq::new((b.len() - 1) as nat, |j: int| t.subrange(b[j], b[j + 1]))
}

/// The segmentation of `t` with the words `d`.
pub open spec fn segmentation(d: Set<Seq<char>>, t: Seq<char>) -> Seq<Seq<char>> {
    pieces(t, best_from(d, t, 0))
}

/// The cost of going from `u` over the edge to `v` and on along the chosen path.
pub open spec fn step_unknown(d: Set<Seq<char>>, t: Seq<char>, u: int, v: int) -> int {
    (edge_unknown(d, t, u, v) + unknown_bytes(d, t, best_from(d, t, v))) as int
}

pub open spec fn step_hops(d: Set<Seq<char>>, t: Seq<char>, v: int) -> int {
    1 + hops(best_from(d, t, v))
}

/// The edge to `v` is as good a first step from `u` as the edge to `w`.
pub open spec fn step_le(d: Set<Seq<char>>, t: Seq<char>, u: int, v: int, w: int) -> bool {
    ||| costs_less(
        step_unknown(d, t, u, v),
        step_hops(d, t, v),
        step_unknown(d, t, u, w),
        step_hops(d, t, w),
    )
    ||| (step_unknown(d, t, u, v) == step_unknown(d, t, u, w) && step_hops(d, t, v) == step_hops(
        d,
        t,
        w,
    ) && v <= w)
}

// ---------------------------------------------------------------------------
// Lemmas on paths
proof fn lemma_lex_refl(a: Seq<int>)
    ensures
        lex_le(a, a),
    decreases a.len(),
{
    if a.len() > 0 {
        lemma_lex_refl(a.drop_first());
    }
}

proof fn lemma_lex_antisym(a: Seq<int>, b: Seq<int>)
    requires
        lex_le(a, b),
        lex_le(b, a),
    ensures
        a == b,
    decreases a.len(),
{
    if a.len() > 0 && b.len() > 0 {
        lemma_lex_antisym(a.drop_first(), b.drop_first());
        assert(a =~= seq![a[0]] + a.drop_first());
        assert(b =~= seq![b[0]] + b.drop_first());
    } else {
        assert(a =~= b);
    }
}

/// There is one chosen path: two paths that are each no worse than the other
/// are the same.
pub proof fn lemma_best_unique(d: Set<Seq<char>>, t: Seq<char>, u: int, b1: Seq<int>, b2: Seq<int>)
    requires
        is_best_path(d, t, u, b1),
        is_best_path(d, t, u, b2),
    ensures
        b1 == b2,
{
    assert(no_worse(d, t, b1, b2));
    assert(no_worse(d, t, b2, b1));
    lemma_lex_antisym(b1, b2);
}

proof fn lemma_best_from(d: Set<Seq<char>>, t: Seq<char>, u: int, b: Seq<int>)
    requires
        is_best_path(d, t, u, b),
    ensures
        best_from(d, t, u) == b,
{
    lemma_best_unique(d, t, u, b, best_from(d, t, u));
}

/// From the end, the only path is the one that stays there.
proof fn lemma_best_at_end(d: Set<Seq<char>>, t: Seq<char>)
    ensures
        is_best_path(d, t, t.len() as int, seq![t.len() as int]),
        best_from(d, t, t.len() as int) == seq![t.len() as int],
{
    let n = t.len() as int;
    let b = seq![n];
    assert forall|p: Seq<int>| #[trigger] is_path(d, t, n, p) implies no_worse(d, t, b, p) by {
        if p.len() >= 2 {
            assert(is_edge(d, t, p[0], p[1]));
        }
        assert(p =~= b);
        lemma_lex_refl(b);
    }
    lemma_best_from(d, t, n, b);
}

proof fn lemma_cons_path(d: Set<Seq<char>>, t: Seq<char>, u: int, q: Seq<int>)
    requires
        q.len() >= 1,
        is_edge(d, t, u, q[0]),
        is_path(d, t, q[0], q),
    ensures
        is_path(d, t, u, seq![u] + q),
        unknown_bytes(d, t, seq![u] + q) == edge_unknown(d, t, u, q[0]) + unknown_bytes(d, t, q),
        hops(seq![u] + q) == 1 + hops(q),
        (seq![u] + q).drop_first() == q,
{
    let b = seq![u] + q;
    assert(b.drop_first() =~= q);
    assert forall|j: int| 0 <= j < b.len() - 1 implies is_edge(d, t, #[trigger] b[j], b[j + 1]) by {
        if j > 0 {
            assert(b[j] == q[j - 1]);
            assert(is_edge(d, t, q[j - 1], q[j]));
        }
    }
}

proof fn lemma_tail_path(d: Set<Seq<char>>, t: Seq<char>, u: int, p: Seq<int>)
    requires
        is_path(d, t, u, p),
        p.len() >= 2,
    ensures
        is_edge(d, t, u, p[1]),
        is_path(d, t, p[1], p.drop_first()),
        p == seq![u] + p.drop_first(),
{
    let q = p.drop_first();
    assert(is_edge(d, t, p[0], p[1]));
    assert forall|j: int| 0 <= j < q.len() - 1 implies is_edge(d, t, #[trigger] q[j], q[j + 1]) by {
        assert(is_edge(d, t, p[j + 1], p[j + 2]));
    }
    assert(p =~= seq![u] + q);
}

/// The chosen path from `u` takes first the edge that is the best first step.
proof fn lemma_best_step(d: Set<Seq<char>>, t: Seq<char>, u: int, v: int)
    requires
        0 <= u < t.len(),
        forall|w: int| u < w <= t.len() ==> is_best_path(d, t, w, #[trigger] best_from(d, t, w)),
        is_edge(d, t, u, v),
        forall|w: int| #[trigger] is_edge(d, t, u, w) ==> step_le(d, t, u, v, w),
    ensures
        is_best_path(d, t, u, seq![u] + best_from(d, t, v)),
        best_from(d, t, u) == seq![u] + best_from(d, t, v),
{
    let bv = best_from(d, t, v);
    let b = seq![u] + bv;
    assert(is_best_path(d, t, v, bv));
    lemma_cons_path(d, t, u, bv);
    assert forall|p: Seq<int>| #[trigger] is_path(d, t, u, p) implies no_worse(d, t, b, p) by {
        assert(p.len() >= 2) by {
            if p.len() < 2 {
                assert(p.last() == p[0]);
            }
        }
        lemma_tail_path(d, t, u, p);
        let w = p[1];
        let q = p.drop_first();
        let bw = best_from(d, t, w);
        assert(is_best_path(d, t, w, bw));
        assert(no_worse(d, t, bw, q));
        assert(step_le(d, t, u, v, w));
        lemma_cons_path(d, t, u, q);
        assert(p == seq![u] + q);
        let ub = unknown_bytes(d, t, b) as int;
        let up = unknown_bytes(d, t, p) as int;
        assert(ub == step_unknown(d, t, u, v));
        assert(hops(b) == step_hops(d, t, v));
        assert(up == step_unknown(d, t, u, w) - unknown_bytes(d, t, bw) + unknown_bytes(d, t, q));
        assert(hops(p) == step_hops(d, t, w) - hops(bw) + hops(q));
        if !costs_less(ub, hops(b), up, hops(p)) {
            assert(ub == up && hops(b) == hops(p));
            assert(step_unknown(d, t, u, v) == step_unknown(d, t, u, w));
            assert(step_hops(d, t, v) == step_hops(d, t, w));
            assert(v <= w);
            assert(bv[0] == v);
            assert(q[0] == w);
            assert(lex_le(bv, q));
            assert(b.drop_first() == bv);
            assert(lex_le(b, p));
        }
    }
    lemma_best_from(d, t, u, b);
}

/// Where no word begins, the one edge is the unknown span.
proof fn lemma_single_edge(d: Set<Seq<char>>, t: Seq<char>, u: int)
    requires
        0 <= u < t.len(),
        !word_starts(d, t, u),
    ensures
        forall|w: int| is_edge(d, t, u, w) <==> w == next_word_start(d, t, u + 1),
        u < next_word_start(d, t, u + 1) <= t.len(),
{
    lemma_next_word_start_range(d, t, u + 1);
}

proof fn lemma_next_word_start_range(d: Set<Seq<char>>, t: Seq<char>, p: int)
    requires
        p <= t.len(),
    ensures
        p <= next_word_start(d, t, p) <= t.len(),
    decreases t.len() - p,
{
    if p < t.len() && !word_starts(d, t, p) {
        lemma_next_word_start_range(d, t, p + 1);
    }
}

/// Among the edges from `u` that end at `m` or before, `v` is the best first
/// step.
pub open spec fn best_edge_upto(d: Set<Seq<char>>, t: Seq<char>, u: int, v: int, m: int) -> bool {
    &&& is_edge(d, t, u, v)
    &&& v <= m
    &&& forall|w: int| #[trigger] is_edge(d, t, u, w) && w <= m ==> step_le(d, t, u, v, w)
}

proof fn lemma_best_edge_upto(d: Set<Seq<char>>, t: Seq<char>, u: int, m: int)
    requires
        0 <= u < m <= t.len(),
        exists|w: int| #[trigger] is_edge(d, t, u, w) && w <= m,
    ensures
        exists|v: int| #[trigger] best_edge_upto(d, t, u, v, m),
    decreases m - u,
{
    if exists|w: int| #[trigger] is_edge(d, t, u, w) && w <= m - 1 {
        let w0 = choose|w: int| #[trigger] is_edge(d, t, u, w) && w <= m - 1;
        assert(u < w0);
        lemma_best_edge_upto(d, t, u, m - 1);
        let v = choose|v: int| #[trigger] best_edge_upto(d, t, u, v, m - 1);
        if is_edge(d, t, u, m) && !step_le(d, t, u, v, m) {
            assert(best_edge_upto(d, t, u, m, m));
        } else {
            assert(best_edge_upto(d, t, u, v, m));
        }
    } else {
        let w0 = choose|w: int| #[trigger] is_edge(d, t, u, w) && w <= m;
        assert(w0 == m);
        assert(best_edge_upto(d, t, u, m, m));
    }
}

/// Every position has a chosen path to the end.
pub proof fn lemma_best_exists(d: Set<Seq<char>>, t: Seq<char>, u: int)
    requires
        0 <= u <= t.len(),
    ensures
        is_best_path(d, t, u, best_from(d, t, u)),
    decreases t.len() - u,
{
    let n = t.len() as int;
    if u == n {
        lemma_best_at_end(d, t);
    } else {
        assert forall|w: int| u < w <= n implies is_best_path(d, t, w, #[trigger] best_from(d, t, w)) by {
            lemma_best_exists(d, t, w);
        }
        if word_starts(d, t, u) {
            let e = choose|e: int| is_word(d, t, u, e);
            assert(is_edge(d, t, u, e));
        } else {
            lemma_single_edge(d, t, u);
            assert(is_edge(d, t, u, next_word_start(d, t, u + 1)));
        }
        lemma_best_edge_upto(d, t, u, n);
        let v = choose|v: int| #[trigger] best_edge_upto(d, t, u, v, n);
        assert forall|w: int| #[trigger] is_edge(d, t, u, w) implies step_le(d, t, u, v, w) by {
            assert(is_edge(d, t, u, w) && w <= n);
        }
        lemma_best_step(d, t, u, v);
    }
}

proof fn lemma_pieces_flatten(t: Seq<char>, b: Seq<int>)
    requires
        b.len() >= 1,
        0 <= b[0],
        b.last() <= t.len(),
        forall|j: int| 0 <= j < b.len() - 1 ==> #[trigger] b[j] < b[j + 1],
    ensures
        b[0] <= b.last(),
        pieces(t, b).flatten() == t.subrange(b[0], b.last()),
        forall|i: int| 0 <= i < pieces(t, b).len() ==> #[trigger] pieces(t, b)[i].len() > 0,
    decreases b.len(),
{
    if b.len() == 1 {
        assert(pieces(t, b) =~= Seq::<Seq<char>>::empty());
        assert(t.subrange(b[0], b.last()) =~= Seq::<char>::empty());
    } else {
        let r = b.drop_first();
        assert forall|j: int| 0 <= j < r.len() - 1 implies #[trigger] r[j] < r[j + 1] by {
            assert(b[j + 1] < b[j + 2]);
        }
        assert(b[0] < b[1]);
        lemma_pieces_flatten(t, r);
        assert(pieces(t, b).drop_first() =~= pieces(t, r));
        assert forall|i: int| 0 <= i < pieces(t, b).len() implies #[trigger] pieces(t, b)[i].len() > 0 by {
            if i > 0 {
                assert(pieces(t, b)[i] == pieces(t, r)[i - 1]);
            }
        }
        assert(t.subrange(b[0], b.last()) =~= t.subrange(b[0], b[1]) + t.subrange(b[1], b.last()));
    }
}

/// The tokens of a chunk are non-empty, and put together they give the chunk
/// back.
pub proof fn lemma_segmentation_covers(d: Set<Seq<char>>, t: Seq<char>)
    ensures
        segmentation(d, t).flatten() == t,
        forall|i: int|
            0 <= i < segmentation(d, t).len() ==> #[trigger] segmentation(d, t)[i].len() > 0,
{
    lemma_best_exists(d, t, 0);
    let b = best_from(d, t, 0);
    assert forall|j: int| 0 <= j < b.len() - 1 implies #[trigger] b[j] < b[j + 1] by {
        assert(is_edge(d, t, b[j], b[j + 1]));
    }
    lemma_pieces_flatten(t, b);
    assert(t.subrange(0, t.len() as int) =~= t);
}

/// A path that costs strictly less than every other path is the
/// segmentation: in particular, text made of words whose every other
/// reading has unknown bytes or more tokens comes back as those words.
pub proof fn lemma_round_trip(d: Set<Seq<char>>, t: Seq<char>, b: Seq<int>)
    requires
        is_path(d, t, 0, b),
        forall|p: Seq<int>|
            #[trigger] is_path(d, t, 0, p) && p != b ==> costs_less(
                unknown_bytes(d, t, b) as int,
                hops(b),
                unknown_bytes(d, t, p) as int,
                hops(p),
            ),
    ensures
        segmentation(d, t) == pieces(t, b),
{
    assert forall|p: Seq<int>| #[trigger] is_path(d, t, 0, p) implies no_worse(d, t, b, p) by {
        if p == b {
            lemma_lex_refl(b);
        }
    }
    lemma_best_from(d, t, 0, b);
}

/// No path of the graph has fewer unknown bytes than the segmentation, nor as
/// many and fewer tokens.
pub proof fn lemma_segmentation_optimal(d: Set<Seq<char>>, t: Seq<char>, p: Seq<int>)
    requires
        is_path(d, t, 0, p),
    ensures
        unknown_bytes(d, t, best_from(d, t, 0)) <= unknown_bytes(d, t, p),
        unknown_bytes(d, t, best_from(d, t, 0)) == unknown_bytes(d, t, p) ==> hops(
            best_from(d, t, 0),
        ) <= hops(p),
        segmentation(d, t).len() == hops(best_from(d, t, 0)),
{
    lemma_best_exists(d, t, 0);
    assert(no_worse(d, t, best_from(d, t, 0), p));
}

// ---------------------------------------------------------------------------
// Byte lengths
proof fn lemma_encode_concat(a: Seq<char>, b: Seq<char>)
    ensures
        encode_utf8(a + b) == encode_utf8(a) + encode_utf8(b),
    decreases a.len(),
{
    if a.len() == 0 {
        assert(a + b =~= b);
        assert(encode_utf8(a) + encode_utf8(b) =~= encode_utf8(b));
    } else {
        assert((a + b).drop_first() =~= a.drop_first() + b);
        assert((a + b)[0] == a[0]);
        lemma_encode_concat(a.drop_first(), b);
        assert(encode_utf8(a + b) =~= encode_utf8(a) + encode_utf8(b));
    }
}

proof fn lemma_utf8_len_bound(s: Seq<char>)
    ensures
        utf8_len(s) <= 4 * s.len(),
    decreases s.len(),
{
    if s.len() > 0 {
        lemma_utf8_len_bound(s.drop_first());
    }
}

/// The number of bytes that `c` takes in UTF-8.
fn char_width(c: char) -> (r: usize)
    ensures
        r == encode_scalar(c as u32).len(),
        1 <= r <= 4,
{
    proof {
        vstd::utf8::char_is_scalar(c);
    }
    let v = c as u32;
    if v <= 0x7f {
        1
    } else if v <= 0x7ff {
        2
    } else if v <= 0xffff {
        3
    } else {
        4
    }
}

/// `r[i]` is the byte offset of the character at `i`, for every `i <= t.len()`.
fn byte_offsets(t: &Vec<char>) -> (r: Vec<u128>)
    ensures
        r@.len() == t@.len() + 1,
        forall|i: int| 0 <= i <= t@.len() ==> #[trigger] r@[i] == utf8_len(t@.take(i)),
{
    let mut r: Vec<u128> = Vec::new();
    r.push(0);
    assert(encode_utf8(t@.take(0)) =~= Seq::<u8>::empty());
    let mut i: usize = 0;
    while i < t.len()
        invariant
            i <= t@.len(),
            r@.len() == i + 1,
            forall|j: int| 0 <= j <= i ==> #[trigger] r@[j] == utf8_len(t@.take(j)),
            forall|j: int| 0 <= j <= i ==> r@[j] <= 4 * j,
        decreases t@.len() - i,
    {
        let w = char_width(t[i]);
        proof {
            assert(t@.take(i + 1) =~= t@.take(i as int) + seq![t@[i as int]]);
            lemma_encode_concat(t@.take(i as int), seq![t@[i as int]]);
            assert(seq![t@[i as int]].drop_first() =~= Seq::<char>::empty());
            reveal_with_fuel(encode_utf8, 2);
            assert(encode_utf8(seq![t@[i as int]]) =~= encode_scalar(t@[i as int] as u32));
        }
        let next = r[i] + w as u128;
        r.push(next);
        i += 1;
    }
    r
}

// ---------------------------------------------------------------------------
// The segmenter
/// `t[u..p]` takes `offs[p] - offs[u]` bytes, at most four a character.
proof fn lemma_span_bytes(t: Seq<char>, u: int, p: int)
    requires
        0 <= u <= p <= t.len(),
    ensures
        utf8_len(t.take(p)) == utf8_len(t.take(u)) + utf8_len(t.subrange(u, p)),
        utf8_len(t.subrange(u, p)) <= 4 * (p - u),
{
    assert(t.take(p) =~= t.take(u) + t.subrange(u, p));
    lemma_encode_concat(t.take(u), t.subrange(u, p));
    lemma_utf8_len_bound(t.subrange(u, p));
}

/// Splits `text`, one chunk without spaces, into the tokens of its
/// segmentation with the words of `dict`.
///
/// Positions are handled from the end of the chunk toward its start. Every
/// edge leads forward, so when position `u` is reached the chosen path from
/// each later position is known, and the chosen path from `u` is the best
/// first step followed by the chosen path from where it leads. Where no word
/// begins at `u`, the unknown span ends at the nearest later position where
/// one begins, which the same pass has already found.
pub fn maximal_matching<'a>(dict: &SizedDict, text: &'a str) -> (r: Vec<&'a str>)
    requires
        dict.wf(),
    ensures
        is_best_path(dict.words(), text@, 0, best_from(dict.words(), text@, 0)),
        r@.len() == segmentation(dict.words(), text@).len(),
        forall|i: int|
            0 <= i < r@.len() ==> #[trigger] r@[i]@ == segmentation(dict.words(), text@)[i],
{
    let ghost d = dict.words();
    let ghost t = text@;
    let chars = chars_of(text);
    let n = chars.len();
    let offs = byte_offsets(&chars);
    let m = offs.len();
    let root = dict.root();
    let mut unk: Vec<u128> = vec![0u128; m];
    let mut hop: Vec<usize> = vec![0usize; m];
    let mut next: Vec<usize> = vec![0usize; m];
    let mut ends: Vec<usize> = Vec::new();
    let mut next_known: usize = n;
    let mut u: usize = n;
    proof {
        lemma_best_at_end(d, t);
    }
    while u > 0
        invariant
            d == dict.words(),
            dict.wf(),
            view_sized(root@) == dict@,
            t == text@,
            chars@ == t,
            n == t.len(),
            m == n + 1,
            offs@.len() == m,
            forall|i: int| 0 <= i <= n ==> #[trigger] offs@[i] == utf8_len(t.take(i)),
            unk@.len() == m,
            hop@.len() == m,
            next@.len() == m,
            u <= n,
            next_known == next_word_start(d, t, u as int),
            forall|w: int| u <= w <= n ==> is_best_path(d, t, w, #[trigger] best_from(d, t, w)),
            forall|w: int|
                u <= w <= n ==> #[trigger] unk@[w] == unknown_bytes(d, t, best_from(d, t, w))
                    && unk@[w] <= 4 * (n - w),
            forall|w: int|
                u <= w <= n ==> #[trigger] hop@[w] == hops(best_from(d, t, w)) && hop@[w] <= n - w,
            forall|w: int|
                u <= w < n ==> w < #[trigger] next@[w] <= n && best_from(d, t, w) == seq![w]
                    + best_from(d, t, next@[w] as int),
        decreases u,
    {
        u -= 1;
        ends.clear();
        terminals_prefix(root, &chars, u, &mut ends);
        proof {
            assert(ends@.subrange(0, ends@.len() as int) =~= ends@);
            assert forall|e: int| word_at(dict@, t, u as int, e) <==> is_word(d, t, u as int, e) by {}
            lemma_next_word_start_range(d, t, u + 1);
        }
        if ends.len() > 0 {
            proof {
                assert(word_starts(d, t, u as int)) by {
                    assert(word_at(dict@, t, u as int, ends@[0] as int));
                    assert(is_word(d, t, u as int, ends@[0] as int));
                }
            }
            let mut bv = ends[0];
            let mut bu = unk[bv];
            let mut bh = hop[bv] + 1;
            let mut j: usize = 1;
            while j < ends.len()
                invariant
                    1 <= j <= ends@.len(),
                    word_starts(d, t, u as int),
                    forall|a: int, b: int| 0 <= a < b < ends@.len() ==> ends@[a] < ends@[b],
                    forall|a: int|
                        0 <= a < ends@.len() ==> is_word(d, t, u as int, #[trigger] ends@[a] as int),
                    unk@.len() == m,
                    hop@.len() == m,
                    n == t.len(),
                    m == n + 1,
                    u < n,
                    forall|w: int|
                        u < w <= n ==> #[trigger] unk@[w] == unknown_bytes(d, t, best_from(d, t, w))
                            && unk@[w] <= 4 * (n - w),
                    forall|w: int|
                        u < w <= n ==> #[trigger] hop@[w] == hops(best_from(d, t, w)) && hop@[w]
                            <= n - w,
                    exists|a: int| 0 <= a < j && ends@[a] == bv,
                    bu as int == step_unknown(d, t, u as int, bv as int),
                    bh as int == step_hops(d, t, bv as int),
                    bu <= 4 * (n - u),
                    bh <= n - u,
                    forall|a: int| 0 <= a < j ==> step_le(d, t, u as int, bv as int, #[trigger] ends@[a] as int),
                decreases ends@.len() - j,
            {
                let v = ends[j];
                let cu = unk[v];
                let ch = hop[v] + 1;
                if cu < bu || (cu == bu && ch < bh) {
                    bv = v;
                    bu = cu;
                    bh = ch;
                }
                j += 1;
            }
            unk.set(u, bu);
            hop.set(u, bh);
            next.set(u, bv);
            next_known = u;
            proof {
                assert forall|w: int| #[trigger] is_edge(d, t, u as int, w) implies step_le(d, t, u as int, bv as int, w) by {
                    assert(word_at(dict@, t, u as int, w));
                    let a = choose|a: int| 0 <= a < ends@.len() && ends@[a] == w as usize;
                    assert(step_le(d, t, u as int, bv as int, ends@[a] as int));
                }
                lemma_best_step(d, t, u as int, bv as int);
                lemma_cons_path(d, t, u as int, best_from(d, t, bv as int));
            }
        } else {
            proof {
                assert(!word_starts(d, t, u as int)) by {
                    if word_starts(d, t, u as int) {
                        let e = choose|e: int| is_word(d, t, u as int, e);
                        assert(word_at(dict@, t, u as int, e));
                    }
                }
                lemma_single_edge(d, t, u as int);
                lemma_span_bytes(t, u as int, next_known as int);
            }
            let p = next_known;
            let cost = offs[p] - offs[u];
            unk.set(u, cost + unk[p]);
            hop.set(u, hop[p] + 1);
            next.set(u, p);
            proof {
                assert forall|w: int| #[trigger] is_edge(d, t, u as int, w) implies step_le(d, t, u as int, p as int, w) by {}
                lemma_best_step(d, t, u as int, p as int);
                lemma_cons_path(d, t, u as int, best_from(d, t, p as int));
            }
        }
    }
    let ghost b = best_from(d, t, 0);
    let mut tokens: Vec<&'a str> = Vec::new();
    let mut u: usize = 0;
    let ghost mut k: int = 0;
    proof {
        assert(b.skip(0) =~= b);
    }
    while u < n
        invariant
            n == t.len(),
            t == text@,
            next@.len() == n + 1,
            is_best_path(d, t, u as int, best_from(d, t, u as int)),
            forall|w: int| 0 <= w <= n ==> is_best_path(d, t, w, #[trigger] best_from(d, t, w)),
            forall|w: int|
                0 <= w < n ==> w < #[trigger] next@[w] <= n && best_from(d, t, w) == seq![w]
                    + best_from(d, t, next@[w] as int),
            0 <= k < b.len(),
            b[k] == u,
            b.skip(k) == best_from(d, t, u as int),
            u <= n,
            tokens@.len() == k,
            forall|i: int| 0 <= i < k ==> #[trigger] tokens@[i]@ == t.subrange(b[i], b[i + 1]),
        decreases n - u,
    {
        let v = next[u];
        let piece = text.substring_char(u, v);
        tokens.push(piece);
        proof {
            assert(b.skip(k + 1) =~= b.skip(k).drop_first());
            assert(b.skip(k)[1] == v);
            assert(b[k + 1] == v);
        }
        u = v;
        proof {
            k = k + 1;
        }
    }
    proof {
        lemma_best_at_end(d, t);
        assert(b.skip(k).len() == 1);
    }
    tokens
}

// ---------------------------------------------------------------------------
// The tokenizer
/// The tokens of the chunks `cs`, one chunk after the other.
pub open spec fn tokens_of(d: Set<Seq<char>>, cs: Seq<Seq<char>>) -> Seq<Seq<char>>
    decreases cs.len(),
{
    if cs.len() == 0 {
        Seq::empty()
    } else {
        tokens_of(d, cs.drop_last()) + segmentation(d, cs.last())
    }
}

/// The tokens of the chunks, put together, are the chunks put together, and
/// none is empty.
pub proof fn lemma_tokens_cover(d: Set<Seq<char>>, cs: Seq<Seq<char>>)
    ensures
        tokens_of(d, cs).flatten() == cs.flatten(),
        forall|i: int| 0 <= i < tokens_of(d, cs).len() ==> #[trigger] tokens_of(d, cs)[i].len() > 0,
    decreases cs.len(),
{
    if cs.len() == 0 {
        assert(tokens_of(d, cs) =~= Seq::<Seq<char>>::empty());
        assert(cs.flatten() =~= Seq::<char>::empty());
    } else {
        let front = cs.drop_last();
        lemma_tokens_cover(d, front);
        lemma_segmentation_covers(d, cs.last());
        vstd::seq_lib::lemma_flatten_concat(tokens_of(d, front), segmentation(d, cs.last()));
        assert(cs =~= front.push(cs.last()));
        front.lemma_flatten_push(cs.last());
        let ts = tokens_of(d, cs);
        assert forall|i: int| 0 <= i < ts.len() implies #[trigger] ts[i].len() > 0 by {
            if i >= tokens_of(d, front).len() {
                assert(ts[i] == segmentation(d, cs.last())[i - tokens_of(d, front).len()]);
            } else {
                assert(ts[i] == tokens_of(d, front)[i]);
            }
        }
    }
}

/// The words that `words` lists, leaving out the empty ones.
pub open spec fn listed_words(words: Seq<&str>) -> Set<Seq<char>> {
    Set::new(|w: Seq<char>| w.len() > 0 && exists|i: int| 0 <= i < words.len() && words[i]@ == w)
}

/// A tokenizer for text whose words are not separated by spaces. It looks
/// words up in a sealed dictionary.
pub struct Tokenizer {
    dict: SizedDict,
}

impl Tokenizer {
    #[verifier::type_invariant]
    spec fn inv(&self) -> bool {
        self.dict.wf()
    }

    /// The words of the dictionary.
    pub closed spec fn words(&self) -> Set<Seq<char>> {
        self.dict.words()
    }

    /// A tokenizer whose dictionary holds the words that `words` lists; empty
    /// entries are skipped and repeated ones count once.
    pub fn new(words: &[&str]) -> (r: Tokenizer)
        ensures
            r.words() == listed_words(words@),
    {
        let mut dict = Dict::new();
        let mut i: usize = 0;
        while i < words.len()
            invariant
                i <= words@.len(),
                dict.wf(),
                dict.words() == listed_words(words@.take(i as int)),
            decreases words@.len() - i,
        {
            dict.add(words[i]);
            proof {
                let ws = words@.take(i + 1);
                assert(ws.take(i as int) =~= words@.take(i as int));
                assert forall|w: Seq<char>| #[trigger] listed_words(ws).contains(w) <==> dict.words().contains(w) by {
                    if listed_words(ws).contains(w) {
                        let j = choose|j: int| 0 <= j < ws.len() && ws[j]@ == w;
                        if j < i {
                            assert(words@.take(i as int)[j]@ == w);
                        }
                    }
                    if listed_words(words@.take(i as int)).contains(w) {
                        let j = choose|j: int| 0 <= j < i && words@.take(i as int)[j]@ == w;
                        assert(ws[j]@ == w);
                    }
                    if w == words@[i as int]@ && w.len() > 0 {
                        assert(ws[i as int]@ == w);
                    }
                }
                assert(dict.words() =~= listed_words(ws));
            }
            i += 1;
        }
        assert(words@.take(i as int) =~= words@);
        Tokenizer { dict: dict.seal() }
    }

    /// The tokens of one chunk without whitespace.
    pub fn segment<'a>(&self, chunk: &'a str) -> (r: Vec<&'a str>)
        ensures
            r@.len() == segmentation(self.words(), chunk@).len(),
            forall|i: int|
                0 <= i < r@.len() ==> #[trigger] r@[i]@ == segmentation(self.words(), chunk@)[i],
    {
        proof {
            use_type_invariant(self);
        }
        maximal_matching(&self.dict, chunk)
    }
}

/// Every non-empty word that a tokenizer is built from is a word of its
/// dictionary.
pub proof fn lemma_listed_word_kept(words: Seq<&str>, tok: Tokenizer, i: int)
    requires
        tok.words() == listed_words(words),
        0 <= i < words.len(),
        words[i]@.len() > 0,
    ensures
        tok.words().contains(words[i]@),
{
}

impl crate::tokenizer::Tokenizer for Tokenizer {
    /// Splits `text` at its whitespace and segments each chunk.
    fn tokenize<'a>(&self, text: &'a str) -> (r: Vec<&'a str>)
        ensures
            r@.len() == tokens_of(self.words(), whitespace_chunks(text@)).len(),
            forall|i: int|
                0 <= i < r@.len() ==> #[trigger] r@[i]@ == tokens_of(
                    self.words(),
                    whitespace_chunks(text@),
                )[i],
            forall|i: int| 0 <= i < r@.len() ==> #[trigger] r@[i]@.len() > 0,
            r@.map_values(|x: &str| x@).flatten() == without_white_space(text@),
    {
        let ghost d = self.words();
        let chunks = split_whitespace(text);
        let ghost cs = whitespace_chunks(text@);
        let mut out: Vec<&'a str> = Vec::new();
        let mut i: usize = 0;
        while i < chunks.len()
            invariant
                d == self.words(),
                cs == whitespace_chunks(text@),
                chunks@.len() == cs.len(),
                forall|j: int| 0 <= j < chunks@.len() ==> #[trigger] chunks@[j]@ == cs[j],
                i <= chunks@.len(),
                out@.len() == tokens_of(d, cs.take(i as int)).len(),
                forall|j: int|
                    0 <= j < out@.len() ==> #[trigger] out@[j]@ == tokens_of(d, cs.take(i as int))[j],
            decreases chunks@.len() - i,
        {
            let mut toks = self.segment(chunks[i]);
            let ghost prev = out@;
            let ghost tv = toks@;
            out.append(&mut toks);
            proof {
                let cs2 = cs.take(i + 1);
                assert(cs2.drop_last() =~= cs.take(i as int));
                assert(cs2.last() == chunks@[i as int]@);
                assert forall|j: int| 0 <= j < out@.len() implies #[trigger] out@[j]@ == tokens_of(d, cs2)[j] by {
                    if j >= prev.len() {
                        assert(out@[j] == tv[j - prev.len()]);
                    }
                }
            }
            i += 1;
        }
        proof {
            assert(cs.take(i as int) =~= cs);
            lemma_tokens_cover(d, cs);
            assert(out@.map_values(|x: &str| x@) =~= tokens_of(d, cs));
            assert(chunks@.map_values(|c: &str| c@) =~= cs);
            assert forall|j: int| 0 <= j < out@.len() implies #[trigger] out@[j]@.len() > 0 by {
                assert(out@[j]@ == tokens_of(d, cs)[j]);
            }
        }
        out
    }
}

} // verus!
