//! Structural laws of the trees the grammar produces.
//!
//! `tree_wf` captures the range invariants of a produced node: children tile
//! their parent from its start to its end, in strictly increasing, pairwise
//! non-overlapping ranges, and whatever the children do not cover is
//! whitespace that the grammar dropped.  The proof functions here establish
//! `tree_wf` for every root of a successful parse and derive from it the
//! ordering and reconstruction properties of the tree.

use vstd::prelude::*;
use crate::cursor::{byte_pos, lemma_byte_pos_mono};
use crate::grammar::{
    is_ws_char, spec_comment, spec_expr_items, spec_parse, spec_parse_exec_expression,
    spec_parse_expr, spec_parse_node, spec_parse_roots, lemma_comment_run_bound,
    lemma_parse_node_advances, lemma_string_run_bound, lemma_word_run_bound, lemma_ws_run_bound,
    string_run, word_run, ws_run,
};
use crate::node::SpecNode;

verus! {

/// A byte offset that lies on a character boundary of `s`.
#[verifier::opaque]
pub open spec fn byte_aligned(s: Seq<char>, u: nat) -> bool {
    exists|a: int| 0 <= a <= s.len() && byte_pos(s, a) == u
}

/// The character index whose encoding starts at byte offset `u` (meaningful
/// when `u` lies on a character boundary).
pub open spec fn char_index_of(s: Seq<char>, u: nat) -> int {
    choose|a: int| 0 <= a <= s.len() && byte_pos(s, a) == u
}

/// The offset of character `a` lies on a character boundary.
proof fn lemma_byte_aligned_intro(s: Seq<char>, a: int)
    requires
        0 <= a <= s.len(),
    ensures
        byte_aligned(s, byte_pos(s, a)),
{
    reveal(byte_aligned);
    assert(0 <= a <= s.len() && byte_pos(s, a) == byte_pos(s, a));
}

/// Distinct character indices have distinct byte offsets.
proof fn lemma_byte_pos_injective(s: Seq<char>, a: int, b: int)
    requires
        0 <= a,
        0 <= b,
        byte_pos(s, a) == byte_pos(s, b),
    ensures
        a == b,
{
    if a < b {
        lemma_byte_pos_mono(s, a, b);
    }
    if b < a {
        lemma_byte_pos_mono(s, b, a);
    }
}

/// At an aligned offset, `char_index_of` recovers the one character index
/// that starts there.
proof fn lemma_byte_aligned_elim(s: Seq<char>, u: nat)
    requires
        byte_aligned(s, u),
    ensures
        0 <= char_index_of(s, u) <= s.len(),
        byte_pos(s, char_index_of(s, u)) == u,
{
    reveal(byte_aligned);
}

/// The characters of `s` strictly between byte offsets `u` and `v` are all
/// whitespace (and both offsets lie on character boundaries).
#[verifier::opaque]
pub open spec fn ws_byte_range(s: Seq<char>, u: nat, v: nat) -> bool {
    exists|a: int, b: int|
        0 <= a <= b <= s.len() && byte_pos(s, a) == u && byte_pos(s, b) == v && (forall|t: int|
            a <= t < b ==> is_ws_char(s[t]))
}

/// An empty gap: a character boundary is whitespace-filled up to itself.
proof fn lemma_ws_byte_range_empty(s: Seq<char>, a: int)
    requires
        0 <= a <= s.len(),
    ensures
        ws_byte_range(s, byte_pos(s, a), byte_pos(s, a)),
{
    reveal(ws_byte_range);
    assert(0 <= a <= a <= s.len() && byte_pos(s, a) == byte_pos(s, a) && (forall|t: int|
        a <= t < a ==> is_ws_char(s[t])));
}

/// A gap of known whitespace characters, by its character indices.
proof fn lemma_ws_byte_range_span(s: Seq<char>, a: int, b: int)
    requires
        0 <= a <= b <= s.len(),
        forall|t: int| a <= t < b ==> is_ws_char(s[t]),
    ensures
        ws_byte_range(s, byte_pos(s, a), byte_pos(s, b)),
{
    reveal(ws_byte_range);
}

/// Prepending one whitespace character to a whitespace gap.
proof fn lemma_ws_byte_range_prepend(s: Seq<char>, i: int, v: nat)
    requires
        0 <= i < s.len(),
        is_ws_char(s[i]),
        ws_byte_range(s, byte_pos(s, i + 1), v),
    ensures
        ws_byte_range(s, byte_pos(s, i), v),
{
    reveal(ws_byte_range);
    let (a, b) = choose|a: int, b: int|
        #![trigger byte_pos(s, a), byte_pos(s, b)]
        0 <= a <= b <= s.len() && byte_pos(s, a) == byte_pos(s, i + 1) && byte_pos(s, b) == v && (
        forall|t: int| a <= t < b ==> is_ws_char(s[t]));
    lemma_byte_pos_injective(s, a, i + 1);
    assert(0 <= i <= b <= s.len() && byte_pos(s, i) == byte_pos(s, i) && byte_pos(s, b) == v && (
    forall|t: int| i <= t < b ==> is_ws_char(s[t])));
}

/// A whitespace gap runs forward: its lower offset is at most its upper one.
proof fn lemma_ws_byte_range_le(s: Seq<char>, u: nat, v: nat)
    requires
        ws_byte_range(s, u, v),
    ensures
        u <= v,
{
    reveal(ws_byte_range);
    let (a, b) = choose|a: int, b: int|
        #![trigger byte_pos(s, a), byte_pos(s, b)]
        0 <= a <= b <= s.len() && byte_pos(s, a) == u && byte_pos(s, b) == v && (forall|t: int|
            a <= t < b ==> is_ws_char(s[t]));
    lemma_byte_pos_mono(s, a, b);
}

/// The range invariants of a node the grammar produces, recursively:
/// non-empty range on character boundaries; leaves carry no children; a
/// composite's children begin at its start, end at its end, and between two
/// consecutive children lies nothing but dropped whitespace.
pub open spec fn tree_wf(s: Seq<char>, n: SpecNode) -> bool
    decreases n,
{
    &&& n.start < n.end
    &&& byte_aligned(s, n.start)
    &&& byte_aligned(s, n.end)
    &&& (n.kind.spec_is_leaf() ==> n.children.len() == 0)
    &&& (!n.kind.spec_is_leaf() ==> {
        &&& n.children.len() >= 2
        &&& n.children[0].start == n.start
        &&& n.children[n.children.len() - 1].end == n.end
        &&& members_wf(s, n.children)
    })
}

/// Each member of a list is a well-formed tree and between two consecutive
/// members lies nothing but whitespace.
pub open spec fn members_wf(s: Seq<char>, cs: Seq<SpecNode>) -> bool
    decreases cs,
{
    if cs.len() == 0 {
        true
    } else if cs.len() == 1 {
        tree_wf(s, cs[0])
    } else {
        &&& tree_wf(s, cs[0])
        &&& ws_byte_range(s, cs[0].end, cs[1].start)
        &&& members_wf(s, cs.drop_first())
    }
}

/// Each member of a well-formed list is a well-formed tree, and members'
/// ranges run strictly forward: an earlier member ends no later than a
/// later one begins.
proof fn lemma_members_facts(s: Seq<char>, cs: Seq<SpecNode>)
    requires
        members_wf(s, cs),
    ensures
        forall|k: int| 0 <= k < cs.len() ==> tree_wf(s, #[trigger] cs[k]),
        forall|i: int, j: int|
            0 <= i < j < cs.len() ==> (#[trigger] cs[i]).end <= (#[trigger] cs[j]).start,
    decreases cs.len(),
{
    if cs.len() >= 1 {
        let rest = cs.drop_first();
        if cs.len() >= 2 {
            lemma_ws_byte_range_le(s, cs[0].end, cs[1].start);
        }
        assert(members_wf(s, rest)) by {
            if cs.len() == 1 {
                assert(rest.len() == 0);
            }
        }
        lemma_members_facts(s, rest);
        assert forall|k: int| 0 <= k < cs.len() implies tree_wf(s, #[trigger] cs[k]) by {
            if k > 0 {
                assert(cs[k] == rest[k - 1]);
            }
        }
        assert forall|i: int, j: int| 0 <= i < j < cs.len() implies (#[trigger] cs[i]).end <= (
        #[trigger] cs[j]).start by {
            if i == 0 {
                assert(cs[1] == rest[0]);
                if j > 1 {
                    assert(cs[j] == rest[j - 1]);
                    assert(tree_wf(s, rest[0]));
                    assert(rest[0].end <= rest[j - 1].start);
                }
            } else {
                assert(cs[i] == rest[i - 1]);
                assert(cs[j] == rest[j - 1]);
            }
        }
    }
}

/// Prepending a member to a non-empty member list.
proof fn lemma_members_cons(s: Seq<char>, x: SpecNode, rest: Seq<SpecNode>)
    requires
        tree_wf(s, x),
        rest.len() >= 1,
        members_wf(s, rest),
        ws_byte_range(s, x.end, rest[0].start),
    ensures
        members_wf(s, seq![x] + rest),
        (seq![x] + rest)[0] == x,
        (seq![x] + rest)[rest.len() as int] == rest[rest.len() - 1],
        (seq![x] + rest).len() == rest.len() + 1,
{
    let cs = seq![x] + rest;
    assert(cs[0] == x);
    assert(cs[1] == rest[0]);
    assert(cs.drop_first() =~= rest);
    assert(cs[rest.len() as int] == rest[rest.len() - 1]);
}

/// Every character of a whitespace run is whitespace.
proof fn lemma_ws_run_chars(s: Seq<char>, i: int)
    requires
        0 <= i,
    ensures
        forall|t: int| i <= t < i + ws_run(s, i) ==> is_ws_char(s[t]),
    decreases s.len() - i,
{
    if 0 <= i < s.len() && is_ws_char(s[i]) {
        lemma_ws_run_chars(s, i + 1);
    }
}

/// A leaf node whose range spans characters `a` to `b` is well formed.
proof fn lemma_leaf_wf(s: Seq<char>, n: SpecNode, a: int, b: int)
    requires
        n.kind.spec_is_leaf(),
        n.children.len() == 0,
        0 <= a < b <= s.len(),
        n.start == byte_pos(s, a),
        n.end == byte_pos(s, b),
    ensures
        tree_wf(s, n),
{
    lemma_byte_pos_mono(s, a, b);
    lemma_byte_aligned_intro(s, a);
    lemma_byte_aligned_intro(s, b);
}

/// The node a top-level parse step yields is well formed; when the step
/// starts on a meaningful character the node begins exactly there.
proof fn lemma_node_wf(s: Seq<char>, i: int)
    requires
        0 <= i,
    ensures
        (match spec_parse_node(s, i) {
            Ok(Some((n, k))) => {
                &&& tree_wf(s, n)
                &&& i < k <= s.len()
                &&& n.end == byte_pos(s, k)
                &&& ((i < s.len() && !is_ws_char(s[i]) && s[i] != ';') ==> n.start == byte_pos(
                    s,
                    i,
                ))
            },
            _ => true,
        }),
    decreases s.len() - i, 2int,
{
    if 0 <= i < s.len() {
        if is_ws_char(s[i]) {
            lemma_node_wf(s, i + 1);
        } else if s[i] == '!' {
            lemma_exec_wf(s, i);
        } else if s[i] == ';' {
            lemma_comment_run_bound(s, i + 1);
            let (c, j) = spec_comment(s, i);
            if j <= s.len() {
                lemma_node_wf(s, j);
            }
        } else if s[i] == '$' {
            lemma_word_run_bound(s, i + 1);
            let j = i + 1 + word_run(s, i + 1);
            lemma_leaf_wf(s, crate::grammar::spec_variable(s, i).0, i, j);
        } else if s[i] == '(' {
            lemma_expr_wf(s, i);
        } else if s[i] == ')' {
        } else if s[i] == '"' {
            lemma_string_run_bound(s, i + 1);
            let j = i + 1 + string_run(s, i + 1);
            lemma_leaf_wf(s, crate::grammar::spec_string(s, i).0, i, j);
        } else {
            lemma_word_run_bound(s, i);
            let j = i + word_run(s, i);
            lemma_leaf_wf(s, crate::grammar::spec_word(s, i).0, i, j);
        }
    }
}

/// The group an exec-expression yields is well formed and spans from the
/// bang to the end of the inner expression.
proof fn lemma_exec_wf(s: Seq<char>, i: int)
    requires
        0 <= i < s.len(),
        s[i] == '!',
    ensures
        (match spec_parse_exec_expression(s, i) {
            Ok((n, j)) => {
                &&& tree_wf(s, n)
                &&& i < j <= s.len()
                &&& n.start == byte_pos(s, i)
                &&& n.end == byte_pos(s, j)
            },
            Err(_) => true,
        }),
    decreases s.len() - i, 1int,
{
    let k = i + 1 + ws_run(s, i + 1);
    if k < s.len() && s[k] == '(' {
        lemma_ws_run_bound(s, i + 1);
        lemma_ws_run_chars(s, i + 1);
        lemma_expr_wf(s, k);
        match spec_parse_expr(s, k) {
            Ok((expr, j)) => {
                lemma_ws_byte_range_span(s, i + 1, k);
                let bang = crate::grammar::spec_bang(s, i);
                lemma_leaf_wf(s, bang, i, i + 1);
                lemma_byte_pos_mono(s, i, j);
                lemma_byte_aligned_intro(s, j);
                let cs = seq![bang, expr];
                assert(cs[0] == bang);
                assert(cs[1] == expr);
                assert(cs.drop_first() =~= seq![expr]);
                assert(members_wf(s, seq![expr]));
                assert(members_wf(s, cs));
            },
            Err(_) => {},
        }
    }
}

/// The group an expression parse yields is well formed and spans its
/// delimiters.
proof fn lemma_expr_wf(s: Seq<char>, i: int)
    requires
        0 <= i < s.len(),
        s[i] == '(',
    ensures
        (match spec_parse_expr(s, i) {
            Ok((n, j)) => {
                &&& tree_wf(s, n)
                &&& i < j <= s.len()
                &&& n.start == byte_pos(s, i)
                &&& n.end == byte_pos(s, j)
            },
            Err(_) => true,
        }),
    decreases s.len() - i, 0int,
{
    lemma_items_wf(s, i + 1);
    match spec_expr_items(s, i + 1) {
        Ok((rest, j)) => {
            let open = crate::grammar::spec_leaf(
                crate::node::SyntaxNodeType::OpenParen,
                byte_pos(s, i),
                byte_pos(s, i + 1),
            );
            lemma_leaf_wf(s, open, i, i + 1);
            lemma_members_cons(s, open, rest);
            lemma_byte_pos_mono(s, i, j);
            lemma_byte_aligned_intro(s, j);
            let cs = seq![open] + rest;
            assert(cs[cs.len() - 1] == rest[rest.len() - 1]);
        },
        Err(_) => {},
    }
}

/// The members of a group are each well formed with whitespace-only gaps;
/// the gap before the first member is whitespace too; the last member ends
/// where the group ends.
proof fn lemma_items_wf(s: Seq<char>, i: int)
    requires
        0 <= i,
    ensures
        (match spec_expr_items(s, i) {
            Ok((cs, end)) => {
                &&& i <= s.len()
                &&& cs.len() >= 1
                &&& members_wf(s, cs)
                &&& ws_byte_range(s, byte_pos(s, i), cs[0].start)
                &&& cs[cs.len() - 1].end == byte_pos(s, end)
                &&& i < end <= s.len()
            },
            Err(_) => true,
        }),
    decreases s.len() - i, 3int,
{
    if 0 <= i < s.len() {
        if is_ws_char(s[i]) {
            lemma_items_wf(s, i + 1);
            match spec_expr_items(s, i + 1) {
                Ok((cs, end)) => {
                    lemma_ws_byte_range_prepend(s, i, cs[0].start);
                },
                Err(_) => {},
            }
        } else if s[i] == ';' {
            let (c, j) = spec_comment(s, i);
            lemma_comment_run_bound(s, i + 1);
            if j <= s.len() {
                lemma_items_wf(s, j);
                match spec_expr_items(s, j) {
                    Ok((rest, end)) => {
                        lemma_ws_byte_range_empty(s, i);
                        lemma_leaf_wf(s, c, i, j);
                        lemma_members_cons(s, c, rest);
                    },
                    Err(_) => {},
                }
            }
        } else if s[i] == ')' {
            lemma_leaf_wf(
                s,
                crate::grammar::spec_leaf(
                    crate::node::SyntaxNodeType::CloseParen,
                    byte_pos(s, i),
                    byte_pos(s, i + 1),
                ),
                i,
                i + 1,
            );
            lemma_ws_byte_range_empty(s, i);
        } else {
            lemma_node_wf(s, i);
            lemma_parse_node_advances(s, i);
            match spec_parse_node(s, i) {
                Ok(Some((child, k))) => {
                    lemma_items_wf(s, k);
                    match spec_expr_items(s, k) {
                        Ok((rest, end)) => {
                            lemma_ws_byte_range_empty(s, i);
                            lemma_members_cons(s, child, rest);
                        },
                        Err(_) => {},
                    }
                },
                _ => {},
            }
        }
    }
}

/// Every root of a successful parse is a well-formed tree.
proof fn lemma_roots_wf(s: Seq<char>, i: int)
    requires
        0 <= i,
    ensures
        (match spec_parse_roots(s, i) {
            Ok(roots) => forall|r: int| 0 <= r < roots.len() ==> tree_wf(s, #[trigger] roots[r]),
            Err(_) => true,
        }),
    decreases s.len() - i, 3int,
{
    if 0 <= i < s.len() {
        lemma_node_wf(s, i);
        lemma_parse_node_advances(s, i);
        match spec_parse_node(s, i) {
            Ok(Some((n, k))) => {
                lemma_roots_wf(s, k);
                match spec_parse_roots(s, k) {
                    Ok(rest) => {
                        let roots = seq![n] + rest;
                        assert(roots[0] == n);
                        assert forall|r: int| 0 <= r < roots.len() implies tree_wf(
                            s,
                            #[trigger] roots[r],
                        ) by {
                            if r > 0 {
                                assert(roots[r] == rest[r - 1]);
                            }
                        }
                    },
                    Err(_) => {},
                }
            },
            _ => {},
        }
    }
}

/// Every node of a successful parse — each root, and recursively through
/// `tree_wf` every composite below it — satisfies the range invariants: a
/// composite's children tile it from start to end with only dropped
/// whitespace in between.
pub proof fn lemma_parse_tree_wf(s: Seq<char>)
    ensures
        (match spec_parse(s) {
            Ok(roots) => forall|r: int| 0 <= r < roots.len() ==> tree_wf(s, #[trigger] roots[r]),
            Err(_) => true,
        }),
{
    lemma_roots_wf(s, 0);
}

/// Every composite node's children ranges are strictly increasing, pairwise
/// non-overlapping, and contained in the parent's range.  (Leaf nodes have
/// no children, so the claims hold of every well-formed node.)
pub proof fn lemma_children_ordered(s: Seq<char>, n: SpecNode)
    requires
        tree_wf(s, n),
    ensures
        forall|i: int, j: int|
            0 <= i < j < n.children.len() ==> (#[trigger] n.children[i]).end <= (
            #[trigger] n.children[j]).start,
        forall|i: int, j: int|
            0 <= i < j < n.children.len() ==> (#[trigger] n.children[i]).start < (
            #[trigger] n.children[j]).start,
        forall|i: int|
            0 <= i < n.children.len() ==> (#[trigger] n.children[i]).start < n.children[i].end,
        forall|i: int|
            0 <= i < n.children.len() ==> n.start <= (#[trigger] n.children[i]).start
                && n.children[i].end <= n.end,
{
    if n.kind.spec_is_leaf() {
    } else {
        lemma_members_facts(s, n.children);
        let last = n.children.len() - 1;
        assert forall|i: int, j: int| 0 <= i < j < n.children.len() implies (
        #[trigger] n.children[i]).start < (#[trigger] n.children[j]).start by {
            assert(tree_wf(s, n.children[i]));
        }
        assert forall|i: int| 0 <= i < n.children.len() implies n.start <= (
        #[trigger] n.children[i]).start && n.children[i].end <= n.end by {
            assert(tree_wf(s, n.children[0]));
            assert(tree_wf(s, n.children[last]));
            assert(tree_wf(s, n.children[i]));
        }
    }
}

/// The characters of `s` whose encoded bytes lie in `[u, v)`, for offsets
/// on character boundaries: the substring a byte range selects.
pub open spec fn slice_bytes(s: Seq<char>, u: nat, v: nat) -> Seq<char> {
    s.subrange(char_index_of(s, u), char_index_of(s, v))
}

/// Concatenation of the range-selected substrings of a node sequence, in
/// order.
pub open spec fn concat_slices(s: Seq<char>, cs: Seq<SpecNode>) -> Seq<char>
    decreases cs.len(),
{
    if cs.len() == 0 {
        Seq::empty()
    } else {
        slice_bytes(s, cs[0].start, cs[0].end) + concat_slices(s, cs.drop_first())
    }
}

/// Consecutive nodes of the list share their boundaries: each one ends at
/// the byte offset where the next begins.
pub open spec fn nodes_flush(cs: Seq<SpecNode>) -> bool
    decreases cs,
{
    if cs.len() <= 1 {
        true
    } else {
        cs[0].end == cs[1].start && nodes_flush(cs.drop_first())
    }
}

/// Flush members concatenate: when consecutive members share a boundary,
/// the concatenation of their substrings is the substring from the first
/// member's start to the last member's end.
#[verifier::rlimit(100)]
proof fn lemma_concat_flush(s: Seq<char>, cs: Seq<SpecNode>)
    requires
        cs.len() >= 1,
        members_wf(s, cs),
        nodes_flush(cs),
    ensures
        concat_slices(s, cs) == slice_bytes(s, cs[0].start, cs[cs.len() - 1].end),
        cs[0].start <= cs[cs.len() - 1].end,
    decreases cs.len(),
{
    assert(tree_wf(s, cs[0]));
    lemma_members_facts(s, cs);
    lemma_byte_aligned_elim(s, cs[0].start);
    lemma_byte_aligned_elim(s, cs[0].end);
    let a = char_index_of(s, cs[0].start);
    let b = char_index_of(s, cs[0].end);
    if a > b {
        lemma_byte_pos_mono(s, b, a);
    }
    if cs.len() == 1 {
        assert(cs.drop_first().len() == 0);
        assert(concat_slices(s, cs.drop_first()) =~= Seq::<char>::empty());
        assert(concat_slices(s, cs) =~= slice_bytes(s, cs[0].start, cs[0].end));
    } else {
        let rest = cs.drop_first();
        lemma_concat_flush(s, rest);
        assert(rest[0] == cs[1]);
        assert(rest[rest.len() - 1] == cs[cs.len() - 1]);
        assert(tree_wf(s, cs[cs.len() - 1]));
        lemma_byte_aligned_elim(s, cs[cs.len() - 1].end);
        let c = char_index_of(s, cs[cs.len() - 1].end);
        if b > c {
            lemma_byte_pos_mono(s, c, b);
        }
        assert(s.subrange(a, b) + s.subrange(b, c) =~= s.subrange(a, c));
    }
}

/// Re-concatenating the range-selected substrings of a composite node's
/// direct children, in order, reproduces the parent's own substring.  The
/// grammar leaves dropped whitespace outside every child's range, so the law
/// asks that consecutive children share their boundaries; a group such as
/// `(a b)`, whose interior whitespace separates the children, lies outside
/// this hypothesis.
#[verifier::rlimit(100)]
#[verifier::spinoff_prover]
pub proof fn lemma_children_reconstruct(s: Seq<char>, n: SpecNode)
    requires
        tree_wf(s, n),
        !n.kind.spec_is_leaf(),
        nodes_flush(n.children),
    ensures
        concat_slices(s, n.children) == slice_bytes(s, n.start, n.end),
{
    lemma_concat_flush(s, n.children);
}

} // verus!
