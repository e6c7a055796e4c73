//! The dictionary: a compressed prefix trie over words, kept sorted at every
//! level, in a growable form for building and a sealed form for lookups.
use vstd::prelude::*;
use vstd::std_specs::iter::IteratorSpec;

verus! {

/// The mathematical shape of a trie node: the label of the edge that leads to
/// it, whether the path that ends here spells a word, and its children in order.
#[verifier::ext_equal]
pub ghost struct TrieNode {
    pub label: Seq<char>,
    pub terminal: bool,
    pub children: Seq<TrieNode>,
}

/// `w` is spelled by a path that starts at `n` and ends at a terminal node.
pub open spec fn node_has(n: TrieNode, w: Seq<char>) -> bool
    decreases n,
{
    &&& n.label.len() <= w.len()
    &&& w.subrange(0, n.label.len() as int) == n.label
    &&& if w.len() == n.label.len() {
        n.terminal
    } else {
        exists|i: int|
            0 <= i < n.children.len() && node_has(
                #[trigger] n.children[i],
                w.subrange(n.label.len() as int, w.len() as int),
            )
    }
}

/// `w` is a word of the trie whose top level is `ns`.
pub open spec fn list_has(ns: Seq<TrieNode>, w: Seq<char>) -> bool {
    exists|i: int| 0 <= i < ns.len() && node_has(#[trigger] ns[i], w)
}

/// The set of words that a trie holds.
pub open spec fn words_of(ns: Seq<TrieNode>) -> Set<Seq<char>> {
    Set::new(|w: Seq<char>| list_has(ns, w))
}

/// Siblings begin with pairwise distinct characters, in increasing order.
pub open spec fn siblings_sorted(ns: Seq<TrieNode>) -> bool {
    forall|i: int, j: int|
        0 <= i < j < ns.len() ==> (ns[i].label[0] as u32) < (ns[j].label[0] as u32)
}

/// Every label below `n`, its own included, is non-empty, every node that
/// ends no word branches into two children or more, and every list of
/// children is sorted.
pub open spec fn wf_node(n: TrieNode) -> bool
    decreases n,
{
    &&& n.label.len() > 0
    &&& (!n.terminal ==> n.children.len() >= 2)
    &&& siblings_sorted(n.children)
    &&& forall|i: int| 0 <= i < n.children.len() ==> wf_node(#[trigger] n.children[i])
}

/// A well-formed list of siblings.
pub open spec fn wf_list(ns: Seq<TrieNode>) -> bool {
    &&& siblings_sorted(ns)
    &&& forall|i: int| 0 <= i < ns.len() ==> #[trigger] wf_node(ns[i])
}

/// `n` is the length of the longest common prefix of `a` and `b`.
pub open spec fn is_common_prefix_len(a: Seq<char>, b: Seq<char>, n: int) -> bool {
    &&& 0 <= n <= a.len()
    &&& n <= b.len()
    &&& a.subrange(0, n) == b.subrange(0, n)
    &&& (n < a.len() && n < b.len() ==> a[n] != b[n])
}

/// A leaf that ends the word `w`.
pub open spec fn leaf_of(w: Seq<char>) -> TrieNode {
    TrieNode { label: w, terminal: true, children: Seq::empty() }
}

// ---------------------------------------------------------------------------
// Lemmas on the shape of tries
proof fn lemma_char_u32_injective(a: char, b: char)
    ensures
        (a as u32) == (b as u32) ==> a == b,
{
    vstd::utf8::char_u32_cast(a, a as u32);
    vstd::utf8::char_u32_cast(b, b as u32);
}

proof fn lemma_leaf_has(w: Seq<char>, x: Seq<char>)
    ensures
        node_has(leaf_of(w), x) <==> x == w,
{
    if x == w {
        assert(x.subrange(0, w.len() as int) =~= w);
    }
    if node_has(leaf_of(w), x) {
        assert(x =~= x.subrange(0, w.len() as int));
    }
}

/// What it takes for `n` to hold `w`, one level down.
proof fn lemma_unfold(n: TrieNode, w: Seq<char>)
    ensures
        node_has(n, w) == (n.label.len() <= w.len() && w.subrange(0, n.label.len() as int) == n.label
            && if w.len() == n.label.len() {
            n.terminal
        } else {
            list_has(n.children, w.subrange(n.label.len() as int, w.len() as int))
        }),
{
}

proof fn lemma_wf_unfold(n: TrieNode)
    ensures
        wf_node(n) == (n.label.len() > 0 && (!n.terminal ==> n.children.len() >= 2) && wf_list(
            n.children,
        )),
{
    if n.label.len() > 0 && (!n.terminal ==> n.children.len() >= 2) && wf_list(n.children) {
        assert forall|i: int| 0 <= i < n.children.len() implies wf_node(
            #[trigger] n.children[i],
        ) by {
            assert(wf_node(n.children[i]));
        }
    }
}

/// A word that a node holds begins with the node's first character.
proof fn lemma_has_first_char(n: TrieNode, x: Seq<char>)
    requires
        n.label.len() > 0,
        node_has(n, x),
    ensures
        x.len() > 0,
        x[0] == n.label[0],
{
    assert(x.subrange(0, n.label.len() as int)[0] == x[0]);
}

/// Among well-formed siblings, only the one that shares the first character
/// of `x` can hold `x`.
proof fn lemma_list_has_one(ns: Seq<TrieNode>, i: int, x: Seq<char>)
    requires
        wf_list(ns),
        0 <= i < ns.len(),
        x.len() > 0,
        x[0] == ns[i].label[0],
    ensures
        list_has(ns, x) <==> node_has(ns[i], x),
{
    if list_has(ns, x) {
        let j = choose|j: int| 0 <= j < ns.len() && #[trigger] node_has(ns[j], x);
        assert(wf_node(ns[j]));
        lemma_has_first_char(ns[j], x);
        if j != i {
            assert((ns[i].label[0] as u32) != (ns[j].label[0] as u32));
        }
    }
}

/// No sibling holds a word whose first character no sibling begins with.
proof fn lemma_list_has_none(ns: Seq<TrieNode>, x: Seq<char>)
    requires
        wf_list(ns),
        x.len() > 0,
        forall|j: int| 0 <= j < ns.len() ==> ns[j].label[0] != x[0],
    ensures
        !list_has(ns, x),
{
    if list_has(ns, x) {
        let j = choose|j: int| 0 <= j < ns.len() && #[trigger] node_has(ns[j], x);
        assert(wf_node(ns[j]));
        lemma_has_first_char(ns[j], x);
    }
}

/// A label `p + q` holds `x` when `p` begins `x` and `q` holds the rest.
proof fn lemma_split_label(p: Seq<char>, q: Seq<char>, t: bool, c: Seq<TrieNode>, x: Seq<char>)
    requires
        q.len() > 0,
    ensures
        node_has(TrieNode { label: p + q, terminal: t, children: c }, x) <==> (p.len() <= x.len()
            && x.subrange(0, p.len() as int) == p && node_has(
            TrieNode { label: q, terminal: t, children: c },
            x.subrange(p.len() as int, x.len() as int),
        )),
{
    let whole = TrieNode { label: p + q, terminal: t, children: c };
    let tail = TrieNode { label: q, terminal: t, children: c };
    let lp = p.len() as int;
    let lq = q.len() as int;
    let y = x.subrange(lp, x.len() as int);
    if lp + lq <= x.len() {
        assert(y.subrange(lq, y.len() as int) =~= x.subrange(lp + lq, x.len() as int));
        if x.subrange(0, lp + lq) == p + q {
            assert(x.subrange(0, lp) =~= (p + q).subrange(0, lp));
            assert(p =~= (p + q).subrange(0, lp));
            assert(y.subrange(0, lq) =~= (p + q).subrange(lp, lp + lq));
            assert(q =~= (p + q).subrange(lp, lp + lq));
        }
        if x.subrange(0, lp) == p && y.subrange(0, lq) == q {
            assert(x.subrange(0, lp + lq) =~= p + q);
        }
        lemma_unfold(whole, x);
        lemma_unfold(tail, y);
        assert(whole.label.len() == lp + lq);
    } else {
        assert(!node_has(whole, x));
        if lp <= x.len() {
            assert(!node_has(tail, y));
        }
    }
}

/// Splitting the label of a node at `m` keeps what it holds.
proof fn lemma_split_node(n: TrieNode, m: int, x: Seq<char>)
    requires
        0 < m < n.label.len(),
    ensures
        node_has(n, x) <==> (m <= x.len() && x.subrange(0, m) == n.label.subrange(0, m)
            && node_has(
            TrieNode {
                label: n.label.subrange(m, n.label.len() as int),
                terminal: n.terminal,
                children: n.children,
            },
            x.subrange(m, x.len() as int),
        )),
{
    let p = n.label.subrange(0, m);
    let q = n.label.subrange(m, n.label.len() as int);
    assert(n.label =~= p + q);
    assert(n == TrieNode { label: p + q, terminal: n.terminal, children: n.children });
    lemma_split_label(p, q, n.terminal, n.children, x);
}

/// A well-formed node holds some word: no node lies off every path to a word.
pub proof fn lemma_node_has_word(n: TrieNode)
    requires
        wf_node(n),
    ensures
        exists|w: Seq<char>| node_has(n, w),
    decreases n,
{
    lemma_wf_unfold(n);
    if n.terminal {
        assert(n.label.subrange(0, n.label.len() as int) =~= n.label);
        assert(node_has(n, n.label));
    } else {
        let c = n.children[0];
        assert(wf_node(c));
        lemma_node_has_word(c);
        let y = choose|y: Seq<char>| node_has(c, y);
        lemma_has_first_char(c, y);
        lemma_prepend_label(n, 0, y);
    }
}

/// The label of `n` followed by a word of its child `i` is a word of `n`.
proof fn lemma_prepend_label(n: TrieNode, i: int, y: Seq<char>)
    requires
        0 <= i < n.children.len(),
        node_has(n.children[i], y),
        y.len() > 0,
    ensures
        node_has(n, n.label + y),
        (n.label + y).subrange(0, n.label.len() as int) == n.label,
        (n.label + y).subrange(n.label.len() as int, (n.label + y).len() as int) == y,
{
    let x = n.label + y;
    assert(x.subrange(0, n.label.len() as int) =~= n.label);
    assert(x.subrange(n.label.len() as int, x.len() as int) =~= y);
    lemma_unfold(n, x);
}

/// Two well-formed nodes that hold the same words have labels of the same
/// length.
proof fn lemma_label_not_shorter(na: TrieNode, nb: TrieNode)
    requires
        wf_node(na),
        wf_node(nb),
        forall|x: Seq<char>| node_has(na, x) <==> node_has(nb, x),
    ensures
        na.label.len() >= nb.label.len(),
{
    lemma_wf_unfold(na);
    let la = na.label.len() as int;
    let lb = nb.label.len() as int;
    if la < lb {
        if na.terminal {
            assert(na.label.subrange(0, la) =~= na.label);
            assert(node_has(na, na.label));
            assert(node_has(nb, na.label));
        } else {
            let c0 = na.children[0];
            let c1 = na.children[1];
            assert(wf_node(c0));
            assert(wf_node(c1));
            lemma_node_has_word(c0);
            lemma_node_has_word(c1);
            let y0 = choose|y: Seq<char>| node_has(c0, y);
            let y1 = choose|y: Seq<char>| node_has(c1, y);
            lemma_has_first_char(c0, y0);
            lemma_has_first_char(c1, y1);
            lemma_prepend_label(na, 0, y0);
            lemma_prepend_label(na, 1, y1);
            let x0 = na.label + y0;
            let x1 = na.label + y1;
            assert(node_has(nb, x0));
            assert(node_has(nb, x1));
            assert(x0.subrange(0, lb)[la] == x0[la]);
            assert(x1.subrange(0, lb)[la] == x1[la]);
            assert(x0[la] == y0[0]);
            assert(x1[la] == y1[0]);
            assert((c0.label[0] as u32) < (c1.label[0] as u32));
        }
    }
}

proof fn lemma_words_agree(a: Seq<TrieNode>, b: Seq<TrieNode>)
    requires
        words_of(a) == words_of(b),
    ensures
        forall|x: Seq<char>| list_has(a, x) == list_has(b, x),
{
    assert forall|x: Seq<char>| list_has(a, x) == list_has(b, x) by {
        assert(words_of(a).contains(x) == list_has(a, x));
        assert(words_of(b).contains(x) == list_has(b, x));
    }
}

/// Two well-formed nodes that hold the same words are the same node.
proof fn lemma_same_node(na: TrieNode, nb: TrieNode)
    requires
        wf_node(na),
        wf_node(nb),
        forall|x: Seq<char>| node_has(na, x) <==> node_has(nb, x),
    ensures
        na == nb,
    decreases na,
{
    lemma_wf_unfold(na);
    lemma_wf_unfold(nb);
    lemma_label_not_shorter(na, nb);
    lemma_label_not_shorter(nb, na);
    let l = na.label.len() as int;
    lemma_node_has_word(na);
    let w = choose|w: Seq<char>| node_has(na, w);
    assert(node_has(nb, w));
    assert(na.label == nb.label);
    assert(na.label.subrange(0, l) =~= na.label);
    assert(node_has(na, na.label) == na.terminal);
    assert(node_has(nb, nb.label) == nb.terminal);
    assert forall|y: Seq<char>| list_has(na.children, y) <==> list_has(nb.children, y) by {
        if y.len() == 0 {
            if list_has(na.children, y) {
                let k = choose|k: int| 0 <= k < na.children.len() && node_has(#[trigger] na.children[k], y);
                assert(wf_node(na.children[k]));
            }
            if list_has(nb.children, y) {
                let k = choose|k: int| 0 <= k < nb.children.len() && node_has(#[trigger] nb.children[k], y);
                assert(wf_node(nb.children[k]));
            }
        } else {
            let x = na.label + y;
            assert(x.subrange(0, l) =~= na.label);
            assert(x.subrange(l, x.len() as int) =~= y);
            lemma_unfold(na, x);
            lemma_unfold(nb, x);
        }
    }
    assert(words_of(na.children) =~= words_of(nb.children));
    lemma_same_words_same_trie(na.children, nb.children);
    assert(na =~= nb);
}

/// The trie is a function of its words: two well-formed tries that hold the
/// same words have the same shape, whatever order the words were added in.
pub proof fn lemma_same_words_same_trie(a: Seq<TrieNode>, b: Seq<TrieNode>)
    requires
        wf_list(a),
        wf_list(b),
        words_of(a) == words_of(b),
    ensures
        a == b,
    decreases a, 1nat,
{
    lemma_words_agree(a, b);
    if a.len() == 0 || b.len() == 0 {
        if b.len() > 0 {
            assert(wf_node(b[0]));
            lemma_node_has_word(b[0]);
            let w = choose|w: Seq<char>| node_has(b[0], w);
            assert(list_has(b, w));
        }
        if a.len() > 0 {
            assert(wf_node(a[0]));
            lemma_node_has_word(a[0]);
            let w = choose|w: Seq<char>| node_has(a[0], w);
            assert(list_has(a, w));
        }
        assert(a =~= b);
    } else {
        let na = a[0];
        let nb = b[0];
        assert(wf_node(na));
        assert(wf_node(nb));
        lemma_node_has_word(na);
        let wa = choose|w: Seq<char>| node_has(na, w);
        lemma_has_first_char(na, wa);
        assert(list_has(a, wa));
        let j = choose|j: int| 0 <= j < b.len() && node_has(#[trigger] b[j], wa);
        assert(wf_node(b[j]));
        lemma_has_first_char(b[j], wa);
        if j > 0 {
            assert((nb.label[0] as u32) < (b[j].label[0] as u32));
        }
        lemma_node_has_word(nb);
        let wb = choose|w: Seq<char>| node_has(nb, w);
        lemma_has_first_char(nb, wb);
        assert(list_has(b, wb));
        let i = choose|i: int| 0 <= i < a.len() && node_has(#[trigger] a[i], wb);
        assert(wf_node(a[i]));
        lemma_has_first_char(a[i], wb);
        if i > 0 {
            assert((na.label[0] as u32) < (a[i].label[0] as u32));
        }
        lemma_char_u32_injective(na.label[0], nb.label[0]);
        assert(na.label[0] == nb.label[0]);
        assert forall|x: Seq<char>| node_has(na, x) <==> node_has(nb, x) by {
            if node_has(na, x) {
                lemma_has_first_char(na, x);
                assert(list_has(a, x));
                lemma_list_has_one(b, 0, x);
            }
            if node_has(nb, x) {
                lemma_has_first_char(nb, x);
                assert(list_has(b, x));
                lemma_list_has_one(a, 0, x);
            }
        }
        lemma_same_node(na, nb);
        let a2 = a.drop_first();
        let b2 = b.drop_first();
        assert(wf_list(a2)) by {
            assert forall|k: int| 0 <= k < a2.len() implies #[trigger] wf_node(a2[k]) by {
                assert(wf_node(a[k + 1]));
            }
        }
        assert(wf_list(b2)) by {
            assert forall|k: int| 0 <= k < b2.len() implies #[trigger] wf_node(b2[k]) by {
                assert(wf_node(b[k + 1]));
            }
        }
        assert forall|x: Seq<char>| list_has(a2, x) implies list_has(b2, x) by {
            let k = choose|k: int| 0 <= k < a2.len() && node_has(#[trigger] a2[k], x);
            assert(node_has(a[k + 1], x));
            assert(wf_node(a[k + 1]));
            lemma_has_first_char(a[k + 1], x);
            assert((na.label[0] as u32) < (a[k + 1].label[0] as u32));
            assert(list_has(b, x));
            let m = choose|m: int| 0 <= m < b.len() && node_has(#[trigger] b[m], x);
            assert(wf_node(b[m]));
            lemma_has_first_char(b[m], x);
            assert(m != 0);
            assert(node_has(b2[m - 1], x));
        }
        assert forall|x: Seq<char>| list_has(b2, x) implies list_has(a2, x) by {
            let k = choose|k: int| 0 <= k < b2.len() && node_has(#[trigger] b2[k], x);
            assert(node_has(b[k + 1], x));
            assert(wf_node(b[k + 1]));
            lemma_has_first_char(b[k + 1], x);
            assert((nb.label[0] as u32) < (b[k + 1].label[0] as u32));
            assert(list_has(a, x));
            let m = choose|m: int| 0 <= m < a.len() && node_has(#[trigger] a[m], x);
            assert(wf_node(a[m]));
            lemma_has_first_char(a[m], x);
            assert(m != 0);
            assert(node_has(a2[m - 1], x));
        }
        assert(words_of(a2) =~= words_of(b2));
        lemma_same_words_same_trie(a2, b2);
        assert(a =~= seq![na] + a2);
        assert(b =~= seq![nb] + b2);
    }
}

/// Replacing one sibling by a node that holds one more word.
proof fn lemma_list_update(ns: Seq<TrieNode>, i: int, n2: TrieNode, w: Seq<char>)
    requires
        0 <= i < ns.len(),
        forall|x: Seq<char>| node_has(n2, x) <==> node_has(ns[i], x) || x == w,
    ensures
        forall|x: Seq<char>| list_has(ns.update(i, n2), x) <==> list_has(ns, x) || x == w,
{
    let ms = ns.update(i, n2);
    assert forall|x: Seq<char>| list_has(ms, x) <==> list_has(ns, x) || x == w by {
        if list_has(ms, x) {
            let j = choose|j: int| 0 <= j < ms.len() && #[trigger] node_has(ms[j], x);
            if j != i {
                assert(node_has(ns[j], x));
            }
        }
        if list_has(ns, x) {
            let j = choose|j: int| 0 <= j < ns.len() && #[trigger] node_has(ns[j], x);
            if j != i {
                assert(node_has(ms[j], x));
            } else {
                assert(node_has(ms[i], x));
            }
        }
        if x == w {
            assert(node_has(ms[i], x));
        }
    }
}

/// Inserting a sibling adds what it holds.
proof fn lemma_list_insert(ns: Seq<TrieNode>, i: int, n2: TrieNode)
    requires
        0 <= i <= ns.len(),
    ensures
        forall|x: Seq<char>| list_has(ns.insert(i, n2), x) <==> list_has(ns, x) || node_has(n2, x),
{
    let ms = ns.insert(i, n2);
    assert forall|x: Seq<char>| list_has(ms, x) <==> list_has(ns, x) || node_has(n2, x) by {
        if list_has(ms, x) {
            let j = choose|j: int| 0 <= j < ms.len() && #[trigger] node_has(ms[j], x);
            if j < i {
                assert(node_has(ns[j], x));
            } else if j > i {
                assert(node_has(ns[j - 1], x));
            }
        }
        if list_has(ns, x) {
            let j = choose|j: int| 0 <= j < ns.len() && #[trigger] node_has(ns[j], x);
            if j < i {
                assert(node_has(ms[j], x));
            } else {
                assert(node_has(ms[j + 1], x));
            }
        }
        if node_has(n2, x) {
            assert(node_has(ms[i], x));
        }
    }
}

// ---------------------------------------------------------------------------
// The growable trie
/// A node of the growable trie.
pub struct Node {
    childs: Vec<Node>,
    terminal: bool,
    value: String,
}

/// The shape of a list of growable nodes.
pub closed spec fn view_nodes(ns: Seq<Node>) -> Seq<TrieNode> {
    ns.map_values(|n: Node| n.view())
}

impl Node {
    pub closed spec fn view(&self) -> TrieNode
        decreases self,
    {
        TrieNode {
            label: self.value@,
            terminal: self.terminal,
            children: Seq::new(
                self.childs@.len(),
                |i: int|
                    if 0 <= i < self.childs@.len() {
                        self.childs@[i].view()
                    } else {
                        arbitrary()
                    },
            ),
        }
    }

    /// The label of the edge that leads to this node.
    pub fn value(&self) -> (r: &str)
        ensures
            r@ == self.view().label,
    {
        self.value.as_str()
    }

    /// Whether the path that ends here spells a word.
    pub fn terminal(&self) -> (r: bool)
        ensures
            r == self.view().terminal,
    {
        self.terminal
    }

    /// The children of this node, in order.
    pub fn childs(&self) -> (r: &Vec<Node>)
        ensures
            view_nodes(r@) == self.view().children,
    {
        proof {
            lemma_children_view(self);
        }
        &self.childs
    }
}

proof fn lemma_children_view(n: &Node)
    ensures
        view_nodes(n.childs@) == n.view().children,
{
    assert(view_nodes(n.childs@) =~= n.view().children);
}

proof fn lemma_view_insert(ns: Seq<Node>, i: int, n: Node)
    requires
        0 <= i <= ns.len(),
    ensures
        view_nodes(ns.insert(i, n)) == view_nodes(ns).insert(i, n.view()),
{
    assert(view_nodes(ns.insert(i, n)) =~= view_nodes(ns).insert(i, n.view()));
}

proof fn lemma_view_replace(ns: Seq<Node>, i: int, n: Node)
    requires
        0 <= i < ns.len(),
    ensures
        view_nodes(ns.remove(i).insert(i, n)) == view_nodes(ns).update(i, n.view()),
{
    assert(view_nodes(ns.remove(i).insert(i, n)) =~= view_nodes(ns).update(i, n.view()));
}

proof fn lemma_view_single(n: Node)
    ensures
        view_nodes(seq![n]) == seq![n.view()],
        forall|x: Seq<char>| list_has(seq![n.view()], x) <==> node_has(n.view(), x),
{
    assert(view_nodes(seq![n]) =~= seq![n.view()]);
    assert forall|x: Seq<char>| list_has(seq![n.view()], x) <==> node_has(n.view(), x) by {
        if node_has(n.view(), x) {
            assert(node_has(seq![n.view()][0], x));
        }
    }
}

/// Replacing a sibling by one with the same first character keeps the list
/// well formed.
proof fn lemma_wf_update(ns: Seq<TrieNode>, i: int, n: TrieNode)
    requires
        wf_list(ns),
        0 <= i < ns.len(),
        wf_node(n),
        n.label[0] == ns[i].label[0],
    ensures
        wf_list(ns.update(i, n)),
{
    let ms = ns.update(i, n);
    assert forall|a: int, b: int| 0 <= a < b < ms.len() implies (ms[a].label[0] as u32) < (
    ms[b].label[0] as u32) by {
        assert((ns[a].label[0] as u32) < (ns[b].label[0] as u32));
    }
    assert forall|a: int| 0 <= a < ms.len() implies #[trigger] wf_node(ms[a]) by {
        if a != i {
            assert(wf_node(ns[a]));
        }
    }
}

/// Inserting a sibling at its place in the order keeps the list well formed.
proof fn lemma_wf_insert(ns: Seq<TrieNode>, i: int, n: TrieNode)
    requires
        wf_list(ns),
        0 <= i <= ns.len(),
        wf_node(n),
        forall|j: int| 0 <= j < i ==> (ns[j].label[0] as u32) < (n.label[0] as u32),
        forall|j: int| i <= j < ns.len() ==> (n.label[0] as u32) < (ns[j].label[0] as u32),
    ensures
        wf_list(ns.insert(i, n)),
{
    let ms = ns.insert(i, n);
    assert forall|a: int, b: int| 0 <= a < b < ms.len() implies (ms[a].label[0] as u32) < (
    ms[b].label[0] as u32) by {
        if b < i {
            assert((ns[a].label[0] as u32) < (ns[b].label[0] as u32));
        } else if b == i {
        } else if a < i {
            assert((ns[a].label[0] as u32) < (n.label[0] as u32));
        } else if a == i {
        } else {
            assert((ns[a - 1].label[0] as u32) < (ns[b - 1].label[0] as u32));
        }
    }
    assert forall|a: int| 0 <= a < ms.len() implies #[trigger] wf_node(ms[a]) by {
        if a < i {
            assert(wf_node(ns[a]));
        } else if a > i {
            assert(wf_node(ns[a - 1]));
        }
    }
}

/// A node with no children whose label is `value`, ending a word.
fn leaf(value: &str) -> (r: Node)
    ensures
        r.view() == leaf_of(value@),
{
    let r = Node { childs: Vec::new(), terminal: true, value: value.to_owned() };
    assert(r.view().children =~= Seq::<TrieNode>::empty());
    r
}

/// Adds the word `value` to the siblings `nodes`, keeping them sorted.
///
/// The sibling that shares a prefix with `value` is found first; then either a
/// new leaf is inserted, the sibling is marked as ending a word, the rest of
/// `value` goes to its children, or its label is split where the two part.
fn add_node(nodes: &mut Vec<Node>, value: &str)
    requires
        wf_list(view_nodes(old(nodes)@)),
        value@.len() > 0,
    ensures
        wf_list(view_nodes(final(nodes)@)),
        forall|x: Seq<char>|
            list_has(view_nodes(final(nodes)@), x) <==> list_has(view_nodes(old(nodes)@), x) || x
                == value@,
        list_has(view_nodes(old(nodes)@), value@) ==> view_nodes(final(nodes)@) == view_nodes(
            old(nodes)@,
        ),
        final(nodes)@.len() >= old(nodes)@.len(),
        (forall|j: int|
            0 <= j < old(nodes)@.len() ==> view_nodes(old(nodes)@)[j].label[0] != value@[0])
            ==> final(nodes)@.len() == old(nodes)@.len() + 1,
    decreases value@.len(),
{
    let ghost ns = view_nodes(nodes@);
    let ghost w = value@;
    let chars = chars_of(value);
    let (i, len) = find_longest_prefix(nodes, &chars);
    if len == 0 {
        let node = leaf(value);
        proof {
            lemma_view_insert(nodes@, i as int, node);
            lemma_list_insert(ns, i as int, node.view());
            assert forall|x: Seq<char>| node_has(node.view(), x) <==> x == w by {
                lemma_leaf_has(w, x);
            }
            lemma_wf_insert(ns, i as int, node.view());
            assert forall|j: int| 0 <= j < ns.len() implies ns[j].label[0] != w[0] by {
                if j < i {
                    assert((ns[j].label[0] as u32) < (w[0] as u32));
                } else {
                    assert((w[0] as u32) < (ns[j].label[0] as u32));
                }
            }
            lemma_list_has_none(ns, w);
        }
        nodes.insert(i, node);
        return ;
    }
    let ghost old_nodes = nodes@;
    let value_len = chars.len();
    let node = nodes.remove(i);
    let ghost n0 = node.view();
    proof {
        assert(n0 == ns[i as int]);
        assert(wf_node(n0));
        lemma_children_view(&node);
        lemma_list_has_one(ns, i as int, w);
        lemma_unfold(n0, w);
    }
    let Node { childs, terminal, value: label } = node;
    let node_len = label.as_str().unicode_len();
    let ghost lab = n0.label;
    let ghost m = len as int;
    let ghost c1 = TrieNode {
        label: lab.subrange(m, lab.len() as int),
        terminal: n0.terminal,
        children: n0.children,
    };
    let new_node;
    if len == node_len {
        assert(lab =~= w.subrange(0, m));
        if len == value_len {
            assert(lab =~= w);
            new_node = Node { childs, terminal: true, value: label };
            proof {
                lemma_children_view(&new_node);
                assert forall|x: Seq<char>| node_has(new_node.view(), x) <==> node_has(n0, x) || x
                    == w by {
                    lemma_unfold(new_node.view(), x);
                    lemma_unfold(n0, x);
                    if x == w {
                        assert(x.subrange(0, m) =~= x);
                    }
                    if x.len() == m && x.subrange(0, m) == lab {
                        assert(x =~= x.subrange(0, m));
                    }
                }
            }
        } else {
            let suffix = value.substring_char(len, value_len);
            let mut childs = childs;
            add_node(&mut childs, suffix);
            new_node = Node { childs, terminal, value: label };
            proof {
                lemma_children_view(&new_node);
                let c0 = n0.children;
                let c1 = new_node.view().children;
                assert(w =~= lab + suffix@);
                assert forall|x: Seq<char>| node_has(new_node.view(), x) <==> node_has(n0, x) || x
                    == w by {
                    lemma_unfold(new_node.view(), x);
                    lemma_unfold(n0, x);
                    if x.len() > m {
                        assert(x =~= x.subrange(0, m) + x.subrange(m, x.len() as int));
                    }
                    if x == w {
                        assert(w.subrange(0, m) =~= lab);
                        assert(w.subrange(m, w.len() as int) =~= suffix@);
                    }
                }
                if list_has(ns, w) {
                    assert(w.subrange(m, w.len() as int) =~= suffix@);
                    assert(c1 == c0);
                    assert(new_node.view() =~= n0);
                }
            }
        }
    } else {
        let prefix = label.as_str().substring_char(0, len).to_owned();
        let remain = label.as_str().substring_char(len, node_len).to_owned();
        let child = Node { childs, terminal, value: remain };
        proof {
            lemma_children_view(&child);
            assert(child.view() == c1);
            lemma_wf_unfold(n0);
            lemma_wf_unfold(c1);
            lemma_view_single(child);
        }
        let mut childs = Vec::new();
        childs.push(child);
        proof {
            assert(childs@ =~= seq![child]);
        }
        if len >= value_len {
            new_node = Node { childs, terminal: true, value: prefix };
            proof {
                lemma_children_view(&new_node);
                assert(w =~= lab.subrange(0, m));
                assert forall|x: Seq<char>| node_has(new_node.view(), x) <==> node_has(n0, x) || x
                    == w by {
                    lemma_unfold(new_node.view(), x);
                    lemma_split_node(n0, m, x);
                    if node_has(c1, x.subrange(m, x.len() as int)) {
                        lemma_has_first_char(c1, x.subrange(m, x.len() as int));
                    }
                    if x == w {
                        assert(x.subrange(0, m) =~= x);
                    }
                    if x.len() == m && x.subrange(0, m) == lab.subrange(0, m) {
                        assert(x =~= x.subrange(0, m));
                    }
                }
            }
        } else {
            let suffix = value.substring_char(len, value_len);
            let ghost k0 = view_nodes(childs@);
            add_node(&mut childs, suffix);
            new_node = Node { childs, terminal: false, value: prefix };
            proof {
                lemma_children_view(&new_node);
                assert(w =~= lab.subrange(0, m) + suffix@);
                assert forall|x: Seq<char>| node_has(new_node.view(), x) <==> node_has(n0, x) || x
                    == w by {
                    lemma_unfold(new_node.view(), x);
                    lemma_split_node(n0, m, x);
                    if node_has(c1, x.subrange(m, x.len() as int)) {
                        lemma_has_first_char(c1, x.subrange(m, x.len() as int));
                    }
                    if x.len() > m {
                        assert(x =~= x.subrange(0, m) + x.subrange(m, x.len() as int));
                    }
                    if x == w {
                        assert(w.subrange(0, m) =~= lab.subrange(0, m));
                        assert(w.subrange(m, w.len() as int) =~= suffix@);
                    }
                }
                if lab.len() <= w.len() {
                    assert(w.subrange(0, lab.len() as int)[m] == w[m]);
                }
            }
        }
    }
    proof {
        assert(new_node.view().label[0] == n0.label[0]) by {
            if len != node_len {
                assert(new_node.view().label == lab.subrange(0, m));
            }
        }
        lemma_wf_unfold(n0);
        lemma_wf_unfold(new_node.view());
        if len != node_len {
            lemma_wf_unfold(c1);
            if len >= value_len {
                assert(wf_list(seq![c1]));
            }
        }
        lemma_wf_update(ns, i as int, new_node.view());
        lemma_list_update(ns, i as int, new_node.view(), w);
        lemma_view_replace(old_nodes, i as int, new_node);
    }
    nodes.insert(i, new_node);
}

/// The characters of `s`, in order.
pub fn chars_of(s: &str) -> (r: Vec<char>)
    ensures
        r@ == s@,
{
    broadcast use vstd::string::group_string_axioms;

    let mut r: Vec<char> = Vec::new();
    let mut it = s.chars();
    loop
        invariant
            it.remaining() == s@.skip(r@.len() as int),
            r@ == s@.take(r@.len() as int),
            r@.len() <= s@.len(),
        decreases s@.len() - r@.len(),
    {
        match it.next() {
            Some(c) => {
                r.push(c);
            },
            None => {
                assert(r@ =~= s@);
                return r;
            },
        }
    }
}

/// The length of the longest common prefix of `a` and `b`.
fn common_prefix(a: &Vec<char>, b: &Vec<char>) -> (n: usize)
    ensures
        is_common_prefix_len(a@, b@, n as int),
{
    let mut n: usize = 0;
    while n < a.len() && n < b.len() && a[n] == b[n]
        invariant
            n <= a.len(),
            n <= b.len(),
            forall|j: int| 0 <= j < n ==> a@[j] == b@[j],
        decreases a.len() - n,
    {
        n += 1;
    }
    assert(a@.subrange(0, n as int) =~= b@.subrange(0, n as int));
    n
}

/// Finds the sibling that shares the longest prefix with `value`.
///
/// Returns `(index, length)`. A length of zero means that no sibling shares
/// even the first character, and `index` is where a new sibling for `value`
/// keeps the list sorted. Otherwise `index` is the one sibling that begins
/// with the first character of `value`, and `length` the number of characters
/// that its label and `value` have in common.
fn find_longest_prefix(nodes: &Vec<Node>, value: &Vec<char>) -> (r: (usize, usize))
    requires
        wf_list(view_nodes(nodes@)),
        value@.len() > 0,
    ensures
        r.1 == 0 ==> r.0 <= nodes@.len() && (forall|j: int|
            0 <= j < r.0 ==> (view_nodes(nodes@)[j].label[0] as u32) < (value@[0] as u32)) && (
        forall|j: int|
            r.0 <= j < nodes@.len() ==> (value@[0] as u32) < (
            view_nodes(nodes@)[j].label[0] as u32)),
        r.1 > 0 ==> r.0 < nodes@.len() && view_nodes(nodes@)[r.0 as int].label[0] == value@[0]
            && is_common_prefix_len(view_nodes(nodes@)[r.0 as int].label, value@, r.1 as int),
{
    let ghost vs = view_nodes(nodes@);
    let mut index = nodes.len();
    let mut longest: usize = 0;
    let first = value[0];
    let mut i: usize = 0;
    while i < nodes.len()
        invariant
            i <= nodes@.len(),
            vs == view_nodes(nodes@),
            wf_list(vs),
            value@.len() > 0,
            first == value@[0],
            longest == 0 ==> index == nodes@.len() && forall|j: int|
                0 <= j < i ==> (vs[j].label[0] as u32) < (first as u32),
            longest > 0 ==> index < i && vs[index as int].label[0] == first
                && is_common_prefix_len(vs[index as int].label, value@, longest as int),
        decreases nodes@.len() - i,
    {
        assert(wf_node(vs[i as int]));
        let label = chars_of(nodes[i].value.as_str());
        let n = common_prefix(&label, value);
        assert(vs[i as int] == nodes@[i as int].view());
        if n > 0 {
            assert(label@.subrange(0, n as int)[0] == label@[0]);
            assert(value@.subrange(0, n as int)[0] == value@[0]);
        }
        if n > longest {
            if longest > 0 {
                assert(label@[0] == value@[0]);
                assert(vs[index as int].label[0] == vs[i as int].label[0]);
                if index < i {
                    assert((vs[index as int].label[0] as u32) < (vs[i as int].label[0] as u32));
                }
            }
            assert(label@.subrange(0, n as int)[0] == label@[0]);
            index = i;
            longest = n;
        } else if (label[0] as u32) > (first as u32) && longest == 0 {
            assert forall|j: int| i <= j < nodes@.len() implies (value@[0] as u32) < (
            vs[j].label[0] as u32) by {
                if j > i {
                    assert((vs[i as int].label[0] as u32) < (vs[j].label[0] as u32));
                }
            }
            return (i, 0);
        }
        if longest == 0 {
            assert(n == 0);
            assert(label@[0] != value@[0]);
            assert((vs[i as int].label[0] as u32) != (first as u32)) by {
                lemma_char_u32_injective(vs[i as int].label[0], first);
            }
        }
        i += 1;
    }
    (index, longest)
}

} // verus!

verus! {

/// A dictionary that words can be added to: the growable form of the trie.
pub struct Dict {
    root: Vec<Node>,
}

impl View for Dict {
    type V = Seq<TrieNode>;

    closed spec fn view(&self) -> Seq<TrieNode> {
        view_nodes(self.root@)
    }
}

impl Dict {
    /// Siblings are sorted by their distinct first characters at every level,
    /// no label is empty, and a node that ends no word has two children or
    /// more, so that every node lies on the path to some word.
    pub open spec fn wf(&self) -> bool {
        wf_list(self@)
    }

    /// The words that the dictionary holds.
    pub open spec fn words(&self) -> Set<Seq<char>> {
        words_of(self@)
    }

    /// An empty dictionary.
    pub fn new() -> (r: Dict)
        ensures
            r.wf(),
            r@ == Seq::<TrieNode>::empty(),
            r.words() == Set::<Seq<char>>::empty(),
    {
        let r = Dict { root: Vec::new() };
        assert(r@ =~= Seq::<TrieNode>::empty());
        assert(r.words() =~= Set::<Seq<char>>::empty());
        r
    }

    /// Adds the word `value`. An empty `value` is skipped, and a word that is
    /// already there leaves the dictionary as it was.
    pub fn add(&mut self, value: &str)
        requires
            old(self).wf(),
        ensures
            final(self).wf(),
            value@.len() == 0 ==> final(self)@ == old(self)@,
            value@.len() > 0 ==> final(self).words() == old(self).words().insert(value@),
            old(self).words().contains(value@) ==> final(self)@ == old(self)@,
    {
        if value.is_empty() {
            return ;
        }
        add_node(&mut self.root, value);
        assert(final(self).words() =~= old(self).words().insert(value@));
    }

    /// Two dictionaries that hold the same words have the same trie,
    /// whatever order the words were added in, and so do their sealed forms.
    pub proof fn lemma_shape_from_words(d1: Dict, d2: Dict)
        requires
            d1.wf(),
            d2.wf(),
            d1.words() == d2.words(),
        ensures
            d1@ == d2@,
    {
        lemma_same_words_same_trie(d1@, d2@);
    }

    /// The top level of the trie.
    pub fn root(&self) -> (r: &Vec<Node>)
        ensures
            view_nodes(r@) == self@,
    {
        &self.root
    }

    /// Turns the dictionary into its sealed form, which has the same shape.
    pub fn seal(self) -> (r: SizedDict)
        ensures
            r@ == self@,
    {
        SizedDict { root: seal_nodes(&self.root) }
    }
}

// ---------------------------------------------------------------------------
// The sealed trie
/// A node of the sealed trie.
pub struct SizedNode {
    childs: Vec<SizedNode>,
    terminal: bool,
    value: Vec<char>,
}

/// The shape of a list of sealed nodes.
pub closed spec fn view_sized(ns: Seq<SizedNode>) -> Seq<TrieNode> {
    ns.map_values(|n: SizedNode| n.view())
}

impl SizedNode {
    pub closed spec fn view(&self) -> TrieNode
        decreases self,
    {
        TrieNode {
            label: self.value@,
            terminal: self.terminal,
            children: Seq::new(
                self.childs@.len(),
                |i: int|
                    if 0 <= i < self.childs@.len() {
                        self.childs@[i].view()
                    } else {
                        arbitrary()
                    },
            ),
        }
    }
}

impl SizedNode {
    /// The label of the edge that leads to this node.
    pub fn value(&self) -> (r: &Vec<char>)
        ensures
            r@ == self.view().label,
    {
        &self.value
    }

    /// Whether the path that ends here spells a word.
    pub fn terminal(&self) -> (r: bool)
        ensures
            r == self.view().terminal,
    {
        self.terminal
    }

    /// The children of this node, in order.
    pub fn childs(&self) -> (r: &Vec<SizedNode>)
        ensures
            view_sized(r@) == self.view().children,
    {
        proof {
            lemma_sized_children_view(self);
        }
        &self.childs
    }
}

proof fn lemma_sized_children_view(n: &SizedNode)
    ensures
        view_sized(n.childs@) == n.view().children,
{
    assert(view_sized(n.childs@) =~= n.view().children);
}

/// The sealed copy of one node and everything below it.
fn seal_node(node: &Node) -> (r: SizedNode)
    ensures
        r.view() == node.view(),
    decreases node,
{
    let childs = seal_nodes_below(node);
    let r = SizedNode { childs, terminal: node.terminal, value: chars_of(node.value.as_str()) };
    proof {
        lemma_sized_children_view(&r);
        lemma_children_view(node);
        assert(r.view() =~= node.view());
    }
    r
}

/// The sealed copies of the children of `node`.
fn seal_nodes_below(node: &Node) -> (r: Vec<SizedNode>)
    ensures
        view_sized(r@) == view_nodes(node.childs@),
    decreases node, 0nat,
{
    let mut r: Vec<SizedNode> = Vec::new();
    let mut i: usize = 0;
    while i < node.childs.len()
        invariant
            i <= node.childs@.len(),
            view_sized(r@) == view_nodes(node.childs@).take(i as int),
        decreases node.childs@.len() - i,
    {
        assert(decreases_to!(node => node.childs@[i as int]));
        let c = seal_node(&node.childs[i]);
        let ghost prev = r@;
        r.push(c);
        proof {
            assert(view_sized(r@) =~= view_sized(prev).push(c.view()));
            assert(view_nodes(node.childs@).take(i + 1) =~= view_nodes(node.childs@).take(
                i as int,
            ).push(view_nodes(node.childs@)[i as int]));
        }
        i += 1;
    }
    assert(view_nodes(node.childs@).take(i as int) =~= view_nodes(node.childs@));
    r
}

/// The sealed copies of a list of siblings.
fn seal_nodes(nodes: &Vec<Node>) -> (r: Vec<SizedNode>)
    ensures
        view_sized(r@) == view_nodes(nodes@),
{
    let mut r: Vec<SizedNode> = Vec::new();
    let mut i: usize = 0;
    while i < nodes.len()
        invariant
            i <= nodes@.len(),
            view_sized(r@) == view_nodes(nodes@).take(i as int),
        decreases nodes@.len() - i,
    {
        let c = seal_node(&nodes[i]);
        let ghost prev = r@;
        r.push(c);
        proof {
            assert(view_sized(r@) =~= view_sized(prev).push(c.view()));
            assert(view_nodes(nodes@).take(i + 1) =~= view_nodes(nodes@).take(i as int).push(
                view_nodes(nodes@)[i as int],
            ));
        }
        i += 1;
    }
    assert(view_nodes(nodes@).take(i as int) =~= view_nodes(nodes@));
    r
}

/// The read-only dictionary that the tokenizer looks words up in.
pub struct SizedDict {
    root: Vec<SizedNode>,
}

impl View for SizedDict {
    type V = Seq<TrieNode>;

    closed spec fn view(&self) -> Seq<TrieNode> {
        view_sized(self.root@)
    }
}

impl SizedDict {
    /// Same as [`Dict::wf`].
    pub open spec fn wf(&self) -> bool {
        wf_list(self@)
    }

    /// The words that the dictionary holds.
    pub open spec fn words(&self) -> Set<Seq<char>> {
        words_of(self@)
    }

    /// The top level of the trie.
    pub fn root(&self) -> (r: &Vec<SizedNode>)
        ensures
            view_sized(r@) == self@,
    {
        &self.root
    }

    /// Whether `w` is a word of the dictionary.
    pub fn contains(&self, w: &str) -> (r: bool)
        requires
            self.wf(),
        ensures
            r == self.words().contains(w@),
    {
        let t = chars_of(w);
        if t.len() == 0 {
            proof {
                if list_has(self@, w@) {
                    let j = choose|j: int| 0 <= j < self@.len() && node_has(#[trigger] self@[j], w@);
                    assert(wf_node(self@[j]));
                    lemma_has_first_char(self@[j], w@);
                }
            }
            return false;
        }
        let mut ends: Vec<usize> = Vec::new();
        terminals_prefix(&self.root, &t, 0, &mut ends);
        let r = ends.len() > 0 && ends[ends.len() - 1] == t.len();
        proof {
            assert(ends@.subrange(0, ends@.len() as int) =~= ends@);
            assert(t@.subrange(0, t@.len() as int) =~= w@);
            if list_has(self@, w@) {
                assert(word_at(self@, t@, 0, t@.len() as int));
                let a = choose|a: int| 0 <= a < ends@.len() && ends@[a] == t@.len();
                if a < ends@.len() - 1 {
                    assert(ends@[a] < ends@[ends@.len() - 1]);
                    assert(word_at(self@, t@, 0, ends@[ends@.len() - 1] as int));
                }
            }
            if r {
                assert(word_at(self@, t@, 0, ends@[ends@.len() - 1] as int));
            }
        }
        r
    }
}

/// `t[k..e]` is a word of the trie `root`.
pub open spec fn word_at(root: Seq<TrieNode>, t: Seq<char>, k: int, e: int) -> bool {
    0 <= k < e <= t.len() && list_has(root, t.subrange(k, e))
}

/// `s` lists, in increasing order, every `e` such that `t[k..e]` is a word.
pub open spec fn lists_word_ends(root: Seq<TrieNode>, t: Seq<char>, k: int, s: Seq<usize>) -> bool {
    &&& forall|a: int, b: int| 0 <= a < b < s.len() ==> s[a] < s[b]
    &&& forall|a: int| 0 <= a < s.len() ==> word_at(root, t, k, #[trigger] s[a] as int)
    &&& forall|e: int| word_at(root, t, k, e) ==> s.contains(e as usize)
}

/// `label` stands in `text` at `pos`.
fn starts_with_at(text: &Vec<char>, pos: usize, label: &Vec<char>) -> (r: bool)
    requires
        pos <= text@.len(),
    ensures
        r == (pos + label@.len() <= text@.len() && text@.subrange(
            pos as int,
            pos + label@.len(),
        ) == label@),
{
    if label.len() > text.len() - pos {
        return false;
    }
    let n = text.len();
    let mut j: usize = 0;
    while j < label.len()
        invariant
            n == text@.len(),
            pos + label@.len() <= text@.len(),
            j <= label@.len(),
            forall|a: int| 0 <= a < j ==> text@[pos + a] == label@[a],
        decreases label@.len() - j,
    {
        if text[pos + j] != label[j] {
            assert(text@.subrange(pos as int, pos + label@.len())[j as int] != label@[j as int]);
            return false;
        }
        j += 1;
    }
    assert(text@.subrange(pos as int, pos + label@.len()) =~= label@);
    true
}

/// `label` stands in `t` at `pos`.
pub open spec fn label_at(label: Seq<char>, t: Seq<char>, pos: int) -> bool {
    pos + label.len() <= t.len() && t.subrange(pos, pos + label.len()) == label
}

/// The first child among `nodes` whose label stands in `text` at `pos`, if
/// any. Among well-formed siblings it is the only one.
fn childs_matched(nodes: &Vec<SizedNode>, text: &Vec<char>, pos: usize) -> (r: Option<usize>)
    requires
        pos <= text@.len(),
    ensures
        r matches Some(i) ==> i < nodes@.len() && label_at(
            view_sized(nodes@)[i as int].label,
            text@,
            pos as int,
        ) && (forall|j: int|
            0 <= j < i ==> !label_at(view_sized(nodes@)[j].label, text@, pos as int)),
        r matches Some(i) ==> wf_list(view_sized(nodes@)) ==> forall|j: int|
            0 <= j < nodes@.len() && j != i ==> !label_at(
                view_sized(nodes@)[j].label,
                text@,
                pos as int,
            ),
        r is None ==> forall|j: int|
            0 <= j < nodes@.len() ==> !label_at(view_sized(nodes@)[j].label, text@, pos as int),
{
    let mut i: usize = 0;
    while i < nodes.len()
        invariant
            i <= nodes@.len(),
            pos <= text@.len(),
            forall|j: int|
                0 <= j < i ==> !(pos + view_sized(nodes@)[j].label.len() <= text@.len()
                    && text@.subrange(pos as int, pos + view_sized(nodes@)[j].label.len())
                    == view_sized(nodes@)[j].label),
        decreases nodes@.len() - i,
    {
        assert(view_sized(nodes@)[i as int] == nodes@[i as int].view());
        if starts_with_at(text, pos, &nodes[i].value) {
            proof {
                let vs = view_sized(nodes@);
                if wf_list(vs) {
                    assert forall|j: int| 0 <= j < nodes@.len() && j != i implies !label_at(
                        vs[j].label,
                        text@,
                        pos as int,
                    ) by {
                        assert(wf_node(vs[j]));
                        assert(wf_node(vs[i as int]));
                        lemma_wf_unfold(vs[j]);
                        lemma_wf_unfold(vs[i as int]);
                        if label_at(vs[j].label, text@, pos as int) {
                            assert(vs[j].label[0] == text@[pos as int]);
                            assert(vs[i as int].label[0] == text@[pos as int]);
                            if j < i {
                                assert((vs[j].label[0] as u32) < (vs[i as int].label[0] as u32));
                            } else {
                                assert((vs[i as int].label[0] as u32) < (vs[j].label[0] as u32));
                            }
                        }
                    }
                }
            }
            return Some(i);
        }
        i += 1;
    }
    None
}

/// `s` lists, in increasing order, the ends `e <= pos` of the words that
/// begin at `k`.
#[verifier::opaque]
spec fn ends_upto(root: Seq<TrieNode>, t: Seq<char>, k: int, pos: int, s: Seq<usize>) -> bool {
    &&& forall|a: int, b: int| 0 <= a < b < s.len() ==> s[a] < s[b]
    &&& forall|a: int|
        0 <= a < s.len() ==> k < #[trigger] s[a] <= pos && word_at(root, t, k, s[a] as int)
    &&& forall|e: int| k < e <= pos && word_at(root, t, k, e) ==> s.contains(e as usize)
}

/// Past `pos`, the words that begin at `k` end where the words of the level
/// `cv` that begin at `pos` end.
#[verifier::opaque]
spec fn rest_matches(root: Seq<TrieNode>, t: Seq<char>, k: int, pos: int, cv: Seq<TrieNode>) -> bool {
    forall|e: int|
        pos < e <= t.len() ==> (word_at(root, t, k, e) <==> list_has(cv, t.subrange(pos, e)))
}

proof fn lemma_walk_start(root: Seq<TrieNode>, t: Seq<char>, k: int)
    requires
        0 <= k <= t.len(),
    ensures
        ends_upto(root, t, k, k, Seq::empty()),
        rest_matches(root, t, k, k, root),
{
    reveal(ends_upto);
    reveal(rest_matches);
}

/// One step of the walk down the child `cv[i]`, whose label stands in `t` at `pos`.
proof fn lemma_walk_step(
    root: Seq<TrieNode>,
    t: Seq<char>,
    k: int,
    pos: int,
    cv: Seq<TrieNode>,
    i: int,
    s: Seq<usize>,
)
    requires
        0 <= k <= pos,
        wf_list(cv),
        0 <= i < cv.len(),
        pos + cv[i].label.len() <= t.len(),
        t.subrange(pos, pos + cv[i].label.len()) == cv[i].label,
        ends_upto(root, t, k, pos, s),
        rest_matches(root, t, k, pos, cv),
    ensures
        cv[i].label.len() > 0,
        wf_list(cv[i].children),
        rest_matches(root, t, k, pos + cv[i].label.len(), cv[i].children),
        cv[i].terminal ==> pos + cv[i].label.len() <= usize::MAX ==> ends_upto(
            root,
            t,
            k,
            pos + cv[i].label.len(),
            s.push((pos + cv[i].label.len()) as usize),
        ),
        !cv[i].terminal ==> ends_upto(root, t, k, pos + cv[i].label.len(), s),
{
    reveal(ends_upto);
    reveal(rest_matches);
    let c = cv[i];
    let l = c.label.len() as int;
    assert(wf_node(c));
    lemma_wf_unfold(c);
    assert forall|e: int| pos < e <= t.len() implies (list_has(cv, t.subrange(pos, e)) <==> (
    if e < pos + l {
        false
    } else if e == pos + l {
        c.terminal
    } else {
        list_has(c.children, t.subrange(pos + l, e))
    })) by {
        let y = t.subrange(pos, e);
        assert(y[0] == t[pos]);
        assert(t.subrange(pos, pos + l)[0] == t[pos]);
        lemma_list_has_one(cv, i, y);
        lemma_unfold(c, y);
        if e >= pos + l {
            assert(y.subrange(0, l) =~= t.subrange(pos, pos + l));
            assert(y.subrange(l, y.len() as int) =~= t.subrange(pos + l, e));
        }
    }
    if c.terminal && pos + l <= usize::MAX {
        let s2 = s.push((pos + l) as usize);
        assert forall|e: int| k < e <= pos + l && word_at(root, t, k, e) implies s2.contains(
            e as usize,
        ) by {
            if e <= pos {
                let a = choose|a: int| 0 <= a < s.len() && s[a] == e as usize;
                assert(s2[a] == e as usize);
            } else {
                assert(s2[s.len() as int] == e as usize);
            }
        }
    }
    if !c.terminal {
        assert forall|e: int| k < e <= pos + l && word_at(root, t, k, e) implies s.contains(
            e as usize,
        ) by {
            if e > pos {
                assert(e != pos + l);
            }
        }
    }
}

/// The walk stops where no child's label stands in `t` at `pos`.
proof fn lemma_walk_end(root: Seq<TrieNode>, t: Seq<char>, k: int, pos: int, cv: Seq<TrieNode>, s: Seq<usize>)
    requires
        k <= pos <= t.len(),
        ends_upto(root, t, k, pos, s),
        rest_matches(root, t, k, pos, cv),
        forall|j: int|
            0 <= j < cv.len() ==> !(pos + cv[j].label.len() <= t.len() && t.subrange(
                pos,
                pos + cv[j].label.len(),
            ) == cv[j].label),
    ensures
        lists_word_ends(root, t, k, s),
{
    reveal(ends_upto);
    reveal(rest_matches);
    assert forall|e: int| word_at(root, t, k, e) implies s.contains(e as usize) by {
        if e > pos {
            let y = t.subrange(pos, e);
            let j = choose|j: int| 0 <= j < cv.len() && node_has(#[trigger] cv[j], y);
            let l = cv[j].label.len() as int;
            lemma_unfold(cv[j], y);
            assert(y.subrange(0, l) =~= t.subrange(pos, pos + l));
        }
    }
}

/// Appends to `results`, in increasing order, every end position `e` such
/// that `value[offset..e]` is a word of the trie `nodes`.
///
/// The walk descends from `nodes` along the one child whose label stands in
/// `value` at the current position: siblings differ in their first character,
/// so no two of them match at once.
pub fn terminals_prefix(
    nodes: &Vec<SizedNode>,
    value: &Vec<char>,
    offset: usize,
    results: &mut Vec<usize>,
)
    requires
        wf_list(view_sized(nodes@)),
        offset <= value@.len(),
    ensures
        final(results)@.len() >= old(results)@.len(),
        final(results)@.subrange(0, old(results)@.len() as int) == old(results)@,
        lists_word_ends(
            view_sized(nodes@),
            value@,
            offset as int,
            final(results)@.subrange(old(results)@.len() as int, final(results)@.len() as int),
        ),
{
    let ghost root = view_sized(nodes@);
    let ghost t = value@;
    let ghost k = offset as int;
    let ghost start = results@.len() as int;
    let ghost old_results = results@;
    let n = value.len();
    let mut cur: &Vec<SizedNode> = nodes;
    let mut pos = offset;
    proof {
        lemma_walk_start(root, t, k);
        assert(results@.subrange(start, results@.len() as int) =~= Seq::<usize>::empty());
    }
    loop
        invariant
            t == value@,
            root == view_sized(nodes@),
            k == offset as int,
            n == value@.len(),
            start == old_results.len(),
            offset <= pos <= value@.len(),
            wf_list(view_sized(cur@)),
            results@.len() >= start,
            results@.subrange(0, start) == old_results,
            ends_upto(root, t, k, pos as int, results@.subrange(start, results@.len() as int)),
            rest_matches(root, t, k, pos as int, view_sized(cur@)),
        ensures
            results@.len() >= start,
            results@.subrange(0, start) == old_results,
            lists_word_ends(root, t, k, results@.subrange(start, results@.len() as int)),
        decreases value@.len() - pos,
    {
        let ghost cv = view_sized(cur@);
        let ghost s = results@.subrange(start, results@.len() as int);
        match childs_matched(cur, value, pos) {
            None => {
                proof {
                    lemma_walk_end(root, t, k, pos as int, cv, s);
                }
                break ;
            },
            Some(i) => {
                let child = &cur[i];
                proof {
                    lemma_walk_step(root, t, k, pos as int, cv, i as int, s);
                    assert(child.view() == cv[i as int]);
                    lemma_sized_children_view(child);
                }
                assert(pos + child.value@.len() <= n);
                let new_pos = pos + child.value.len();
                if child.terminal {
                    let ghost prev = results@;
                    results.push(new_pos);
                    proof {
                        assert(results@.subrange(0, start) =~= prev.subrange(0, start));
                        assert(results@.subrange(start, results@.len() as int) =~= s.push(new_pos));
                    }
                }
                cur = &child.childs;
                pos = new_pos;
            },
        }
    }
}

/// A word of the trie is found whole when the text is the word itself: the
/// ends that the query lists from the start include its length.
pub proof fn lemma_whole_word_found(root: Seq<TrieNode>, w: Seq<char>, s: Seq<usize>)
    requires
        wf_list(root),
        words_of(root).contains(w),
        lists_word_ends(root, w, 0, s),
    ensures
        s.contains(w.len() as usize),
{
    let j = choose|j: int| 0 <= j < root.len() && node_has(#[trigger] root[j], w);
    assert(wf_node(root[j]));
    lemma_has_first_char(root[j], w);
    assert(w.subrange(0, w.len() as int) =~= w);
    assert(word_at(root, w, 0, w.len() as int));
}

} // verus!
