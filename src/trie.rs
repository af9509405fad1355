//! A trie of keywords stored in reverse: the path from the root spells a
//! keyword from its last character to its first, and the node where that
//! path ends is terminal.

use vstd::prelude::*;

verus! {

/// The last `k` characters of `s`.
pub open spec fn suffix(s: Seq<char>, k: int) -> Seq<char> {
    s.subrange(s.len() - k, s.len() as int)
}

/// The last `k` characters of `s`, newest first.
pub open spec fn rev_take(s: Seq<char>, k: int) -> Seq<char> {
    Seq::new(k as nat, |i: int| s[s.len() - 1 - i])
}

/// `p` is a prefix of `r`.
pub open spec fn is_prefix(p: Seq<char>, r: Seq<char>) -> bool {
    p.len() <= r.len() && p == r.subrange(0, p.len() as int)
}

/// The first `n` characters of `w`, last first.
pub open spec fn rev_prefix(w: Seq<char>, n: int) -> Seq<char> {
    w.subrange(0, n).reverse()
}

proof fn lemma_rev_prefix_step(w: Seq<char>, n: int)
    requires
        0 < n <= w.len(),
    ensures
        rev_prefix(w, n) == seq![w[n - 1]] + rev_prefix(w, n - 1),
        rev_prefix(w, n).len() == n,
{
    assert(rev_prefix(w, n) =~= seq![w[n - 1]] + rev_prefix(w, n - 1));
}

proof fn lemma_split_first(p: Seq<char>, r: Seq<char>)
    requires
        p.len() > 0,
        r.len() > 0,
    ensures
        (p == r) == (p[0] == r[0] && p.drop_first() == r.drop_first()),
        is_prefix(p, r) == (p[0] == r[0] && is_prefix(p.drop_first(), r.drop_first())),
{
    if p[0] == r[0] && p.drop_first() == r.drop_first() {
        assert(p =~= seq![p[0]] + p.drop_first());
        assert(r =~= seq![r[0]] + r.drop_first());
    }
    if p[0] == r[0] && is_prefix(p.drop_first(), r.drop_first()) {
        assert forall|i: int| 0 <= i < p.len() implies p[i] == r[i] by {
            if i > 0 {
                assert(p[i] == p.drop_first()[i - 1]);
                assert(r[i] == r.drop_first()[i - 1]);
            }
        }
        assert(p =~= r.subrange(0, p.len() as int));
    }
    if is_prefix(p, r) {
        assert(p.drop_first() =~= r.drop_first().subrange(0, p.drop_first().len() as int));
    }
}

/// The first index at or after `i` among `children` whose edge is labelled
/// `c`, or -1 if there is none.
pub open spec fn find_from(children: Seq<(char, Trie)>, c: char, i: int) -> int
    decreases children.len() - i,
{
    if i < 0 || i >= children.len() {
        -1
    } else if children[i].0 == c {
        i
    } else {
        find_from(children, c, i + 1)
    }
}

proof fn lemma_find_same_keys(s1: Seq<(char, Trie)>, s2: Seq<(char, Trie)>, c: char, i: int)
    requires
        s1.len() == s2.len(),
        forall|j: int| 0 <= j < s1.len() ==> s1[j].0 == s2[j].0,
    ensures
        find_from(s1, c, i) == find_from(s2, c, i),
    decreases s1.len() - i,
{
    if 0 <= i < s1.len() {
        lemma_find_same_keys(s1, s2, c, i + 1);
    }
}

proof fn lemma_find_push(s: Seq<(char, Trie)>, x: (char, Trie), c: char, i: int)
    requires
        0 <= i <= s.len(),
    ensures
        find_from(s.push(x), c, i) == if find_from(s, c, i) >= 0 {
            find_from(s, c, i)
        } else if x.0 == c {
            s.len() as int
        } else {
            -1
        },
    decreases s.len() - i,
{
    if i < s.len() {
        assert(s.push(x)[i] == s[i]);
        lemma_find_push(s, x, c, i + 1);
    } else {
        assert(s.push(x)[i] == x);
        assert(find_from(s.push(x), c, i + 1) == -1);
    }
}

proof fn lemma_find_none(s: Seq<(char, Trie)>, c: char, i: int)
    requires
        0 <= i,
        find_from(s, c, i) == -1,
    ensures
        forall|j: int| i <= j < s.len() ==> s[j].0 != c,
    decreases s.len() - i,
{
    if i < s.len() {
        lemma_find_none(s, c, i + 1);
    }
}

proof fn lemma_find_range(s: Seq<(char, Trie)>, c: char, i: int)
    ensures
        find_from(s, c, i) == -1 || (i <= find_from(s, c, i) < s.len() && s[find_from(s, c, i)].0
            == c),
    decreases s.len() - i,
{
    if 0 <= i < s.len() {
        lemma_find_range(s, c, i + 1);
    }
}

pub proof fn lemma_suffix_reverse(s: Seq<char>, k: int)
    requires
        0 <= k <= s.len(),
    ensures
        suffix(s, k).reverse() == rev_take(s, k),
{
    assert(suffix(s, k).reverse() =~= rev_take(s, k));
}

/// The characters of `s`, in order.
fn chars_of(s: &str) -> (r: Vec<char>)
    ensures
        r@ == s@,
{
    let mut v: Vec<char> = Vec::new();
    for ch in it: s.chars()
        invariant
            v@ == it.seq().take(it.index() as int),
    {
        v.push(ch);
        assert(v@ =~= it.seq().take(it.index() as int + 1));
    }
    assert(v@ =~= s@);
    v
}

/// A trie node: whether a keyword ends here, and the children by the
/// character on their edge.
pub struct Trie {
    is_leaf: bool,
    children: Vec<(char, Trie)>,
}

/// `node` is where the walk from `root` over the `j` newest characters of
/// `text` arrived, and no terminal node was passed on the way.
pub open spec fn walked(root: Trie, node: Trie, text: Seq<char>, j: int) -> bool {
    &&& 0 <= j <= text.len()
    &&& forall|p: Seq<char>| #[trigger] node.subtrie(p) == root.subtrie(rev_take(text, j) + p)
    &&& forall|k: int| 1 <= k <= j ==> !#[trigger] root.terminal(rev_take(text, k))
}

proof fn lemma_rev_take_split(text: Seq<char>, j: int, k: int)
    requires
        0 <= j < k <= text.len(),
    ensures
        rev_take(text, k) == rev_take(text, j) + (seq![text[text.len() - 1 - j]] + rev_take(
            text,
            k,
        ).subrange(j + 1, k)),
        rev_take(text, j + 1) == rev_take(text, j).push(text[text.len() - 1 - j]),
{
    assert(rev_take(text, k) =~= rev_take(text, j) + (seq![text[text.len() - 1 - j]] + rev_take(
        text,
        k,
    ).subrange(j + 1, k)));
    assert(rev_take(text, j + 1) =~= rev_take(text, j).push(text[text.len() - 1 - j]));
}

/// The walk starts at the root with nothing read.
pub proof fn lemma_walk_start(root: Trie, text: Seq<char>)
    ensures
        walked(root, root, text, 0),
{
    assert forall|p: Seq<char>| #[trigger] root.subtrie(p) == root.subtrie(rev_take(text, 0) + p) by {
        assert(rev_take(text, 0) + p =~= p);
    }
}

/// One more character read, over the edge to `t`, which is not terminal.
pub proof fn lemma_walk_step(root: Trie, node: Trie, t: Trie, text: Seq<char>, j: int)
    requires
        walked(root, node, text, j),
        j < text.len(),
        forall|p: Seq<char>| #[trigger]
            t.subtrie(p) == node.subtrie(seq![text[text.len() - 1 - j]] + p),
        !t.terminal(Seq::empty()),
    ensures
        walked(root, t, text, j + 1),
{
    let c = text[text.len() - 1 - j];
    lemma_rev_take_split(text, j, j + 1);
    assert forall|p: Seq<char>| #[trigger] t.subtrie(p) == root.subtrie(rev_take(text, j + 1) + p) by {
        assert(rev_take(text, j) + (seq![c] + p) =~= rev_take(text, j + 1) + p);
    }
    assert(t.subtrie(Seq::empty()) == root.subtrie(rev_take(text, j + 1) + Seq::empty()));
    assert(rev_take(text, j + 1) + Seq::<char>::empty() =~= rev_take(text, j + 1));
}

/// The edge read last leads to a terminal node: a keyword ends the text.
pub proof fn lemma_walk_hit(root: Trie, node: Trie, t: Trie, text: Seq<char>, j: int)
    requires
        walked(root, node, text, j),
        j < text.len(),
        forall|p: Seq<char>| #[trigger]
            t.subtrie(p) == node.subtrie(seq![text[text.len() - 1 - j]] + p),
        t.terminal(Seq::empty()),
    ensures
        root.matches_tail(text),
{
    let c = text[text.len() - 1 - j];
    lemma_rev_take_split(text, j, j + 1);
    assert(t.subtrie(Seq::empty()) == node.subtrie(seq![c] + Seq::empty()));
    assert(seq![c] + Seq::<char>::empty() =~= seq![c]);
    assert(rev_take(text, j) + seq![c] =~= rev_take(text, j + 1));
    lemma_suffix_reverse(text, j + 1);
    assert(root.has_key(suffix(text, j + 1)));
}

/// The character read next leads nowhere, or the whole text was read: no
/// keyword ends the text.
pub proof fn lemma_walk_miss(root: Trie, node: Trie, text: Seq<char>, j: int)
    requires
        walked(root, node, text, j),
        j == text.len() || forall|p: Seq<char>| #[trigger]
            node.subtrie(seq![text[text.len() - 1 - j]] + p) is None,
    ensures
        !root.matches_tail(text),
{
    assert forall|k: int| 1 <= k <= text.len() implies !#[trigger] root.has_key(suffix(text, k)) by {
        lemma_suffix_reverse(text, k);
        if k > j {
            lemma_rev_take_split(text, j, k);
            let rest = rev_take(text, k).subrange(j + 1, k);
            assert(node.subtrie(seq![text[text.len() - 1 - j]] + rest) is None);
        }
    }
}

/// A walk cannot go deeper than the trie.
pub proof fn lemma_walk_depth(root: Trie, node: Trie, text: Seq<char>, j: int, d: nat, p: Seq<char>)
    requires
        walked(root, node, text, j),
        root.depth_le(d),
        node.subtrie(p) is Some,
    ensures
        j + p.len() <= d,
{
    assert(root.has_path(rev_take(text, j) + p));
}

/// A trie whose one keyword is `key` matches exactly the texts that end
/// with `key`.
pub proof fn lemma_single_keyword(t: Trie, key: Seq<char>, text: Seq<char>)
    requires
        key.len() > 0,
        forall|w: Seq<char>| #[trigger] t.has_key(w) == (w == key),
    ensures
        t.matches_tail(text) == (key.len() <= text.len() && suffix(text, key.len() as int) == key),
{
    if key.len() <= text.len() && suffix(text, key.len() as int) == key {
        assert(t.has_key(suffix(text, key.len() as int)));
    }
}

/// The node, if there is one, has distinct edge characters.
pub open spec fn edges_ok(node: Option<Trie>) -> bool {
    match node {
        Some(t) => t.distinct_edges(),
        None => true,
    }
}

impl Trie {
    /// The node that the path `p` leads to from this node, if any. A child is
    /// reached through the first edge with its character.
    pub closed spec fn subtrie(&self, p: Seq<char>) -> Option<Trie>
        decreases p.len(),
    {
        if p.len() == 0 {
            Some(*self)
        } else {
            let k = find_from(self.children@, p[0], 0);
            if k < 0 {
                None
            } else {
                self.children@[k].1.subtrie(p.drop_first())
            }
        }
    }

    /// No two children of this node have the same character on their edge.
    pub closed spec fn distinct_edges(&self) -> bool {
        forall|i: int, j: int|
            0 <= i < j < self.children@.len() ==> self.children@[i].0 != self.children@[j].0
    }

    /// Every node reachable from this one has distinct edge characters, and
    /// so every child is reached through its own character.
    pub open spec fn wf(&self) -> bool {
        forall|p: Seq<char>| edges_ok(#[trigger] self.subtrie(p))
    }

    /// The path `p` leads from this node to some node.
    pub open spec fn has_path(&self, p: Seq<char>) -> bool {
        self.subtrie(p) is Some
    }

    /// The path `p` leads from this node to a terminal node.
    pub closed spec fn terminal(&self, p: Seq<char>) -> bool {
        match self.subtrie(p) {
            Some(t) => t.is_leaf,
            None => false,
        }
    }

    /// No path from this node is longer than `d`.
    pub open spec fn depth_le(&self, d: nat) -> bool {
        forall|p: Seq<char>| #[trigger] self.has_path(p) ==> p.len() <= d
    }

    /// `w` is a stored keyword: its reverse leads to a terminal node.
    pub open spec fn has_key(&self, w: Seq<char>) -> bool {
        self.terminal(w.reverse())
    }

    /// Some nonempty tail of `text` is a stored keyword.
    pub open spec fn matches_tail(&self, text: Seq<char>) -> bool {
        exists|k: int| 1 <= k <= text.len() && #[trigger] self.has_key(suffix(text, k))
    }

    /// A trie with no keyword.
    pub fn new() -> (r: Self)
        ensures
            r.wf(),
            forall|p: Seq<char>| #[trigger] r.terminal(p) == false,
            forall|p: Seq<char>| #[trigger] r.has_path(p) == (p.len() == 0),
    {
        let r = Trie { is_leaf: false, children: Vec::new() };
        assert forall|p: Seq<char>| #[trigger] r.has_path(p) == (p.len() == 0) by {
            if p.len() > 0 {
                assert(find_from(r.children@, p[0], 0) == -1);
            }
        }
        assert forall|p: Seq<char>| #[trigger] r.terminal(p) == false by {
            if p.len() > 0 {
                assert(find_from(r.children@, p[0], 0) == -1);
            }
        }
        assert forall|p: Seq<char>| edges_ok(#[trigger] r.subtrie(p)) by {
            if p.len() > 0 {
                assert(find_from(r.children@, p[0], 0) == -1);
            }
        }
        r
    }

    /// Whether a keyword ends at this node.
    pub fn is_terminal(&self) -> (r: bool)
        ensures
            r == self.terminal(Seq::empty()),
    {
        self.is_leaf
    }

    fn find(&self, c: char) -> (r: Option<usize>)
        ensures
            match r {
                Some(k) => k < self.children@.len() && k as int == find_from(self.children@, c, 0),
                None => find_from(self.children@, c, 0) == -1,
            },
    {
        let mut i: usize = 0;
        while i < self.children.len()
            invariant
                i <= self.children@.len(),
                find_from(self.children@, c, 0) == find_from(self.children@, c, i as int),
            decreases self.children@.len() - i,
        {
            if self.children[i].0 == c {
                return Some(i);
            }
            i += 1;
        }
        None
    }

    /// Stores the path `rev_prefix(w@, n)` below this node and marks its
    /// end terminal.
    fn insert_path(&mut self, w: &Vec<char>, n: usize)
        requires
            n <= w@.len(),
            old(self).wf(),
        ensures
            final(self).wf(),
            forall|p: Seq<char>| #[trigger]
                final(self).terminal(p) == (old(self).terminal(p) || p == rev_prefix(
                    w@,
                    n as int,
                )),
            forall|p: Seq<char>| #[trigger]
                final(self).has_path(p) == (old(self).has_path(p) || is_prefix(
                    p,
                    rev_prefix(w@, n as int),
                )),
        decreases n,
    {
        if n == 0 {
            self.is_leaf = true;
            proof {
                assert(rev_prefix(w@, 0) =~= Seq::<char>::empty());
                assert forall|p: Seq<char>| #[trigger]
                    self.terminal(p) == (old(self).terminal(p) || p == rev_prefix(w@, n as int)) by {
                    if p.len() > 0 {
                        assert(self.subtrie(p) == old(self).subtrie(p));
                    } else {
                        assert(p =~= Seq::<char>::empty());
                    }
                }
                assert forall|p: Seq<char>| #[trigger]
                    self.has_path(p) == (old(self).has_path(p) || is_prefix(
                        p,
                        rev_prefix(w@, n as int),
                    )) by {
                    if p.len() > 0 {
                        assert(self.subtrie(p) == old(self).subtrie(p));
                    }
                }
                assert forall|p: Seq<char>| edges_ok(#[trigger] self.subtrie(p)) by {
                    if p.len() > 0 {
                        assert(self.subtrie(p) == old(self).subtrie(p));
                    } else {
                        assert(p =~= Seq::<char>::empty());
                        assert(old(self).subtrie(p) == Some(*old(self)));
                    }
                }
            }
            return;
        }
        let c = w[n - 1];
        let k: usize = match self.find(c) {
            Some(k) => k,
            None => {
                self.children.push((c, Trie::new()));
                self.children.len() - 1
            },
        };
        let ghost mid = *self;
        proof {
            lemma_rev_prefix_step(w@, n as int);
            assert forall|p: Seq<char>| #[trigger]
                mid.terminal(p) == old(self).terminal(p) && (mid.has_path(p) == old(self).has_path(
                    p,
                ) || (p.len() == 1 && p[0] == c)) by {
                if p.len() > 0 && mid.children@ != old(self).children@ {
                    assert(mid.children@ =~= old(self).children@.push(mid.children@[k as int]));
                    lemma_find_push(old(self).children@, mid.children@[k as int], p[0], 0);
                    lemma_find_range(old(self).children@, p[0], 0);
                    if p[0] == c {
                        let e = mid.children@[k as int].1;
                        assert(e.terminal(p.drop_first()) == false);
                        assert(e.has_path(p.drop_first()) == (p.drop_first().len() == 0));
                    } else {
                        let j = find_from(old(self).children@, p[0], 0);
                        if j >= 0 {
                            assert(mid.children@[j] == old(self).children@[j]);
                        }
                    }
                }
            }
            if mid.children@ != old(self).children@ {
                assert(mid.children@ =~= old(self).children@.push(mid.children@[k as int]));
                lemma_find_push(old(self).children@, mid.children@[k as int], c, 0);
            }
            assert(find_from(mid.children@, c, 0) == k);
            assert(mid.children@[k as int].0 == c) by {
                lemma_find_range(mid.children@, c, 0);
            }
            assert(old(self).subtrie(Seq::empty()) == Some(*old(self)));
            let e0 = mid.children@[k as int].1;
            assert forall|q: Seq<char>| edges_ok(#[trigger] e0.subtrie(q)) by {
                if mid.children@ == old(self).children@ {
                    assert((seq![c] + q).drop_first() =~= q);
                    assert(old(self).subtrie(seq![c] + q) == e0.subtrie(q));
                }
            }
            assert forall|p: Seq<char>|
                p.len() > 0 && p[0] != c implies #[trigger] mid.subtrie(p) == old(self).subtrie(p) by {
                if mid.children@ != old(self).children@ {
                    assert(mid.children@ =~= old(self).children@.push(mid.children@[k as int]));
                    lemma_find_push(old(self).children@, mid.children@[k as int], p[0], 0);
                    lemma_find_range(old(self).children@, p[0], 0);
                    let j = find_from(old(self).children@, p[0], 0);
                    if j >= 0 {
                        assert(mid.children@[j] == old(self).children@[j]);
                    }
                }
            }
            assert(mid.distinct_edges()) by {
                if mid.children@ != old(self).children@ {
                    lemma_find_none(old(self).children@, c, 0);
                    assert(mid.children@ =~= old(self).children@.push(mid.children@[k as int]));
                    assert forall|a: int, b: int|
                        0 <= a < b < mid.children@.len() implies mid.children@[a].0
                        != mid.children@[b].0 by {
                        if b == k {
                            assert(old(self).children@[a].0 != c);
                        } else {
                            assert(old(self).children@[a] == mid.children@[a]);
                            assert(old(self).children@[b] == mid.children@[b]);
                        }
                    }
                }
            }
        }
        self.children[k].1.insert_path(w, n - 1);
        proof {
            let e1 = self.children@[k as int].1;
            assert(self.children@ == mid.children@.update(k as int, (c, e1)));
            assert(self.is_leaf == mid.is_leaf);
            assert(self.distinct_edges()) by {
                assert forall|a: int, b: int|
                    0 <= a < b < self.children@.len() implies self.children@[a].0
                    != self.children@[b].0 by {
                    assert(mid.children@[a].0 != mid.children@[b].0);
                }
            }
            assert forall|p: Seq<char>| edges_ok(#[trigger] self.subtrie(p)) by {
                if p.len() == 0 {
                    assert(p =~= Seq::<char>::empty());
                } else {
                    lemma_find_same_keys(self.children@, mid.children@, p[0], 0);
                    lemma_find_range(mid.children@, p[0], 0);
                    if p[0] == c {
                        assert(self.subtrie(p) == e1.subtrie(p.drop_first()));
                    } else {
                        assert(self.subtrie(p) == mid.subtrie(p));
                        assert(mid.subtrie(p) == old(self).subtrie(p));
                    }
                }
            }
        }
        proof {
            let r = rev_prefix(w@, n as int);
            let e0 = mid.children@[k as int].1;
            let e1 = self.children@[k as int].1;
            assert(r.drop_first() =~= rev_prefix(w@, n - 1));
            assert(r[0] == c);
            assert(r.len() > 0);
            assert(self.is_leaf == mid.is_leaf);
            assert(self.children@ == mid.children@.update(k as int, (c, e1)));
            assert forall|p: Seq<char>|
                p.len() > 0 implies #[trigger] self.subtrie(p) == if p[0] == c {
                e1.subtrie(p.drop_first())
            } else {
                mid.subtrie(p)
            } by {
                lemma_find_same_keys(self.children@, mid.children@, p[0], 0);
                lemma_find_range(mid.children@, p[0], 0);
            }
            assert forall|p: Seq<char>| #[trigger]
                self.terminal(p) == (old(self).terminal(p) || p == r) by {
                if p.len() > 0 {
                    lemma_split_first(p, r);
                    assert(mid.subtrie(p) == if p[0] == c {
                        e0.subtrie(p.drop_first())
                    } else {
                        mid.subtrie(p)
                    });
                    assert(mid.terminal(p) == old(self).terminal(p));
                    if p[0] == c {
                        assert(e1.terminal(p.drop_first()) == (e0.terminal(p.drop_first())
                            || p.drop_first() == rev_prefix(w@, n - 1)));
                    }
                } else {
                    assert(p =~= Seq::<char>::empty());
                    assert(mid.terminal(p) == old(self).terminal(p));
                }
            }
            assert forall|p: Seq<char>| #[trigger]
                self.has_path(p) == (old(self).has_path(p) || is_prefix(p, r)) by {
                if p.len() > 0 {
                    lemma_split_first(p, r);
                    assert(mid.terminal(p) == old(self).terminal(p));
                    assert(mid.has_path(p) == old(self).has_path(p) || (p.len() == 1 && p[0]
                        == c));
                    if p[0] == c {
                        assert(e1.has_path(p.drop_first()) == (e0.has_path(p.drop_first())
                            || is_prefix(p.drop_first(), rev_prefix(w@, n - 1))));
                        if p.len() == 1 {
                            assert(p.drop_first() =~= rev_prefix(w@, n - 1).subrange(0, 0));
                            assert(is_prefix(p.drop_first(), rev_prefix(w@, n - 1)));
                        }
                    }
                } else {
                    assert(p =~= r.subrange(0, 0));
                    assert(is_prefix(p, r));
                }
            }
        }
    }

    /// Stores `key` as a keyword.
    pub fn insert_str(&mut self, key: &str)
        requires
            old(self).wf(),
        ensures
            final(self).wf(),
            forall|w: Seq<char>| #[trigger]
                final(self).has_key(w) == (old(self).has_key(w) || w == key@),
            forall|p: Seq<char>| #[trigger]
                final(self).has_path(p) == (old(self).has_path(p) || is_prefix(p, key@.reverse())),
    {
        let v = chars_of(key);
        self.insert_path(&v, v.len());
        proof {
            assert(v@.subrange(0, v@.len() as int) =~= key@);
            assert forall|w: Seq<char>| #[trigger]
                self.has_key(w) == (old(self).has_key(w) || w == key@) by {
                if w.reverse() == key@.reverse() {
                    assert(w.reverse().reverse() =~= w);
                    assert(key@.reverse().reverse() =~= key@);
                }
            }
        }
    }

    /// Stores `key` as a keyword.
    pub fn insert(&mut self, key: String)
        requires
            old(self).wf(),
        ensures
            final(self).wf(),
            forall|w: Seq<char>| #[trigger]
                final(self).has_key(w) == (old(self).has_key(w) || w == key@),
            forall|p: Seq<char>| #[trigger]
                final(self).has_path(p) == (old(self).has_path(p) || is_prefix(p, key@.reverse())),
    {
        self.insert_str(key.as_str());
    }

    /// Whether some nonempty tail of `key` is a stored keyword. The walk
    /// reads `key` from its end and stops at the first terminal node or the
    /// first missing edge.
    pub fn query_str(&self, key: &str) -> (r: bool)
        ensures
            r == self.matches_tail(key@),
    {
        let v = chars_of(key);
        let mut i: usize = v.len();
        let mut node = self;
        proof {
            lemma_walk_start(*self, v@);
        }
        while i > 0
            invariant
                i <= v@.len(),
                v@ == key@,
                walked(*self, *node, v@, v@.len() - i),
            decreases i,
        {
            i -= 1;
            let c = v[i];
            match node.child(c) {
                Some(t) => {
                    if t.is_terminal() {
                        proof {
                            lemma_walk_hit(*self, *node, *t, v@, v@.len() - i - 1);
                        }
                        return true;
                    }
                    proof {
                        lemma_walk_step(*self, *node, *t, v@, v@.len() - i - 1);
                    }
                    node = t;
                },
                None => {
                    proof {
                        lemma_walk_miss(*self, *node, v@, v@.len() - i - 1);
                    }
                    return false;
                },
            }
        }
        proof {
            lemma_walk_miss(*self, *node, v@, v@.len() as int);
        }
        false
    }

    /// Whether some nonempty tail of `key` is a stored keyword.
    pub fn query(&self, key: String) -> (r: bool)
        ensures
            r == self.matches_tail(key@),
    {
        self.query_str(key.as_str())
    }

    /// The node reached from this one over an edge labelled `c`.
    pub fn child(&self, c: char) -> (r: Option<&Trie>)
        ensures
            match r {
                Some(t) => {
                    &&& forall|p: Seq<char>| #[trigger] t.subtrie(p) == self.subtrie(seq![c] + p)
                    &&& self.subtrie(seq![c]) == Some(*t)
                },
                None => forall|p: Seq<char>| #[trigger] self.subtrie(seq![c] + p) is None,
            },
    {
        match self.find(c) {
            Some(k) => {
                let t = &self.children[k].1;
                assert forall|p: Seq<char>| #[trigger] t.subtrie(p) == self.subtrie(seq![c] + p) by {
                    assert((seq![c] + p).drop_first() =~= p);
                }
                assert(seq![c].drop_first() =~= Seq::<char>::empty());
                assert(seq![c][0] == c);
                assert(t.subtrie(Seq::empty()) == Some(*t));
                assert(self.subtrie(seq![c]) == t.subtrie(seq![c].drop_first()));
                Some(t)
            },
            None => None,
        }
    }
}

impl Default for Trie {
    /// A trie with no keyword.
    fn default() -> (r: Self)
        ensures
            r.wf(),
            forall|p: Seq<char>| #[trigger] r.terminal(p) == false,
            forall|p: Seq<char>| #[trigger] r.has_path(p) == (p.len() == 0),
    {
        Trie::new()
    }
}

} // verus!
