//! The detector: a history buffer sized to the longest keyword, and a trie
//! of the keywords in reverse, walked backwards from the newest character.

use vstd::prelude::*;
use crate::ring::{
    BLANK, RingBuffer, rounded_capacity, lemma_rounded_capacity_unique, DEFAULT_CAPACITY,
};
use crate::trie::{
    Trie, suffix, is_prefix, walked, lemma_walk_start, lemma_walk_step, lemma_walk_hit, lemma_walk_miss,
    lemma_walk_depth,
};

verus! {

/// The length of the longest of `keys`, 0 if there is none.
pub open spec fn longest(keys: Seq<Seq<char>>) -> nat
    decreases keys.len(),
{
    if keys.len() == 0 {
        0
    } else {
        let rest = longest(keys.drop_last());
        if keys.last().len() > rest {
            keys.last().len()
        } else {
            rest
        }
    }
}

/// The keywords held by a list of strings.
pub open spec fn key_seqs(keys: Seq<String>) -> Seq<Seq<char>> {
    keys.map_values(|s: String| s@)
}

/// The slot that holds the character written `k` insertions before the last
/// one, for a buffer of `cap` slots whose write position is `pos`.
pub open spec fn slot_back(pos: int, k: int, cap: int) -> int {
    if k < pos {
        pos - 1 - k
    } else {
        pos - 1 - k + cap
    }
}

/// A detector of keywords at the end of a character stream.
pub struct StreamAlerter {
    ring: RingBuffer,
    trie: Trie,
    history: Ghost<Seq<char>>,
}

impl StreamAlerter {
    /// The stream so far, after as many blanks as the buffer has slots: the
    /// blanks are what a fresh buffer holds.
    pub closed spec fn history(&self) -> Seq<char> {
        self.history@
    }

    /// The keywords, stored in reverse.
    pub closed spec fn keywords(&self) -> Trie {
        self.trie
    }

    /// The number of characters of history kept.
    pub closed spec fn capacity(&self) -> nat {
        self.ring.capacity()
    }

    /// `w` is a nonempty keyword of this detector.
    pub open spec fn is_keyword(&self, w: Seq<char>) -> bool {
        w.len() > 0 && self.keywords().has_key(w)
    }

    /// This detector holds exactly the nonempty strings of `keys`.
    pub open spec fn built_from(&self, keys: Seq<Seq<char>>) -> bool {
        forall|w: Seq<char>| #[trigger]
            self.is_keyword(w) == (w.len() > 0 && keys.contains(w))
    }

    /// The trie holds exactly `keys`: the empty string included when it is
    /// listed, and as paths exactly the prefixes of the reversed keys.
    pub open spec fn stores_exactly(&self, keys: Seq<Seq<char>>) -> bool {
        &&& forall|w: Seq<char>| #[trigger] self.keywords().has_key(w) == keys.contains(w)
        &&& forall|p: Seq<char>| #[trigger]
            self.keywords().has_path(p) == (p.len() == 0 || exists|j: int|
                0 <= j < keys.len() && is_prefix(p, (#[trigger] keys[j]).reverse()))
    }

    /// This detector is what `new` returns for `keys`: it stores exactly
    /// them, its buffer is the longest of them rounded up to a power of two,
    /// and it has read nothing yet.
    pub open spec fn fresh_from(&self, keys: Seq<Seq<char>>) -> bool {
        &&& self.built_from(keys)
        &&& self.stores_exactly(keys)
        &&& rounded_capacity(longest(keys), self.capacity())
        &&& self.history() == Seq::new(self.capacity(), |_i: int| BLANK)
    }

    /// The buffer holds the newest `capacity` characters of the history, the
    /// newest one in the slot before the write position, and no path of the
    /// trie is longer than the buffer.
    pub closed spec fn wf(&self) -> bool {
        &&& self.ring.wf()
        &&& self.trie.wf()
        &&& self.trie.depth_le(self.ring.capacity())
        &&& self.history@.len() >= self.ring.capacity()
        &&& forall|k: int|
            0 <= k < self.ring.capacity() ==> self.ring.slots()[slot_back(
                self.ring.write_pos() as int,
                k,
                self.ring.capacity() as int,
            )] == #[trigger] self.history@[self.history@.len() - 1 - k]
    }

    /// A detector for the strings of `keys`; its buffer holds as many
    /// characters as the longest of them, rounded up to a power of two. The
    /// bound on a key's length keeps that buffer within the address space.
    pub fn new(keys: Vec<String>) -> (r: Self)
        requires
            forall|i: int| 0 <= i < keys.len() ==> (#[trigger] keys@[i])@.len() <= usize::MAX / 4,
        ensures
            r.wf(),
            r.fresh_from(key_seqs(keys@)),
    {
        let ghost ks = key_seqs(keys@);
        let mut trie = Trie::new();
        let mut max_len: usize = 0;
        let mut i: usize = 0;
        proof {
            assert(ks.take(0) =~= Seq::<Seq<char>>::empty());
        }
        while i < keys.len()
            invariant
                ks == key_seqs(keys@),
                i <= keys.len(),
                forall|i: int| 0 <= i < keys.len() ==> (#[trigger] keys@[i])@.len() <= usize::MAX / 4,
                max_len == longest(ks.take(i as int)),
                max_len <= usize::MAX / 4,
                trie.wf(),
                trie.depth_le(max_len as nat),
                forall|w: Seq<char>| #[trigger] trie.has_key(w) == ks.take(i as int).contains(w),
                forall|p: Seq<char>| #[trigger]
                    trie.has_path(p) == (p.len() == 0 || exists|j: int|
                        0 <= j < i && is_prefix(p, (#[trigger] ks[j]).reverse())),
            decreases keys.len() - i,
        {
            let key = &keys[i];
            let n = key.as_str().unicode_len();
            let ghost old_trie = trie;
            let ghost old_max = max_len;
            if n > max_len {
                max_len = n;
            }
            trie.insert_str(key.as_str());
            proof {
                let t0 = ks.take(i as int);
                let t1 = ks.take(i + 1);
                assert(ks[i as int] == keys@[i as int]@);
                assert(t1 =~= t0.push(keys@[i as int]@));
                assert(t1.drop_last() =~= t0);
                assert forall|w: Seq<char>| #[trigger] trie.has_key(w) == t1.contains(w) by {
                    if t1.contains(w) {
                        let j = choose|j: int| 0 <= j < t1.len() && t1[j] == w;
                        if j < i {
                            assert(t0[j] == w);
                        }
                    }
                    if t0.contains(w) {
                        let j = choose|j: int| 0 <= j < t0.len() && t0[j] == w;
                        assert(t1[j] == w);
                    }
                    if w == keys@[i as int]@ {
                        assert(t1[i as int] == w);
                    }
                }
                assert forall|p: Seq<char>| #[trigger]
                    trie.has_path(p) == (p.len() == 0 || exists|j: int|
                        0 <= j < i + 1 && is_prefix(p, (#[trigger] ks[j]).reverse())) by {
                    if exists|j: int| 0 <= j < i + 1 && is_prefix(p, (#[trigger] ks[j]).reverse()) {
                        let j = choose|j: int|
                            0 <= j < i + 1 && is_prefix(p, (#[trigger] ks[j]).reverse());
                        if j == i {
                            assert(is_prefix(p, keys@[i as int]@.reverse()));
                        }
                    }
                    if is_prefix(p, keys@[i as int]@.reverse()) {
                        assert(is_prefix(p, ks[i as int].reverse()));
                    }
                }
                assert forall|p: Seq<char>| #[trigger] trie.has_path(p) implies p.len()
                    <= max_len by {
                    if old_trie.has_path(p) {
                    } else {
                        assert(keys@[i as int]@.reverse().len() == keys@[i as int]@.len());
                    }
                }
            }
            i += 1;
        }
        let ring = RingBuffer::new(max_len);
        proof {
            assert(ks.take(keys.len() as int) =~= ks);
            assert(ks.len() == keys.len());
        }
        let r = StreamAlerter {
            ring,
            trie,
            history: Ghost(Seq::new(ring.capacity(), |_i: int| BLANK)),
        };
        r
    }

    /// Takes the next character of the stream and tells whether a keyword
    /// ends with it.
    pub fn query(&mut self, ch: char) -> (r: bool)
        requires
            old(self).wf(),
        ensures
            final(self).wf(),
            final(self).keywords() == old(self).keywords(),
            final(self).capacity() == old(self).capacity(),
            final(self).history() == old(self).history().push(ch),
            r == old(self).keywords().matches_tail(final(self).history()),
    {
        let ghost pos0 = self.ring.write_pos() as int;
        self.ring.insert(ch);
        self.history = Ghost(self.history@.push(ch));
        let ghost cap = self.ring.capacity() as int;
        let ghost pos = self.ring.write_pos() as int;
        let ghost h = self.history@;
        proof {
            assert forall|k: int| 0 <= k < cap implies self.ring.slots()[slot_back(pos, k, cap)]
                == #[trigger] h[h.len() - 1 - k] by {
                if k > 0 {
                    assert(slot_back(pos, k, cap) == slot_back(pos0, k - 1, cap));
                    assert(h[h.len() - 1 - k] == old(self).history@[old(self).history@.len() - 1 - (k - 1)]);
                }
            }
            lemma_walk_start(self.trie, h);
        }
        let mut node = &self.trie;
        let mut cursor = self.ring.cursor();
        let ghost mut j: int = 0;
        loop
            invariant
                self.wf(),
                self.trie == old(self).trie,
                self.ring.capacity() == cap,
                cap == old(self).ring.capacity(),
                h.len() > cap,
                self.ring.write_pos() == pos,
                self.history@ == h,
                h == old(self).history@.push(ch),
                walked(self.trie, *node, h, j),
                0 <= j <= cap,
                cursor.wf(),
                cursor.capacity() == cap,
                cursor.position() == slot_back(pos, j - 1, cap),
            decreases cap - j,
        {
            let idx = cursor.next();
            let c = self.ring.get(idx);
            proof {
                if j < cap {
                    assert(idx == slot_back(pos, j, cap));
                    assert(c == h[h.len() - 1 - j]);
                }
            }
            match node.child(c) {
                Some(t) => {
                    proof {
                        lemma_walk_depth(self.trie, *node, h, j, cap as nat, seq![c]);
                    }
                    if t.is_terminal() {
                        proof {
                            lemma_walk_hit(self.trie, *node, *t, h, j);
                        }
                        return true;
                    }
                    proof {
                        lemma_walk_step(self.trie, *node, *t, h, j);
                        j = j + 1;
                    }
                    node = t;
                },
                None => {
                    proof {
                        assert forall|p: Seq<char>| #[trigger]
                            node.subtrie(seq![h[h.len() - 1 - j]] + p) is None by {
                            if node.subtrie(seq![h[h.len() - 1 - j]] + p) is Some {
                                lemma_walk_depth(
                                    self.trie,
                                    *node,
                                    h,
                                    j,
                                    cap as nat,
                                    seq![h[h.len() - 1 - j]] + p,
                                );
                                assert(node.subtrie(seq![c] + p) is None);
                            }
                        }
                        lemma_walk_miss(self.trie, *node, h, j);
                    }
                    return false;
                },
            }
        }
    }
}

impl Default for StreamAlerter {
    /// A detector with no keyword and `DEFAULT_CAPACITY` characters of
    /// history.
    fn default() -> (r: Self)
        ensures
            r.wf(),
            r.built_from(Seq::empty()),
            r.capacity() == DEFAULT_CAPACITY,
            r.history() == Seq::new(r.capacity(), |_i: int| BLANK),
    {
        let ring = RingBuffer::default();
        let trie = Trie::default();
        let r = StreamAlerter {
            ring,
            trie,
            history: Ghost(Seq::new(ring.capacity(), |_i: int| BLANK)),
        };
        proof {
            assert forall|p: Seq<char>| #[trigger] r.trie.has_path(p) implies p.len()
                <= DEFAULT_CAPACITY by {}
            assert forall|w: Seq<char>| #[trigger]
                r.is_keyword(w) == (w.len() > 0 && Seq::<Seq<char>>::empty().contains(w)) by {
                assert(!r.trie.terminal(w.reverse()));
            }
        }
        r
    }
}

proof fn lemma_longest_bounds(keys: Seq<Seq<char>>)
    ensures
        forall|i: int| 0 <= i < keys.len() ==> (#[trigger] keys[i]).len() <= longest(keys),
        keys.len() == 0 || exists|i: int| 0 <= i < keys.len() && (#[trigger] keys[i]).len() == longest(keys),
    decreases keys.len(),
{
    if keys.len() > 0 {
        let rest = keys.drop_last();
        lemma_longest_bounds(rest);
        assert forall|i: int| 0 <= i < keys.len() implies (#[trigger] keys[i]).len() <= longest(
            keys,
        ) by {
            if i < rest.len() {
                assert(rest[i] == keys[i]);
            }
        }
        if keys.last().len() > longest(rest) || rest.len() == 0 {
            assert(keys[keys.len() - 1].len() == longest(keys));
        } else {
            let j = choose|j: int| 0 <= j < rest.len() && rest[j].len() == longest(rest);
            assert(keys[j] == rest[j]);
        }
    }
}

/// A detector built from an empty list never raises an alarm, whatever it
/// is fed.
pub proof fn lemma_no_keywords_no_alarm(a: StreamAlerter, text: Seq<char>)
    requires
        a.built_from(Seq::empty()),
    ensures
        !a.keywords().matches_tail(text),
{
    assert forall|k: int| 1 <= k <= text.len() implies !#[trigger] a.keywords().has_key(
        suffix(text, k),
    ) by {
        assert(a.is_keyword(suffix(text, k)) == (suffix(text, k).len() > 0 && Seq::<
            Seq<char>,
        >::empty().contains(suffix(text, k))));
    }
}

/// Storing the empty string as a keyword changes no answer: only nonempty
/// tails are ever matched.
pub proof fn lemma_empty_keyword_harmless(before: Trie, after: Trie, text: Seq<char>)
    requires
        forall|w: Seq<char>| #[trigger] after.has_key(w) == (before.has_key(w) || w == Seq::<
            char,
        >::empty()),
    ensures
        after.matches_tail(text) == before.matches_tail(text),
{
    assert forall|k: int| 1 <= k <= text.len() implies #[trigger] after.has_key(suffix(text, k))
        == before.has_key(suffix(text, k)) by {
        assert(suffix(text, k).len() > 0);
    }
    if after.matches_tail(text) {
        let k = choose|k: int| 1 <= k <= text.len() && #[trigger] after.has_key(suffix(text, k));
        assert(before.has_key(suffix(text, k)));
    }
    if before.matches_tail(text) {
        let k = choose|k: int| 1 <= k <= text.len() && #[trigger] before.has_key(suffix(text, k));
        assert(after.has_key(suffix(text, k)));
    }
}

/// Two detectors built from lists that hold the same strings, in any order
/// and with any repetition, store the same keywords and the same paths,
/// start from the same history, and raise the same alarms on every stream.
pub proof fn lemma_construction_order(
    a: Seq<Seq<char>>,
    b: Seq<Seq<char>>,
    x: StreamAlerter,
    y: StreamAlerter,
    text: Seq<char>,
)
    requires
        forall|w: Seq<char>| a.contains(w) == b.contains(w),
        x.fresh_from(a),
        y.fresh_from(b),
    ensures
        forall|w: Seq<char>| #[trigger] x.keywords().has_key(w) == y.keywords().has_key(w),
        forall|p: Seq<char>| #[trigger] x.keywords().has_path(p) == y.keywords().has_path(p),
        x.capacity() == y.capacity(),
        x.history() == y.history(),
        x.keywords().matches_tail(text) == y.keywords().matches_tail(text),
{
    lemma_longest_bounds(a);
    lemma_longest_bounds(b);
    if a.len() > 0 {
        let i = choose|i: int| 0 <= i < a.len() && a[i].len() == longest(a);
        assert(a.contains(a[i]));
        assert(b.contains(a[i]));
    } else if b.len() > 0 {
        assert(b.contains(b[0]));
        assert(a.contains(b[0]));
    }
    if b.len() > 0 {
        let i = choose|i: int| 0 <= i < b.len() && b[i].len() == longest(b);
        assert(b.contains(b[i]));
        assert(a.contains(b[i]));
    }
    assert forall|p: Seq<char>| #[trigger] x.keywords().has_path(p) == y.keywords().has_path(p) by {
        if exists|j: int| 0 <= j < a.len() && is_prefix(p, (#[trigger] a[j]).reverse()) {
            let j = choose|j: int| 0 <= j < a.len() && is_prefix(p, (#[trigger] a[j]).reverse());
            assert(a.contains(a[j]));
            let i = choose|i: int| 0 <= i < b.len() && b[i] == a[j];
            assert(is_prefix(p, b[i].reverse()));
        }
        if exists|j: int| 0 <= j < b.len() && is_prefix(p, (#[trigger] b[j]).reverse()) {
            let j = choose|j: int| 0 <= j < b.len() && is_prefix(p, (#[trigger] b[j]).reverse());
            assert(b.contains(b[j]));
            let i = choose|i: int| 0 <= i < a.len() && a[i] == b[j];
            assert(is_prefix(p, a[i].reverse()));
        }
    }
    assert(longest(a) == longest(b));
    lemma_rounded_capacity_unique(longest(a), x.capacity(), y.capacity());
    assert(x.history() =~= y.history());
    assert forall|k: int| 1 <= k <= text.len() implies #[trigger] x.keywords().has_key(
        suffix(text, k),
    ) == y.keywords().has_key(suffix(text, k)) by {
        assert(x.is_keyword(suffix(text, k)) == y.is_keyword(suffix(text, k)));
    }
    if x.keywords().matches_tail(text) {
        let k = choose|k: int|
            1 <= k <= text.len() && #[trigger] x.keywords().has_key(suffix(text, k));
        assert(y.keywords().has_key(suffix(text, k)));
    }
    if y.keywords().matches_tail(text) {
        let k = choose|k: int|
            1 <= k <= text.len() && #[trigger] y.keywords().has_key(suffix(text, k));
        assert(x.keywords().has_key(suffix(text, k)));
    }
}

/// In a detector built from `keys`, every node other than the root that
/// has no child ends a keyword.
pub proof fn lemma_childless_nodes_terminal(x: StreamAlerter, keys: Seq<Seq<char>>, p: Seq<char>)
    requires
        x.stores_exactly(keys),
        p.len() > 0,
        x.keywords().has_path(p),
        forall|c: char| !#[trigger] x.keywords().has_path(p.push(c)),
    ensures
        x.keywords().has_key(p.reverse()),
{
    let j = choose|j: int| 0 <= j < keys.len() && is_prefix(p, (#[trigger] keys[j]).reverse());
    let r = keys[j].reverse();
    if p.len() < r.len() {
        let q = p.push(r[p.len() as int]);
        assert(q =~= r.subrange(0, q.len() as int));
        assert(is_prefix(q, keys[j].reverse()));
        assert(x.keywords().has_path(q));
    }
    assert(p =~= r);
    assert(r.reverse() =~= keys[j]);
    assert(keys.contains(keys[j]));
}

} // verus!
