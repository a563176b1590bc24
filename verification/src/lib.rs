use vstd::prelude::*;

verus! {

/// Spec: `c` is one of the 26 lowercase Latin letters.
pub open spec fn lowercase(c: char) -> bool {
    'a' as int <= c as int && c as int <= 'z' as int
}

/// Spec: every character of `w` is a lowercase Latin letter.
pub open spec fn lowercase_word(w: Seq<char>) -> bool {
    forall|i: int| 0 <= i < w.len() ==> lowercase(#[trigger] w[i])
}

/// The child slot that letter `c` occupies: 0 for 'a' up to 25 for 'z'.
pub open spec fn slot_of(c: char) -> int {
    c as int - 'a' as int
}

/// One node of the prefix tree: a slot per letter, each either empty or
/// owning the subtree of words that continue with that letter, and a flag
/// marking whether an inserted word ends here.
pub struct TrieNode {
    children: Vec<Option<Box<TrieNode>>>,
    is_end_of_word: bool,
}

impl TrieNode {
    /// Every node carries exactly 26 child slots, recursively.
    pub closed spec fn wf(self) -> bool
        decreases self,
    {
        &&& self.children@.len() == 26
        &&& forall|i: int|
            0 <= i < 26 ==> (#[trigger] self.children@[i] matches Some(c) ==> c.wf())
    }

    /// Spec: the word `w` was inserted into the subtree rooted at this node,
    /// i.e. following the child links for the letters of `w` reaches a node
    /// whose end-of-word flag is set. Words with characters outside 'a'..='z'
    /// are never stored.
    pub closed spec fn contains_word(self, w: Seq<char>) -> bool
        decreases w.len(),
    {
        if w.len() == 0 {
            self.is_end_of_word
        } else if !lowercase(w[0]) {
            false
        } else {
            match self.children@[slot_of(w[0])] {
                Some(c) => c.contains_word(w.drop_first()),
                None => false,
            }
        }
    }

    /// Spec: the path spelled by `p` exists in the subtree rooted at this
    /// node. The empty path always exists.
    pub closed spec fn has_path(self, p: Seq<char>) -> bool
        decreases p.len(),
    {
        if p.len() == 0 {
            true
        } else if !lowercase(p[0]) {
            false
        } else {
            match self.children@[slot_of(p[0])] {
                Some(c) => c.has_path(p.drop_first()),
                None => false,
            }
        }
    }

    /// Returns a fresh node: all child slots empty, end-of-word flag unset.
    /// No word is stored in it and no non-empty path exists in it.
    fn leaf() -> (node: TrieNode)
        ensures
            node.wf(),
            forall|w: Seq<char>| !node.contains_word(w),
            forall|p: Seq<char>| node.has_path(p) <==> p.len() == 0,
    {
        let mut children: Vec<Option<Box<TrieNode>>> = Vec::new();
        let mut k: usize = 0;
        while k < 26
            invariant
                k <= 26,
                children@.len() == k,
                forall|i: int| 0 <= i < k ==> children@[i] is None,
            decreases 26 - k,
        {
            children.push(None);
            k = k + 1;
        }
        let node = TrieNode { children, is_end_of_word: false };
        proof {
            assert forall|w: Seq<char>| !node.contains_word(w) by {
                if w.len() > 0 && lowercase(w[0]) {
                    assert(node.children@[slot_of(w[0])] is None);
                }
            }
            assert forall|p: Seq<char>| node.has_path(p) implies p.len() == 0 by {
                if p.len() > 0 && lowercase(p[0]) {
                    assert(node.children@[slot_of(p[0])] is None);
                }
            }
        }
        node
    }

    /// Marks the suffix of `word` that starts at character position `i` as a
    /// stored word below this node, creating child nodes as needed. Nothing
    /// else changes: the stored words gain exactly that suffix, and the paths
    /// gain exactly its prefixes.
    #[verifier::rlimit(50)]
    fn insert_at(&mut self, word: &str, n: usize, i: usize)
        requires
            old(self).wf(),
            lowercase_word(word@),
            n == word@.len(),
            i <= n,
        ensures
            final(self).wf(),
            forall|w: Seq<char>|
                final(self).contains_word(w) <==> (old(self).contains_word(w) || w == word@.skip(
                    i as int,
                )),
            forall|p: Seq<char>|
                final(self).has_path(p) <==> (old(self).has_path(p) || p.is_prefix_of(
                    word@.skip(i as int),
                )),
        decreases n - i, 0int,
    {
        if i == n {
            self.is_end_of_word = true;
            proof {
                let e = word@.skip(i as int);
                assert(e =~= Seq::<char>::empty());
                assert forall|w: Seq<char>| #![trigger old(self).contains_word(w)]
                    self.contains_word(w) <==> (old(self).contains_word(w) || w == e) by {
                    if w.len() == 0 {
                        assert(w =~= e);
                        assert(self.contains_word(w));
                    }
                }
                assert forall|p: Seq<char>| #![trigger old(self).has_path(p)]
                    self.has_path(p) <==> (old(self).has_path(p) || p.is_prefix_of(e)) by {
                    if p.len() == 0 {
                        assert(self.has_path(p));
                        assert(old(self).has_path(p));
                    } else {
                        assert(!p.is_prefix_of(e));
                        if lowercase(p[0]) {
                            assert(self.children@[slot_of(p[0])] == old(self).children@[slot_of(
                                p[0],
                            )]);
                            assert(self.has_path(p) == old(self).has_path(p));
                        }
                    }
                }
            }
            return;
        }
        let b = word.get_ascii(i);
        let slot_idx = (b - 97) as usize;
        proof {
            let e = word@.skip(i as int);
            assert(e[0] == word@[i as int]);
            assert(lowercase(e[0]));
            assert(slot_idx == slot_of(e[0]));
        }
        TrieNode::insert_slot(&mut self.children[slot_idx], word, n, i + 1);
        proof {
            let e = word@.skip(i as int);
            let tail = word@.skip(i as int + 1);
            assert(e.drop_first() =~= tail);
            let olds = old(self).children@[slot_idx as int];
            assert(self.children@ == old(self).children@.update(
                slot_idx as int,
                self.children@[slot_idx as int],
            ));
            let ns = self.children@[slot_idx as int];
            assert(ns is Some);
            assert forall|w: Seq<char>| #![trigger old(self).contains_word(w)]
                self.contains_word(w) <==> (old(self).contains_word(w) || w == e) by {
                if w.len() == 0 {
                    assert(w != e);
                } else if !lowercase(w[0]) {
                    assert(w != e);
                } else if slot_of(w[0]) != slot_idx as int {
                    assert(w != e);
                    assert(self.children@[slot_of(w[0])] == old(self).children@[slot_of(
                        w[0],
                    )]);
                    assert(self.contains_word(w) == old(self).contains_word(w));
                } else {
                    assert(w[0] == e[0]);
                    lemma_head_tail_eq(w, e);
                    assert(self.children@[slot_of(w[0])] == ns);
                    assert(self.contains_word(w) == ns.unwrap().contains_word(
                        w.drop_first(),
                    ));
                    assert(old(self).contains_word(w) == ((olds matches Some(c)
                        && c.contains_word(w.drop_first()))));
                    assert(ns.unwrap().contains_word(w.drop_first()) <==> ((olds matches Some(
                        c,
                    ) && c.contains_word(w.drop_first())) || w.drop_first() == tail));
                    assert(e.drop_first() == tail);
                    assert((w == e) <==> (w[0] == e[0] && w.drop_first() == e.drop_first()));
                }
            }
            assert forall|p: Seq<char>| #![trigger old(self).has_path(p)]
                self.has_path(p) <==> (old(self).has_path(p) || p.is_prefix_of(e)) by {
                if p.len() == 0 {
                } else if !lowercase(p[0]) {
                    assert(!p.is_prefix_of(e));
                } else if slot_of(p[0]) != slot_idx as int {
                    assert(!p.is_prefix_of(e));
                    assert(self.children@[slot_of(p[0])] == old(self).children@[slot_of(
                        p[0],
                    )]);
                } else {
                    assert(p[0] == e[0]);
                    lemma_prefix_step(p, e);
                    assert(self.children@[slot_of(p[0])] == ns);
                    assert(self.has_path(p) == ns.unwrap().has_path(p.drop_first()));
                    assert(old(self).has_path(p) == ((olds matches Some(c) && c.has_path(
                        p.drop_first(),
                    ))));
                    assert(ns.unwrap().has_path(p.drop_first()) <==> ((olds matches Some(c)
                        && c.has_path(p.drop_first())) || p.drop_first().is_prefix_of(tail)));
                    assert(e.drop_first() == tail);
                }
            }
        }
    }

    /// Stores the suffix of `word` that starts at position `i` in the subtree
    /// hanging off the given child slot, allocating the child first when the
    /// slot is empty.
    fn insert_slot(slot: &mut Option<Box<TrieNode>>, word: &str, n: usize, i: usize)
        requires
            (*old(slot)) matches Some(c) ==> c.wf(),
            lowercase_word(word@),
            n == word@.len(),
            i <= n,
        ensures
            (*final(slot)) is Some,
            (*final(slot)).unwrap().wf(),
            forall|w: Seq<char>|
                (*final(slot)).unwrap().contains_word(w) <==> (((*old(slot)) matches Some(c)
                    && c.contains_word(w)) || w == word@.skip(i as int)),
            forall|p: Seq<char>|
                (*final(slot)).unwrap().has_path(p) <==> (((*old(slot)) matches Some(c) && c.has_path(p))
                    || p.is_prefix_of(word@.skip(i as int))),
        decreases n - i, 1int,
    {
        match slot.take() {
            None => {
                let mut node = TrieNode::leaf();
                node.insert_at(word, n, i);
                *slot = Some(Box::new(node));
                proof {
                    let e = word@.skip(i as int);
                    assert(Seq::<char>::empty().is_prefix_of(e));
                }
            },
            Some(mut boxed) => {
                (&mut *boxed).insert_at(word, n, i);
                *slot = Some(boxed);
            },
        }
    }

    /// Walks the tree along `word` starting at character position `i` and
    /// reports whether the remaining suffix is stored below this node.
    fn search_at(&self, word: &str, n: usize, i: usize) -> (found: bool)
        requires
            self.wf(),
            lowercase_word(word@),
            n == word@.len(),
            i <= n,
        ensures
            found == self.contains_word(word@.skip(i as int)),
        decreases n - i,
    {
        if i == n {
            proof {
                assert(word@.skip(i as int) =~= Seq::<char>::empty());
            }
            self.is_end_of_word
        } else {
            let b = word.get_ascii(i);
            let slot = (b - 97) as usize;
            proof {
                let w = word@.skip(i as int);
                assert(w[0] == word@[i as int]);
                assert(lowercase(w[0]));
                assert(slot == slot_of(w[0]));
                assert(w.drop_first() =~= word@.skip(i as int + 1));
            }
            match &self.children[slot] {
                None => false,
                Some(c) => c.search_at(word, n, i + 1),
            }
        }
    }

    /// Walks the tree along `word` starting at character position `i` and
    /// reports whether the path spelled by the remaining suffix exists below
    /// this node.
    fn path_at(&self, word: &str, n: usize, i: usize) -> (present: bool)
        requires
            self.wf(),
            lowercase_word(word@),
            n == word@.len(),
            i <= n,
        ensures
            present == self.has_path(word@.skip(i as int)),
        decreases n - i,
    {
        if i == n {
            proof {
                assert(word@.skip(i as int) =~= Seq::<char>::empty());
            }
            true
        } else {
            let b = word.get_ascii(i);
            let slot = (b - 97) as usize;
            proof {
                let p = word@.skip(i as int);
                assert(p[0] == word@[i as int]);
                assert(lowercase(p[0]));
                assert(slot == slot_of(p[0]));
                assert(p.drop_first() =~= word@.skip(i as int + 1));
            }
            match &self.children[slot] {
                None => false,
                Some(c) => c.path_at(word, n, i + 1),
            }
        }
    }
}

/// Whenever a word is stored below a node, every prefix of that word exists
/// as a path below the same node.
proof fn lemma_contains_implies_path(node: TrieNode, w: Seq<char>, p: Seq<char>)
    requires
        node.contains_word(w),
        p.is_prefix_of(w),
    ensures
        node.has_path(p),
    decreases p.len(),
{
    if p.len() > 0 {
        assert(w.len() >= p.len());
        assert(p == w.subrange(0, p.len() as int));
        assert(p[0] == w[0]);
        lemma_prefix_step(p, w);
        let c = node.children@[slot_of(w[0])].unwrap();
        lemma_contains_implies_path(*c, w.drop_first(), p.drop_first());
    }
}

/// Two non-empty sequences are equal exactly when their heads agree and their
/// tails agree.
proof fn lemma_head_tail_eq(a: Seq<char>, b: Seq<char>)
    requires
        a.len() > 0,
        b.len() > 0,
    ensures
        (a == b) <==> (a[0] == b[0] && a.drop_first() == b.drop_first()),
{
    if a[0] == b[0] && a.drop_first() == b.drop_first() {
        assert(a.drop_first().len() == a.len() - 1);
        assert(b.drop_first().len() == b.len() - 1);
        assert(a.len() == b.len());
        assert forall|k: int| 0 <= k < a.len() implies a[k] == b[k] by {
            if k > 0 {
                assert(a.drop_first()[k - 1] == a[k]);
                assert(b.drop_first()[k - 1] == b[k]);
            }
        }
        assert(a =~= b);
    }
    if a == b {
        assert(a.drop_first() =~= b.drop_first());
    }
}

/// A non-empty sequence is a prefix of another exactly when their heads agree
/// and its tail is a prefix of the other's tail.
proof fn lemma_prefix_step(p: Seq<char>, e: Seq<char>)
    requires
        p.len() > 0,
        e.len() > 0,
    ensures
        p.is_prefix_of(e) <==> (p[0] == e[0] && p.drop_first().is_prefix_of(e.drop_first())),
{
    if p[0] == e[0] && p.drop_first().is_prefix_of(e.drop_first()) {
        assert(p.drop_first() == e.drop_first().subrange(0, p.len() - 1));
        assert forall|k: int| 0 <= k < p.len() implies p[k] == e.subrange(0, p.len() as int)[k] by {
            if k > 0 {
                assert(p.drop_first()[k - 1] == p[k]);
                assert(e.drop_first().subrange(0, p.len() - 1)[k - 1] == e[k]);
            }
        }
        assert(p =~= e.subrange(0, p.len() as int));
    }
    if p.is_prefix_of(e) {
        assert(p == e.subrange(0, p.len() as int));
        assert(p[0] == e[0]);
        assert forall|k: int|
            0 <= k < p.len() - 1 implies p.drop_first()[k] == e.drop_first().subrange(
            0,
            p.len() - 1,
        )[k] by {
            assert(p.drop_first()[k] == p[k + 1]);
            assert(e.drop_first().subrange(0, p.len() - 1)[k] == e[k + 1]);
        }
        assert(p.drop_first() =~= e.drop_first().subrange(0, p.len() - 1));
    }
}

/// A prefix tree over lowercase-alphabet words, supporting insertion,
/// exact-word lookup and prefix-existence lookup.
///
/// The alphabet is fixed at the 26 lowercase Latin letters: every operation
/// demands `lowercase_word` of its input, so a word holding any other
/// character is rejected before the tree is touched. Callers that receive
/// words at run time can test them with [`is_lowercase_word`]. The empty word
/// is allowed: inserting it marks the root, and the empty prefix is present
/// in every trie.
pub struct Trie {
    root: TrieNode,
}

impl View for Trie {
    type V = Set<Seq<char>>;

    /// A trie is abstractly the set of words that were inserted into it.
    closed spec fn view(&self) -> Set<Seq<char>> {
        Set::new(|w: Seq<char>| self.root.contains_word(w))
    }
}

impl Trie {
    /// Well-formed: the tree structure is sound, and every non-empty path in
    /// the tree leads to at least one stored word (paths are created only by
    /// insertion, so none dangles).
    pub closed spec fn wf(self) -> bool {
        &&& self.root.wf()
        &&& forall|p: Seq<char>|
            #[trigger] self.root.has_path(p) && p.len() > 0 ==> exists|w: Seq<char>|
                self.root.contains_word(w) && p.is_prefix_of(w)
    }

    /// Spec: some stored word has `p` as a prefix, or `p` is empty. This is
    /// exactly what a prefix query reports.
    pub open spec fn spec_starts_with(self, p: Seq<char>) -> bool {
        p.len() == 0 || exists|w: Seq<char>| self@.contains(w) && p.is_prefix_of(w)
    }

    /// Returns the empty trie: no words are stored in it.
    pub fn new() -> (t: Self)
        ensures
            t.wf(),
            t@ == Set::<Seq<char>>::empty(),
    {
        let root = TrieNode::leaf();
        proof {
            assert(Set::new(|w: Seq<char>| root.contains_word(w)) =~= Set::<Seq<char>>::empty());
        }
        Trie { root }
    }

    /// Adds `word` to the stored set. Shared prefixes reuse existing nodes;
    /// re-inserting a stored word changes nothing.
    pub fn insert(&mut self, word: &str)
        requires
            old(self).wf(),
            lowercase_word(word@),
        ensures
            final(self).wf(),
            final(self)@ == old(self)@.insert(word@),
    {
        let n = word.unicode_len();
        proof {
            assert(word@.skip(0) =~= word@);
        }
        self.root.insert_at(word, n, 0);
        proof {
            assert(Set::new(|w: Seq<char>| self.root.contains_word(w)) =~= Set::new(
                |w: Seq<char>| old(self).root.contains_word(w),
            ).insert(word@));
            assert forall|p: Seq<char>| #[trigger]
                self.root.has_path(p) && p.len() > 0 implies exists|w: Seq<char>|
                self.root.contains_word(w) && p.is_prefix_of(w) by {
                if old(self).root.has_path(p) {
                    let w0 = choose|w: Seq<char>|
                        old(self).root.contains_word(w) && p.is_prefix_of(w);
                    assert(self.root.contains_word(w0) && p.is_prefix_of(w0));
                } else {
                    assert(p.is_prefix_of(word@));
                    assert(self.root.contains_word(word@));
                }
            }
        }
    }

    /// Reports whether exactly `word` was inserted earlier (a stored word of
    /// which `word` is merely a prefix does not count).
    pub fn search(&self, word: &str) -> (found: bool)
        requires
            self.wf(),
            lowercase_word(word@),
        ensures
            found == self@.contains(word@),
    {
        let n = word.unicode_len();
        proof {
            assert(word@.skip(0) =~= word@);
        }
        self.root.search_at(word, n, 0)
    }

    /// Reports whether some stored word begins with `prefix`. The empty
    /// prefix is reported present unconditionally, even in an empty trie.
    pub fn starts_with(&self, prefix: &str) -> (present: bool)
        requires
            self.wf(),
            lowercase_word(prefix@),
        ensures
            present == self.spec_starts_with(prefix@),
    {
        if prefix.is_empty() {
            return true;
        }
        let n = prefix.unicode_len();
        proof {
            assert(prefix@.skip(0) =~= prefix@);
        }
        let present = self.root.path_at(prefix, n, 0);
        proof {
            if present {
                assert(self.root.has_path(prefix@));
            } else {
                if exists|w: Seq<char>| self@.contains(w) && prefix@.is_prefix_of(w) {
                    let w0 = choose|w: Seq<char>| self@.contains(w) && prefix@.is_prefix_of(w);
                    lemma_contains_implies_path(self.root, w0, prefix@);
                }
            }
        }
        present
    }
}

/// Law: a word is in the stored set right after it is inserted, and a stored
/// word stays stored across any later insertion. Together with the contracts
/// of `insert` and `search`, a word searched after its insertion is found,
/// whatever else was inserted in between.
pub proof fn lemma_insert_then_search(t: Trie, w: Seq<char>, u: Seq<char>)
    ensures
        t@.insert(w).contains(w),
        t@.contains(w) ==> t@.insert(u).contains(w),
{
}

/// Law: a word that was never inserted is not found: the empty trie stores
/// nothing, and inserting one word adds no other word to the stored set.
pub proof fn lemma_search_misses_absent(t: Trie, w: Seq<char>, u: Seq<char>)
    ensures
        !Set::<Seq<char>>::empty().contains(w),
        !t@.contains(w) && w != u ==> !t@.insert(u).contains(w),
{
}

/// Law: a failed prefix cannot be extended into a successful one: if no
/// stored word starts with `p`, none starts with `p` followed by `c`.
pub proof fn lemma_starts_with_monotone(t: Trie, p: Seq<char>, c: char)
    ensures
        !t.spec_starts_with(p) ==> !t.spec_starts_with(p.push(c)),
{
    if !t.spec_starts_with(p) && t.spec_starts_with(p.push(c)) {
        let q = p.push(c);
        let w0 = choose|w: Seq<char>| t@.contains(w) && q.is_prefix_of(w);
        assert(q == w0.subrange(0, q.len() as int));
        assert forall|k: int| 0 <= k < p.len() implies p[k] == w0.subrange(
            0,
            p.len() as int,
        )[k] by {
            assert(q[k] == p[k]);
            assert(q[k] == w0[k]);
        }
        assert(p =~= w0.subrange(0, p.len() as int));
        assert(p.is_prefix_of(w0));
    }
}

/// Law: an exact hit implies a prefix hit: a stored word starts with itself,
/// so whenever `search` answers true, `starts_with` answers true as well.
pub proof fn lemma_search_implies_starts_with(t: Trie, w: Seq<char>)
    ensures
        t@.contains(w) ==> t.spec_starts_with(w),
{
    if t@.contains(w) {
        assert(w =~= w.subrange(0, w.len() as int));
        assert(w.is_prefix_of(w));
    }
}

/// Law: the empty prefix is present in every trie, the empty one included.
pub proof fn lemma_empty_prefix(t: Trie)
    ensures
        t.spec_starts_with(Seq::<char>::empty()),
{
}

/// Law: inserting a word twice stores the same set of words as inserting it
/// once, so every later `search` or `starts_with` answers alike.
pub proof fn lemma_insert_idempotent(t: Trie, w: Seq<char>)
    ensures
        t@.insert(w).insert(w) == t@.insert(w),
{
    assert(t@.insert(w).insert(w) =~= t@.insert(w));
}

/// Reports whether every character of `word` is a lowercase Latin letter,
/// i.e. whether `word` lies in the alphabet the trie accepts.
pub fn is_lowercase_word(word: &str) -> (ok: bool)
    ensures
        ok == lowercase_word(word@),
{
    let n = word.unicode_len();
    let mut i: usize = 0;
    while i < n
        invariant
            i <= n,
            n == word@.len(),
            forall|j: int| 0 <= j < i ==> lowercase(#[trigger] word@[j]),
        decreases n - i,
    {
        let c = word.get_char(i);
        let u = c as u32;
        if u < 97 || u > 122 {
            proof {
                assert(!lowercase(word@[i as int]));
            }
            return false;
        }
        i = i + 1;
    }
    true
}

} // verus!
