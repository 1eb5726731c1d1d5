use vstd::prelude::*;

use crate::push_char;

verus! {

/// Number of letters in the alphabet the dictionary is spelled in.
pub const ALPHABET_SIZE: usize = 26;

/// True iff `c` is one of the lowercase letters `a` to `z`.
pub open spec fn is_lower(c: char) -> bool {
    'a' <= c && c <= 'z'
}

/// Slot of a lowercase letter among a node's children.
pub open spec fn slot_of(c: char) -> int {
    c as int - 'a' as int
}

/// True iff every character of `w` is a lowercase letter.
pub open spec fn is_lower_word(w: Seq<char>) -> bool {
    forall|i: int| 0 <= i < w.len() ==> is_lower(#[trigger] w[i])
}

/// One node of a prefix tree over the lowercase alphabet.
pub struct TrieNode {
    terminal: bool,
    children: Vec<Option<Box<TrieNode>>>,
}

impl TrieNode {
    /// The subtree reached from this node by the letter `c`, if any.
    pub closed spec fn child_spec(&self, c: char) -> Option<TrieNode> {
        if is_lower(c) && slot_of(c) < self.children@.len() {
            match self.children@[slot_of(c)] {
                Some(b) => Some(*b),
                None => None,
            }
        } else {
            None
        }
    }

    /// The node reached from this one by spelling `w`, if every step exists.
    pub open spec fn descend(&self, w: Seq<char>) -> Option<TrieNode>
        decreases w.len(),
    {
        if w.len() == 0 {
            Some(*self)
        } else {
            match self.child_spec(w[0]) {
                Some(n) => n.descend(w.drop_first()),
                None => None,
            }
        }
    }

    /// Spelling one more letter moves from the node reached so far to its child.
    pub proof fn lemma_descend_push(&self, w: Seq<char>, c: char)
        requires
            self.descend(w) is Some,
        ensures
            self.descend(w.push(c)) == self.descend(w).unwrap().child_spec(c),
        decreases w.len(),
    {
        if w.len() == 0 {
            assert(w.push(c).drop_first() =~= Seq::<char>::empty());
            match self.child_spec(c) {
                Some(n) => assert(n.descend(Seq::<char>::empty()) == Some(n)),
                None => {},
            }
        } else {
            let n = self.child_spec(w[0]).unwrap();
            assert(w.push(c).drop_first() =~= w.drop_first().push(c));
            n.lemma_descend_push(w.drop_first(), c);
        }
    }

    /// Every prefix of a spelling that leads somewhere leads somewhere too.
    pub proof fn lemma_descend_prefix(&self, w: Seq<char>, i: int)
        requires
            self.descend(w) is Some,
            0 <= i <= w.len(),
        ensures
            self.descend(w.take(i)) is Some,
        decreases w.len(),
    {
        if i > 0 {
            let n = self.child_spec(w[0]).unwrap();
            assert(w.take(i).drop_first() =~= w.drop_first().take(i - 1));
            n.lemma_descend_prefix(w.drop_first(), i - 1);
        }
    }

    /// No letter leads on from a leaf.
    pub proof fn lemma_leaf_has_no_child(&self, c: char)
        requires
            self.leaf_spec(),
        ensures
            self.child_spec(c) is None,
    {
        if is_lower(c) && slot_of(c) < self.children@.len() {
            assert(self.children@[slot_of(c)] is None);
        }
    }

    /// The listing of the subtrees for the letters from the `i`-th on: for
    /// each letter that leads on, a line of `indent`, the letter and a star
    /// when a word ends there, then that subtree's own listing indented one
    /// space further.
    pub open spec fn listing_from(&self, indent: Seq<char>, i: nat) -> Seq<char>
        decreases self, ALPHABET_SIZE - i,
        via Self::listing_decreases
    {
        if i >= ALPHABET_SIZE {
            Seq::empty()
        } else {
            let c = ('a' as int + i) as char;
            let rest = self.listing_from(indent, i + 1);
            match self.child_spec(c) {
                Some(n) => {
                    let star = if n.terminal_spec() {
                        seq!['*']
                    } else {
                        Seq::<char>::empty()
                    };
                    indent + seq![c] + star + seq!['\n'] + n.listing_from(indent.push(' '), 0) + rest
                },
                None => rest,
            }
        }
    }

    #[via_fn]
    proof fn listing_decreases(&self, indent: Seq<char>, i: nat) {
        if i < ALPHABET_SIZE {
            let c = ('a' as int + i) as char;
            if is_lower(c) && slot_of(c) < self.children@.len() {
                match self.children@[slot_of(c)] {
                    Some(b) => {
                        assert(decreases_to!(self => self.children));
                        assert(decreases_to!(self.children => self.children@[slot_of(c)]));
                    },
                    None => {},
                }
            }
        }
    }

    /// True iff `w` is a word of the dictionary rooted at this node.
    pub open spec fn contains(&self, w: Seq<char>) -> bool {
        match self.descend(w) {
            Some(n) => n.terminal_spec(),
            None => false,
        }
    }

    /// True iff the prefix that reaches this node is itself a word.
    pub closed spec fn terminal_spec(&self) -> bool {
        self.terminal
    }

    /// True iff no letter leads further from this node.
    pub closed spec fn leaf_spec(&self) -> bool {
        forall|i: int| 0 <= i < self.children@.len() ==> (#[trigger] self.children@[i]) is None
    }

    /// Every node carries one child slot per letter.
    pub closed spec fn wf(&self) -> bool
        decreases self,
    {
        &&& self.children@.len() == ALPHABET_SIZE
        &&& forall|i: int|
            0 <= i < self.children@.len() ==> match #[trigger] self.children@[i] {
                Some(b) => (*b).wf(),
                None => true,
            }
    }

    /// An empty node: no word ends here and no letter leads on.
    pub fn new() -> (r: Self)
        ensures
            r.wf(),
            !r.terminal_spec(),
            r.leaf_spec(),
            forall|w: Seq<char>| !r.contains(w),
            forall|w: Seq<char>| #[trigger] r.descend(w) is Some <==> w.len() == 0,
    {
        let mut children: Vec<Option<Box<TrieNode>>> = Vec::new();
        let mut i: usize = 0;
        while i < ALPHABET_SIZE
            invariant
                i <= ALPHABET_SIZE,
                children@.len() == i,
                forall|j: int| 0 <= j < i ==> (#[trigger] children@[j]) is None,
            decreases ALPHABET_SIZE - i,
        {
            children.push(None);
            i = i + 1;
        }
        let r = TrieNode { terminal: false, children };
        assert forall|w: Seq<char>| #[trigger] r.descend(w) is Some <==> w.len() == 0 by {
            if w.len() > 0 {
                if is_lower(w[0]) && slot_of(w[0]) < r.children@.len() {
                    assert(r.children@[slot_of(w[0])] is None);
                }
            }
        }
        assert forall|w: Seq<char>| !r.contains(w) by {
            if w.len() > 0 {
                assert(r.descend(w) is None);
            }
        }
        r
    }

    /// Whether the prefix that reaches this node is a word.
    pub fn is_complete(&self) -> (r: bool)
        ensures
            r == self.terminal_spec(),
            r == self.contains(Seq::empty()),
    {
        self.terminal
    }

    /// Whether no word extends the prefix that reaches this node.
    pub fn is_leaf(&self) -> (r: bool)
        ensures
            r == self.leaf_spec(),
            r ==> forall|c: char| #[trigger] self.child_spec(c) is None,
            !r && self.wf() ==> exists|c: char| #[trigger] self.child_spec(c) is Some,
    {
        let mut i: usize = 0;
        while i < self.children.len()
            invariant
                i <= self.children@.len(),
                forall|j: int| 0 <= j < i ==> (#[trigger] self.children@[j]) is None,
            decreases self.children@.len() - i,
        {
            if self.children[i].is_some() {
                proof {
                    if self.wf() {
                        let c = ('a' as int + i) as char;
                        assert(slot_of(c) == i);
                        assert(self.child_spec(c) is Some);
                    }
                }
                return false;
            }
            i = i + 1;
        }
        proof {
            assert forall|c: char| #[trigger] self.child_spec(c) is None by {
                self.lemma_leaf_has_no_child(c);
            }
        }
        true
    }

    /// The subtree for the prefix extended by `c`, if some word has it.
    pub fn child(&self, c: char) -> (r: Option<&TrieNode>)
        ensures
            r is None <==> self.child_spec(c) is None,
            r matches Some(n) ==> self.child_spec(c) == Some(*n),
            r matches Some(n) ==> self.wf() ==> n.wf(),
            r is Some ==> is_lower(c),
    {
        if 'a' <= c && c <= 'z' {
            let i = (c as u32 - 'a' as u32) as usize;
            if i < self.children.len() {
                match &self.children[i] {
                    Some(b) => {
                        proof {
                            if self.wf() {
                                assert(self.children@[i as int] is Some);
                            }
                        }
                        Some(&**b)
                    },
                    None => None,
                }
            } else {
                None
            }
        } else {
            None
        }
    }

    /// The letters that lead on from this node, each with its subtree, in
    /// alphabetical order.
    pub fn children(&self) -> (r: Vec<(char, &TrieNode)>)
        ensures
            forall|k: int|
                0 <= k < r@.len() ==> is_lower(#[trigger] r@[k].0) && self.child_spec(r@[k].0)
                    == Some(*r@[k].1),
            forall|k: int, l: int| 0 <= k < l < r@.len() ==> r@[k].0 < r@[l].0,
            forall|c: char|
                #[trigger] self.child_spec(c) is Some ==> exists|k: int|
                    0 <= k < r@.len() && (#[trigger] r@[k]).0 == c,
            self.wf() ==> forall|k: int| 0 <= k < r@.len() ==> (#[trigger] r@[k]).1.wf(),
    {
        let mut r: Vec<(char, &TrieNode)> = Vec::new();
        let mut i: usize = 0;
        while i < self.children.len() && i < ALPHABET_SIZE
            invariant
                i <= ALPHABET_SIZE,
                i <= self.children@.len(),
                forall|k: int|
                    0 <= k < r@.len() ==> is_lower(#[trigger] r@[k].0) && self.child_spec(
                        r@[k].0,
                    ) == Some(*r@[k].1) && slot_of(r@[k].0) < i,
                forall|k: int, l: int| 0 <= k < l < r@.len() ==> r@[k].0 < r@[l].0,
                forall|c: char|
                    #[trigger] self.child_spec(c) is Some && slot_of(c) < i ==> exists|k: int|
                        0 <= k < r@.len() && (#[trigger] r@[k]).0 == c,
                self.wf() ==> forall|k: int| 0 <= k < r@.len() ==> (#[trigger] r@[k]).1.wf(),
            decreases ALPHABET_SIZE - i,
        {
            let c: char = ((i as u8) + 97u8) as char;
            assert(slot_of(c) == i);
            assert(is_lower(c));
            let ghost prev = r@;
            match &self.children[i] {
                Some(b) => {
                    proof {
                        if self.wf() {
                            assert(self.children@[i as int] is Some);
                        }
                    }
                    r.push((c, &**b));
                    assert(r@[r@.len() - 1].0 == c);
                    assert forall|d: char| #[trigger] self.child_spec(d) is Some && slot_of(d) < i
                        + 1 implies exists|k: int| 0 <= k < r@.len() && (#[trigger] r@[k]).0 == d by {
                        if slot_of(d) == i {
                            assert(d == c);
                            assert(r@[r@.len() - 1].0 == c);
                        } else {
                            let k = choose|k: int| 0 <= k < prev.len() && (#[trigger] prev[k]).0 == d;
                            assert(r@[k] == prev[k]);
                        }
                    }
                },
                None => {
                    assert forall|d: char| #[trigger] self.child_spec(d) is Some && slot_of(d) < i
                        + 1 implies exists|k: int| 0 <= k < r@.len() && (#[trigger] r@[k]).0 == d by {
                        if slot_of(d) == i {
                            assert(d == c);
                        }
                    }
                },
            }
            i = i + 1;
        }
        proof {
            assert forall|c: char| #[trigger] self.child_spec(c) is Some implies exists|k: int|
                0 <= k < r@.len() && (#[trigger] r@[k]).0 == c by {
                assert(slot_of(c) < i);
            }
        }
        r
    }

    /// Appends this node's listing, at the given indentation, to `out`.
    fn write_listing(&self, out: &mut String, indent: &String)
        ensures
            final(out)@ == old(out)@ + self.listing_from(indent@, 0),
        decreases self,
    {
        let mut deeper = indent.clone();
        push_char(&mut deeper, ' ');
        let mut i: usize = 0;
        while i < ALPHABET_SIZE
            invariant
                i <= ALPHABET_SIZE,
                deeper@ == indent@.push(' '),
                old(out)@ + self.listing_from(indent@, 0) == out@ + self.listing_from(indent@, i as nat),
            decreases ALPHABET_SIZE - i,
        {
            let ghost before = out@;
            let c: char = ((i as u8) + 97u8) as char;
            assert(c == ('a' as int + i) as char);
            assert(slot_of(c) == i);
            if i < self.children.len() {
                match &self.children[i] {
                    Some(b) => {
                        assert(self.child_spec(c) == Some(**b));
                        out.append(indent.as_str());
                        push_char(out, c);
                        if b.terminal {
                            push_char(out, '*');
                        }
                        push_char(out, '\n');
                        let ghost line = out@;
                        proof {
                            assert(decreases_to!(self => self.children));
                            assert(decreases_to!(self.children => self.children@[i as int]));
                        }
                        (&**b).write_listing(out, &deeper);
                        let ghost star = if (*b).terminal {
                            seq!['*']
                        } else {
                            Seq::<char>::empty()
                        };
                        assert(line =~= before + indent@ + seq![c] + star + seq!['\n']);
                        assert(out@ + self.listing_from(indent@, (i + 1) as nat) =~= before
                            + self.listing_from(indent@, i as nat));
                    },
                    None => {
                        assert(self.child_spec(c) is None);
                    },
                }
            } else {
                assert(self.child_spec(c) is None);
            }
            i = i + 1;
        }
        assert(self.listing_from(indent@, i as nat) =~= Seq::<char>::empty());
        assert(out@ =~= old(out)@ + self.listing_from(indent@, 0));
    }

    /// The dictionary below this node as an indented tree, one letter per
    /// line, a star marking where a word ends.
    pub fn tree_string(&self) -> (r: String)
        ensures
            r@ == self.listing_from(Seq::empty(), 0),
    {
        let mut out = String::new();
        let indent = String::new();
        self.write_listing(&mut out, &indent);
        out
    }

    /// Adds the suffix of `w` from position `i` on as a word below this node.
    fn insert_suffix(&mut self, w: &str, i: usize)
        requires
            old(self).wf(),
            is_lower_word(w@),
            i <= w@.len(),
        ensures
            final(self).wf(),
            forall|v: Seq<char>|
                #[trigger] final(self).contains(v) <==> old(self).contains(v) || v == w@.subrange(
                    i as int,
                    w@.len() as int,
                ),
            forall|v: Seq<char>|
                #[trigger] final(self).descend(v) is Some <==> old(self).descend(v) is Some || exists|k: int|
                    0 <= k <= w@.len() - i && v == w@.subrange(i as int, w@.len() as int).take(k),
        decreases w@.len() - i,
    {
        let n = w.unicode_len();
        if i == n {
            let ghost before = *self;
            self.terminal = true;
            assert(w@.subrange(i as int, w@.len() as int) =~= Seq::<char>::empty());
            assert forall|v: Seq<char>| #[trigger] self.contains(v) <==> before.contains(v) || v
                == w@.subrange(i as int, w@.len() as int) by {
                if v.len() > 0 {
                    assert(self.child_spec(v[0]) == before.child_spec(v[0]));
                    assert(self.descend(v) == before.descend(v));
                } else {
                    assert(self.descend(v) == Some(*self));
                    assert(v =~= w@.subrange(i as int, w@.len() as int));
                }
            }
            assert forall|v: Seq<char>| #[trigger] self.descend(v) is Some <==> before.descend(v) is Some
                || exists|k: int| 0 <= k <= w@.len() - i && v == w@.subrange(i as int, w@.len() as int).take(k) by {
                if v.len() > 0 {
                    assert(self.child_spec(v[0]) == before.child_spec(v[0]));
                    assert(self.descend(v) == before.descend(v));
                    if exists|k: int| 0 <= k <= w@.len() - i && v == w@.subrange(i as int, w@.len() as int).take(k) {
                        let k = choose|k: int| 0 <= k <= w@.len() - i && v == w@.subrange(i as int, w@.len() as int).take(k);
                        assert(v.len() == k);
                    }
                } else {
                    assert(before.descend(v) == Some(before));
                }
            }
            return;
        }
        let c = w.get_char(i);
        assert(is_lower(w@[i as int]));
        let idx = (c as u32 - 'a' as u32) as usize;
        let ghost before = *self;
        let slot = self.children.remove(idx);
        let mut next: TrieNode = match slot {
            Some(b) => {
                assert(before.children@[idx as int] is Some);
                *b
            },
            None => TrieNode::new(),
        };
        let ghost next_before = next;
        assert(next_before.wf());
        assert forall|v: Seq<char>| #[trigger] next_before.contains(v) <==> before.contains(
            seq![c] + v,
        ) by {
            assert((seq![c] + v)[0] == c);
            assert((seq![c] + v).drop_first() =~= v);
        }
        assert forall|u: Seq<char>| #[trigger] next_before.descend(u) is Some <==> (before.descend(
            seq![c] + u,
        ) is Some || u.len() == 0) by {
            assert((seq![c] + u)[0] == c);
            assert((seq![c] + u).drop_first() =~= u);
            if u.len() == 0 {
                assert(next_before.descend(u) == Some(next_before));
            }
        }
        next.insert_suffix(w, i + 1);
        self.children.insert(idx, Some(Box::new(next)));
        assert(self.children@ =~= before.children@.update(idx as int, Some(Box::new(next))));
        let ghost s = w@.subrange(i as int, w@.len() as int);
        assert(s.drop_first() =~= w@.subrange(i + 1, w@.len() as int));
        assert(s[0] == c);
        assert(s =~= seq![c] + s.drop_first());
        assert forall|v: Seq<char>| #[trigger] self.contains(v) <==> before.contains(v) || v
            == s by {
            if v.len() > 0 {
                if v[0] == c {
                    assert(self.child_spec(v[0]) == Some(next));
                    assert(self.descend(v) == next.descend(v.drop_first()));
                    assert(self.contains(v) == next.contains(v.drop_first()));
                    assert(v =~= seq![c] + v.drop_first());
                    assert(next_before.contains(v.drop_first()) == before.contains(v));
                    if v == s {
                    } else {
                        assert(v.drop_first() != s.drop_first());
                    }
                } else {
                    assert(self.child_spec(v[0]) == before.child_spec(v[0]));
                    assert(self.descend(v) == before.descend(v));
                }
            } else {
                assert(v != s);
                assert(self.descend(v) == Some(*self));
                assert(before.descend(v) == Some(before));
            }
        }
        let ghost t = w@.subrange(i + 1, w@.len() as int);
        assert forall|v: Seq<char>| #[trigger] self.descend(v) is Some <==> before.descend(v) is Some
            || exists|k: int| 0 <= k <= w@.len() - i && v == s.take(k) by {
            if v.len() > 0 {
                if v[0] == c {
                    assert(self.child_spec(v[0]) == Some(next));
                    assert(self.descend(v) == next.descend(v.drop_first()));
                    assert(v =~= seq![c] + v.drop_first());
                    assert(next_before.descend(v.drop_first()) is Some <==> (before.descend(v) is Some
                        || v.drop_first().len() == 0));
                    if v.drop_first().len() == 0 {
                        assert(v =~= s.take(1));
                    }
                    if exists|k: int| 0 <= k <= w@.len() - (i + 1) && v.drop_first() == t.take(k) {
                        let k = choose|k: int| 0 <= k <= w@.len() - (i + 1) && v.drop_first() == t.take(k);
                        assert(v =~= s.take(k + 1));
                    }
                    if exists|k: int| 0 <= k <= w@.len() - i && v == s.take(k) {
                        let k = choose|k: int| 0 <= k <= w@.len() - i && v == s.take(k);
                        assert(k >= 1);
                        assert(v.drop_first() =~= t.take(k - 1));
                    }
                } else {
                    assert(self.child_spec(v[0]) == before.child_spec(v[0]));
                    assert(self.descend(v) == before.descend(v));
                    if exists|k: int| 0 <= k <= w@.len() - i && v == s.take(k) {
                        let k = choose|k: int| 0 <= k <= w@.len() - i && v == s.take(k);
                        assert(k >= 1);
                        assert(v[0] == s[0]);
                    }
                }
            } else {
                assert(self.descend(v) == Some(*self));
            }
        }
        assert forall|j: int| 0 <= j < self.children@.len() implies match #[trigger] self.children@[j] {
            Some(b) => (*b).wf(),
            None => true,
        } by {
            if j != idx {
                assert(self.children@[j] == before.children@[j]);
            }
        }
    }

    /// The dictionary holding exactly the given words.
    pub fn build(words: &[&str]) -> (r: Self)
        requires
            forall|j: int| 0 <= j < words@.len() ==> is_lower_word(#[trigger] words@[j]@),
        ensures
            r.wf(),
            forall|v: Seq<char>|
                #[trigger] r.contains(v) <==> exists|j: int| 0 <= j < words@.len() && words@[j]@ == v,
            forall|v: Seq<char>|
                #[trigger] r.descend(v) is Some <==> v.len() == 0 || exists|j: int, k: int|
                    0 <= j < words@.len() && 0 <= k <= words@[j]@.len() && words@[j]@.take(k) == v,
    {
        let mut root = TrieNode::new();
        let mut k: usize = 0;
        while k < words.len()
            invariant
                k <= words@.len(),
                forall|j: int| 0 <= j < words@.len() ==> is_lower_word(#[trigger] words@[j]@),
                root.wf(),
                forall|v: Seq<char>|
                    #[trigger] root.contains(v) <==> exists|j: int| 0 <= j < k && words@[j]@ == v,
                forall|v: Seq<char>|
                    #[trigger] root.descend(v) is Some <==> v.len() == 0 || exists|j: int, m: int|
                        0 <= j < k && 0 <= m <= words@[j]@.len() && words@[j]@.take(m) == v,
            decreases words@.len() - k,
        {
            let w: &str = words[k];
            assert(w@.subrange(0, w@.len() as int) =~= w@);
            root.insert_suffix(w, 0);
            assert forall|v: Seq<char>| #[trigger] root.contains(v) <==> exists|j: int|
                0 <= j < k + 1 && words@[j]@ == v by {
                if v == w@ {
                    assert(words@[k as int]@ == v);
                }
            }
            assert forall|v: Seq<char>| #[trigger] root.descend(v) is Some <==> v.len() == 0 || exists|j: int, m: int|
                0 <= j < k + 1 && 0 <= m <= words@[j]@.len() && words@[j]@.take(m) == v by {
                if exists|m: int| 0 <= m <= w@.len() && v == w@.subrange(0, w@.len() as int).take(m) {
                    let m = choose|m: int| 0 <= m <= w@.len() && v == w@.subrange(0, w@.len() as int).take(m);
                    assert(words@[k as int]@.take(m) == v);
                }
                if exists|j: int, m: int| 0 <= j < k + 1 && 0 <= m <= words@[j]@.len() && words@[j]@.take(m) == v {
                    let (j, m) = choose|j: int, m: int| 0 <= j < k + 1 && 0 <= m <= words@[j]@.len() && words@[j]@.take(m) == v;
                    if j == k {
                        assert(v == w@.subrange(0, w@.len() as int).take(m));
                    }
                }
            }
            k = k + 1;
        }
        root
    }
}

} // verus!
