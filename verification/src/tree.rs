//! A prefix trie over named literal strings, answering "longest literal
//! matching at this position" queries.
//!
//! Children of a node are kept as a vector of `(char, subtree)` pairs in
//! strictly increasing character order, and the built trie holds no node
//! beyond its literals' paths. A literal set therefore has exactly one
//! well-formed, minimal trie (`lemma_trie_canonical`), and structural
//! equality coincides with map equality.

use vstd::prelude::*;
use vstd::string::StrSliceExecFns;

verus! {

/// One trie node: an optional token name (set when some literal ends here)
/// and the children, ordered strictly by their edge character.
#[derive(Debug, PartialEq, Eq)]
pub struct Tree {
    pub value: Option<String>,
    pub children: Vec<(char, Tree)>,
}

/// Strictly increasing edge characters: the canonical child order.
pub open spec fn sorted_children(cs: Seq<(char, Tree)>) -> bool {
    forall|i: int, j: int| 0 <= i < j < cs.len() ==> (#[trigger] cs[i].0) < (#[trigger] cs[j].0)
}

/// The first subtree reached from `cs` over the edge character `c`, if any.
pub open spec fn seq_get(cs: Seq<(char, Tree)>, c: char) -> Option<Tree>
    decreases cs.len(),
{
    if cs.len() == 0 {
        None
    } else if cs[0].0 == c {
        Some(cs[0].1)
    } else {
        seq_get(cs.skip(1), c)
    }
}

impl Tree {
    /// Well-formedness: every node's children are in strictly increasing
    /// character order (hence have pairwise distinct edge characters), and
    /// every subtree is itself well formed.
    pub open spec fn wf(self) -> bool
        decreases self,
    {
        &&& sorted_children(self.children@)
        &&& forall|i: int|
            0 <= i < self.children.len() ==> (#[trigger] self.children[i].1).wf()
    }

    /// The name stored for the exact key `key`, descending one character at
    /// a time; `None` when the path does not exist or ends at a node without
    /// a terminal value.
    pub open spec fn lookup(self, key: Seq<char>) -> Option<Seq<char>>
        decreases key.len(),
    {
        if key.len() == 0 {
            match self.value {
                Some(name) => Some(name@),
                None => None,
            }
        } else {
            match seq_get(self.children@, key[0]) {
                Some(child) => child.lookup(key.skip(1)),
                None => None,
            }
        }
    }

    /// True when the first `n` characters of `t` form a key with a terminal
    /// value in this trie.
    pub open spec fn match_at(self, t: Seq<char>, n: int) -> bool {
        0 <= n <= t.len() && self.lookup(t.take(n)) is Some
    }

    /// Some key of this subtree carries a terminal value.
    pub open spec fn has_value(self) -> bool
        decreases self,
    {
        self.value is Some || exists|i: int|
            0 <= i < self.children.len() && (#[trigger] self.children[i].1).has_value()
    }

    /// Minimality: every edge leads to a subtree that carries some terminal
    /// value, so the trie holds no node beyond its keys' paths.
    pub open spec fn minimal(self) -> bool
        decreases self,
    {
        forall|i: int|
            0 <= i < self.children.len() ==> (#[trigger] self.children[i].1).minimal()
                && self.children[i].1.has_value()
    }

    /// The longest-prefix answer for `t`: the deepest terminal value on the
    /// descent path, preferring a deeper (longer) match over a shallower one.
    pub open spec fn best_from(self, t: Seq<char>) -> Option<(nat, Seq<char>)>
        decreases t.len(),
    {
        let deeper = if t.len() > 0 {
            match seq_get(self.children@, t[0]) {
                Some(child) => match child.best_from(t.skip(1)) {
                    Some(p) => Some(((p.0 + 1) as nat, p.1)),
                    None => None,
                },
                None => None,
            }
        } else {
            None
        };
        match deeper {
            Some(p) => Some(p),
            None => match self.value {
                Some(name) => Some((0, name@)),
                None => None,
            },
        }
    }
}

/// `seq_get` misses exactly when no entry carries the character.
pub proof fn lemma_seq_get_absent(cs: Seq<(char, Tree)>, c: char)
    requires
        forall|i: int| 0 <= i < cs.len() ==> (#[trigger] cs[i].0) != c,
    ensures
        seq_get(cs, c) is None,
    decreases cs.len(),
{
    if cs.len() > 0 {
        lemma_seq_get_absent(cs.skip(1), c);
    }
}

/// `seq_get` returns the entry at the first index carrying the character.
pub proof fn lemma_seq_get_found(cs: Seq<(char, Tree)>, i: int, c: char)
    requires
        0 <= i < cs.len(),
        cs[i].0 == c,
        forall|k: int| 0 <= k < i ==> (#[trigger] cs[k].0) != c,
    ensures
        seq_get(cs, c) == Some(cs[i].1),
    decreases cs.len(),
{
    if i > 0 {
        lemma_seq_get_found(cs.skip(1), i - 1, c);
    }
}

impl Tree {
    /// The child reached over the edge character `c`, if there is one.
    fn find_child(&self, c: char) -> (r: Option<&Tree>)
        ensures
            match r {
                Some(t) => seq_get(self.children@, c) == Some(*t),
                None => seq_get(self.children@, c) is None,
            },
    {
        let n = self.children.len();
        for j in 0..n
            invariant
                n == self.children.len(),
                forall|k: int| 0 <= k < j ==> (#[trigger] self.children@[k].0) != c,
        {
            if self.children[j].0 == c {
                proof {
                    lemma_seq_get_found(self.children@, j as int, c);
                }
                return Some(&self.children[j].1);
            }
        }
        proof {
            lemma_seq_get_absent(self.children@, c);
        }
        None
    }

    /// The longest-prefix answer for the suffix of `input` that begins at
    /// character index `i`, as the matched character count and the name.
    pub(crate) fn best_match_from(&self, input: &str, i: usize, len: usize) -> (r: Option<(usize, String)>)
        requires
            len == input@.len(),
            i <= len,
        ensures
            match r {
                None => self.best_from(input@.skip(i as int)) is None,
                Some(p) => {
                    &&& self.best_from(input@.skip(i as int)) == Some((p.0 as nat, p.1@))
                    &&& i + p.0 <= len
                },
            },
        decreases len - i,
    {
        let ghost s = input@.skip(i as int);
        let deeper: Option<(usize, String)> = if i < len {
            let c = input.get_char(i);
            proof {
                assert(s[0] == c);
            }
            match self.find_child(c) {
                Some(child) => {
                    match child.best_match_from(input, i + 1, len) {
                        Some((n, name)) => {
                            proof {
                                assert(s.skip(1) =~= input@.skip(i + 1 as int));
                            }
                            Some((n + 1, name))
                        },
                        None => {
                            proof {
                                assert(s.skip(1) =~= input@.skip(i + 1 as int));
                            }
                            None
                        },
                    }
                },
                None => None,
            }
        } else {
            None
        };
        match deeper {
            Some(p) => Some(p),
            None => {
                match &self.value {
                    Some(name) => Some((0, name.clone())),
                    None => None,
                }
            },
        }
    }

    /// Returns the longest prefix from the trie that matches the given input.
    ///
    /// Returns `Some((prefix, leaf_value))` or `None` if no match was found.
    pub fn match_longest_prefix<'input>(&self, input: &'input str) -> (r: Option<
        (&'input str, String),
    >)
        ensures
            r is None ==> forall|n: int| !self.match_at(input@, n),
            r matches Some(p) ==> {
                let n = p.0@.len() as int;
                &&& n <= input@.len()
                &&& p.0@ == input@.take(n)
                &&& self.lookup(input@.take(n)) == Some(p.1@)
                &&& forall|m: int| n < m ==> !self.match_at(input@, m)
            },
    {
        let len = input.unicode_len();
        proof {
            assert(input@.skip(0) =~= input@);
            lemma_best_from_is_longest(*self, input@);
        }
        match self.best_match_from(input, 0, len) {
            Some((n, name)) => {
                let prefix = input.substring_char(0, n);
                proof {
                    assert(prefix@ =~= input@.take(n as int));
                }
                Some((prefix, name))
            },
            None => None,
        }
    }
}

impl Tree {
    /// A node holding `value` and no children.
    pub fn leaf(value: &str) -> (t: Tree)
        ensures
            t.wf(),
            t.children@.len() == 0,
            t.value matches Some(v) && v@ == value@,
            forall|key: Seq<char>|
                #[trigger] t.lookup(key) == if key.len() == 0 {
                    Some(value@)
                } else {
                    None::<Seq<char>>
                },
    {
        let t = Tree { value: Some(value.to_owned()), children: Vec::new() };
        proof {
            assert forall|key: Seq<char>| key.len() > 0 implies t.lookup(key) is None by {
                assert(seq_get(t.children@, key[0]) is None);
            }
        }
        t
    }
}

impl Default for Tree {
    /// The empty trie: no value, no children.
    fn default() -> (t: Tree)
        ensures
            t.wf(),
            t.value is None,
            t.children@.len() == 0,
            forall|key: Seq<char>| #[trigger] t.lookup(key) is None,
    {
        let t = Tree { value: None, children: Vec::new() };
        proof {
            assert forall|key: Seq<char>| t.lookup(key) is None by {
                if key.len() > 0 {
                    assert(seq_get(t.children@, key[0]) is None);
                }
            }
        }
        t
    }
}

/// Inserts `(c, t)` into `cs` at its ordered position; `c` must not already
/// label an edge.
fn add_child(cs: &mut Vec<(char, Tree)>, c: char, t: Tree)
    requires
        sorted_children(old(cs)@),
        forall|i: int| 0 <= i < old(cs)@.len() ==> (#[trigger] old(cs)@[i].0) != c,
        forall|i: int| 0 <= i < old(cs)@.len() ==> (#[trigger] old(cs)@[i].1).wf(),
        t.wf(),
    ensures
        sorted_children(final(cs)@),
        forall|i: int| 0 <= i < final(cs)@.len() ==> (#[trigger] final(cs)@[i].1).wf(),
        seq_get(final(cs)@, c) == Some(t),
        forall|d: char| d != c ==> #[trigger] seq_get(final(cs)@, d) == seq_get(old(cs)@, d),
        forall|i: int|
            0 <= i < final(cs)@.len() ==> (#[trigger] final(cs)@[i].0) == c || exists|k: int|
                0 <= k < old(cs)@.len() && final(cs)@[i].0 == old(cs)@[k].0,
        exists|m: int| 0 <= m <= old(cs)@.len() && final(cs)@ == old(cs)@.insert(m, (c, t)),
{
    let n = cs.len();
    let mut j: usize = 0;
    while j < n && cs[j].0 < c
        invariant
            n == cs.len(),
            cs@ == old(cs)@,
            j <= n,
            forall|k: int| 0 <= k < j ==> (#[trigger] cs@[k].0) < c,
        decreases n - j,
    {
        j += 1;
    }
    proof {
        assert forall|k: int| j <= k < cs@.len() implies (#[trigger] cs@[k].0) > c by {
            assert(cs@[j as int].0 != c);
            assert(!(cs@[j as int].0 < c));
            if k > j {
                assert(cs@[j as int].0 < cs@[k].0);
            }
        }
    }
    cs.insert(j, (c, t));
    proof {
        let new = cs@;
        let olds = old(cs)@;
        assert(0 <= j <= olds.len() && new == olds.insert(j as int, (c, t)));
        assert forall|k: int| 0 <= k < new.len() implies new[k] == (if k < j {
            olds[k]
        } else if k == j {
            (c, t)
        } else {
            olds[k - 1]
        }) by {}
        lemma_seq_get_found(new, j as int, c);
        assert forall|d: char| d != c implies #[trigger] seq_get(new, d) == seq_get(olds, d) by {
            let found = exists|k: int| 0 <= k < olds.len() && (#[trigger] olds[k].0) == d;
            if found {
                let k = choose|k: int| 0 <= k < olds.len() && (#[trigger] olds[k].0) == d;
                assert forall|m: int| 0 <= m < k implies (#[trigger] olds[m].0) != d by {
                    assert(olds[m].0 < olds[k].0);
                }
                lemma_seq_get_found(olds, k, d);
                let k2: int = if k < j { k } else { k + 1 };
                assert(new[k2].0 == d);
                assert forall|m: int| 0 <= m < k2 implies (#[trigger] new[m].0) != d by {
                    if m < j {
                        assert(new[m] == olds[m]);
                        if k < j {
                            assert(olds[m].0 < olds[k].0);
                        } else {
                            if m < k {
                                assert(olds[m].0 < olds[k].0);
                            } else {
                                assert(olds[k].0 < olds[m].0);
                            }
                        }
                    } else if m == j {
                    } else {
                        assert(new[m] == olds[m - 1]);
                        assert(olds[m - 1].0 < olds[k].0);
                    }
                }
                lemma_seq_get_found(new, k2, d);
            } else {
                assert forall|m: int| 0 <= m < olds.len() implies (#[trigger] olds[m].0) != d by {}
                lemma_seq_get_absent(olds, d);
                assert forall|m: int| 0 <= m < new.len() implies (#[trigger] new[m].0) != d by {
                    if m < j {
                        assert(new[m] == olds[m]);
                    } else if m > j {
                        assert(new[m] == olds[m - 1]);
                    }
                }
                lemma_seq_get_absent(new, d);
            }
        }
    }
}

impl Tree {
    /// A node built from a value and an unordered child list; the children
    /// are stored in canonical (sorted) order.
    pub fn new(value: Option<&str>, children: Vec<(char, Tree)>) -> (t: Tree)
        requires
            forall|i: int, j: int|
                0 <= i < j < children@.len() ==> (#[trigger] children@[i].0) != (
                #[trigger] children@[j].0),
            forall|i: int| 0 <= i < children@.len() ==> (#[trigger] children@[i].1).wf(),
        ensures
            t.wf(),
            t.value is Some <==> value is Some,
            value matches Some(u) ==> t.value matches Some(v) && v@ == u@,
            forall|c: char| #[trigger] seq_get(t.children@, c) == seq_get(children@, c),
    {
        let value: Option<String> = match value {
            Some(u) => Some(u.to_owned()),
            None => None,
        };
        let ghost all = children@;
        let mut rest = children;
        let mut out: Vec<(char, Tree)> = Vec::new();
        proof {
            assert(rest@ =~= all.take(rest@.len() as int));
            assert(all.skip(rest@.len() as int) =~= Seq::<(char, Tree)>::empty());
        }
        while rest.len() > 0
            invariant
                rest@.len() <= all.len(),
                rest@ == all.take(rest@.len() as int),
                forall|i: int, j: int|
                    0 <= i < j < all.len() ==> (#[trigger] all[i].0) != (#[trigger] all[j].0),
                forall|i: int| 0 <= i < all.len() ==> (#[trigger] all[i].1).wf(),
                sorted_children(out@),
                forall|i: int| 0 <= i < out@.len() ==> (#[trigger] out@[i].1).wf(),
                forall|c: char| #[trigger] seq_get(out@, c) == seq_get(all.skip(rest@.len() as int), c),
                forall|i: int|
                    0 <= i < out@.len() ==> exists|m: int|
                        rest@.len() <= m < all.len() && (#[trigger] out@[i].0) == all[m].0,
            decreases rest@.len(),
        {
            let ghost old_rest = rest@;
            let ghost k = old_rest.len() - 1;
            proof {
                assert(old_rest == all.take(old_rest.len() as int));
            }
            let e = rest.pop().unwrap();
            proof {
                assert(e == old_rest[k]);
                assert(old_rest[k] == all.take(k + 1)[k]);
                assert(old_rest[k] == all[k]);
                assert(rest@ =~= all.take(k));
                assert forall|i: int| 0 <= i < out@.len() implies (#[trigger] out@[i].0) != e.0 by {
                    let m = choose|m: int|
                        k + 1 <= m < all.len() && (#[trigger] out@[i].0) == all[m].0;
                    assert(all[k].0 != all[m].0);
                }
            }
            let ghost out0 = out@;
            add_child(&mut out, e.0, e.1);
            proof {
                let suf = all.skip(k);
                assert(suf[0] == e);
                assert(suf.skip(1) =~= all.skip(k + 1));
                assert forall|c: char| #[trigger] seq_get(out@, c) == seq_get(suf, c) by {
                    if c != e.0 {
                        assert(seq_get(out@, c) == seq_get(out0, c));
                    }
                }
                assert forall|i: int| 0 <= i < out@.len() implies exists|m: int|
                    k <= m < all.len() && (#[trigger] out@[i].0) == all[m].0 by {
                    if out@[i].0 == e.0 {
                        assert(k <= k < all.len() && out@[i].0 == all[k].0);
                    } else {
                        let k2 = choose|k2: int|
                            0 <= k2 < out0.len() && (#[trigger] out@[i].0) == out0[k2].0;
                        let m = choose|m: int|
                            k + 1 <= m < all.len() && (#[trigger] out0[k2].0) == all[m].0;
                        assert(k <= m < all.len() && out@[i].0 == all[m].0);
                    }
                }
            }
        }
        proof {
            assert(all.skip(0) =~= all);
        }
        Tree { value, children: out }
    }
}

/// `best_from` answers the longest-prefix query exactly: it returns the
/// greatest `n` for which the first `n` characters of `t` carry a terminal
/// value, together with that value, and `None` when no prefix of `t` does.
pub proof fn lemma_best_from_is_longest(t: Tree, s: Seq<char>)
    ensures
        t.best_from(s) is None ==> forall|n: int| !t.match_at(s, n),
        t.best_from(s) matches Some(p) ==> {
            &&& p.0 <= s.len()
            &&& t.lookup(s.take(p.0 as int)) == Some(p.1)
            &&& forall|n: int| p.0 < n ==> !t.match_at(s, n)
        },
    decreases s.len(),
{
    assert(s.take(0) =~= Seq::<char>::empty());
    if s.len() > 0 {
        match seq_get(t.children@, s[0]) {
            Some(child) => {
                lemma_best_from_is_longest(child, s.skip(1));
                assert forall|n: int| 1 <= n <= s.len() implies t.lookup(s.take(n))
                    == child.lookup(s.skip(1).take(n - 1)) by {
                    let key = s.take(n);
                    assert(key[0] == s[0]);
                    assert(key.skip(1) =~= s.skip(1).take(n - 1));
                }
                match child.best_from(s.skip(1)) {
                    Some(p) => {
                        assert(t.best_from(s) == Some(((p.0 + 1) as nat, p.1)));
                        assert(t.lookup(s.take(p.0 + 1 as int)) == child.lookup(
                            s.skip(1).take(p.0 as int),
                        ));
                        assert forall|n: int| p.0 + 1 < n implies !t.match_at(s, n) by {
                            if 1 <= n <= s.len() {
                                assert(!child.match_at(s.skip(1), n - 1));
                            }
                        }
                    },
                    None => {
                        assert forall|n: int| 0 < n implies !t.match_at(s, n) by {
                            if 1 <= n <= s.len() {
                                assert(!child.match_at(s.skip(1), n - 1));
                            }
                        }
                    },
                }
            },
            None => {
                assert forall|n: int| 0 < n implies !t.match_at(s, n) by {
                    if 1 <= n <= s.len() {
                        let key = s.take(n);
                        assert(key[0] == s[0]);
                    }
                }
            },
        }
    } else {
        assert forall|n: int| 0 < n implies !t.match_at(s, n) by {}
    }
}

/// Two non-empty sequences with equal heads and equal tails are equal.
proof fn lemma_head_tail_eq(a: Seq<char>, b: Seq<char>)
    requires
        a.len() > 0,
        b.len() > 0,
        a[0] == b[0],
        a.skip(1) == b.skip(1),
    ensures
        a == b,
{
    assert(a.skip(1).len() == a.len() - 1);
    assert(b.skip(1).len() == b.len() - 1);
    assert forall|m: int| 0 <= m < a.len() implies a[m] == b[m] by {
        if m > 0 {
            assert(a.skip(1)[m - 1] == a[m]);
            assert(b.skip(1)[m - 1] == b[m]);
        }
    }
    assert(a =~= b);
}

/// The name that a literal set assigns to `key`: that of the last pair whose
/// (non-empty) literal text equals `key`, or `None`. Pairs are `(name,
/// literal)`; a later pair with the same text overrides an earlier one, and
/// empty literals assign nothing.
pub open spec fn literal_lookup(lits: Seq<(Seq<char>, Seq<char>)>, key: Seq<char>) -> Option<
    Seq<char>,
>
    decreases lits.len(),
{
    if lits.len() == 0 {
        None
    } else if lits.last().1 == key && key.len() > 0 {
        Some(lits.last().0)
    } else {
        literal_lookup(lits.drop_last(), key)
    }
}

/// The views of a slice of `(name, literal)` pairs.
pub open spec fn pair_views(s: Seq<(&str, &str)>) -> Seq<(Seq<char>, Seq<char>)> {
    s.map_values(|p: (&str, &str)| (p.0@, p.1@))
}

impl Tree {
    /// A chain of nodes whose sole key is the suffix of `lit` from `i`,
    /// carrying `name` at its end.
    fn chain(lit: &str, i: usize, len: usize, name: &str) -> (t: Tree)
        requires
            len == lit@.len(),
            i <= len,
        ensures
            t.wf(),
            t.minimal(),
            t.has_value(),
            forall|key: Seq<char>|
                #[trigger] t.lookup(key) == if key == lit@.skip(i as int) {
                    Some(name@)
                } else {
                    None::<Seq<char>>
                },
        decreases len - i,
    {
        if i == len {
            let t = Tree { value: Some(name.to_owned()), children: Vec::new() };
            proof {
                assert(t.minimal());
                assert(t.has_value());
                assert(lit@.skip(i as int) =~= Seq::<char>::empty());
                assert forall|key: Seq<char>| #[trigger] t.lookup(key) == (if key == lit@.skip(
                    i as int,
                ) {
                    Some(name@)
                } else {
                    None::<Seq<char>>
                }) by {
                    if key.len() > 0 {
                        assert(seq_get(t.children@, key[0]) is None);
                    } else {
                        assert(key =~= lit@.skip(i as int));
                    }
                }
            }
            t
        } else {
            let c = lit.get_char(i);
            let sub = Self::chain(lit, i + 1, len, name);
            let mut cs: Vec<(char, Tree)> = Vec::new();
            cs.push((c, sub));
            let t = Tree { value: None, children: cs };
            proof {
                assert(t.children@[0].1 == sub);
                assert(t.minimal());
                assert(t.has_value());
                let suffix = lit@.skip(i as int);
                assert(suffix[0] == c);
                assert(suffix.skip(1) =~= lit@.skip(i + 1 as int));
                assert forall|key: Seq<char>| #[trigger] t.lookup(key) == (if key == suffix {
                    Some(name@)
                } else {
                    None::<Seq<char>>
                }) by {
                    if key.len() > 0 {
                        if key[0] == c {
                            assert(seq_get(t.children@, c) == Some(sub));
                            assert(t.lookup(key) == sub.lookup(key.skip(1)));
                            if key.skip(1) == lit@.skip(i + 1 as int) {
                                lemma_head_tail_eq(key, suffix);
                            } else {
                                assert(key != suffix);
                                assert(sub.lookup(key.skip(1)) is None);
                            }
                        } else {
                            assert(seq_get(t.children@.skip(1), key[0]) is None);
                            assert(t.lookup(key) is None);
                            assert(key != suffix);
                        }
                    } else {
                        assert(t.lookup(key) is None);
                        assert(suffix.len() > 0);
                        assert(key != suffix);
                    }
                }
            }
            t
        }
    }

    /// Inserts the suffix of `lit` from `i` with the terminal value `name`,
    /// leaving every other key's answer unchanged.
    fn insert_from(&mut self, lit: &str, i: usize, len: usize, name: &str)
        requires
            old(self).wf(),
            len == lit@.len(),
            i < len,
        ensures
            final(self).wf(),
            old(self).minimal() ==> final(self).minimal() && final(self).has_value(),
            forall|key: Seq<char>|
                #[trigger] final(self).lookup(key) == if key == lit@.skip(i as int) {
                    Some(name@)
                } else {
                    old(self).lookup(key)
                },
        decreases len - i,
    {
        let ghost orig = *self;
        let ghost suffix = lit@.skip(i as int);
        let c = lit.get_char(i);
        proof {
            assert(suffix[0] == c);
            assert(suffix.skip(1) =~= lit@.skip(i + 1 as int));
        }
        let n = self.children.len();
        let mut j: usize = 0;
        while j < n && self.children[j].0 < c
            invariant
                n == self.children.len(),
                *self == orig,
                j <= n,
                forall|k: int| 0 <= k < j ==> (#[trigger] self.children@[k].0) < c,
            decreases n - j,
        {
            j += 1;
        }
        if j < n && self.children[j].0 == c {
            proof {
                lemma_seq_get_found(orig.children@, j as int, c);
            }
            let entry = self.children.remove(j);
            let mut child = entry.1;
            let ghost child0 = child;
            proof {
                assert(child0 == orig.children@[j as int].1);
                assert(child0.wf());
            }
            if i + 1 == len {
                child.value = Some(name.to_owned());
                proof {
                    assert(child.children == child0.children);
                    assert(child.wf());
                    if child0.minimal() {
                        assert(child.minimal());
                    }
                    assert(child.has_value());
                    assert(suffix =~= seq![c]);
                    assert forall|key: Seq<char>| #[trigger] child.lookup(key) == (if key
                        == suffix.skip(1) {
                        Some(name@)
                    } else {
                        child0.lookup(key)
                    }) by {
                        if key.len() > 0 {
                            assert(child.lookup(key) == child0.lookup(key));
                        } else {
                            assert(key =~= suffix.skip(1));
                        }
                    }
                }
            } else {
                child.insert_from(lit, i + 1, len, name);
            }
            self.children.insert(j, (c, child));
            proof {
                assert(self.children@ =~= orig.children@.update(j as int, (c, child)));
                lemma_update_lookup(orig, *self, j as int, c, child);
                assert forall|key: Seq<char>| #[trigger] self.lookup(key) == (if key == suffix {
                    Some(name@)
                } else {
                    orig.lookup(key)
                }) by {
                    if key.len() > 0 && key[0] == c {
                        assert(self.lookup(key) == child.lookup(key.skip(1)));
                        assert(orig.lookup(key) == child0.lookup(key.skip(1)));
                        if key.skip(1) == suffix.skip(1) {
                            lemma_head_tail_eq(key, suffix);
                            assert(child.lookup(key.skip(1)) == Some(name@));
                        } else {
                            assert(key != suffix);
                            assert(child.lookup(key.skip(1)) == child0.lookup(key.skip(1)));
                        }
                    } else if key.len() > 0 {
                        assert(self.lookup(key) == orig.lookup(key));
                        assert(key != suffix);
                    } else {
                        assert(key != suffix);
                        assert(self.value == orig.value);
                        assert(self.lookup(key) == orig.lookup(key));
                    }
                }
                if orig.minimal() {
                    assert(child0.minimal() && child0.has_value());
                    assert(child.minimal() && child.has_value());
                    assert forall|m: int|
                        0 <= m < self.children@.len() implies (
                    #[trigger] self.children@[m].1).minimal() && self.children@[m].1.has_value() by {
                        if m != j {
                            assert(self.children@[m] == orig.children@[m]);
                            assert(orig.children@[m].1.minimal()
                                && orig.children@[m].1.has_value());
                        } else {
                            assert(self.children@[m].1 == child);
                        }
                    }
                    assert(self.minimal());
                    assert(self.children@[j as int].1.has_value());
                    assert(self.has_value());
                }
            }
        } else {
            proof {
                assert forall|k: int| 0 <= k < orig.children@.len() implies (
                #[trigger] orig.children@[k].0) != c by {
                    if k >= j {
                        if k > j {
                            assert(orig.children@[j as int].0 < orig.children@[k].0);
                        }
                    }
                }
                lemma_seq_get_absent(orig.children@, c);
            }
            let sub = Self::chain(lit, i + 1, len, name);
            add_child(&mut self.children, c, sub);
            proof {
                assert forall|key: Seq<char>| #[trigger] self.lookup(key) == (if key == suffix {
                    Some(name@)
                } else {
                    orig.lookup(key)
                }) by {
                    if key.len() > 0 {
                        if key[0] == c {
                            assert(seq_get(self.children@, c) == Some(sub));
                            assert(self.lookup(key) == sub.lookup(key.skip(1)));
                            assert(orig.lookup(key) is None);
                            if key.skip(1) == suffix.skip(1) {
                                lemma_head_tail_eq(key, suffix);
                                assert(sub.lookup(key.skip(1)) == Some(name@));
                            } else {
                                assert(key != suffix);
                                assert(sub.lookup(key.skip(1)) is None);
                            }
                        } else {
                            assert(seq_get(self.children@, key[0]) == seq_get(
                                orig.children@,
                                key[0],
                            ));
                            assert(self.lookup(key) == orig.lookup(key));
                            assert(key != suffix);
                        }
                    } else {
                        assert(key != suffix);
                        assert(self.value == orig.value);
                        assert(self.lookup(key) == orig.lookup(key));
                    }
                }
                if orig.minimal() {
                    let m = choose|m: int|
                        0 <= m <= orig.children@.len() && self.children@ == orig.children@.insert(
                            m,
                            (c, sub),
                        );
                    assert forall|i2: int|
                        0 <= i2 < self.children@.len() implies (
                    #[trigger] self.children@[i2].1).minimal()
                        && self.children@[i2].1.has_value() by {
                        if i2 < m {
                            assert(self.children@[i2] == orig.children@[i2]);
                            assert(orig.children@[i2].1.minimal()
                                && orig.children@[i2].1.has_value());
                        } else if i2 == m {
                            assert(self.children@[i2] == (c, sub));
                        } else {
                            assert(self.children@[i2] == orig.children@[i2 - 1]);
                            assert(orig.children@[i2 - 1].1.minimal()
                                && orig.children@[i2 - 1].1.has_value());
                        }
                    }
                    assert(self.minimal());
                    assert(self.children@[m].1 == sub);
                    assert(self.has_value());
                }
            }
        }
    }
}

/// Replacing the `j`-th child (same edge character) changes only the keys
/// routed through that edge.
proof fn lemma_update_lookup(t0: Tree, t1: Tree, j: int, c: char, child: Tree)
    requires
        t0.wf(),
        t1.value == t0.value,
        0 <= j < t0.children@.len(),
        t0.children@[j].0 == c,
        child.wf(),
        t1.children@ == t0.children@.update(j, (c, child)),
    ensures
        t1.wf(),
        seq_get(t1.children@, c) == Some(child),
        forall|d: char| d != c ==> #[trigger] seq_get(t1.children@, d) == seq_get(t0.children@, d),
{
    assert forall|k: int| 0 <= k < j implies (#[trigger] t0.children@[k].0) != c by {
        assert(t0.children@[k].0 < t0.children@[j].0);
    }
    assert(sorted_children(t1.children@));
    assert forall|i: int| 0 <= i < t1.children@.len() implies (#[trigger] t1.children@[i].1).wf()
        by {
        if i != j {
            assert(t1.children@[i] == t0.children@[i]);
        }
    }
    lemma_seq_get_found(t0.children@, j, c);
    lemma_seq_get_found(t1.children@, j, c);
    assert forall|d: char| d != c implies #[trigger] seq_get(t1.children@, d) == seq_get(
        t0.children@,
        d,
    ) by {
        let cs0 = t0.children@;
        let cs1 = t1.children@;
        if exists|k: int| 0 <= k < cs0.len() && (#[trigger] cs0[k].0) == d {
            let k = choose|k: int| 0 <= k < cs0.len() && (#[trigger] cs0[k].0) == d;
            assert forall|m: int| 0 <= m < k implies (#[trigger] cs0[m].0) != d by {
                assert(cs0[m].0 < cs0[k].0);
            }
            assert forall|m: int| 0 <= m < k implies (#[trigger] cs1[m].0) != d by {
                assert(cs1[m].0 == cs0[m].0);
            }
            assert(cs1[k] == cs0[k]);
            lemma_seq_get_found(cs0, k, d);
            lemma_seq_get_found(cs1, k, d);
        } else {
            assert forall|m: int| 0 <= m < cs0.len() implies (#[trigger] cs0[m].0) != d by {}
            assert forall|m: int| 0 <= m < cs1.len() implies (#[trigger] cs1[m].0) != d by {
                if m != j {
                    assert(cs1[m].0 == cs0[m].0);
                }
            }
            lemma_seq_get_absent(cs0, d);
            lemma_seq_get_absent(cs1, d);
        }
    }
}

/// Builds the trie for a set of `(name, literal)` pairs. Every non-empty
/// literal becomes a key carrying its name; when two pairs share the same
/// literal text, the later one wins.
pub fn generate_tree(literals: &[(&str, &str)]) -> (t: Tree)
    ensures
        t.wf(),
        t.minimal(),
        forall|key: Seq<char>| #[trigger] t.lookup(key) == literal_lookup(pair_views(literals@), key),
{
    let ghost lits = pair_views(literals@);
    let mut root = Tree::default();
    let n = literals.len();
    proof {
        assert(root.minimal());
        assert forall|key: Seq<char>| #[trigger] root.lookup(key) == literal_lookup(
            lits.take(0),
            key,
        ) by {
            assert(lits.take(0).len() == 0);
        }
    }
    for j in 0..n
        invariant
            n == literals@.len(),
            lits == pair_views(literals@),
            root.wf(),
            root.minimal(),
            forall|key: Seq<char>|
                #[trigger] root.lookup(key) == literal_lookup(lits.take(j as int), key),
    {
        let (name, lit) = literals[j];
        let ghost root0 = root;
        let len = lit.unicode_len();
        if len > 0 {
            root.insert_from(lit, 0, len, name);
        }
        proof {
            let prefix = lits.take(j + 1 as int);
            assert(prefix.last() == (name@, lit@));
            assert(prefix.drop_last() =~= lits.take(j as int));
            assert(lit@.skip(0) =~= lit@);
            assert forall|key: Seq<char>| #[trigger] root.lookup(key) == literal_lookup(
                prefix,
                key,
            ) by {
                if len > 0 {
                    if key == lit@ {
                        assert(root.lookup(key) == Some(name@));
                    } else {
                        assert(root.lookup(key) == root0.lookup(key));
                    }
                } else {
                    assert(!(prefix.last().1 == key && key.len() > 0));
                }
            }
        }
    }
    proof {
        assert(lits.take(n as int) =~= lits);
    }
    root
}

/// A literal set answers for every non-empty literal text it contains.
proof fn lemma_literal_lookup_some(lits: Seq<(Seq<char>, Seq<char>)>, i: int)
    requires
        0 <= i < lits.len(),
        lits[i].1.len() > 0,
    ensures
        literal_lookup(lits, lits[i].1) is Some,
    decreases lits.len(),
{
    if i < lits.len() - 1 {
        assert(lits.drop_last()[i] == lits[i]);
        lemma_literal_lookup_some(lits.drop_last(), i);
    }
}

/// The longest-match law: against a trie that represents a literal set, the
/// longest-prefix answer for `s` is never shorter than any literal of the set
/// whose full text is a prefix of `s`. In particular some match is returned
/// whenever such a literal exists.
pub proof fn lemma_longest_match_dominates(
    t: Tree,
    lits: Seq<(Seq<char>, Seq<char>)>,
    s: Seq<char>,
    i: int,
)
    requires
        forall|key: Seq<char>| #[trigger] t.lookup(key) == literal_lookup(lits, key),
        0 <= i < lits.len(),
        0 < lits[i].1.len() <= s.len(),
        lits[i].1 == s.take(lits[i].1.len() as int),
    ensures
        t.best_from(s) matches Some(p) && p.0 >= lits[i].1.len(),
{
    let l = lits[i].1;
    lemma_literal_lookup_some(lits, i);
    assert(t.lookup(s.take(l.len() as int)) is Some);
    assert(t.match_at(s, l.len() as int));
    lemma_best_from_is_longest(t, s);
}

/// Equal shapes: the same terminal texts and the same edge characters in
/// the same order, recursively. This is what the derived `==` on `Tree`
/// observes at run time, since names are compared by their text.
pub open spec fn same_shape(a: Tree, b: Tree) -> bool
    decreases a,
{
    &&& (a.value is Some <==> b.value is Some)
    &&& (a.value matches Some(x) ==> b.value matches Some(y) && x@ == y@)
    &&& a.children.len() == b.children.len()
    &&& forall|i: int|
        0 <= i < a.children.len() ==> (#[trigger] a.children[i]).0 == b.children[i].0
            && same_shape(a.children[i].1, b.children[i].1)
}

/// A well-formed subtree that carries a value answers for some key.
proof fn lemma_has_value_witness(t: Tree)
    requires
        t.wf(),
        t.has_value(),
    ensures
        exists|k: Seq<char>| #[trigger] t.lookup(k) is Some,
    decreases t,
{
    if t.value is Some {
        assert(t.lookup(Seq::<char>::empty()) is Some);
    } else {
        let i = choose|i: int|
            0 <= i < t.children.len() && (#[trigger] t.children[i].1).has_value();
        let c = t.children@[i].0;
        let child = t.children@[i].1;
        assert(child.wf());
        lemma_has_value_witness(child);
        let k = choose|k: Seq<char>| #[trigger] child.lookup(k) is Some;
        assert forall|m: int| 0 <= m < i implies (#[trigger] t.children@[m].0) != c by {
            assert(t.children@[m].0 < t.children@[i].0);
        }
        lemma_seq_get_found(t.children@, i, c);
        let key = seq![c] + k;
        assert(key[0] == c);
        assert(key.skip(1) =~= k);
        assert(t.lookup(key) == child.lookup(k));
    }
}

/// In a sorted child list an edge character occurs at exactly one index,
/// and `seq_get` answers with that entry.
proof fn lemma_sorted_seq_get_at(cs: Seq<(char, Tree)>, i: int)
    requires
        sorted_children(cs),
        0 <= i < cs.len(),
    ensures
        seq_get(cs, cs[i].0) == Some(cs[i].1),
{
    assert forall|m: int| 0 <= m < i implies (#[trigger] cs[m].0) != cs[i].0 by {
        assert(cs[m].0 < cs[i].0);
    }
    lemma_seq_get_found(cs, i, cs[i].0);
}

/// Two strictly sorted child lists that carry edges for exactly the same
/// characters align: equal length and equal characters position by
/// position.
proof fn lemma_sorted_chars_align(xs: Seq<(char, Tree)>, ys: Seq<(char, Tree)>)
    requires
        sorted_children(xs),
        sorted_children(ys),
        forall|c: char| (#[trigger] seq_get(xs, c)) is Some <==> seq_get(ys, c) is Some,
    ensures
        xs.len() == ys.len(),
        forall|i: int| 0 <= i < xs.len() ==> (#[trigger] xs[i].0) == ys[i].0,
    decreases xs.len() + ys.len(),
{
    if xs.len() == 0 {
        if ys.len() > 0 {
            lemma_sorted_seq_get_at(ys, 0);
            assert(seq_get(xs, ys[0].0) is Some);
            assert(false);
        }
    } else if ys.len() == 0 {
        lemma_sorted_seq_get_at(xs, 0);
        assert(seq_get(ys, xs[0].0) is Some);
        assert(false);
    } else {
        let a = xs[0].0;
        let b = ys[0].0;
        lemma_sorted_seq_get_at(xs, 0);
        assert(seq_get(ys, a) is Some);
        assert(exists|m: int| 0 <= m < ys.len() && (#[trigger] ys[m].0) == a) by {
            if forall|m: int| 0 <= m < ys.len() ==> (#[trigger] ys[m].0) != a {
                lemma_seq_get_absent(ys, a);
            }
        }
        let ma = choose|m: int| 0 <= m < ys.len() && (#[trigger] ys[m].0) == a;
        assert(b <= ys[ma].0) by {
            if ma > 0 {
                assert(ys[0].0 < ys[ma].0);
            }
        }
        lemma_sorted_seq_get_at(ys, 0);
        assert(seq_get(xs, b) is Some);
        assert(exists|m: int| 0 <= m < xs.len() && (#[trigger] xs[m].0) == b) by {
            if forall|m: int| 0 <= m < xs.len() ==> (#[trigger] xs[m].0) != b {
                lemma_seq_get_absent(xs, b);
            }
        }
        let mb = choose|m: int| 0 <= m < xs.len() && (#[trigger] xs[m].0) == b;
        assert(a <= xs[mb].0) by {
            if mb > 0 {
                assert(xs[0].0 < xs[mb].0);
            }
        }
        assert(a == b);
        let xt = xs.skip(1);
        let yt = ys.skip(1);
        assert forall|c: char| (#[trigger] seq_get(xt, c)) is Some <==> seq_get(yt, c) is Some by {
            if c == a {
                assert forall|m: int| 0 <= m < xt.len() implies (#[trigger] xt[m].0) != c by {
                    assert(xt[m] == xs[m + 1]);
                    assert(xs[0].0 < xs[m + 1].0);
                }
                lemma_seq_get_absent(xt, c);
                assert forall|m: int| 0 <= m < yt.len() implies (#[trigger] yt[m].0) != c by {
                    assert(yt[m] == ys[m + 1]);
                    assert(ys[0].0 < ys[m + 1].0);
                }
                lemma_seq_get_absent(yt, c);
            } else {
                assert(seq_get(xs, c) == seq_get(xt, c));
                assert(seq_get(ys, c) == seq_get(yt, c));
            }
        }
        lemma_sorted_chars_align(xt, yt);
        assert forall|i: int| 0 <= i < xs.len() implies (#[trigger] xs[i].0) == ys[i].0 by {
            if i > 0 {
                assert(xt[i - 1].0 == yt[i - 1].0);
                assert(xs[i].0 == xt[i - 1].0);
                assert(ys[i].0 == yt[i - 1].0);
            }
        }
    }
}

/// The canonicity law: a well-formed, minimal trie is determined by what it
/// answers. Two such tries that agree on `lookup` for every key have the
/// same shape -- the same terminal texts and the same edges in the same
/// order. With `generate_tree`'s contract this makes the built trie the
/// unique well-formed, minimal trie of its literal set, independent of the
/// order in which the literals were supplied.
pub proof fn lemma_trie_canonical(a: Tree, b: Tree)
    requires
        a.wf(),
        b.wf(),
        a.minimal(),
        b.minimal(),
        forall|key: Seq<char>| #[trigger] a.lookup(key) == b.lookup(key),
    ensures
        same_shape(a, b),
    decreases a,
{
    assert(a.lookup(Seq::<char>::empty()) == b.lookup(Seq::<char>::empty()));
    assert forall|c: char| (#[trigger] seq_get(a.children@, c)) is Some <==> seq_get(
        b.children@,
        c,
    ) is Some by {
        match seq_get(a.children@, c) {
            Some(child) => {
                lemma_child_edge_answers(a, c, child);
                let k = choose|k: Seq<char>| #[trigger] child.lookup(k) is Some;
                let key = seq![c] + k;
                assert(key[0] == c);
                assert(key.skip(1) =~= k);
                assert(a.lookup(key) == child.lookup(k));
                assert(b.lookup(key) is Some);
                assert(seq_get(b.children@, c) is Some);
            },
            None => {},
        }
        match seq_get(b.children@, c) {
            Some(child) => {
                lemma_child_edge_answers(b, c, child);
                let k = choose|k: Seq<char>| #[trigger] child.lookup(k) is Some;
                let key = seq![c] + k;
                assert(key[0] == c);
                assert(key.skip(1) =~= k);
                assert(b.lookup(key) == child.lookup(k));
                assert(a.lookup(key) is Some);
                assert(seq_get(a.children@, c) is Some);
            },
            None => {},
        }
    }
    lemma_sorted_chars_align(a.children@, b.children@);
    assert forall|i: int|
        0 <= i < a.children.len() implies (#[trigger] a.children@[i]).0 == b.children@[i].0
        && same_shape(a.children@[i].1, b.children@[i].1) by {
        let c = a.children@[i].0;
        let ca = a.children@[i].1;
        let cb = b.children@[i].1;
        lemma_sorted_seq_get_at(a.children@, i);
        lemma_sorted_seq_get_at(b.children@, i);
        assert forall|k: Seq<char>| #[trigger] ca.lookup(k) == cb.lookup(k) by {
            let key = seq![c] + k;
            assert(key[0] == c);
            assert(key.skip(1) =~= k);
            assert(a.lookup(key) == ca.lookup(k));
            assert(b.lookup(key) == cb.lookup(k));
            assert(a.lookup(key) == b.lookup(key));
        }
        assert(ca.wf() && cb.wf() && ca.minimal() && cb.minimal());
        lemma_trie_canonical(ca, cb);
    }
}

/// A child reached over an edge of a well-formed, minimal trie answers for
/// some key.
proof fn lemma_child_edge_answers(t: Tree, c: char, child: Tree)
    requires
        t.wf(),
        t.minimal(),
        seq_get(t.children@, c) == Some(child),
    ensures
        exists|k: Seq<char>| #[trigger] child.lookup(k) is Some,
{
    assert(exists|m: int| 0 <= m < t.children.len() && (#[trigger] t.children@[m].0) == c) by {
        if forall|m: int| 0 <= m < t.children.len() ==> (#[trigger] t.children@[m].0) != c {
            lemma_seq_get_absent(t.children@, c);
        }
    }
    let m = choose|m: int| 0 <= m < t.children.len() && (#[trigger] t.children@[m].0) == c;
    lemma_sorted_seq_get_at(t.children@, m);
    assert(child == t.children@[m].1);
    assert(child.wf() && child.has_value());
    lemma_has_value_witness(child);
}

/// A well-formed, minimal trie that answers for no key at all is the empty
/// trie: no value and no children.
pub proof fn lemma_empty_trie_shape(t: Tree)
    requires
        t.wf(),
        t.minimal(),
        forall|key: Seq<char>| #[trigger] t.lookup(key) is None,
    ensures
        t.value is None,
        t.children@.len() == 0,
{
    assert(t.lookup(Seq::<char>::empty()) is None);
    if t.children@.len() > 0 {
        let c = t.children@[0].0;
        let child = t.children@[0].1;
        lemma_sorted_seq_get_at(t.children@, 0);
        lemma_child_edge_answers(t, c, child);
        let k = choose|k: Seq<char>| #[trigger] child.lookup(k) is Some;
        let key = seq![c] + k;
        assert(key[0] == c);
        assert(key.skip(1) =~= k);
        assert(t.lookup(key) == child.lookup(k));
        assert(false);
    }
}

} // verus!
