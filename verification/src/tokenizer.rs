//! The dispatcher: scans an input left to right; at each position the
//! longest literal (from the trie) competes with the first pattern (in
//! configuration order) that matches non-emptily at that position; the
//! longer match wins and a literal wins an exact length tie. An unmatched
//! position stops the scan with the offending character and its index.
//!
//! With carriage-return conversion enabled (the default), a
//! carriage-return/line-feed pair is matched as a single newline character,
//! while emitted token values always cover the original text.

use vstd::prelude::*;
use vstd::string::StrSliceExecFns;

use crate::engine::{regex_compiles, regex_find, regex_find_spec, regex_pattern, string_push};
use crate::error::ScanError;
use crate::patterns::{forced, prepare};
use crate::tree::{generate_tree, literal_lookup, pair_views, Tree};

verus! {

/// One recognized token: a name and the exact matched slice of the input.
#[derive(Debug, PartialEq, Eq)]
pub struct Token {
    pub name: String,
    pub value: String,
}

/// `s` with every carriage-return/line-feed pair replaced by one line feed.
pub open spec fn crlf_convert(s: Seq<char>) -> Seq<char>
    decreases s.len(),
{
    if s.len() >= 2 && s[0] == '\r' && s[1] == '\n' {
        seq!['\n'] + crlf_convert(s.skip(2))
    } else if s.len() >= 1 {
        seq![s[0]] + crlf_convert(s.skip(1))
    } else {
        Seq::empty()
    }
}

/// The text that matching runs on: converted when `crlf` is set, the
/// original otherwise.
pub open spec fn conv_of(s: Seq<char>, crlf: bool) -> Seq<char> {
    if crlf {
        crlf_convert(s)
    } else {
        s
    }
}

/// How many characters of the original suffix `s` the first `n` converted
/// units cover.
pub open spec fn orig_advance(s: Seq<char>, crlf: bool, n: int) -> int
    decreases n,
{
    if n <= 0 || s.len() == 0 {
        0
    } else if crlf && s.len() >= 2 && s[0] == '\r' && s[1] == '\n' {
        2 + orig_advance(s.skip(2), crlf, n - 1)
    } else {
        1 + orig_advance(s.skip(1), crlf, n - 1)
    }
}

/// Converting shortens or keeps the length, and keeps non-emptiness.
pub proof fn lemma_conv_len(s: Seq<char>, crlf: bool)
    ensures
        conv_of(s, crlf).len() <= s.len(),
        s.len() > 0 ==> conv_of(s, crlf).len() >= 1,
    decreases s.len(),
{
    if crlf && s.len() >= 2 && s[0] == '\r' && s[1] == '\n' {
        lemma_conv_len(s.skip(2), crlf);
    } else if s.len() >= 1 {
        lemma_conv_len(s.skip(1), crlf);
    }
}

/// Advancing over at least one unit consumes at least one and at most all
/// original characters.
pub proof fn lemma_orig_advance_bounds(s: Seq<char>, crlf: bool, n: int)
    requires
        0 <= n <= conv_of(s, crlf).len(),
    ensures
        0 <= orig_advance(s, crlf, n) <= s.len(),
        n >= 1 && s.len() >= 1 ==> orig_advance(s, crlf, n) >= 1,
    decreases n,
{
    lemma_conv_len(s, crlf);
    if n >= 1 && s.len() >= 1 {
        if crlf && s.len() >= 2 && s[0] == '\r' && s[1] == '\n' {
            assert(conv_of(s, crlf) == seq!['\n'] + crlf_convert(s.skip(2)));
            assert(conv_of(s.skip(2), crlf).len() == conv_of(s, crlf).len() - 1);
            lemma_orig_advance_bounds(s.skip(2), crlf, n - 1);
        } else {
            if crlf {
                assert(conv_of(s, crlf) == seq![s[0]] + crlf_convert(s.skip(1)));
                assert(conv_of(s.skip(1), crlf).len() == conv_of(s, crlf).len() - 1);
            }
            lemma_orig_advance_bounds(s.skip(1), crlf, n - 1);
        }
    }
}

/// The longest non-empty literal match at the start of `t`.
pub open spec fn lit_candidate(tree: Tree, t: Seq<char>) -> Option<(nat, Seq<char>)> {
    match tree.best_from(t) {
        Some(p) => if 1 <= p.0 <= t.len() {
            Some(p)
        } else {
            None
        },
        None => None,
    }
}

/// The first pattern (in configuration order) whose anchored matcher finds
/// a non-empty match at the start of `t`, with the match length. `pats` are
/// `(name, compiled pattern text)` pairs.
pub open spec fn first_pattern_match(pats: Seq<(Seq<char>, Seq<char>)>, t: Seq<char>) -> Option<
    (nat, Seq<char>),
>
    decreases pats.len(),
{
    if pats.len() == 0 {
        None
    } else {
        match regex_find_spec(pats[0].1, t) {
            Some(m) => if m.0 == 0 && 1 <= m.1 <= t.len() {
                Some((m.1, pats[0].0))
            } else {
                first_pattern_match(pats.skip(1), t)
            },
            None => first_pattern_match(pats.skip(1), t),
        }
    }
}

/// The match chosen at the start of `t`: the longer of the literal and the
/// pattern candidate, the literal on an exact length tie, `None` when
/// neither matches.
pub open spec fn step_of(tree: Tree, pats: Seq<(Seq<char>, Seq<char>)>, t: Seq<char>) -> Option<
    (nat, Seq<char>),
>
{
    match (lit_candidate(tree, t), first_pattern_match(pats, t)) {
        (Some(l), Some(p)) => if p.0 > l.0 {
            Some(p)
        } else {
            Some(l)
        },
        (Some(l), None) => Some(l),
        (None, Some(p)) => Some(p),
        (None, None) => None,
    }
}

/// The whole scan of the original suffix `s`, whose first character has
/// index `opos` in the original input: either every position is covered by
/// a token `(name, original slice)`, or the scan stops at the first
/// unmatched position with the offending (converted) character and its
/// original character index.
pub open spec fn scan_from(
    tree: Tree,
    pats: Seq<(Seq<char>, Seq<char>)>,
    crlf: bool,
    s: Seq<char>,
    opos: int,
) -> Result<Seq<(Seq<char>, Seq<char>)>, (char, int)>
    decreases s.len(),
    via scan_from_decreases
{
    if s.len() == 0 {
        Ok(Seq::empty())
    } else {
        let t = conv_of(s, crlf);
        match step_of(tree, pats, t) {
            None => Err((t[0], opos)),
            Some(m) => {
                let adv = orig_advance(s, crlf, m.0 as int);
                match scan_from(tree, pats, crlf, s.skip(adv), opos + adv) {
                    Ok(rest) => Ok(seq![(m.1, s.take(adv))] + rest),
                    Err(e) => Err(e),
                }
            },
        }
    }
}

/// A pattern match reported by `first_pattern_match` is non-empty and lies
/// within the text.
pub proof fn lemma_first_pattern_match_bounds(pats: Seq<(Seq<char>, Seq<char>)>, t: Seq<char>)
    ensures
        first_pattern_match(pats, t) matches Some(m) ==> 1 <= m.0 <= t.len(),
    decreases pats.len(),
{
    if pats.len() > 0 {
        lemma_first_pattern_match_bounds(pats.skip(1), t);
    }
}

/// The chosen match is non-empty and lies within the text.
pub proof fn lemma_step_of_bounds(tree: Tree, pats: Seq<(Seq<char>, Seq<char>)>, t: Seq<char>)
    ensures
        step_of(tree, pats, t) matches Some(m) ==> 1 <= m.0 <= t.len(),
{
    lemma_first_pattern_match_bounds(pats, t);
}

#[via_fn]
proof fn scan_from_decreases(
    tree: Tree,
    pats: Seq<(Seq<char>, Seq<char>)>,
    crlf: bool,
    s: Seq<char>,
    opos: int,
) {
    if s.len() > 0 {
        let t = conv_of(s, crlf);
        match step_of(tree, pats, t) {
            None => {},
            Some(m) => {
                lemma_step_of_bounds(tree, pats, t);
                lemma_orig_advance_bounds(s, crlf, m.0 as int);
            },
        }
    }
}

/// Builds the text that matching runs on for the suffix of `source`
/// beginning at character `from`.
fn convert_from(source: &str, from: usize, len: usize, crlf: bool) -> (r: String)
    requires
        len == source@.len(),
        from <= len,
    ensures
        r@ == conv_of(source@.skip(from as int), crlf),
{
    let ghost s = source@;
    let mut out = String::new();
    let mut i = from;
    proof {
        assert(out@ + conv_of(s.skip(from as int), crlf) =~= conv_of(s.skip(from as int), crlf));
    }
    while i < len
        invariant
            s == source@,
            len == s.len(),
            from <= i <= len,
            conv_of(s.skip(from as int), crlf) == out@ + conv_of(s.skip(i as int), crlf),
        decreases len - i,
    {
        let suf = Ghost(s.skip(i as int));
        let c = source.get_char(i);
        proof {
            assert(suf@[0] == c);
        }
        if crlf && c == '\r' && i + 1 < len && source.get_char(i + 1) == '\n' {
            proof {
                assert(suf@[1] == '\n');
                assert(suf@.skip(2) =~= s.skip(i + 2 as int));
                assert(conv_of(suf@, crlf) == seq!['\n'] + conv_of(s.skip(i + 2 as int), crlf));
            }
            string_push(&mut out, '\n');
            proof {
                assert(out@ + conv_of(s.skip(i + 2 as int), crlf) =~= conv_of(
                    s.skip(from as int),
                    crlf,
                ));
            }
            i = i + 2;
        } else {
            proof {
                assert(suf@.skip(1) =~= s.skip(i + 1 as int));
                if crlf {
                    assert(conv_of(suf@, crlf) == seq![c] + conv_of(s.skip(i + 1 as int), crlf));
                } else {
                    assert(conv_of(suf@, crlf) =~= seq![c] + conv_of(s.skip(i + 1 as int), crlf));
                }
            }
            string_push(&mut out, c);
            proof {
                assert(out@ + conv_of(s.skip(i + 1 as int), crlf) =~= conv_of(
                    s.skip(from as int),
                    crlf,
                ));
            }
            i = i + 1;
        }
    }
    proof {
        assert(s.skip(len as int) =~= Seq::<char>::empty());
        assert(conv_of(s.skip(i as int), crlf) =~= Seq::<char>::empty());
        assert(out@ =~= conv_of(s.skip(from as int), crlf));
    }
    out
}

/// The original character index reached after consuming `n` converted units
/// from character `from` of `source`.
fn advance_chars(source: &str, from: usize, len: usize, crlf: bool, n: usize) -> (r: usize)
    requires
        len == source@.len(),
        from <= len,
    ensures
        from <= r <= len,
        r == from + orig_advance(source@.skip(from as int), crlf, n as int),
{
    let ghost s = source@;
    let mut i = from;
    let mut count: usize = 0;
    while count < n && i < len
        invariant
            s == source@,
            len == s.len(),
            from <= i <= len,
            count <= n,
            orig_advance(s.skip(from as int), crlf, n as int) == (i - from)
                + orig_advance(s.skip(i as int), crlf, n - count),
        decreases n - count,
    {
        let suf = Ghost(s.skip(i as int));
        let c = source.get_char(i);
        proof {
            assert(suf@[0] == c);
        }
        if crlf && c == '\r' && i + 1 < len && source.get_char(i + 1) == '\n' {
            proof {
                assert(suf@[1] == '\n');
                assert(suf@.skip(2) =~= s.skip(i + 2 as int));
            }
            i = i + 2;
        } else {
            proof {
                assert(suf@.skip(1) =~= s.skip(i + 1 as int));
            }
            i = i + 1;
        }
        count = count + 1;
    }
    proof {
        if count == n {
            assert(orig_advance(s.skip(i as int), crlf, 0) == 0);
        } else {
            assert(i == len);
            assert(s.skip(i as int) =~= Seq::<char>::empty());
            assert(orig_advance(s.skip(i as int), crlf, n - count) == 0);
        }
    }
    i
}

/// A scanner configuration: the compiled patterns in priority order, the
/// literal trie, and the carriage-return conversion switch. Immutable once
/// built; every scan is a pure function of it and the input.
pub struct Tokenizer {
    patterns: Vec<(String, fancy_regex::Regex)>,
    tree: Tree,
    convert_crlf: bool,
}

impl Tokenizer {
    /// The configured patterns as `(name, compiled pattern text)` pairs, in
    /// priority order.
    pub closed spec fn patterns_view(self) -> Seq<(Seq<char>, Seq<char>)> {
        self.patterns@.map_values(|p: (String, fancy_regex::Regex)| (p.0@, regex_pattern(p.1)))
    }

    /// The literal trie.
    pub closed spec fn tree_view(self) -> Tree {
        self.tree
    }

    /// The carriage-return conversion switch.
    pub closed spec fn crlf_view(self) -> bool {
        self.convert_crlf
    }

    /// Validity: the trie is well formed and no literal is empty, so every
    /// match the dispatcher accepts covers at least one character.
    pub open spec fn wf(self) -> bool {
        &&& self.tree_view().wf()
        &&& self.tree_view().value is None
    }

    /// A configuration with no literals, no patterns, and carriage-return
    /// conversion enabled.
    pub fn new() -> (t: Tokenizer)
        ensures
            t.wf(),
            t.patterns_view() == Seq::<(Seq<char>, Seq<char>)>::empty(),
            forall|key: Seq<char>| #[trigger] t.tree_view().lookup(key) is None,
            t.crlf_view() == true,
    {
        let t = Tokenizer { patterns: Vec::new(), tree: Tree::default(), convert_crlf: true };
        proof {
            assert(t.patterns_view() =~= Seq::<(Seq<char>, Seq<char>)>::empty());
        }
        t
    }

    /// Replaces the literal set; the trie is rebuilt from the `(name,
    /// literal)` pairs, later pairs overriding earlier ones of the same
    /// text.
    pub fn with_literals(self, literals: &[(&str, &str)]) -> (t: Tokenizer)
        ensures
            t.wf(),
            t.patterns_view() == self.patterns_view(),
            t.crlf_view() == self.crlf_view(),
            forall|key: Seq<char>|
                #[trigger] t.tree_view().lookup(key) == literal_lookup(
                    pair_views(literals@),
                    key,
                ),
    {
        let tree = generate_tree(literals);
        proof {
            assert(tree.lookup(Seq::<char>::empty()) == literal_lookup(
                pair_views(literals@),
                Seq::<char>::empty(),
            ));
            assert(literal_lookup(pair_views(literals@), Seq::<char>::empty()) is None) by {
                lemma_literal_lookup_empty(pair_views(literals@));
            }
        }
        Tokenizer { tree, ..self }
    }

    /// Replaces the pattern list; every source is anchor-forced and
    /// compiled, all or nothing.
    pub fn with_patterns(self, patterns: &[(&str, &str)]) -> (r: Result<Tokenizer, ScanError>)
        ensures
            r is Ok <==> (forall|k: int|
                0 <= k < patterns@.len() ==> regex_compiles(forced(#[trigger] patterns@[k].1@))),
            r matches Ok(t) ==> {
                &&& t.tree_view() == self.tree_view()
                &&& t.crlf_view() == self.crlf_view()
                &&& t.patterns_view().len() == patterns@.len()
                &&& forall|k: int|
                    0 <= k < patterns@.len() ==> #[trigger] t.patterns_view()[k] == (
                    patterns@[k].0@, forced(patterns@[k].1@))
            },
            r matches Err(e) ==> e matches ScanError::InvalidRegex(nm, _) && exists|k: int|
                0 <= k < patterns@.len() && !regex_compiles(forced(#[trigger] patterns@[k].1@))
                    && (forall|j: int|
                    0 <= j < k ==> regex_compiles(forced(#[trigger] patterns@[j].1@))) && nm@
                    == patterns@[k].0@,
    {
        match prepare(patterns) {
            Ok(compiled) => {
                let ghost cv = compiled@;
                let mut rest = compiled;
                let mut owned: Vec<(String, fancy_regex::Regex)> = Vec::new();
                proof {
                    assert(rest@ =~= cv.skip(0));
                }
                while rest.len() > 0
                    invariant
                        owned@.len() + rest@.len() == cv.len(),
                        rest@ == cv.skip(owned@.len() as int),
                        forall|k: int|
                            0 <= k < owned@.len() ==> (#[trigger] owned@[k].0)@ == cv[k].0@
                                && owned@[k].1 == cv[k].1,
                    decreases rest@.len(),
                {
                    let ghost done = owned@.len() as int;
                    let p = rest.remove(0);
                    proof {
                        assert(p == cv.skip(done)[0]);
                        assert(p == cv[done]);
                        assert(rest@ =~= cv.skip(done + 1));
                    }
                    owned.push((p.0.to_owned(), p.1));
                }
                let t = Tokenizer { patterns: owned, tree: self.tree, convert_crlf: self.convert_crlf };
                proof {
                    assert forall|k: int|
                        0 <= k < patterns@.len() implies #[trigger] t.patterns_view()[k] == (
                    patterns@[k].0@, forced(patterns@[k].1@)) by {
                        assert(t.patterns_view()[k] == (t.patterns@[k].0@, regex_pattern(
                            t.patterns@[k].1,
                        )));
                        assert(t.patterns@[k].0@ == cv[k].0@);
                        assert(t.patterns@[k].1 == cv[k].1);
                        assert(cv[k].0@ == patterns@[k].0@);
                        assert(regex_pattern(cv[k].1) == forced(patterns@[k].1@));
                    }
                }
                Ok(t)
            },
            Err(e) => Err(e),
        }
    }

    /// Sets whether a carriage-return/line-feed pair is matched as a single
    /// newline.
    pub fn with_convert_crlf(self, convert: bool) -> (t: Tokenizer)
        ensures
            t.patterns_view() == self.patterns_view(),
            t.tree_view() == self.tree_view(),
            t.wf() == self.wf(),
            t.crlf_view() == convert,
    {
        Tokenizer { convert_crlf: convert, ..self }
    }
}

impl Default for Tokenizer {
    /// Same as `Tokenizer::new`.
    fn default() -> (t: Tokenizer)
        ensures
            t.wf(),
            t.patterns_view() == Seq::<(Seq<char>, Seq<char>)>::empty(),
            forall|key: Seq<char>| #[trigger] t.tree_view().lookup(key) is None,
            t.crlf_view() == true,
    {
        Tokenizer::new()
    }
}

impl Tokenizer {
    /// Probes every pattern in order at the start of `t` and returns the
    /// first non-empty anchored match, as its length and the pattern's name.
    fn first_match(&self, t: &str) -> (r: Option<(usize, String)>)
        ensures
            match r {
                Some(p) => first_pattern_match(self.patterns_view(), t@) == Some(
                    (p.0 as nat, p.1@),
                ) && p.0 <= t@.len(),
                None => first_pattern_match(self.patterns_view(), t@) is None,
            },
    {
        let ghost pv = self.patterns_view();
        let n = self.patterns.len();
        let mut k: usize = 0;
        proof {
            assert(pv.skip(0) =~= pv);
        }
        while k < n
            invariant
                n == self.patterns@.len(),
                pv == self.patterns_view(),
                k <= n,
                first_pattern_match(pv, t@) == first_pattern_match(pv.skip(k as int), t@),
            decreases n - k,
        {
            let ghost rest = pv.skip(k as int);
            proof {
                assert(rest[0] == pv[k as int]);
                assert(pv[k as int] == (self.patterns@[k as int].0@, regex_pattern(
                    self.patterns@[k as int].1,
                )));
                assert(rest.skip(1) =~= pv.skip(k + 1 as int));
            }
            match regex_find(&self.patterns[k].1, t) {
                Some(m) => {
                    if m.0 == 0 && m.1 >= 1 {
                        return Some((m.1, self.patterns[k].0.clone()));
                    }
                },
                None => {},
            }
            k += 1;
        }
        proof {
            assert(pv.skip(n as int) =~= Seq::<(Seq<char>, Seq<char>)>::empty());
        }
        None
    }

    /// The aggregate scan: the tokens covering all of `source`, or the
    /// first unmatched character with its character index, produced tokens
    /// being discarded. Restartable: the result is a function of the
    /// configuration and the input alone.
    pub fn tokenize(&self, source: &str) -> (r: Result<Vec<Token>, ScanError>)
        requires
            self.wf(),
        ensures
            match scan_from(self.tree_view(), self.patterns_view(), self.crlf_view(), source@, 0) {
                Ok(toks) => r matches Ok(v) && v@.len() == toks.len() && (forall|k: int|
                    0 <= k < toks.len() ==> (#[trigger] v@[k].name)@ == toks[k].0
                        && v@[k].value@ == toks[k].1),
                Err(e) => r matches Err(err) && err == ScanError::BadToken(e.0, e.1 as usize),
            },
    {
        let ghost tr = self.tree_view();
        let ghost pv = self.patterns_view();
        let ghost crlf = self.crlf_view();
        let ghost s = source@;
        let ghost full = scan_from(tr, pv, crlf, s, 0);
        let len = source.unicode_len();
        let mut opos: usize = 0;
        let mut out: Vec<Token> = Vec::new();
        let ghost toks: Seq<(Seq<char>, Seq<char>)> = Seq::empty();
        proof {
            assert(s.skip(0) =~= s);
            assert(toks + scan_from(tr, pv, crlf, s, 0)->Ok_0 =~= scan_from(tr, pv, crlf, s, 0)->Ok_0);
        }
        while opos < len
            invariant
                self.wf(),
                tr == self.tree_view(),
                pv == self.patterns_view(),
                crlf == self.crlf_view(),
                s == source@,
                len == s.len(),
                full == scan_from(tr, pv, crlf, s, 0),
                opos <= len,
                out@.len() == toks.len(),
                forall|k: int|
                    0 <= k < toks.len() ==> (#[trigger] out@[k].name)@ == toks[k].0
                        && out@[k].value@ == toks[k].1,
                match scan_from(tr, pv, crlf, s.skip(opos as int), opos as int) {
                    Ok(rest) => full == Ok::<_, (char, int)>(toks + rest),
                    Err(e) => full == Err::<Seq<(Seq<char>, Seq<char>)>, _>(e),
                },
            decreases len - opos,
        {
            let ghost suffix = s.skip(opos as int);
            let t = convert_from(source, opos, len, self.convert_crlf);
            let tlen = t.unicode_len();
            let lit = self.tree.best_match_from(t.as_str(), 0, tlen);
            proof {
                assert(t@.skip(0) =~= t@);
                match &lit {
                    Some(p) => {
                        crate::tree::lemma_best_from_is_longest(tr, t@);
                        if p.0 == 0 {
                            assert(t@.take(0) =~= Seq::<char>::empty());
                            assert(tr.lookup(Seq::<char>::empty()) is Some);
                            assert(false);
                        }
                        assert(lit_candidate(tr, t@) == Some((p.0 as nat, p.1@)));
                    },
                    None => {
                        assert(lit_candidate(tr, t@) is None);
                    },
                }
            }
            let pat = self.first_match(t.as_str());
            let chosen: Option<(usize, String)> = match (lit, pat) {
                (Some(l), Some(p)) => if p.0 > l.0 {
                    Some(p)
                } else {
                    Some(l)
                },
                (Some(l), None) => Some(l),
                (None, Some(p)) => Some(p),
                (None, None) => None,
            };
            match chosen {
                None => {
                    proof {
                        assert(step_of(tr, pv, t@) is None);
                        lemma_conv_len(suffix, crlf);
                        assert(t@.len() >= 1);
                    }
                    let c = t.as_str().get_char(0);
                    proof {
                        assert(scan_from(tr, pv, crlf, suffix, opos as int) == Err::<
                            Seq<(Seq<char>, Seq<char>)>,
                            _,
                        >((c, opos as int)));
                    }
                    return Err(ScanError::BadToken(c, opos));
                },
                Some((n, name)) => {
                    proof {
                        assert(step_of(tr, pv, t@) == Some((n as nat, name@)));
                    }
                    let next = advance_chars(source, opos, len, self.convert_crlf, n);
                    let ghost adv = next - opos;
                    proof {
                        lemma_step_of_bounds(tr, pv, t@);
                        lemma_orig_advance_bounds(suffix, crlf, n as int);
                        assert(1 <= adv <= suffix.len());
                    }
                    let value = source.substring_char(opos, next).to_owned();
                    proof {
                        assert(value@ =~= suffix.take(adv));
                        assert(suffix.skip(adv) =~= s.skip(next as int));
                    }
                    let ghost toks0 = toks;
                    let ghost out0 = out@;
                    proof {
                        toks = toks0 + seq![(name@, value@)];
                    }
                    out.push(Token { name, value });
                    proof {
                        assert forall|k: int|
                            0 <= k < toks.len() implies (#[trigger] out@[k].name)@ == toks[k].0
                            && out@[k].value@ == toks[k].1 by {
                            if k < toks0.len() {
                                assert(out@[k] == out0[k]);
                            }
                        }
                        let here = scan_from(tr, pv, crlf, suffix, opos as int);
                        let there = scan_from(tr, pv, crlf, s.skip(next as int), next as int);
                        match there {
                            Ok(rest) => {
                                assert(here == Ok::<_, (char, int)>(
                                    seq![(name@, suffix.take(adv))] + rest,
                                ));
                                assert(toks0 + (seq![(name@, suffix.take(adv))] + rest) =~= toks
                                    + rest);
                            },
                            Err(e) => {
                                assert(here == Err::<Seq<(Seq<char>, Seq<char>)>, _>(e));
                            },
                        }
                    }
                    opos = next;
                },
            }
        }
        proof {
            assert(s.skip(len as int) =~= Seq::<char>::empty());
            assert(scan_from(tr, pv, crlf, s.skip(len as int), len as int) == Ok::<_, (char, int)>(
                Seq::<(Seq<char>, Seq<char>)>::empty(),
            ));
            assert(toks + Seq::<(Seq<char>, Seq<char>)>::empty() =~= toks);
        }
        Ok(out)
    }
}

/// The emitted values of a token sequence, joined in order.
pub open spec fn values_concat(toks: Seq<(Seq<char>, Seq<char>)>) -> Seq<char>
    decreases toks.len(),
{
    if toks.len() == 0 {
        Seq::empty()
    } else {
        toks[0].1 + values_concat(toks.skip(1))
    }
}

/// The round-trip law: whenever a scan succeeds, re-joining the emitted
/// token values exactly reproduces the scanned text -- also with
/// carriage-return conversion on, since values always cover the original
/// text.
pub proof fn lemma_scan_round_trip(
    tree: Tree,
    pats: Seq<(Seq<char>, Seq<char>)>,
    crlf: bool,
    s: Seq<char>,
    opos: int,
)
    requires
        scan_from(tree, pats, crlf, s, opos) matches Ok(toks),
    ensures
        scan_from(tree, pats, crlf, s, opos) matches Ok(toks) && values_concat(toks) == s,
    decreases s.len(),
{
    let toks = scan_from(tree, pats, crlf, s, opos)->Ok_0;
    if s.len() == 0 {
        assert(values_concat(toks) =~= s);
    } else {
        let t = conv_of(s, crlf);
        match step_of(tree, pats, t) {
            None => {
                assert(false);
            },
            Some(m) => {
                lemma_step_of_bounds(tree, pats, t);
                lemma_orig_advance_bounds(s, crlf, m.0 as int);
                let adv = orig_advance(s, crlf, m.0 as int);
                let inner = scan_from(tree, pats, crlf, s.skip(adv), opos + adv);
                match inner {
                    Ok(rest) => {
                        lemma_scan_round_trip(tree, pats, crlf, s.skip(adv), opos + adv);
                        assert(toks == seq![(m.1, s.take(adv))] + rest);
                        assert(toks[0].1 == s.take(adv));
                        assert(toks.skip(1) =~= rest);
                        assert(values_concat(toks) == s.take(adv) + values_concat(rest));
                        assert(s.take(adv) + s.skip(adv) =~= s);
                    },
                    Err(_) => {
                        assert(false);
                    },
                }
            },
        }
    }
}

/// The restartability law: the scan result is a function of the
/// configuration's views and the input alone, so two scans of the same
/// input against configurations that agree -- in particular, two scans
/// against one configuration -- yield identical results.
pub proof fn lemma_scan_restartable(a: Tokenizer, b: Tokenizer, s: Seq<char>)
    requires
        a.tree_view() == b.tree_view(),
        a.patterns_view() == b.patterns_view(),
        a.crlf_view() == b.crlf_view(),
    ensures
        scan_from(a.tree_view(), a.patterns_view(), a.crlf_view(), s, 0) == scan_from(
            b.tree_view(),
            b.patterns_view(),
            b.crlf_view(),
            s,
            0,
        ),
{
}

/// The cursor of a lazy scan: the next position to probe, and whether the
/// scan has ended (by exhausting the input or by yielding an error).
pub struct ScanState {
    pub pos: usize,
    pub done: bool,
}

impl Tokenizer {
    /// Starts a lazy scan at the beginning of the input.
    pub fn scan_start(&self) -> (st: ScanState)
        ensures
            st.pos == 0,
            !st.done,
    {
        ScanState { pos: 0, done: false }
    }

    /// One step of the lazy scan of `source`: the next token, or the first
    /// unmatched character as an error (after which the scan is ended and
    /// yields nothing more), or `None` at the end of the input.
    pub fn scan_next(&self, source: &str, st: &mut ScanState) -> (r: Option<
        Result<Token, ScanError>,
    >)
        requires
            self.wf(),
            old(st).pos <= source@.len(),
        ensures
            final(st).pos <= source@.len(),
            old(st).done ==> r is None && *final(st) == *old(st),
            !old(st).done ==> ({
                let suffix = source@.skip(old(st).pos as int);
                let t = conv_of(suffix, self.crlf_view());
                if suffix.len() == 0 {
                    r is None && final(st).done && final(st).pos == old(st).pos
                } else {
                    match step_of(self.tree_view(), self.patterns_view(), t) {
                        None => r matches Some(re) && re matches Err(e) && e == ScanError::BadToken(
                            t[0],
                            old(st).pos,
                        ) && final(st).done,
                        Some(m) => {
                            let adv = orig_advance(suffix, self.crlf_view(), m.0 as int);
                            &&& r matches Some(re)
                            &&& re matches Ok(tok)
                            &&& tok.name@ == m.1
                            &&& tok.value@ == suffix.take(adv)
                            &&& final(st).pos == old(st).pos + adv
                            &&& !final(st).done
                        },
                    }
                }
            }),
    {
        if st.done {
            return None;
        }
        let ghost tr = self.tree_view();
        let ghost pv = self.patterns_view();
        let ghost crlf = self.crlf_view();
        let ghost s = source@;
        let len = source.unicode_len();
        let opos = st.pos;
        let ghost suffix = s.skip(opos as int);
        if opos == len {
            st.done = true;
            return None;
        }
        let t = convert_from(source, opos, len, self.convert_crlf);
        let tlen = t.unicode_len();
        let lit = self.tree.best_match_from(t.as_str(), 0, tlen);
        proof {
            assert(t@.skip(0) =~= t@);
            match &lit {
                Some(p) => {
                    crate::tree::lemma_best_from_is_longest(tr, t@);
                    if p.0 == 0 {
                        assert(t@.take(0) =~= Seq::<char>::empty());
                        assert(tr.lookup(Seq::<char>::empty()) is Some);
                        assert(false);
                    }
                    assert(lit_candidate(tr, t@) == Some((p.0 as nat, p.1@)));
                },
                None => {
                    assert(lit_candidate(tr, t@) is None);
                },
            }
        }
        let pat = self.first_match(t.as_str());
        let chosen: Option<(usize, String)> = match (lit, pat) {
            (Some(l), Some(p)) => if p.0 > l.0 {
                Some(p)
            } else {
                Some(l)
            },
            (Some(l), None) => Some(l),
            (None, Some(p)) => Some(p),
            (None, None) => None,
        };
        match chosen {
            None => {
                proof {
                    assert(step_of(tr, pv, t@) is None);
                    lemma_conv_len(suffix, crlf);
                    assert(t@.len() >= 1);
                }
                let c = t.as_str().get_char(0);
                st.done = true;
                Some(Err(ScanError::BadToken(c, opos)))
            },
            Some((n, name)) => {
                proof {
                    assert(step_of(tr, pv, t@) == Some((n as nat, name@)));
                    lemma_step_of_bounds(tr, pv, t@);
                    lemma_orig_advance_bounds(suffix, crlf, n as int);
                }
                let next = advance_chars(source, opos, len, self.convert_crlf, n);
                let value = source.substring_char(opos, next).to_owned();
                proof {
                    assert(value@ =~= suffix.take(next - opos));
                }
                st.pos = next;
                Some(Ok(Token { name, value }))
            },
        }
    }
}

/// A literal set never assigns a name to the empty key.
proof fn lemma_literal_lookup_empty(lits: Seq<(Seq<char>, Seq<char>)>)
    ensures
        literal_lookup(lits, Seq::<char>::empty()) is None,
    decreases lits.len(),
{
    if lits.len() > 0 {
        lemma_literal_lookup_empty(lits.drop_last());
    }
}

} // verus!
