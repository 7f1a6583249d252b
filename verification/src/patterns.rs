//! The pattern compiler: every user-supplied pattern is rewritten so that it
//! can only match exactly at the position it is probed at, then handed to the
//! external regex engine.
//!
//! A caret is *removable* unless the character just before it is `[` (class
//! negation) or `\` (an escaped literal caret). Anchor forcing deletes every
//! removable caret, wherever it stands, and wraps the rest in an anchored
//! non-capturing group `^(?:...)`.

use vstd::prelude::*;
use vstd::string::StrSliceExecFns;

use crate::engine::{regex_compiles, regex_new, regex_pattern, string_push};
use crate::error::ScanError;

verus! {

/// Is the caret at index `i` of `s` removable? It is, unless the character
/// immediately before it is `[` or `\`.
pub open spec fn removable_caret(s: Seq<char>, i: int) -> bool {
    s[i] == '^' && !(i > 0 && (s[i - 1] == '[' || s[i - 1] == '\\'))
}

/// `s` with every removable caret deleted; all other characters are kept in
/// order.
pub open spec fn strip_anchors(s: Seq<char>) -> Seq<char>
    decreases s.len(),
{
    if s.len() == 0 {
        Seq::empty()
    } else if removable_caret(s, s.len() - 1) {
        strip_anchors(s.drop_last())
    } else {
        strip_anchors(s.drop_last()).push(s.last())
    }
}

/// The anchored form of a pattern: removable carets deleted, the rest
/// wrapped as `^(?:...)`.
pub open spec fn forced(s: Seq<char>) -> Seq<char> {
    seq!['^', '(', '?', ':'] + strip_anchors(s) + seq![')']
}

/// Rewrites one pattern so its compiled form can only match at the position
/// it is probed at, regardless of how the caller wrote anchors.
pub fn force_start_anchor(pattern: &str) -> (r: String)
    ensures
        r@ == forced(pattern@),
{
    let len = pattern.unicode_len();
    let mut out = String::new();
    string_push(&mut out, '^');
    string_push(&mut out, '(');
    string_push(&mut out, '?');
    string_push(&mut out, ':');
    proof {
        assert(out@ =~= seq!['^', '(', '?', ':'] + strip_anchors(pattern@.take(0)));
    }
    for i in 0..len
        invariant
            len == pattern@.len(),
            out@ == seq!['^', '(', '?', ':'] + strip_anchors(pattern@.take(i as int)),
    {
        let c = pattern.get_char(i);
        let removable = c == '^' && !(i > 0 && {
            let prev = pattern.get_char(i - 1);
            prev == '[' || prev == '\\'
        });
        proof {
            let here = pattern@.take(i + 1);
            assert(here.drop_last() =~= pattern@.take(i as int));
            assert(here.last() == c);
            assert(removable == removable_caret(here, i as int));
        }
        if !removable {
            string_push(&mut out, c);
        }
    }
    string_push(&mut out, ')');
    proof {
        assert(pattern@.take(len as int) =~= pattern@);
        assert(out@ =~= forced(pattern@));
    }
    out
}

/// Rewrites every pattern of the list with `force_start_anchor`, keeping
/// names and order.
pub fn adjust<'a>(patterns: &[(&'a str, &str)]) -> (r: Vec<(&'a str, String)>)
    ensures
        r@.len() == patterns@.len(),
        forall|k: int|
            0 <= k < patterns@.len() ==> (#[trigger] r@[k].0)@ == patterns@[k].0@ && r@[k].1@
                == forced(patterns@[k].1@),
{
    let mut out: Vec<(&'a str, String)> = Vec::new();
    let n = patterns.len();
    let mut j: usize = 0;
    while j < n
        invariant
            j <= n,
            n == patterns@.len(),
            out@.len() == j,
            forall|k: int|
                0 <= k < j ==> (#[trigger] out@[k].0)@ == patterns@[k].0@ && out@[k].1@ == forced(
                    patterns@[k].1@,
                ),
        decreases n - j,
    {
        let p = patterns[j];
        let ghost out0 = out@;
        let f = force_start_anchor(p.1);
        out.push((p.0, f));
        proof {
            assert(p == patterns@[j as int]);
            assert(out@ == out0.push((p.0, f)));
            assert forall|k: int|
                0 <= k < j + 1 implies (#[trigger] out@[k].0)@ == patterns@[k].0@ && out@[k].1@
                == forced(patterns@[k].1@) by {
                if k < j {
                    assert(out@[k] == out0[k]);
                    assert((out0[k].0)@ == patterns@[k].0@);
                    assert(out0[k].1@ == forced(patterns@[k].1@));
                } else {
                    assert(out@[k] == (p.0, f));
                    assert(f@ == forced(patterns@[j as int].1@));
                }
            }
        }
        j += 1;
    }
    out
}

/// Compiles every pattern of the list in order, all or nothing: the first
/// pattern the engine rejects fails the whole list with `InvalidRegex`.
pub fn compile<'a>(patterns: &[(&'a str, String)]) -> (r: Result<
    Vec<(&'a str, fancy_regex::Regex)>,
    ScanError,
>)
    ensures
        r is Ok <==> (forall|k: int|
            0 <= k < patterns@.len() ==> regex_compiles(#[trigger] patterns@[k].1@)),
        r matches Ok(v) ==> {
            &&& v@.len() == patterns@.len()
            &&& forall|k: int|
                0 <= k < patterns@.len() ==> (#[trigger] v@[k].0)@ == patterns@[k].0@
                    && regex_pattern(v@[k].1) == patterns@[k].1@
        },
        r matches Err(e) ==> e matches ScanError::InvalidRegex(nm, _) && exists|k: int|
            0 <= k < patterns@.len() && !regex_compiles(#[trigger] patterns@[k].1@) && (
            forall|j: int| 0 <= j < k ==> regex_compiles(#[trigger] patterns@[j].1@)) && nm@
                == patterns@[k].0@,
{
    let mut out: Vec<(&'a str, fancy_regex::Regex)> = Vec::new();
    let n = patterns.len();
    let mut j: usize = 0;
    while j < n
        invariant
            j <= n,
            n == patterns@.len(),
            out@.len() == j,
            forall|k: int| 0 <= k < j ==> regex_compiles(#[trigger] patterns@[k].1@),
            forall|k: int|
                0 <= k < j ==> (#[trigger] out@[k].0)@ == patterns@[k].0@ && regex_pattern(
                    out@[k].1,
                ) == patterns@[k].1@,
        decreases n - j,
    {
        let p = &patterns[j];
        let ghost out0 = out@;
        match regex_new(p.1.as_str()) {
            Ok(re) => {
                let ghost re0 = re;
                out.push((p.0, re));
                proof {
                    assert(regex_pattern(re0) == patterns@[j as int].1@);
                    assert(out@ == out0.push((patterns@[j as int].0, re0)));
                    assert forall|k: int|
                        0 <= k < j + 1 implies (#[trigger] out@[k].0)@ == patterns@[k].0@
                        && regex_pattern(out@[k].1) == patterns@[k].1@ by {
                        if k < j {
                            assert(out@[k] == out0[k]);
                            assert((out0[k].0)@ == patterns@[k].0@);
                            assert(regex_pattern(out0[k].1) == patterns@[k].1@);
                        } else {
                            assert(out@[k] == (patterns@[j as int].0, re0));
                        }
                    }
                }
            },
            Err(e) => {
                let name = p.0.to_owned();
                proof {
                    assert(0 <= j < patterns@.len() && !regex_compiles(patterns@[j as int].1@) && (
                    forall|j2: int| 0 <= j2 < j ==> regex_compiles(#[trigger] patterns@[j2].1@))
                        && name@ == patterns@[j as int].0@);
                }
                return Err(ScanError::InvalidRegex(name, e));
            },
        }
        j += 1;
    }
    Ok(out)
}

/// Anchor-forces and compiles a list of `(name, pattern)` pairs, keeping
/// names, order, and duplicates; all or nothing.
pub fn prepare<'a>(patterns: &[(&'a str, &str)]) -> (r: Result<
    Vec<(&'a str, fancy_regex::Regex)>,
    ScanError,
>)
    ensures
        r is Ok <==> (forall|k: int|
            0 <= k < patterns@.len() ==> regex_compiles(forced(#[trigger] patterns@[k].1@))),
        r matches Ok(v) ==> {
            &&& v@.len() == patterns@.len()
            &&& forall|k: int|
                0 <= k < patterns@.len() ==> (#[trigger] v@[k].0)@ == patterns@[k].0@
                    && regex_pattern(v@[k].1) == forced(patterns@[k].1@)
        },
        r matches Err(e) ==> e matches ScanError::InvalidRegex(nm, _) && exists|k: int|
            0 <= k < patterns@.len() && !regex_compiles(forced(#[trigger] patterns@[k].1@)) && (
            forall|j: int| 0 <= j < k ==> regex_compiles(forced(#[trigger] patterns@[j].1@)))
                && nm@ == patterns@[k].0@,
{
    let adjusted = adjust(patterns);
    let r = compile(adjusted.as_slice());
    proof {
        let pv = patterns@;
        let av = adjusted@;
        assert forall|k: int| 0 <= k < pv.len() implies (#[trigger] av[k].1)@ == forced(pv[k].1@)
            && av[k].0@ == pv[k].0@ by {
            assert(av[k].0@ == pv[k].0@);
        }
        if forall|k: int| 0 <= k < av.len() ==> regex_compiles(#[trigger] av[k].1@) {
            assert forall|k: int|
                0 <= k < pv.len() implies regex_compiles(forced(#[trigger] pv[k].1@)) by {
                assert(regex_compiles(av[k].1@));
            }
        }
        if forall|k: int| 0 <= k < pv.len() ==> regex_compiles(forced(#[trigger] pv[k].1@)) {
            assert forall|k: int| 0 <= k < av.len() implies regex_compiles(#[trigger] av[k].1@) by {
                assert(regex_compiles(forced(pv[k].1@)));
            }
        }
        match &r {
            Ok(v) => {
                assert forall|k: int|
                    0 <= k < pv.len() implies (#[trigger] v@[k].0)@ == pv[k].0@ && regex_pattern(
                    v@[k].1,
                ) == forced(pv[k].1@) by {
                    assert(v@[k].0@ == av[k].0@);
                    assert(regex_pattern(v@[k].1) == av[k].1@);
                }
            },
            Err(e) => {
                match e {
                    ScanError::InvalidRegex(nm, _) => {
                        let k = choose|k: int|
                            0 <= k < av.len() && !regex_compiles(#[trigger] av[k].1@) && (
                            forall|j: int| 0 <= j < k ==> regex_compiles(#[trigger] av[j].1@))
                                && nm@ == av[k].0@;
                        assert(!regex_compiles(forced(pv[k].1@)));
                        assert forall|j: int| 0 <= j < k implies regex_compiles(
                            forced(#[trigger] pv[j].1@),
                        ) by {
                            assert(regex_compiles(av[j].1@));
                        }
                        assert(0 <= k < pv.len() && !regex_compiles(forced(pv[k].1@)) && (
                        forall|j: int|
                            0 <= j < k ==> regex_compiles(forced(#[trigger] pv[j].1@))) && nm@
                            == pv[k].0@);
                    },
                    ScanError::BadToken(_, _) => {
                        assert(false);
                    },
                }
            },
        }
    }
    r
}

/// How many times `c` occurs in `s`.
pub open spec fn count_char(s: Seq<char>, c: char) -> int
    decreases s.len(),
{
    if s.len() == 0 {
        0
    } else {
        count_char(s.drop_last(), c) + if s.last() == c {
            1int
        } else {
            0int
        }
    }
}

/// How many literal carets `s` holds: occurrences of `^` immediately
/// preceded by `[` or `\`.
pub open spec fn count_literal_carets(s: Seq<char>) -> int
    decreases s.len(),
{
    if s.len() == 0 {
        0
    } else {
        count_literal_carets(s.drop_last()) + if s.last() == '^' && !removable_caret(
            s,
            s.len() - 1,
        ) {
            1int
        } else {
            0int
        }
    }
}

/// The caret-preservation law: anchor stripping keeps exactly the literal
/// carets (those immediately preceded by `[` or `\`) and removes every
/// other caret, wherever it stands; characters other than `^` all survive.
pub proof fn lemma_literal_carets_survive(s: Seq<char>)
    ensures
        count_char(strip_anchors(s), '^') == count_literal_carets(s),
        forall|c: char| c != '^' ==> count_char(strip_anchors(s), c) == count_char(s, c),
    decreases s.len(),
{
    if s.len() > 0 {
        lemma_literal_carets_survive(s.drop_last());
        let t0 = strip_anchors(s.drop_last());
        let c0 = s.last();
        if removable_caret(s, s.len() - 1) {
            assert(strip_anchors(s) == t0);
            assert(c0 == '^');
            assert forall|c: char| c != '^' implies count_char(strip_anchors(s), c) == count_char(
                s,
                c,
            ) by {
                assert(count_char(t0, c) == count_char(s.drop_last(), c));
                assert(count_char(s, c) == count_char(s.drop_last(), c));
            }
        } else {
            let t = t0.push(c0);
            assert(strip_anchors(s) == t);
            assert(t.drop_last() =~= t0);
            assert(t.last() == c0);
            assert(count_char(t, '^') == count_char(t0, '^') + if c0 == '^' {
                1int
            } else {
                0int
            });
            assert forall|c: char| c != '^' implies count_char(strip_anchors(s), c) == count_char(
                s,
                c,
            ) by {
                assert(count_char(t, c) == count_char(t0, c) + if c0 == c {
                    1int
                } else {
                    0int
                });
                assert(count_char(s, c) == count_char(s.drop_last(), c) + if c0 == c {
                    1int
                } else {
                    0int
                });
            }
        }
    } else {
        assert forall|c: char| c != '^' implies count_char(strip_anchors(s), c) == count_char(
            s,
            c,
        ) by {}
    }
}

/// How many of the first `i` characters of `s` anchor stripping keeps.
pub open spec fn kept_before(s: Seq<char>, i: int) -> int {
    strip_anchors(s.take(i)).len() as int
}

/// The positional caret-preservation law: every character that anchor
/// stripping keeps -- in particular every literal caret -- reappears
/// unchanged at its exact output position, namely after all kept
/// characters before it; a removable caret corresponds to no output
/// position, since the output length counts kept characters only.
pub proof fn lemma_strip_anchors_positions(s: Seq<char>)
    ensures
        strip_anchors(s).len() == kept_before(s, s.len() as int),
        forall|i: int|
            0 <= i < s.len() && !removable_caret(s, i) ==> 0 <= #[trigger] kept_before(s, i)
                < strip_anchors(s).len() && strip_anchors(s)[kept_before(s, i)] == s[i],
    decreases s.len(),
{
    assert(s.take(s.len() as int) =~= s);
    if s.len() > 0 {
        let u = s.drop_last();
        lemma_strip_anchors_positions(u);
        let t0 = strip_anchors(u);
        let last = s.len() - 1;
        assert(s.take(last) =~= u);
        assert forall|i: int| 0 <= i <= last implies #[trigger] kept_before(s, i) == kept_before(
            u,
            i,
        ) by {
            assert(s.take(i) =~= u.take(i));
        }
        if removable_caret(s, last) {
            assert(strip_anchors(s) == t0);
            assert forall|i: int|
                0 <= i < s.len() && !removable_caret(s, i) implies 0 <= #[trigger] kept_before(
                s,
                i,
            ) < strip_anchors(s).len() && strip_anchors(s)[kept_before(s, i)] == s[i] by {
                assert(i < last);
                assert(removable_caret(u, i) == removable_caret(s, i));
                assert(u[i] == s[i]);
            }
        } else {
            let t = t0.push(s.last());
            assert(strip_anchors(s) == t);
            assert(t[t0.len() as int] == s[last]);
            assert forall|i: int|
                0 <= i < s.len() && !removable_caret(s, i) implies 0 <= #[trigger] kept_before(
                s,
                i,
            ) < strip_anchors(s).len() && strip_anchors(s)[kept_before(s, i)] == s[i] by {
                if i < last {
                    assert(removable_caret(u, i) == removable_caret(s, i));
                    assert(u[i] == s[i]);
                    assert(0 <= kept_before(u, i) < t0.len());
                    assert(t0[kept_before(u, i)] == u[i]);
                    assert(t[kept_before(s, i)] == t0[kept_before(s, i)]);
                } else {
                    assert(kept_before(s, last) == t0.len());
                }
            }
        }
    }
}

/// A stripped pattern has no removable caret left: every caret that
/// survives is immediately preceded by `[` or `\`.
proof fn lemma_strip_no_removable(s: Seq<char>)
    ensures
        forall|i: int|
            0 <= i < strip_anchors(s).len() ==> !removable_caret(strip_anchors(s), i),
    decreases s.len(),
{
    if s.len() > 0 {
        lemma_strip_no_removable(s.drop_last());
        let t0 = strip_anchors(s.drop_last());
        let t = strip_anchors(s);
        if !removable_caret(s, s.len() - 1) {
            let c = s.last();
            assert(t == t0.push(c));
            assert forall|i: int| 0 <= i < t.len() implies !removable_caret(t, i) by {
                if i < t0.len() {
                    assert(t[i] == t0[i]);
                    if i > 0 {
                        assert(t[i - 1] == t0[i - 1]);
                    }
                    assert(!removable_caret(t0, i));
                } else {
                    assert(t[i] == c);
                    if c == '^' {
                        let prev = s[s.len() - 2];
                        assert(prev == '[' || prev == '\\');
                        assert(s.drop_last().len() > 0);
                        assert(s.drop_last().last() == prev);
                        assert(!removable_caret(s.drop_last(), s.drop_last().len() - 1));
                        assert(t0 == strip_anchors(s.drop_last().drop_last()).push(prev));
                        assert(t0.len() > 0 && t0.last() == prev);
                        assert(t[i - 1] == prev);
                    }
                }
            }
        }
    }
}

/// Stripping leaves a caret-clean sequence unchanged.
proof fn lemma_strip_fixed(u: Seq<char>)
    requires
        forall|i: int| 0 <= i < u.len() ==> !removable_caret(u, i),
    ensures
        strip_anchors(u) == u,
    decreases u.len(),
{
    if u.len() > 0 {
        assert forall|i: int| 0 <= i < u.drop_last().len() implies !removable_caret(
            u.drop_last(),
            i,
        ) by {
            assert(u.drop_last()[i] == u[i]);
            if i > 0 {
                assert(u.drop_last()[i - 1] == u[i - 1]);
            }
            assert(!removable_caret(u, i));
        }
        lemma_strip_fixed(u.drop_last());
        assert(!removable_caret(u, u.len() - 1));
        assert(strip_anchors(u) == u.drop_last().push(u.last()));
        assert(strip_anchors(u) =~= u);
    }
}

/// Stripping a sequence whose interior carets are all literal and whose
/// first character is not a caret removes nothing from it.
proof fn lemma_strip_append_clean(q: Seq<char>, u: Seq<char>)
    requires
        u.len() > 0 ==> u[0] != '^',
        forall|i: int| 0 < i < u.len() ==> !removable_caret(u, i),
    ensures
        strip_anchors(q + u) == strip_anchors(q) + u,
    decreases u.len(),
{
    if u.len() == 0 {
        assert(q + u =~= q);
        assert(strip_anchors(q) + u =~= strip_anchors(q));
    } else {
        let u0 = u.drop_last();
        assert forall|i: int| 0 < i < u0.len() implies !removable_caret(u0, i) by {
            assert(u0[i] == u[i]);
            assert(u0[i - 1] == u[i - 1]);
            assert(!removable_caret(u, i));
        }
        if u0.len() > 0 {
            assert(u0[0] == u[0]);
        }
        lemma_strip_append_clean(q, u0);
        let w = q + u;
        assert(w.len() == q.len() + u.len());
        assert(w.drop_last() =~= q + u0);
        assert(w.last() == u.last());
        let last_i = w.len() - 1;
        assert(w[last_i] == u[u.len() - 1]);
        if u.len() == 1 {
            assert(w[last_i] == u[0]);
            assert(!removable_caret(w, last_i));
        } else {
            assert(!removable_caret(u, u.len() - 1));
            if w[last_i] == '^' {
                assert(u[u.len() - 2] == '[' || u[u.len() - 2] == '\\');
                assert(w[last_i - 1] == u[u.len() - 2]);
            }
            assert(!removable_caret(w, last_i));
        }
        assert(strip_anchors(w) == strip_anchors(q + u0).push(u.last()));
        assert(strip_anchors(q) + u =~= (strip_anchors(q) + u0).push(u.last()));
    }
}

/// The idempotence law for anchor forcing: stripping is idempotent, and
/// forcing an already-forced pattern only wraps the same stripped body in
/// one more non-capturing group -- `^(?:(?:<stripped>))` instead of
/// `^(?:<stripped>)` -- which the regex engine reads as the same anchored
/// pattern.
pub proof fn lemma_force_start_anchor_idempotent(s: Seq<char>)
    ensures
        strip_anchors(strip_anchors(s)) == strip_anchors(s),
        forced(forced(s)) == seq!['^', '(', '?', ':', '(', '?', ':'] + strip_anchors(s) + seq![
            ')',
            ')',
        ],
{
    let x = strip_anchors(s);
    lemma_strip_no_removable(s);
    lemma_strip_fixed(x);
    let head = seq!['^', '(', '?', ':'];
    assert(strip_anchors(Seq::<char>::empty()) == Seq::<char>::empty());
    let h1 = seq!['^'];
    let h2 = seq!['^', '('];
    let h3 = seq!['^', '(', '?'];
    assert(h1.drop_last() =~= Seq::<char>::empty());
    assert(strip_anchors(h1) =~= Seq::<char>::empty());
    assert(h2.drop_last() =~= h1);
    assert(strip_anchors(h2) =~= seq!['(']);
    assert(h3.drop_last() =~= h2);
    assert(strip_anchors(h3) =~= seq!['(', '?']);
    assert(head.drop_last() =~= h3);
    assert(strip_anchors(head) =~= seq!['(', '?', ':']);
    if x.len() > 0 {
        assert(!removable_caret(x, 0));
        assert(x[0] != '^');
    }
    lemma_strip_append_clean(head, x);
    assert(strip_anchors(head + x) == seq!['(', '?', ':'] + x);
    lemma_strip_append_clean(head + x, seq![')']);
    assert(forced(s) =~= (head + x) + seq![')']);
    assert(strip_anchors(forced(s)) == (seq!['(', '?', ':'] + x) + seq![')']);
    assert(forced(forced(s)) =~= seq!['^', '(', '?', ':', '(', '?', ':'] + x + seq![')', ')']);
}

} // verus!
