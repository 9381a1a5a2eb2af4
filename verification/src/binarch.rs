use vstd::prelude::*;

verus! {

use crate::magic::Kind;
use crate::magic::Rule;
use crate::magic::RuleModel;
use crate::magic::catalog;
use crate::magic::MAX_PATTERN_LEN;

/// The set of absolute byte offsets at which one kind of evidence was seen.
/// Offsets are deduplicated; insertion order carries no meaning.
pub struct MatchSet {
    items: Vec<usize>,
}

impl View for MatchSet {
    type V = Set<usize>;

    closed spec fn view(&self) -> Set<usize> {
        self.items@.to_set()
    }
}

impl MatchSet {
    #[verifier::type_invariant]
    spec fn inv(self) -> bool {
        self.items@.no_duplicates()
    }

    /// The empty set of offsets.
    pub fn new() -> (r: MatchSet)
        ensures
            r@ == Set::<usize>::empty(),
    {
        let r = MatchSet { items: Vec::new() };
        proof {
            assert(r@ =~= Set::<usize>::empty());
        }
        r
    }

    /// Records one offset; recording an offset twice changes nothing.
    pub fn insert(&mut self, q: usize)
        ensures
            final(self)@ == old(self)@.insert(q),
    {
        proof {
            use_type_invariant(&*self);
        }
        if !self.contains(q) {
            let mut items: Vec<usize> = Vec::new();
            std::mem::swap(&mut items, &mut self.items);
            items.push(q);
            self.items = items;
            proof {
                old(self).items@.lemma_push_to_set_commute(q);
            }
        }
        proof {
            assert(self@ =~= old(self)@.insert(q));
        }
    }

    /// Whether `q` was recorded.
    pub fn contains(&self, q: usize) -> (b: bool)
        ensures
            b == self@.contains(q),
    {
        let n = self.items.len();
        let mut i: usize = 0;
        while i < n
            invariant
                n == self.items@.len(),
                0 <= i <= n,
                forall|t: int| 0 <= t < i ==> self.items@[t] != q,
            decreases n - i,
        {
            if self.items[i] == q {
                return true;
            }
            i += 1;
        }
        proof {
            assert(!self.items@.contains(q));
        }
        false
    }

    /// The number of distinct offsets recorded.
    pub fn len(&self) -> (n: usize)
        ensures
            n == self@.len(),
            self@.finite(),
    {
        proof {
            use_type_invariant(&*self);
            self.items@.unique_seq_to_set();
            vstd::seq_lib::seq_to_set_is_finite(self.items@);
        }
        self.items.len()
    }

    /// Unions another set of offsets into this one.
    pub fn union_with(&mut self, other: &MatchSet)
        ensures
            final(self)@ == old(self)@ + other@,
    {
        proof {
            use_type_invariant(&*self);
            use_type_invariant(other);
        }
        let n = other.items.len();
        let mut i: usize = 0;
        while i < n
            invariant
                n == other.items@.len(),
                0 <= i <= n,
                self@ == old(self)@ + other.items@.take(i as int).to_set(),
            decreases n - i,
        {
            proof {
                use_type_invariant(&*self);
            }
            let q = other.items[i];
            self.insert(q);
            proof {
                other.items@.lemma_take_succ_push(i as int);
                other.items@.take(i as int).lemma_push_to_set_commute(q);
                assert(self@ =~= old(self)@ + other.items@.take(i + 1).to_set());
            }
            i += 1;
        }
        proof {
            assert(other.items@.take(n as int) =~= other.items@);
            assert(self@ =~= old(self)@ + other@);
        }
    }
}

/// Absolute offsets at which `rule` matches inside a window that starts at
/// absolute offset `offset` of the scanned buffer.
pub open spec fn rule_window_matches(rule: RuleModel, window: Seq<u8>, offset: int) -> Set<usize> {
    Set::new(|q: usize| q >= offset && rule.matches_at(window, q - offset))
}

/// Absolute offsets at which any catalog rule voting for `k` matches inside
/// the window: evidence for one kind from several rule shapes is pooled.
pub open spec fn kind_window_matches(
    cat: Seq<RuleModel>,
    window: Seq<u8>,
    offset: int,
    k: Kind,
) -> Set<usize> {
    Set::new(
        |q: usize|
            exists|i: int|
                0 <= i < cat.len() && (#[trigger] cat[i]).kind == k && q >= offset
                    && cat[i].matches_at(window, q - offset),
    )
}

/// The result mapping a scan of one window must produce: each kind with at
/// least one accepted match, sent to all of its absolute match offsets.
pub open spec fn window_map(cat: Seq<RuleModel>, window: Seq<u8>, offset: int) -> Map<
    Kind,
    Set<usize>,
> {
    Map::new(
        |k: Kind| exists|q: usize| kind_window_matches(cat, window, offset, k).contains(q),
        |k: Kind| kind_window_matches(cat, window, offset, k),
    )
}

/// The result mapping for a whole buffer. Every scan of the buffer, whatever
/// its chunk count, must return exactly this mapping. Every position where a
/// rule matches is recorded, overlapping occurrences of one rule included:
/// only a position-complete set can be independent of where chunks fall.
pub open spec fn scan_model(data: Seq<u8>) -> Map<Kind, Set<usize>> {
    window_map(catalog(), data, 0)
}

/// Merging two result mappings: offsets are unioned per kind, and no kind
/// and no offset recorded on either side is ever lost.
pub open spec fn merge_model(a: Map<Kind, Set<usize>>, b: Map<Kind, Set<usize>>) -> Map<
    Kind,
    Set<usize>,
> {
    Map::new(
        |k: Kind| a.dom().contains(k) || b.dom().contains(k),
        |k: Kind|
            if a.dom().contains(k) && b.dom().contains(k) {
                a[k] + b[k]
            } else if a.dom().contains(k) {
                a[k]
            } else {
                b[k]
            },
    )
}

/// Merging one kind's offsets into a result mapping.
pub open spec fn merge_one(m: Map<Kind, Set<usize>>, k: Kind, s: Set<usize>) -> Map<
    Kind,
    Set<usize>,
> {
    m.insert(k, if m.dom().contains(k) { m[k] + s } else { s })
}

spec fn results_has_key(s: Seq<(Kind, MatchSet)>, k: Kind) -> bool {
    exists|i: int| 0 <= i < s.len() && (#[trigger] s[i]).0 == k
}

spec fn results_key_at(s: Seq<(Kind, MatchSet)>, k: Kind) -> int {
    choose|i: int| 0 <= i < s.len() && (#[trigger] s[i]).0 == k
}

spec fn results_map(s: Seq<(Kind, MatchSet)>) -> Map<Kind, Set<usize>> {
    Map::new(|k: Kind| results_has_key(s, k), |k: Kind| s[results_key_at(s, k)].1@)
}

spec fn unique_keys(s: Seq<(Kind, MatchSet)>) -> bool {
    forall|i: int, j: int|
        0 <= i < j < s.len() ==> (#[trigger] s[i]).0 != (#[trigger] s[j]).0
}

/// An accumulated result mapping: for each kind, the set of absolute byte
/// offsets where some rule voting for that kind matched.
pub struct Binarch {
    results: Vec<(Kind, MatchSet)>,
}

impl View for Binarch {
    type V = Map<Kind, Set<usize>>;

    closed spec fn view(&self) -> Map<Kind, Set<usize>> {
        results_map(self.results@)
    }
}

impl Binarch {
    #[verifier::type_invariant]
    spec fn inv(self) -> bool {
        unique_keys(self.results@)
    }
}

impl Default for Binarch {
    /// The identity element of `reduce`: no evidence at all.
    fn default() -> (r: Binarch)
        ensures
            r@ == Map::<Kind, Set<usize>>::empty(),
    {
        let r = Binarch { results: Vec::new() };
        proof {
            assert(r@ =~~= Map::<Kind, Set<usize>>::empty());
        }
        r
    }
}

/// Unions `ms` into the entry for `k`, inserting the entry if it is new.
fn merge_entry(results: &mut Vec<(Kind, MatchSet)>, k: Kind, ms: MatchSet)
    requires
        unique_keys(old(results)@),
    ensures
        unique_keys(final(results)@),
        results_map(final(results)@) == merge_one(results_map(old(results)@), k, ms@),
{
    let ghost s0 = results@;
    let n = results.len();
    let mut i: usize = 0;
    while i < n
        invariant
            results@ == s0,
            s0 == old(results)@,
            n == s0.len(),
            0 <= i <= n,
            unique_keys(s0),
            forall|t: int| 0 <= t < i ==> (#[trigger] s0[t]).0 != k,
        decreases n - i,
    {
        if results[i].0 == k {
            let (ek, mut ems) = results.remove(i);
            ems.union_with(&ms);
            results.push((ek, ems));
            proof {
                assert forall|t: int| 0 <= t < i implies results@[t] == s0[t] by {
                    assert(s0.remove(i as int)[t] == s0[t]);
                }
                assert forall|t: int| i <= t < s0.len() - 1 implies results@[t] == s0[t + 1] by {
                    assert(s0.remove(i as int)[t] == s0[t + 1]);
                }
                lemma_update_entry(s0, results@, i as int, k, ms@);
            }
            return;
        }
        i += 1;
    }
    results.push((k, ms));
    proof {
        assert(!results_has_key(s0, k));
        assert forall|k2: Kind| #[trigger]
            results_map(results@).dom().contains(k2)
                == merge_one(results_map(s0), k, ms@).dom().contains(k2) && (results_map(
            results@,
        ).dom().contains(k2) ==> results_map(results@)[k2] == merge_one(results_map(s0), k, ms@)[k2]) by {
            if k2 == k {
                assert(results@[s0.len() as int].0 == k);
                assert(results_has_key(results@, k));
                let w = results_key_at(results@, k);
                assert(0 <= w < results@.len() && results@[w].0 == k);
                assert(w == s0.len());
            } else {
                if results_has_key(results@, k2) {
                    let w = results_key_at(results@, k2);
                    assert(0 <= w < results@.len() && results@[w].0 == k2);
                    assert(w < s0.len() && s0[w] == results@[w]);
                    assert(results_has_key(s0, k2));
                    let w0 = results_key_at(s0, k2);
                    assert(0 <= w0 < s0.len() && s0[w0].0 == k2);
                    assert(w0 == w);
                }
                if results_has_key(s0, k2) {
                    let w0 = results_key_at(s0, k2);
                    assert(results@[w0].0 == k2);
                    assert(results_has_key(results@, k2));
                }
            }
        }
        assert(results_map(results@) =~~= merge_one(results_map(s0), k, ms@));
    }
}

/// After removing the entry for `k` at index `i` of `s0` and pushing it
/// back with `extra` unioned in, the induced mapping is `merge_one` of the
/// old mapping.
proof fn lemma_update_entry(s0: Seq<(Kind, MatchSet)>, s1: Seq<(Kind, MatchSet)>, i: int, k: Kind, extra: Set<usize>)
    requires
        unique_keys(s0),
        0 <= i < s0.len(),
        s0[i].0 == k,
        s1.len() == s0.len(),
        forall|t: int| 0 <= t < i ==> s1[t] == s0[t],
        forall|t: int| i <= t < s0.len() - 1 ==> s1[t] == s0[t + 1],
        s1.last().0 == k,
        s1.last().1@ == s0[i].1@ + extra,
    ensures
        unique_keys(s1),
        results_map(s1) == merge_one(results_map(s0), k, extra),
{
    assert forall|a: int, b: int| 0 <= a < b < s1.len() implies (#[trigger] s1[a]).0 != (
    #[trigger] s1[b]).0 by {
        if b < s1.len() - 1 {
            let a0 = if a < i { a } else { a + 1 };
            let b0 = if b < i { b } else { b + 1 };
            assert(s1[a] == s0[a0] && s1[b] == s0[b0]);
        } else {
            let a0 = if a < i { a } else { a + 1 };
            assert(s1[a] == s0[a0]);
            assert(a0 != i);
        }
    }
    assert forall|k2: Kind|
        #![trigger results_map(s1).dom().contains(k2)]
        results_map(s1).dom().contains(k2) == merge_one(results_map(s0), k, extra).dom().contains(
            k2,
        ) && (results_map(s1).dom().contains(k2) ==> results_map(s1)[k2] == merge_one(
            results_map(s0),
            k,
            extra,
        )[k2]) by {
        if k2 == k {
            assert(s1[s1.len() - 1].0 == k);
            assert(results_has_key(s1, k));
            let w = results_key_at(s1, k);
            assert(0 <= w < s1.len() && s1[w].0 == k);
            assert(w == s1.len() - 1) by {
                if w < s1.len() - 1 {
                    let w0 = if w < i { w } else { w + 1 };
                    assert(s0[w0].0 == k);
                    assert(w0 != i ==> false);
                }
            }
            assert(results_has_key(s0, k));
            let w0 = results_key_at(s0, k);
            assert(0 <= w0 < s0.len() && s0[w0].0 == k);
            assert(w0 == i);
            assert(results_map(s1)[k2] == s0[i].1@ + extra);
        } else {
            if results_has_key(s1, k2) {
                let w = results_key_at(s1, k2);
                assert(0 <= w < s1.len() && s1[w].0 == k2);
                assert(w < s1.len() - 1);
                let w0 = if w < i { w } else { w + 1 };
                assert(s0[w0] == s1[w]);
                assert(results_has_key(s0, k2));
                let v0 = results_key_at(s0, k2);
                assert(0 <= v0 < s0.len() && s0[v0].0 == k2);
                assert(v0 == w0);
                assert(results_map(s1)[k2] == results_map(s0)[k2]);
            }
            if results_has_key(s0, k2) {
                let v0 = results_key_at(s0, k2);
                assert(0 <= v0 < s0.len() && s0[v0].0 == k2);
                assert(v0 != i);
                let w = if v0 < i { v0 } else { v0 - 1 };
                assert(s1[w] == s0[v0]);
                assert(results_has_key(s1, k2));
            }
        }
    }
    assert(results_map(s1) =~~= merge_one(results_map(s0), k, extra));
}

impl Binarch {
    /// Merges two partial results into one; no offset recorded in either is
    /// lost, and offsets for the same kind are pooled.
    pub fn reduce(a: Binarch, b: Binarch) -> (r: Binarch)
        ensures
            r@ == merge_model(a@, b@),
    {
        proof {
            use_type_invariant(&a);
            use_type_invariant(&b);
        }
        let ghost aview = a@;
        let ghost bseq = b.results@;
        let Binarch { results: mut results } = a;
        let Binarch { results: mut pending } = b;
        proof {
            assert(bseq.skip(bseq.len() as int) =~= Seq::<(Kind, MatchSet)>::empty());
            assert(results_map(bseq.skip(bseq.len() as int)) =~~= Map::<Kind, Set<usize>>::empty());
            assert(results_map(results@) =~~= merge_model(
                aview,
                results_map(bseq.skip(bseq.len() as int)),
            ));
        }
        while pending.len() > 0
            invariant
                unique_keys(results@),
                unique_keys(bseq),
                pending@.len() <= bseq.len(),
                pending@ == bseq.take(pending@.len() as int),
                results_map(results@) == merge_model(
                    aview,
                    results_map(bseq.skip(pending@.len() as int)),
                ),
            decreases pending@.len(),
        {
            let ghost n = pending@.len() as int;
            let (k, ms) = pending.pop().unwrap();
            proof {
                assert(bseq.take(n)[n - 1] == bseq[n - 1]);
                assert(k == bseq[n - 1].0 && ms == bseq[n - 1].1);
                assert(pending@ =~= bseq.take(n - 1));
                lemma_skip_one(bseq, n - 1);
                lemma_merge_one_fresh(aview, results_map(bseq.skip(n)), k, ms@);
            }
            merge_entry(&mut results, k, ms);
        }
        proof {
            assert(bseq.skip(0) =~= bseq);
        }
        Binarch { results }
    }
}

/// Peeling the entry at index `i` off the tail of a unique-keyed entry
/// sequence inserts that entry's kind into the induced mapping.
proof fn lemma_skip_one(s: Seq<(Kind, MatchSet)>, i: int)
    requires
        unique_keys(s),
        0 <= i < s.len(),
    ensures
        results_map(s.skip(i)) == merge_one(results_map(s.skip(i + 1)), s[i].0, s[i].1@),
        !results_map(s.skip(i + 1)).dom().contains(s[i].0),
{
    let tail = s.skip(i);
    let rest = s.skip(i + 1);
    assert forall|t: int| 0 <= t < tail.len() implies #[trigger] tail[t] == s[i + t] by {}
    assert forall|t: int| 0 <= t < rest.len() implies #[trigger] rest[t] == s[i + 1 + t] by {}
    assert(!results_has_key(rest, s[i].0)) by {
        if results_has_key(rest, s[i].0) {
            let w = results_key_at(rest, s[i].0);
            assert(0 <= w < rest.len() && rest[w].0 == s[i].0);
            assert(s[i + 1 + w].0 == s[i].0);
        }
    }
    assert forall|k2: Kind|
        #![trigger results_map(tail).dom().contains(k2)]
        results_map(tail).dom().contains(k2) == merge_one(results_map(rest), s[i].0, s[i].1@)
            .dom().contains(k2) && (results_map(tail).dom().contains(k2) ==> results_map(tail)[k2]
            == merge_one(results_map(rest), s[i].0, s[i].1@)[k2]) by {
        if k2 == s[i].0 {
            assert(tail[0] == s[i]);
            assert(results_has_key(tail, k2));
            let w = results_key_at(tail, k2);
            assert(0 <= w < tail.len() && tail[w].0 == k2);
            assert(w == 0) by {
                if w != 0 {
                    assert(s[i + w].0 == s[i].0);
                }
            }
            assert(results_map(tail)[k2] == s[i].1@);
        } else {
            if results_has_key(tail, k2) {
                let w = results_key_at(tail, k2);
                assert(0 <= w < tail.len() && tail[w].0 == k2);
                assert(w != 0);
                assert(rest[w - 1] == tail[w]);
                assert(results_has_key(rest, k2));
                let v = results_key_at(rest, k2);
                assert(0 <= v < rest.len() && rest[v].0 == k2);
                assert(v == w - 1) by {
                    if v != w - 1 {
                        assert(s[i + 1 + v].0 == s[i + w].0);
                    }
                }
            }
            if results_has_key(rest, k2) {
                let v = results_key_at(rest, k2);
                assert(tail[v + 1] == rest[v]);
                assert(results_has_key(tail, k2));
            }
        }
    }
    assert(results_map(tail) =~~= merge_one(results_map(rest), s[i].0, s[i].1@));
}

/// Collects the absolute offsets of all positions of `window` where `rule`
/// matches; `offset` is the absolute offset of the window's first byte.
fn scan_rule(rule: &Rule, window: &[u8], offset: usize) -> (ms: MatchSet)
    requires
        rule@.wf(),
        offset + window@.len() <= usize::MAX,
    ensures
        ms@ == rule_window_matches(rule@, window@, offset as int),
{
    let mut ms = MatchSet::new();
    let wlen = window.len();
    let rlen = rule.masks.len();
    if wlen < rlen {
        proof {
            assert(ms@ =~= rule_window_matches(rule@, window@, offset as int));
        }
        return ms;
    }
    let mut p: usize = 0;
    while p <= wlen - rlen
        invariant
            rule@.wf(),
            rlen == rule@.len(),
            wlen == window@.len(),
            rlen <= wlen,
            offset + wlen <= usize::MAX,
            0 <= p <= wlen - rlen + 1,
            ms@ == Set::new(
                |q: usize|
                    offset <= q < offset + p && rule@.matches_at(window@, q - offset),
            ),
        decreases wlen - rlen + 1 - p,
    {
        if crate::magic::rule_matches(rule, window, p) {
            ms.insert(offset + p);
        }
        proof {
            assert(ms@ =~= Set::new(
                |q: usize|
                    offset <= q < offset + p + 1 && rule@.matches_at(window@, q - offset),
            ));
        }
        p += 1;
    }
    proof {
        assert forall|q: usize| rule_window_matches(rule@, window@, offset as int).contains(q)
            implies ms@.contains(q) by {
            assert(q - offset + rlen <= wlen);
        }
        assert(ms@ =~= rule_window_matches(rule@, window@, offset as int));
    }
    ms
}

/// The entry that owns index `t` of a unique-keyed entry sequence is the one
/// the induced mapping reads for that entry's kind.
proof fn lemma_results_map_entry(s: Seq<(Kind, MatchSet)>, t: int)
    requires
        unique_keys(s),
        0 <= t < s.len(),
    ensures
        results_map(s).dom().contains(s[t].0),
        results_map(s)[s[t].0] == s[t].1@,
{
    assert(results_has_key(s, s[t].0));
    let w = results_key_at(s, s[t].0);
    assert(0 <= w < s.len() && s[w].0 == s[t].0);
    assert(w == t);
}

/// Extending the scanned catalog prefix by one rule extends the window's
/// result mapping by that rule's matches, when it has any.
proof fn lemma_window_map_step(cat: Seq<RuleModel>, window: Seq<u8>, offset: int, i: int)
    requires
        0 <= i < cat.len(),
    ensures
        (exists|q: usize| rule_window_matches(cat[i], window, offset).contains(q))
            ==> window_map(cat.take(i + 1), window, offset) == merge_one(
            window_map(cat.take(i), window, offset),
            cat[i].kind,
            rule_window_matches(cat[i], window, offset),
        ),
        !(exists|q: usize| rule_window_matches(cat[i], window, offset).contains(q))
            ==> window_map(cat.take(i + 1), window, offset) == window_map(
            cat.take(i),
            window,
            offset,
        ),
{
    let prev = cat.take(i);
    let cur = cat.take(i + 1);
    let rset = rule_window_matches(cat[i], window, offset);
    assert forall|k: Kind| #[trigger] kind_window_matches(cur, window, offset, k) == (if k
        == cat[i].kind {
        kind_window_matches(prev, window, offset, k) + rset
    } else {
        kind_window_matches(prev, window, offset, k)
    }) by {
        lemma_kind_set_step(cat, window, offset, i, k);
    }
    if exists|q: usize| rset.contains(q) {
        let q1 = choose|q: usize| rset.contains(q);
        let m1 = window_map(cur, window, offset);
        let m2 = merge_one(window_map(prev, window, offset), cat[i].kind, rset);
        assert(kind_window_matches(cur, window, offset, cat[i].kind).contains(q1));
        assert forall|k: Kind|
            #![trigger m1.dom().contains(k)]
            #![trigger m2.dom().contains(k)]
            m1.dom().contains(k) == m2.dom().contains(k) by {
            if k == cat[i].kind {
                assert(m1.dom().contains(k));
                assert(m2.dom().contains(k));
            } else {
                if m1.dom().contains(k) {
                    let qw = choose|q: usize|
                        kind_window_matches(cur, window, offset, k).contains(q);
                    assert(kind_window_matches(prev, window, offset, k).contains(qw));
                    assert(m2.dom().contains(k));
                }
                if m2.dom().contains(k) {
                    let qw = choose|q: usize|
                        kind_window_matches(prev, window, offset, k).contains(q);
                    assert(kind_window_matches(cur, window, offset, k).contains(qw));
                    assert(m1.dom().contains(k));
                }
            }
        }
        assert forall|k: Kind| m1.dom().contains(k) implies #[trigger] m1[k] =~~= m2[k] by {
            if k == cat[i].kind {
                if window_map(prev, window, offset).dom().contains(k) {
                    assert(m1[k] == m2[k]);
                } else {
                    assert(kind_window_matches(prev, window, offset, k) =~= Set::<
                        usize,
                    >::empty());
                    assert(kind_window_matches(cur, window, offset, k) =~= rset);
                    assert(m1[k] == m2[k]);
                }
            } else {
                let qw = choose|q: usize| kind_window_matches(cur, window, offset, k).contains(q);
                assert(kind_window_matches(prev, window, offset, k).contains(qw));
                assert(m2.dom().contains(k));
                assert(m1[k] == m2[k]);
            }
        }
        assert(m1.dom() =~~= m2.dom());
        assert(m1 =~~= m2);
    } else {
        let m1 = window_map(cur, window, offset);
        let m2 = window_map(prev, window, offset);
        assert forall|q: usize| !rset.contains(q) by {}
        assert forall|k: Kind|
            #![trigger m1.dom().contains(k)]
            #![trigger m2.dom().contains(k)]
            m1.dom().contains(k) == m2.dom().contains(k) by {
            if k == cat[i].kind {
                assert(kind_window_matches(prev, window, offset, k) + rset
                    =~= kind_window_matches(prev, window, offset, k));
            }
            if m1.dom().contains(k) {
                let qw = choose|q: usize| kind_window_matches(cur, window, offset, k).contains(q);
                assert(kind_window_matches(prev, window, offset, k).contains(qw));
                assert(m2.dom().contains(k));
            }
            if m2.dom().contains(k) {
                let qw = choose|q: usize| kind_window_matches(prev, window, offset, k).contains(q);
                assert(kind_window_matches(cur, window, offset, k).contains(qw));
                assert(m1.dom().contains(k));
            }
        }
        assert forall|k: Kind| m1.dom().contains(k) implies #[trigger] m1[k] =~~= m2[k] by {
            if k == cat[i].kind {
                assert(kind_window_matches(prev, window, offset, k) + rset
                    =~= kind_window_matches(prev, window, offset, k));
            }
            assert(m2.dom().contains(k));
            assert(m1[k] == m2[k]);
        }
        assert(m1.dom() =~~= m2.dom());
        assert(m1 =~~= m2);
    }
}

/// Scanning one more catalog rule adds exactly that rule's matches to the
/// offsets pooled for its kind, and changes no other kind.
proof fn lemma_kind_set_step(cat: Seq<RuleModel>, window: Seq<u8>, offset: int, i: int, k: Kind)
    requires
        0 <= i < cat.len(),
    ensures
        kind_window_matches(cat.take(i + 1), window, offset, k) == (if k == cat[i].kind {
            kind_window_matches(cat.take(i), window, offset, k) + rule_window_matches(
                cat[i],
                window,
                offset,
            )
        } else {
            kind_window_matches(cat.take(i), window, offset, k)
        }),
{
    let prev = cat.take(i);
    let cur = cat.take(i + 1);
    let rset = rule_window_matches(cat[i], window, offset);
    let rhs = if k == cat[i].kind {
        kind_window_matches(prev, window, offset, k) + rset
    } else {
        kind_window_matches(prev, window, offset, k)
    };
    assert forall|q: usize| kind_window_matches(cur, window, offset, k).contains(q)
        == rhs.contains(q) by {
        if kind_window_matches(cur, window, offset, k).contains(q) {
            let j = choose|j: int|
                0 <= j < cur.len() && (#[trigger] cur[j]).kind == k && q >= offset
                    && cur[j].matches_at(window, q - offset);
            assert(cur[j] == cat[j]);
            if j < i {
                assert(prev[j] == cat[j]);
                assert(kind_window_matches(prev, window, offset, k).contains(q));
            } else {
                assert(j == i);
                assert(rset.contains(q) && k == cat[i].kind);
            }
            assert(rhs.contains(q));
        }
        if kind_window_matches(prev, window, offset, k).contains(q) {
            let j = choose|j: int|
                0 <= j < prev.len() && (#[trigger] prev[j]).kind == k && q >= offset
                    && prev[j].matches_at(window, q - offset);
            assert(cur[j] == prev[j]);
            assert(kind_window_matches(cur, window, offset, k).contains(q));
        }
        if k == cat[i].kind && rset.contains(q) {
            assert(cur[i] == cat[i]);
            assert(kind_window_matches(cur, window, offset, k).contains(q));
        }
    }
    assert(kind_window_matches(cur, window, offset, k) =~= rhs);
}

impl Binarch {
    /// Scans one window whose first byte sits at absolute offset `offset`,
    /// applying every catalog rule and pooling matches per kind.
    pub fn new(offset: usize, window: &[u8]) -> (r: Binarch)
        requires
            offset + window@.len() <= usize::MAX,
        ensures
            r@ == window_map(catalog(), window@, offset as int),
    {
        let rules = crate::magic::magics();
        let mut results: Vec<(Kind, MatchSet)> = Vec::new();
        let n = rules.len();
        let mut i: usize = 0;
        proof {
            crate::magic::lemma_catalog_wf();
            assert(catalog().take(0) =~= Seq::<RuleModel>::empty());
            assert(results_map(results@) =~~= window_map(
                catalog().take(0),
                window@,
                offset as int,
            ));
        }
        while i < n
            invariant
                n == rules@.len(),
                n == catalog().len(),
                0 <= i <= n,
                offset + window@.len() <= usize::MAX,
                forall|t: int| 0 <= t < n ==> (#[trigger] rules@[t])@ =~= catalog()[t],
                forall|t: int| 0 <= t < n ==> (#[trigger] catalog()[t]).wf(),
                unique_keys(results@),
                results_map(results@) == window_map(catalog().take(i as int), window@, offset as int),
            decreases n - i,
        {
            let rule = &rules[i];
            let ms = scan_rule(rule, window, offset);
            proof {
                assert(rule@ == catalog()[i as int]);
                lemma_window_map_step(catalog(), window@, offset as int, i as int);
            }
            if ms.len() > 0 {
                proof {
                    use_type_invariant(&ms);
                    assert(ms@.contains(ms.items@[0])) by {
                        assert(ms.items@.len() > 0) by {
                            ms.items@.unique_seq_to_set();
                        }
                        assert(ms.items@.contains(ms.items@[0]));
                    }
                }
                merge_entry(&mut results, rule.kind, ms);
            } else {
                proof {
                    ms@.lemma_len0_is_empty();
                    assert(forall|q: usize| !ms@.contains(q));
                }
            }
            i += 1;
        }
        proof {
            assert(catalog().take(n as int) =~= catalog());
        }
        Binarch { results }
    }
}

/// A window is a faithful excerpt of the buffer: a rule matches the window
/// exactly where it matches the buffer, as far as the window reaches.
proof fn lemma_window_locality(rule: RuleModel, data: Seq<u8>, s: int, e: int, q: int)
    requires
        rule.wf(),
        0 <= s <= e <= data.len(),
    ensures
        rule.matches_at(data.subrange(s, e), q - s) == (s <= q && q + rule.len() <= e
            && rule.matches_at(data, q)),
{
    let w = data.subrange(s, e);
    if rule.matches_at(w, q - s) {
        assert forall|j: int| 0 <= j < rule.len() implies (data[q + j] & rule.masks[j])
            == rule.values[j] by {
            assert(w[q - s + j] == data[q + j]);
        }
    }
    if s <= q && q + rule.len() <= e && rule.matches_at(data, q) {
        assert forall|j: int| 0 <= j < rule.len() implies (w[q - s + j] & rule.masks[j])
            == rule.values[j] by {
            assert(w[q - s + j] == data[q + j]);
        }
    }
}

/// Every match a window reports is a match of the whole buffer.
proof fn lemma_window_sound(cat: Seq<RuleModel>, data: Seq<u8>, s: int, e: int, k: Kind, q: usize)
    requires
        0 <= s <= e <= data.len(),
        forall|i: int| 0 <= i < cat.len() ==> (#[trigger] cat[i]).wf(),
        kind_window_matches(cat, data.subrange(s, e), s, k).contains(q),
    ensures
        kind_window_matches(cat, data, 0, k).contains(q),
{
    let w = data.subrange(s, e);
    let j = choose|j: int|
        0 <= j < cat.len() && (#[trigger] cat[j]).kind == k && q >= s && cat[j].matches_at(
            w,
            q - s,
        );
    lemma_window_locality(cat[j], data, s, e, q as int);
    assert(cat[j].matches_at(data, q - 0));
}

/// A window sees every match of the buffer that starts inside it, as long
/// as the window either keeps the full overlap margin or runs to the end of
/// the buffer.
proof fn lemma_window_covers(
    cat: Seq<RuleModel>,
    data: Seq<u8>,
    s: int,
    e: int,
    k: Kind,
    q: usize,
)
    requires
        0 <= s <= e <= data.len(),
        forall|i: int| 0 <= i < cat.len() ==> (#[trigger] cat[i]).wf(),
        kind_window_matches(cat, data, 0, k).contains(q),
        s <= q,
        q + MAX_PATTERN_LEN <= e || e == data.len(),
    ensures
        kind_window_matches(cat, data.subrange(s, e), s, k).contains(q),
{
    let j = choose|j: int|
        0 <= j < cat.len() && (#[trigger] cat[j]).kind == k && q >= 0 && cat[j].matches_at(
            data,
            q - 0,
        );
    assert(cat[j].wf());
    assert(q + cat[j].len() <= e);
    lemma_window_locality(cat[j], data, s, e, q as int);
    assert(cat[j].matches_at(data.subrange(s, e), q - s));
}

/// The chunk length for a buffer of `len` bytes split into `num_chunks`
/// chunks: never shorter than the longest pattern, so that correctness wins
/// over parallel granularity.
pub open spec fn chunk_len_spec(len: int, num_chunks: int) -> int
    recommends
        num_chunks >= 1,
{
    if len / num_chunks < MAX_PATTERN_LEN as int {
        MAX_PATTERN_LEN as int
    } else {
        len / num_chunks
    }
}

/// Where a window that starts at `start` ends: one chunk plus the overlap
/// margin, clipped to the buffer.
pub open spec fn window_end_spec(start: int, cl: int, len: int) -> int {
    if start + cl + MAX_PATTERN_LEN as int <= len {
        start + cl + MAX_PATTERN_LEN as int
    } else {
        len
    }
}

/// Splits a buffer of `len` bytes into overlapping windows: starts step by
/// the chunk length, and each window carries `MAX_PATTERN_LEN` extra bytes
/// so that no match is lost at a chunk boundary.
pub fn plan(len: usize, num_chunks: usize) -> (windows: Vec<(usize, usize)>)
    requires
        num_chunks >= 1,
    ensures
        len == 0 ==> windows@.len() == 0,
        len > 0 ==> windows@.len() > 0 && windows@[0].0 == 0,
        forall|i: int| 0 <= i < windows@.len() ==> (#[trigger] windows@[i]).0 < len,
        forall|i: int|
            0 <= i < windows@.len() ==> (#[trigger] windows@[i]).1 == window_end_spec(
                windows@[i].0 as int,
                chunk_len_spec(len as int, num_chunks as int),
                len as int,
            ),
        forall|i: int|
            0 <= i < windows@.len() - 1 ==> (#[trigger] windows@[i + 1]).0 == windows@[i].0
                + chunk_len_spec(len as int, num_chunks as int),
        windows@.len() > 0 ==> windows@.last().0 + chunk_len_spec(len as int, num_chunks as int)
            >= len,
{
    let base = len / num_chunks;
    let cl = if base < MAX_PATTERN_LEN {
        MAX_PATTERN_LEN
    } else {
        base
    };
    let mut windows: Vec<(usize, usize)> = Vec::new();
    let mut start: usize = 0;
    while start < len
        invariant
            num_chunks >= 1,
            cl as int == chunk_len_spec(len as int, num_chunks as int),
            cl >= MAX_PATTERN_LEN,
            start <= len,
            windows@.len() == 0 ==> start == 0,
            windows@.len() > 0 ==> windows@[0].0 == 0,
            forall|i: int| 0 <= i < windows@.len() ==> (#[trigger] windows@[i]).0 < len,
            forall|i: int|
                0 <= i < windows@.len() ==> (#[trigger] windows@[i]).1 == window_end_spec(
                    windows@[i].0 as int,
                    cl as int,
                    len as int,
                ),
            forall|i: int|
                0 <= i < windows@.len() - 1 ==> (#[trigger] windows@[i + 1]).0 == windows@[i].0
                    + cl,
            windows@.len() > 0 ==> (windows@.last().0 + cl == start || (start == len
                && windows@.last().0 + cl >= len)),
        decreases len - start,
    {
        let rem = len - start;
        let end = if rem <= cl {
            len
        } else if rem - cl <= MAX_PATTERN_LEN {
            len
        } else {
            start + cl + MAX_PATTERN_LEN
        };
        windows.push((start, end));
        if rem <= cl {
            start = len;
        } else {
            start = start + cl;
        }
    }
    windows
}

/// How far the scan has come after `w` windows: every match that starts
/// below this offset has been folded into the accumulator.
spec fn covered_upto(windows: Seq<(usize, usize)>, w: int, cl: int) -> int {
    if w <= 0 {
        0
    } else {
        windows[w - 1].0 + cl
    }
}

impl Binarch {
    /// Scans the whole buffer: plans overlapping windows, scans each and
    /// folds the partial results. The result mapping depends on the buffer
    /// alone — the chunk count tunes parallel granularity, never the answer.
    pub fn scan(data: &[u8], num_chunks: usize) -> (r: Binarch)
        requires
            num_chunks >= 1,
        ensures
            r@ == scan_model(data@),
    {
        let len = data.len();
        let windows = plan(len, num_chunks);
        let ghost cl = chunk_len_spec(len as int, num_chunks as int);
        let ghost cat = catalog();
        let mut acc = Binarch::default();
        let n = windows.len();
        let mut w: usize = 0;
        proof {
            crate::magic::lemma_catalog_wf();
        }
        while w < n
            invariant
                n == windows@.len(),
                len == data@.len(),
                cl == chunk_len_spec(len as int, num_chunks as int),
                cat == catalog(),
                forall|i: int| 0 <= i < cat.len() ==> (#[trigger] cat[i]).wf(),
                0 <= w <= n,
                len == 0 ==> n == 0,
                len > 0 ==> n > 0 && windows@[0].0 == 0,
                forall|i: int| 0 <= i < n ==> (#[trigger] windows@[i]).0 < len,
                forall|i: int|
                    0 <= i < n ==> (#[trigger] windows@[i]).1 == window_end_spec(
                        windows@[i].0 as int,
                        cl,
                        len as int,
                    ),
                forall|i: int|
                    0 <= i < n - 1 ==> (#[trigger] windows@[i + 1]).0 == windows@[i].0 + cl,
                n > 0 ==> windows@.last().0 + cl >= len,
                forall|k: Kind, q: usize|
                    acc@.dom().contains(k) && #[trigger] acc@[k].contains(q)
                        ==> kind_window_matches(cat, data@, 0, k).contains(q),
                forall|k: Kind| #[trigger]
                    acc@.dom().contains(k) ==> exists|q: usize| acc@[k].contains(q),
                forall|k: Kind, q: usize|
                    #[trigger] kind_window_matches(cat, data@, 0, k).contains(q) && (q as int)
                        < covered_upto(windows@, w as int, cl) ==> acc@.dom().contains(k)
                        && acc@[k].contains(q),
            decreases n - w,
        {
            let (s, e) = windows[w];
            proof {
                assert(s == windows@[w as int].0 && e == windows@[w as int].1);
                assert(e == window_end_spec(s as int, cl, len as int));
                assert(s <= e <= len);
            }
            let window = vstd::slice::slice_subrange(data, s, e);
            let part = Binarch::new(s, window);
            let ghost accv = acc@;
            let ghost partv = part@;
            acc = Binarch::reduce(acc, part);
            proof {
                let wseq = data@.subrange(s as int, e as int);
                assert(window@ == wseq);
                assert(partv == window_map(cat, wseq, s as int));
                assert(acc@ == merge_model(accv, partv));
                // every offset the merged mapping holds is a real match
                assert forall|k: Kind, q: usize|
                    acc@.dom().contains(k) && #[trigger] acc@[k].contains(q) implies
                    kind_window_matches(cat, data@, 0, k).contains(q) by {
                    if accv.dom().contains(k) && accv[k].contains(q) {
                    } else {
                        assert(partv.dom().contains(k) && partv[k].contains(q));
                        assert(kind_window_matches(cat, wseq, s as int, k).contains(q));
                        lemma_window_sound(cat, data@, s as int, e as int, k, q);
                    }
                }
                // every kind the merged mapping holds has a witness offset
                assert forall|k: Kind| #[trigger] acc@.dom().contains(k) implies exists|q: usize|
                    acc@[k].contains(q) by {
                    if accv.dom().contains(k) {
                        let q = choose|q: usize| accv[k].contains(q);
                        assert(acc@[k].contains(q));
                    } else {
                        assert(partv.dom().contains(k));
                        let q = choose|q: usize|
                            kind_window_matches(cat, wseq, s as int, k).contains(q);
                        assert(partv[k].contains(q));
                        assert(acc@[k].contains(q));
                    }
                }
                // every match that starts before the next window start is in
                assert forall|k: Kind, q: usize|
                    #[trigger] kind_window_matches(cat, data@, 0, k).contains(q) && (q as int)
                        < covered_upto(windows@, w as int + 1, cl) implies acc@.dom().contains(k)
                        && acc@[k].contains(q) by {
                    if (q as int) < covered_upto(windows@, w as int, cl) {
                        assert(accv.dom().contains(k) && accv[k].contains(q));
                        assert(acc@.dom().contains(k) && acc@[k].contains(q));
                    } else {
                        assert(covered_upto(windows@, w as int, cl) == s as int) by {
                            if w > 0 {
                                assert(windows@[w as int - 1 + 1].0 == windows@[w as int - 1].0
                                    + cl);
                            } else {
                                assert(windows@[0].0 == 0);
                            }
                        }
                        assert(s <= q && (q as int) < s as int + cl);
                        assert(q + MAX_PATTERN_LEN <= e || e as int == data@.len()) by {
                            if (s as int) + cl + (MAX_PATTERN_LEN as int) <= len as int {
                                assert(e as int == s as int + cl + MAX_PATTERN_LEN as int);
                            } else {
                                assert(e == len);
                            }
                        }
                        lemma_window_covers(cat, data@, s as int, e as int, k, q);
                        assert(kind_window_matches(cat, wseq, s as int, k).contains(q));
                        assert(partv.dom().contains(k) && partv[k].contains(q));
                        assert(acc@.dom().contains(k) && acc@[k].contains(q));
                    }
                }
            }
            w += 1;
        }
        proof {
            let m = scan_model(data@);
            // everything that matches anywhere in the buffer is covered now
            assert forall|k: Kind, q: usize|
                #[trigger] kind_window_matches(cat, data@, 0, k).contains(q) implies
                acc@.dom().contains(k) && acc@[k].contains(q) by {
                let j = choose|j: int|
                    0 <= j < cat.len() && (#[trigger] cat[j]).kind == k && q >= 0
                        && cat[j].matches_at(data@, q - 0);
                assert(cat[j].wf());
                assert((q as int) < len as int);
                assert(covered_upto(windows@, n as int, cl) >= len as int);
            }
            assert forall|k: Kind|
                #![trigger acc@.dom().contains(k)]
                #![trigger m.dom().contains(k)]
                acc@.dom().contains(k) == m.dom().contains(k) by {
                if acc@.dom().contains(k) {
                    let q = choose|q: usize| acc@[k].contains(q);
                    assert(kind_window_matches(cat, data@, 0, k).contains(q));
                    assert(m.dom().contains(k));
                }
                if m.dom().contains(k) {
                    let q = choose|q: usize| kind_window_matches(cat, data@, 0, k).contains(q);
                    assert(acc@[k].contains(q));
                    assert(exists|q2: usize| acc@[k].contains(q2));
                    assert(acc@.dom().contains(k));
                }
            }
            assert forall|k: Kind| acc@.dom().contains(k) implies #[trigger] acc@[k] =~~= m[k] by {
                assert(acc@[k] =~= kind_window_matches(cat, data@, 0, k));
            }
            assert(acc@.dom() =~~= m.dom());
            assert(acc@ =~~= m);
        }
        acc
    }
}

impl Binarch {
    /// Classifies the merged evidence: the kind with the most match
    /// offsets wins; equal counts fall to the lowest architecture-then-
    /// endianness rank; no evidence at all gives `None`, not an error.
    pub fn result(&self) -> (r: Option<Kind>)
        ensures
            match r {
                None => self@.dom() == Set::<Kind>::empty(),
                Some(k) => self@.dom().contains(k) && forall|k2: Kind|
                    self@.dom().contains(k2) && k2 != k ==> self@[k2].len() < self@[k].len() || (
                    self@[k2].len() == self@[k].len() && crate::magic::kind_rank_spec(k)
                        < crate::magic::kind_rank_spec(k2)),
            },
    {
        proof {
            use_type_invariant(self);
        }
        let n = self.results.len();
        if n == 0 {
            proof {
                assert forall|k: Kind| !self@.dom().contains(k) by {}
                assert(self@.dom() =~= Set::<Kind>::empty());
            }
            return None;
        }
        let mut best_k = self.results[0].0;
        let mut best_c = self.results[0].1.len();
        let mut i: usize = 1;
        while i < n
            invariant
                unique_keys(self.results@),
                n == self.results@.len(),
                1 <= i <= n,
                exists|t: int|
                    0 <= t < i && (#[trigger] self.results@[t]).0 == best_k
                        && self.results@[t].1@.len() == best_c,
                forall|t: int|
                    0 <= t < i ==> (#[trigger] self.results@[t]).1@.len() < best_c || (
                    self.results@[t].1@.len() == best_c && crate::magic::kind_rank_spec(best_k)
                        <= crate::magic::kind_rank_spec(self.results@[t].0)),
            decreases n - i,
        {
            let c = self.results[i].1.len();
            let k = self.results[i].0;
            if c > best_c || (c == best_c && k.rank() < best_k.rank()) {
                best_k = k;
                best_c = c;
            }
            i += 1;
        }
        proof {
            let t = choose|t: int|
                0 <= t < n && (#[trigger] self.results@[t]).0 == best_k
                    && self.results@[t].1@.len() == best_c;
            lemma_results_map_entry(self.results@, t);
            assert(self@.dom().contains(best_k));
            assert forall|k2: Kind| self@.dom().contains(k2) && k2 != best_k implies
                self@[k2].len() < self@[best_k].len() || (self@[k2].len() == self@[best_k].len()
                    && crate::magic::kind_rank_spec(best_k) < crate::magic::kind_rank_spec(
                    k2,
                )) by {
                let u = results_key_at(self.results@, k2);
                assert(0 <= u < n && self.results@[u].0 == k2);
                lemma_results_map_entry(self.results@, u);
                if self@[k2].len() == best_c && crate::magic::kind_rank_spec(best_k)
                    == crate::magic::kind_rank_spec(k2) {
                    crate::magic::lemma_kind_rank_injective(best_k, k2);
                }
            }
        }
        Some(best_k)
    }

    /// How many distinct offsets support `k`; zero when the kind was
    /// never seen.
    pub fn count(&self, k: Kind) -> (c: usize)
        ensures
            self@.dom().contains(k) ==> c == self@[k].len(),
            !self@.dom().contains(k) ==> c == 0,
    {
        proof {
            use_type_invariant(self);
        }
        let n = self.results.len();
        let mut i: usize = 0;
        while i < n
            invariant
                unique_keys(self.results@),
                n == self.results@.len(),
                0 <= i <= n,
                forall|t: int| 0 <= t < i ==> (#[trigger] self.results@[t]).0 != k,
            decreases n - i,
        {
            if self.results[i].0 == k {
                proof {
                    lemma_results_map_entry(self.results@, i as int);
                }
                return self.results[i].1.len();
            }
            i += 1;
        }
        proof {
            assert(!results_has_key(self.results@, k));
        }
        0
    }

    /// Whether offset `q` was recorded as evidence for `k`.
    pub fn contains(&self, k: Kind, q: usize) -> (b: bool)
        ensures
            b == (self@.dom().contains(k) && self@[k].contains(q)),
    {
        proof {
            use_type_invariant(self);
        }
        let n = self.results.len();
        let mut i: usize = 0;
        while i < n
            invariant
                unique_keys(self.results@),
                n == self.results@.len(),
                0 <= i <= n,
                forall|t: int| 0 <= t < i ==> (#[trigger] self.results@[t]).0 != k,
            decreases n - i,
        {
            if self.results[i].0 == k {
                proof {
                    lemma_results_map_entry(self.results@, i as int);
                }
                return self.results[i].1.contains(q);
            }
            i += 1;
        }
        proof {
            assert(!results_has_key(self.results@, k));
        }
        false
    }

    /// The kinds seen, each with the number of distinct offsets supporting
    /// it; the caller orders and formats them.
    pub fn counts(&self) -> (list: Vec<(Kind, usize)>)
        ensures
            forall|i: int|
                0 <= i < list@.len() ==> self@.dom().contains((#[trigger] list@[i]).0)
                    && list@[i].1 == self@[list@[i].0].len(),
            forall|k: Kind| #[trigger]
                self@.dom().contains(k) ==> exists|i: int|
                    0 <= i < list@.len() && (#[trigger] list@[i]).0 == k,
    {
        proof {
            use_type_invariant(self);
        }
        let n = self.results.len();
        let mut list: Vec<(Kind, usize)> = Vec::new();
        let mut i: usize = 0;
        while i < n
            invariant
                unique_keys(self.results@),
                n == self.results@.len(),
                0 <= i <= n,
                list@.len() == i,
                forall|t: int|
                    0 <= t < i ==> (#[trigger] list@[t]).0 == self.results@[t].0 && list@[t].1
                        == self.results@[t].1@.len(),
            decreases n - i,
        {
            let c = self.results[i].1.len();
            list.push((self.results[i].0, c));
            i += 1;
        }
        proof {
            assert forall|t: int| 0 <= t < list@.len() implies self@.dom().contains(
                (#[trigger] list@[t]).0,
            ) && list@[t].1 == self@[list@[t].0].len() by {
                lemma_results_map_entry(self.results@, t);
            }
            assert forall|k: Kind| #[trigger] self@.dom().contains(k) implies exists|t: int|
                0 <= t < list@.len() && (#[trigger] list@[t]).0 == k by {
                let u = results_key_at(self.results@, k);
                assert(0 <= u < n && self.results@[u].0 == k);
                assert(list@[u].0 == k);
            }
        }
        list
    }
}

/// Merging result mappings is commutative: the operands contribute
/// symmetrically, so a fold may pair partial results in any order.
pub proof fn lemma_merge_commutative(a: Map<Kind, Set<usize>>, b: Map<Kind, Set<usize>>)
    ensures
        merge_model(a, b) == merge_model(b, a),
{
    let m1 = merge_model(a, b);
    let m2 = merge_model(b, a);
    assert(m1.dom() =~~= m2.dom());
    assert forall|k: Kind| m1.dom().contains(k) implies #[trigger] m1[k] =~~= m2[k] by {
        assert(m1[k] =~= m2[k]);
    }
    assert(m1 =~~= m2);
}

/// Merging result mappings is associative: a fold may group partial
/// results as a tree or as a chain and reach the same mapping.
pub proof fn lemma_merge_associative(
    a: Map<Kind, Set<usize>>,
    b: Map<Kind, Set<usize>>,
    c: Map<Kind, Set<usize>>,
)
    ensures
        merge_model(merge_model(a, b), c) == merge_model(a, merge_model(b, c)),
{
    let m1 = merge_model(merge_model(a, b), c);
    let m2 = merge_model(a, merge_model(b, c));
    assert(m1.dom() =~~= m2.dom());
    assert forall|k: Kind| m1.dom().contains(k) implies #[trigger] m1[k] =~~= m2[k] by {
        assert(m1[k] =~= m2[k]);
    }
    assert(m1 =~~= m2);
}

/// The two laws combined: merging in a swapped grouping loses nothing.
pub proof fn lemma_merge_exchange(
    a: Map<Kind, Set<usize>>,
    b: Map<Kind, Set<usize>>,
    c: Map<Kind, Set<usize>>,
)
    ensures
        merge_model(merge_model(a, b), c) == merge_model(merge_model(a, c), b),
{
    lemma_merge_associative(a, b, c);
    lemma_merge_commutative(b, c);
    lemma_merge_associative(a, c, b);
}

/// The empty mapping is the identity of merging.
pub proof fn lemma_merge_identity(a: Map<Kind, Set<usize>>)
    ensures
        merge_model(a, Map::<Kind, Set<usize>>::empty()) == a,
        merge_model(Map::<Kind, Set<usize>>::empty(), a) == a,
{
    let m1 = merge_model(a, Map::<Kind, Set<usize>>::empty());
    assert(m1.dom() =~~= a.dom());
    assert forall|k: Kind| m1.dom().contains(k) implies #[trigger] m1[k] =~~= a[k] by {
        assert(m1[k] =~= a[k]);
    }
    assert(m1 =~~= a);
    let m2 = merge_model(Map::<Kind, Set<usize>>::empty(), a);
    assert(m2.dom() =~~= a.dom());
    assert forall|k: Kind| m2.dom().contains(k) implies #[trigger] m2[k] =~~= a[k] by {
        assert(m2[k] =~= a[k]);
    }
    assert(m2 =~~= a);
}

/// A buffer holding exactly one instance of evidence for a kind yields a
/// match set of cardinality one for it — never zero for falling between
/// two chunks, never two for sitting inside the overlap of both.
pub proof fn lemma_single_instance(data: Seq<u8>, k: Kind, q: usize)
    requires
        kind_window_matches(catalog(), data, 0, k) == set![q],
    ensures
        scan_model(data).dom().contains(k),
        scan_model(data)[k] == set![q],
        scan_model(data)[k].len() == 1,
{
    assert(kind_window_matches(catalog(), data, 0, k).contains(q));
    assert(scan_model(data).dom().contains(k));
    assert(set![q].len() == 1);
}

/// A buffer in which no rule matches anywhere — all zero bytes, for one —
/// produces the empty result mapping, which classifies as unknown.
pub proof fn lemma_no_evidence(data: Seq<u8>)
    requires
        forall|k: Kind, q: usize|
            !(#[trigger] kind_window_matches(catalog(), data, 0, k).contains(q)),
    ensures
        scan_model(data) == Map::<Kind, Set<usize>>::empty(),
{
    assert forall|k: Kind| !scan_model(data).dom().contains(k) by {}
    assert(scan_model(data).dom() =~= Set::<Kind>::empty());
    assert(scan_model(data) =~~= Map::<Kind, Set<usize>>::empty());
}

/// The empty buffer holds no evidence: every pattern spans at least one
/// byte, so nothing can match, and the classification is unknown.
pub proof fn lemma_empty_buffer()
    ensures
        scan_model(Seq::<u8>::empty()) == Map::<Kind, Set<usize>>::empty(),
{
    crate::magic::lemma_catalog_wf();
    let data = Seq::<u8>::empty();
    assert forall|k: Kind, q: usize|
        !(#[trigger] kind_window_matches(catalog(), data, 0, k).contains(q)) by {
        if kind_window_matches(catalog(), data, 0, k).contains(q) {
            let j = choose|j: int|
                0 <= j < catalog().len() && (#[trigger] catalog()[j]).kind == k && q >= 0
                    && catalog()[j].matches_at(data, q - 0);
            assert(catalog()[j].wf());
        }
    }
    lemma_no_evidence(data);
}

/// Folding one more kind into an accumulated merge: merging `b` extended by
/// a kind it did not yet hold equals merging `b` and then that kind.
proof fn lemma_merge_one_fresh(a: Map<Kind, Set<usize>>, b: Map<Kind, Set<usize>>, k: Kind, s: Set<usize>)
    requires
        !b.dom().contains(k),
    ensures
        merge_model(a, merge_one(b, k, s)) == merge_one(merge_model(a, b), k, s),
{
    assert(merge_model(a, merge_one(b, k, s)) =~~= merge_one(merge_model(a, b), k, s));
}

} // verus!
