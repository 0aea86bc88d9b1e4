//! Negotiation: the order in which weighted patterns are tried, and what
//! they draw, one after the other, from a pool of candidates.

use crate::pattern::{glob_compiles, glob_matches, pattern_source};
use crate::pool::{
    lemma_increasing_no_duplicates, lemma_lists_is_sorted_listing, lemma_sorted_listing,
    lemma_sorted_lists, sort_strings, sorted_listing, strings_view, CandidatePool,
};
use crate::quality::{lemma_magnitude_is_value_order, Decimal, Quality};
use vstd::prelude::*;

verus! {

/// A pattern with the quality that the client gave it. Only entries whose
/// quality is greater than zero are weighed against each other, so that what
/// is compared is how far a quality is from zero.
pub type Weighted = (Seq<char>, Decimal);

/// What `entries` hold, entry by entry.
pub open spec fn weighted_view(entries: Seq<(String, Quality)>) -> Seq<Weighted> {
    entries.map_values(|entry: (String, Quality)| (entry.0@, entry.1@))
}

/// `sorted` with `entry` entered before the first entry of greater quality,
/// and so behind those of the same quality.
pub open spec fn insert_by_quality(sorted: Seq<Weighted>, entry: Weighted) -> Seq<Weighted>
    decreases sorted.len(),
{
    if sorted.len() > 0 && entry.1.magnitude_lt(sorted.last().1) {
        insert_by_quality(sorted.drop_last(), entry).push(sorted.last())
    } else {
        sorted.push(entry)
    }
}

/// `entries` by ascending quality, entries of the same quality in the order
/// of `entries`.
pub open spec fn ascending(entries: Seq<Weighted>) -> Seq<Weighted>
    decreases entries.len(),
{
    if entries.len() == 0 {
        Seq::empty()
    } else {
        insert_by_quality(ascending(entries.drop_last()), entries.last())
    }
}

/// The patterns of `entries` in the order in which they are tried: the
/// ascending order turned round. The quality descends, and of entries with the
/// same quality the one that `entries` gives later is tried first.
pub open spec fn ranked(entries: Seq<Weighted>) -> Seq<Seq<char>> {
    ascending(entries).reverse().map_values(|entry: Weighted| entry.0)
}

/// Whether the quality never falls from one entry of `entries` to a later
/// one.
pub open spec fn quality_rises(entries: Seq<Weighted>) -> bool {
    forall|i: int, j: int|
        0 <= i < j < entries.len() ==> !(#[trigger] entries[j]).1.magnitude_lt(
            (#[trigger] entries[i]).1,
        )
}

/// Whether the quality of every entry of `entries` is in normal form.
pub open spec fn normal_qualities(entries: Seq<Weighted>) -> bool {
    forall|i: int| 0 <= i < entries.len() ==> (#[trigger] entries[i]).1.is_normal()
}

/// Of three numbers, where the first is not nearer to zero than the second
/// and the second not nearer than the third, the first is not nearer than the
/// third; and of two numbers not each is nearer than the other.
proof fn lemma_magnitude_order(a: Decimal, b: Decimal, c: Decimal)
    requires
        a.is_normal(),
        b.is_normal(),
        c.is_normal(),
    ensures
        !a.magnitude_lt(b) && !b.magnitude_lt(c) ==> !a.magnitude_lt(c),
        a.magnitude_lt(b) ==> !b.magnitude_lt(a),
{
    let scale = a.fraction.len() + b.fraction.len() + c.fraction.len();
    lemma_magnitude_is_value_order(a, b, scale);
    lemma_magnitude_is_value_order(b, c, scale);
    lemma_magnitude_is_value_order(a, c, scale);
    lemma_magnitude_is_value_order(b, a, scale);
}

/// To enter an entry keeps the qualities rising; what is there afterwards is
/// that entry and what was there before.
proof fn lemma_insert_by_quality_rises(sorted: Seq<Weighted>, entry: Weighted)
    requires
        quality_rises(sorted),
        normal_qualities(sorted),
        entry.1.is_normal(),
    ensures
        quality_rises(insert_by_quality(sorted, entry)),
        normal_qualities(insert_by_quality(sorted, entry)),
        forall|k: int|
            0 <= k < insert_by_quality(sorted, entry).len() ==> (#[trigger] insert_by_quality(
                sorted,
                entry,
            )[k]) == entry || sorted.contains(insert_by_quality(sorted, entry)[k]),
    decreases sorted.len(),
{
    let r = insert_by_quality(sorted, entry);
    if sorted.len() > 0 && entry.1.magnitude_lt(sorted.last().1) {
        let init = sorted.drop_last();
        let last = sorted.last();
        assert forall|i: int, j: int| 0 <= i < j < init.len() implies !(#[trigger] init[j]).1.magnitude_lt(
            (#[trigger] init[i]).1,
        ) by {
            assert(init[i] == sorted[i] && init[j] == sorted[j]);
        }
        assert forall|i: int| 0 <= i < init.len() implies (#[trigger] init[i]).1.is_normal() by {
            assert(init[i] == sorted[i]);
        }
        lemma_insert_by_quality_rises(init, entry);
        let inner = insert_by_quality(init, entry);
        assert(r == inner.push(last));
        assert forall|k: int| 0 <= k < r.len() implies (#[trigger] r[k]) == entry
            || sorted.contains(r[k]) by {
            if k < inner.len() {
                assert(r[k] == inner[k]);
                if inner[k] != entry {
                    let m = choose|m: int| 0 <= m < init.len() && init[m] == inner[k];
                    assert(sorted[m] == r[k]);
                }
            } else {
                assert(sorted[sorted.len() - 1] == r[k]);
            }
        }
        assert forall|i: int, j: int| 0 <= i < j < r.len() implies !(#[trigger] r[j]).1.magnitude_lt(
            (#[trigger] r[i]).1,
        ) by {
            if j < inner.len() {
                assert(r[i] == inner[i] && r[j] == inner[j]);
            } else {
                assert(r[j] == last && r[i] == inner[i]);
                assert(last == sorted[sorted.len() - 1]);
                if inner[i] == entry {
                    lemma_magnitude_order(entry.1, last.1, last.1);
                } else {
                    let m = choose|m: int| 0 <= m < init.len() && init[m] == inner[i];
                    assert(sorted[m] == inner[i]);
                }
            }
        }
        assert forall|i: int| 0 <= i < r.len() implies (#[trigger] r[i]).1.is_normal() by {
            if i < inner.len() {
                assert(r[i] == inner[i]);
            } else {
                assert(r[i] == sorted[sorted.len() - 1]);
            }
        }
    } else {
        assert(r == sorted.push(entry));
        assert forall|k: int| 0 <= k < r.len() implies (#[trigger] r[k]) == entry
            || sorted.contains(r[k]) by {
            if k < sorted.len() {
                assert(sorted[k] == r[k]);
            }
        }
        assert forall|i: int, j: int| 0 <= i < j < r.len() implies !(#[trigger] r[j]).1.magnitude_lt(
            (#[trigger] r[i]).1,
        ) by {
            if j < sorted.len() {
                assert(r[i] == sorted[i] && r[j] == sorted[j]);
            } else {
                assert(r[j] == entry && r[i] == sorted[i]);
                let last = sorted[sorted.len() - 1];
                if i < sorted.len() - 1 {
                    lemma_magnitude_order(entry.1, last.1, sorted[i].1);
                }
            }
        }
        assert forall|i: int| 0 <= i < r.len() implies (#[trigger] r[i]).1.is_normal() by {
            if i < sorted.len() {
                assert(r[i] == sorted[i]);
            }
        }
    }
}

/// In the ascending order the quality never falls.
pub proof fn lemma_ascending_rises(entries: Seq<Weighted>)
    requires
        normal_qualities(entries),
    ensures
        quality_rises(ascending(entries)),
        normal_qualities(ascending(entries)),
    decreases entries.len(),
{
    if entries.len() > 0 {
        let init = entries.drop_last();
        assert forall|i: int| 0 <= i < init.len() implies (#[trigger] init[i]).1.is_normal() by {
            assert(init[i] == entries[i]);
        }
        lemma_ascending_rises(init);
        assert(entries[entries.len() - 1].1.is_normal());
        lemma_insert_by_quality_rises(ascending(init), entries.last());
    }
}

/// The entries of `entries` at the indices `order`.
pub open spec fn picked(entries: Seq<Weighted>, order: Seq<usize>) -> Seq<Weighted> {
    Seq::new(order.len(), |k: int| entries[order[k] as int])
}

/// Entering an entry makes the sequence one longer.
pub proof fn lemma_insert_by_quality_len(sorted: Seq<Weighted>, entry: Weighted)
    ensures
        insert_by_quality(sorted, entry).len() == sorted.len() + 1,
    decreases sorted.len(),
{
    if sorted.len() > 0 && entry.1.magnitude_lt(sorted.last().1) {
        lemma_insert_by_quality_len(sorted.drop_last(), entry);
    }
}

/// The ascending order of `entries` has as many entries as `entries`.
pub proof fn lemma_ascending_len(entries: Seq<Weighted>)
    ensures
        ascending(entries).len() == entries.len(),
    decreases entries.len(),
{
    if entries.len() > 0 {
        lemma_ascending_len(entries.drop_last());
        lemma_insert_by_quality_len(ascending(entries.drop_last()), entries.last());
    }
}

/// The order in which the patterns of `entries` are tried: by descending
/// quality, and among entries of the same quality the later one first. The
/// entries are sorted by ascending quality, those of the same quality staying
/// in their order, and the result is turned round.
pub fn rank(entries: &Vec<(String, Quality)>) -> (patterns: Vec<String>)
    ensures
        strings_view(patterns@) == ranked(weighted_view(entries@)),
{
    let ghost all = weighted_view(entries@);
    let mut order: Vec<usize> = Vec::new();
    let mut i: usize = 0;
    assert(all.take(0) == Seq::<Weighted>::empty());
    assert(picked(all, order@) == Seq::<Weighted>::empty());
    while i < entries.len()
        invariant
            i <= entries.len(),
            all == weighted_view(entries@),
            order.len() == i,
            forall|k: int| 0 <= k < order.len() ==> #[trigger] order[k] < entries.len(),
            picked(all, order@) == ascending(all.take(i as int)),
        decreases entries.len() - i,
    {
        let ghost before = picked(all, order@);
        let ghost entry = all[i as int];
        let mut k: usize = order.len();
        assert(before.take(k as int) == before && before.skip(k as int) == Seq::<
            Weighted,
        >::empty());
        assert(insert_by_quality(before, entry) + Seq::<Weighted>::empty() == insert_by_quality(
            before,
            entry,
        ));
        while k > 0 && entries[i].1.magnitude_lt(&entries[order[k - 1]].1)
            invariant
                k <= order.len(),
                i < entries.len(),
                all == weighted_view(entries@),
                entry == all[i as int],
                before == picked(all, order@),
                forall|j: int| 0 <= j < order.len() ==> #[trigger] order[j] < entries.len(),
                insert_by_quality(before, entry) == insert_by_quality(before.take(k as int), entry)
                    + before.skip(k as int),
            decreases k,
        {
            proof {
                let head = before.take(k as int);
                assert(head.last() == before[k - 1]);
                assert(head.last().1 == entries@[order[k - 1] as int].1@);
                assert(head.drop_last() == before.take(k - 1));
                assert(insert_by_quality(head, entry) == insert_by_quality(
                    head.drop_last(),
                    entry,
                ).push(head.last()));
                assert(before.skip(k - 1) == seq![head.last()] + before.skip(k as int));
                assert(insert_by_quality(head.drop_last(), entry).push(head.last()) + before.skip(
                    k as int,
                ) == insert_by_quality(head.drop_last(), entry) + before.skip(k - 1));
            }
            k = k - 1;
        }
        proof {
            let head = before.take(k as int);
            if k > 0 {
                assert(head.last() == before[k - 1]);
                assert(head.last().1 == entries@[order[k - 1] as int].1@);
            }
            assert(insert_by_quality(head, entry) == head.push(entry));
            assert(all.take(i + 1).drop_last() == all.take(i as int));
            assert(all.take(i + 1).last() == entry);
        }
        order.insert(k, i);
        assert(picked(all, order@) == before.take(k as int).push(entry) + before.skip(k as int));
        i = i + 1;
    }
    assert(all.take(entries.len() as int) == all);
    proof {
        lemma_ascending_len(all);
    }
    let ghost sorted = ascending(all);
    let mut patterns: Vec<String> = Vec::new();
    let mut left: usize = order.len();
    while left > 0
        invariant
            left <= order.len(),
            order.len() == entries.len(),
            all == weighted_view(entries@),
            sorted == picked(all, order@),
            forall|j: int| 0 <= j < order.len() ==> #[trigger] order[j] < entries.len(),
            patterns.len() == order.len() - left,
            forall|j: int|
                0 <= j < patterns.len() ==> (#[trigger] patterns[j])@ == sorted[order.len() - 1
                    - j].0,
        decreases left,
    {
        left = left - 1;
        patterns.push(entries[order[left]].0.clone());
    }
    assert(strings_view(patterns@) =~= ranked(all));
    patterns
}

/// Why a negotiation gave no result.
#[derive(Debug, Clone, Copy, PartialEq, Eq, Structural)]
pub enum NegotiationError {
    /// The quality of an entry is not a decimal number.
    MalformedQuality,
    /// A pattern that takes part is not a glob pattern.
    InvalidPattern,
}

/// Whether every pattern of `patterns` is a glob pattern.
pub open spec fn all_compile(patterns: Seq<Seq<char>>) -> bool {
    forall|i: int| 0 <= i < patterns.len() ==> glob_compiles(#[trigger] patterns[i])
}

/// The candidates of `pool` that `pattern` matches.
pub open spec fn matching(pattern: Seq<char>, pool: Set<Seq<char>>) -> Set<Seq<char>> {
    pool.filter(|candidate: Seq<char>| glob_matches(pattern, candidate))
}

/// What the patterns `patterns`, tried in turn, draw from `pool`: for each
/// pattern the candidates that it matches among those still in the pool, in
/// ascending order; they leave the pool before the next pattern is tried.
pub open spec fn negotiation(patterns: Seq<Seq<char>>, pool: Set<Seq<char>>) -> Seq<Seq<char>>
    decreases patterns.len(),
{
    if patterns.len() == 0 {
        Seq::empty()
    } else {
        let batch = matching(patterns[0], pool);
        sorted_listing(batch) + negotiation(patterns.drop_first(), pool.difference(batch))
    }
}

/// No candidate is offered twice, however many patterns match it, and
/// nothing is offered that the pool does not hold.
pub proof fn lemma_negotiation_offers_once(patterns: Seq<Seq<char>>, pool: Set<Seq<char>>)
    requires
        pool.finite(),
    ensures
        negotiation(patterns, pool).no_duplicates(),
        forall|x: Seq<char>| negotiation(patterns, pool).contains(x) ==> pool.contains(x),
    decreases patterns.len(),
{
    if patterns.len() > 0 {
        let batch = matching(patterns[0], pool);
        let left = pool.difference(batch);
        let head = sorted_listing(batch);
        let tail = negotiation(patterns.drop_first(), left);
        pool.lemma_len_filter(|candidate: Seq<char>| glob_matches(patterns[0], candidate));
        lemma_sorted_listing(batch);
        lemma_increasing_no_duplicates(head);
        lemma_negotiation_offers_once(patterns.drop_first(), left);
        assert forall|i: int, j: int| 0 <= i < head.len() && 0 <= j < tail.len() implies head[i]
            != tail[j] by {
            assert(head.contains(head[i]));
            assert(batch.contains(head[i]));
            assert(tail.contains(tail[j]));
            assert(left.contains(tail[j]));
        }
        vstd::seq_lib::lemma_no_dup_in_concat(head, tail);
        assert forall|x: Seq<char>| (head + tail).contains(x) implies pool.contains(x) by {
            let i = choose|i: int| 0 <= i < (head + tail).len() && (head + tail)[i] == x;
            if i < head.len() {
                assert(head[i] == x);
                assert(head.contains(x));
                assert(batch.contains(x));
            } else {
                assert(tail[i - head.len()] == x);
                assert(tail.contains(x));
                assert(left.contains(x));
            }
        }
    }
}

/// The elements of `items` whose flag is set, in the order of `items`.
pub open spec fn selected(items: Seq<Seq<char>>, flags: Seq<bool>) -> Seq<Seq<char>>
    decreases items.len(),
{
    if items.len() == 0 {
        Seq::empty()
    } else if flags[items.len() - 1] {
        selected(items.drop_last(), flags).push(items.last())
    } else {
        selected(items.drop_last(), flags)
    }
}

/// Of distinct `items` flagged by whether `pattern` matches them, the
/// selected ones are distinct, and they are the matching ones.
pub proof fn lemma_selected_matching(items: Seq<Seq<char>>, flags: Seq<bool>, pattern: Seq<char>)
    requires
        items.no_duplicates(),
        flags.len() >= items.len(),
        forall|i: int| 0 <= i < items.len() ==> flags[i] == glob_matches(pattern, #[trigger] items[i]),
    ensures
        selected(items, flags).no_duplicates(),
        selected(items, flags).to_set() == matching(pattern, items.to_set()),
    decreases items.len(),
{
    let chosen = selected(items, flags);
    if items.len() == 0 {
        assert(chosen.to_set() =~= matching(pattern, items.to_set()));
    } else {
        let init = items.drop_last();
        let last = items.last();
        assert forall|i: int| 0 <= i < init.len() implies flags[i] == glob_matches(
            pattern,
            #[trigger] init[i],
        ) by {
            assert(init[i] == items[i]);
        }
        lemma_selected_matching(init, flags, pattern);
        let inner = selected(init, flags);
        assert(!init.contains(last)) by {
            if init.contains(last) {
                let i = choose|i: int| 0 <= i < init.len() && init[i] == last;
                assert(items[i] == items[items.len() - 1]);
            }
        }
        assert(!inner.contains(last)) by {
            if inner.contains(last) {
                assert(inner.to_set().contains(last));
            }
        }
        assert forall|x: Seq<char>| chosen.contains(x) <==> matching(
            pattern,
            items.to_set(),
        ).contains(x) by {
            if chosen.contains(x) {
                let i = choose|i: int| 0 <= i < chosen.len() && chosen[i] == x;
                if i < inner.len() {
                    assert(inner[i] == x);
                    assert(inner.to_set().contains(x));
                    let j = choose|j: int| 0 <= j < init.len() && init[j] == x;
                    assert(items[j] == x);
                } else {
                    assert(items[items.len() - 1] == x);
                }
            }
            if matching(pattern, items.to_set()).contains(x) {
                let j = choose|j: int| 0 <= j < items.len() && items[j] == x;
                if j < init.len() {
                    assert(init[j] == x);
                    assert(matching(pattern, init.to_set()).contains(x));
                    assert(inner.to_set().contains(x));
                    let i = choose|i: int| 0 <= i < inner.len() && inner[i] == x;
                    assert(chosen[i] == x);
                } else {
                    assert(chosen[chosen.len() - 1] == x);
                }
            }
        }
        assert(chosen.to_set() =~= matching(pattern, items.to_set()));
    }
}

/// The strings of `items` whose flag is set, in the order of `items`.
pub fn select(items: &Vec<String>, flags: &Vec<bool>) -> (chosen: Vec<String>)
    requires
        flags.len() == items.len(),
    ensures
        strings_view(chosen@) == selected(strings_view(items@), flags@),
{
    let ghost all = strings_view(items@);
    let mut chosen: Vec<String> = Vec::new();
    let mut i: usize = 0;
    assert(all.take(0) == Seq::<Seq<char>>::empty());
    while i < items.len()
        invariant
            i <= items.len(),
            flags.len() == items.len(),
            all == strings_view(items@),
            strings_view(chosen@) == selected(all.take(i as int), flags@),
        decreases items.len() - i,
    {
        let ghost before = strings_view(chosen@);
        assert(all.take(i + 1).drop_last() == all.take(i as int));
        assert(all.take(i + 1).last() == items@[i as int]@);
        if flags[i] {
            chosen.push(items[i].clone());
            assert(strings_view(chosen@) == before.push(items@[i as int]@));
        }
        i = i + 1;
    }
    assert(all.take(items.len() as int) == all);
    chosen
}

/// For each string of `items`, whether `pattern` matches it.
fn match_flags(pattern: &glob::Pattern, items: &Vec<String>) -> (flags: Vec<bool>)
    ensures
        flags.len() == items.len(),
        forall|i: int|
            0 <= i < items.len() ==> #[trigger] flags[i] == glob_matches(
                pattern_source(*pattern),
                items[i]@,
            ),
{
    let mut flags: Vec<bool> = Vec::new();
    let mut i: usize = 0;
    while i < items.len()
        invariant
            i <= items.len(),
            flags.len() == i,
            forall|j: int|
                0 <= j < i ==> #[trigger] flags[j] == glob_matches(
                    pattern_source(*pattern),
                    items[j]@,
                ),
        decreases items.len() - i,
    {
        flags.push(pattern.matches(items[i].as_str()));
        i = i + 1;
    }
    flags
}

/// A negotiation under way: the patterns that are still to be tried, and the
/// candidates that were not offered yet. Each step tries one pattern; a
/// negotiation that was stepped through cannot be run again.
pub struct Negotiation {
    patterns: Vec<String>,
    tried: usize,
    pool: CandidatePool,
}

impl Negotiation {
    /// The patterns that are still to be tried, in their order.
    pub closed spec fn patterns(&self) -> Seq<Seq<char>> {
        if self.tried <= self.patterns.len() {
            strings_view(self.patterns@).skip(self.tried as int)
        } else {
            Seq::empty()
        }
    }

    /// The candidates that were not offered yet.
    pub closed spec fn pool(&self) -> Set<Seq<char>> {
        self.pool@
    }

    /// A negotiation that will try `patterns` in turn against `available`.
    pub fn new(patterns: Vec<String>, available: CandidatePool) -> (state: Self)
        ensures
            state.patterns() == strings_view(patterns@),
            state.pool() == available@,
    {
        assert(strings_view(patterns@).skip(0) == strings_view(patterns@));
        Negotiation { patterns, tried: 0, pool: available }
    }

    /// Tries the next pattern: `None` where none is left. The pattern yields
    /// the candidates that it matches among those not offered yet, in
    /// ascending order, and these leave the pool. A pattern that is no glob
    /// pattern yields an error and leaves the pool as it is.
    pub fn next_batch(&mut self) -> (r: Option<Result<Vec<String>, NegotiationError>>)
        ensures
            match r {
                None => {
                    &&& old(self).patterns().len() == 0
                    &&& final(self).patterns() == old(self).patterns()
                    &&& final(self).pool() == old(self).pool()
                },
                Some(step) => {
                    &&& old(self).patterns().len() > 0
                    &&& final(self).patterns() == old(self).patterns().drop_first()
                    &&& match step {
                        Ok(batch) => {
                            &&& glob_compiles(old(self).patterns()[0])
                            &&& strings_view(batch@) == sorted_listing(
                                matching(old(self).patterns()[0], old(self).pool()),
                            )
                            &&& final(self).pool() == old(self).pool().difference(
                                matching(old(self).patterns()[0], old(self).pool()),
                            )
                        },
                        Err(e) => {
                            &&& e == NegotiationError::InvalidPattern
                            &&& !glob_compiles(old(self).patterns()[0])
                            &&& final(self).pool() == old(self).pool()
                        },
                    }
                },
            },
    {
        if self.tried >= self.patterns.len() {
            return None;
        }
        let ghost all = strings_view(self.patterns@);
        let ghost source = all[self.tried as int];
        let ghost pool_before = self.pool@;
        assert(source == self.patterns@[self.tried as int]@);
        assert(all.skip(self.tried as int)[0] == source);
        assert(all.skip(self.tried as int).drop_first() == all.skip(self.tried + 1));
        let made = glob::Pattern::new(self.patterns[self.tried].as_str());
        self.tried = self.tried + 1;
        let compiled = match made {
            Ok(compiled) => compiled,
            Err(_) => {
                return Some(Err(NegotiationError::InvalidPattern));
            },
        };
        let candidates = self.pool.items();
        let ghost items = strings_view(candidates@);
        let flags = match_flags(&compiled, candidates);
        let matched = select(candidates, &flags);
        let batch = sort_strings(matched);
        let ghost listing = strings_view(batch@);
        proof {
            lemma_selected_matching(items, flags@, source);
            lemma_sorted_lists(selected(items, flags@));
            lemma_lists_is_sorted_listing(listing, matching(source, pool_before));
        }
        let mut k: usize = 0;
        while k < batch.len()
            invariant
                k <= batch.len(),
                listing == strings_view(batch@),
                self.pool@ == pool_before.difference(listing.take(k as int).to_set()),
                self.tried == old(self).tried + 1,
                self.patterns == old(self).patterns,
            decreases batch.len() - k,
        {
            self.pool.remove(batch[k].as_str());
            proof {
                let prefix = listing.take(k as int);
                let longer = listing.take(k + 1);
                assert(listing[k as int] == batch@[k as int]@);
                assert forall|x: Seq<char>| longer.contains(x) <==> prefix.to_set().insert(
                    listing[k as int],
                ).contains(x) by {
                    if longer.contains(x) {
                        let j = choose|j: int| 0 <= j < longer.len() && longer[j] == x;
                        if j < k {
                            assert(prefix[j] == x);
                        }
                    }
                    if prefix.contains(x) {
                        let j = choose|j: int| 0 <= j < prefix.len() && prefix[j] == x;
                        assert(longer[j] == x);
                    }
                    if x == listing[k as int] {
                        assert(longer[k as int] == x);
                    }
                }
                assert(self.pool@ =~= pool_before.difference(longer.to_set()));
            }
            k = k + 1;
        }
        proof {
            assert(listing.take(batch.len() as int) == listing);
            assert(listing.to_set() =~= matching(source, pool_before));
        }
        Some(Ok(batch))
    }
}

/// Tries `patterns` in turn against what is left of `available`. Each pattern
/// yields the candidates that it matches, in ascending order, and takes them
/// out of the pool, so that no candidate is offered twice.
pub fn negotiate(patterns: Vec<String>, available: CandidatePool) -> (r: Result<
    Vec<String>,
    NegotiationError,
>)
    ensures
        match r {
            Ok(offered) => all_compile(strings_view(patterns@)) && strings_view(offered@)
                == negotiation(strings_view(patterns@), available@),
            Err(e) => e == NegotiationError::InvalidPattern && !all_compile(
                strings_view(patterns@),
            ),
        },
{
    let ghost all = strings_view(patterns@);
    let ghost whole = available@;
    let mut state = Negotiation::new(patterns, available);
    let mut offered: Vec<String> = Vec::new();
    let ghost mut tried: int = 0;
    assert(all.skip(0) == all);
    loop
        invariant
            all == strings_view(patterns@),
            whole == available@,
            0 <= tried <= all.len(),
            state.patterns() == all.skip(tried),
            forall|j: int| 0 <= j < tried ==> glob_compiles(#[trigger] all[j]),
            strings_view(offered@) + negotiation(state.patterns(), state.pool()) == negotiation(
                all,
                whole,
            ),
        decreases all.len() - tried,
    {
        let ghost before = strings_view(offered@);
        let ghost rest = state.patterns();
        let ghost pool = state.pool();
        match state.next_batch() {
            None => {
                assert(before + Seq::<Seq<char>>::empty() == before);
                return Ok(offered);
            },
            Some(Err(e)) => {
                assert(rest[0] == all[tried]);
                return Err(e);
            },
            Some(Ok(mut batch)) => {
                let ghost listing = strings_view(batch@);
                offered.append(&mut batch);
                proof {
                    assert(rest[0] == all[tried]);
                    assert(rest.drop_first() == all.skip(tried + 1));
                    assert(strings_view(offered@) == before + listing);
                    assert((before + listing) + negotiation(state.patterns(), state.pool())
                        == before + (listing + negotiation(state.patterns(), state.pool())));
                    tried = tried + 1;
                }
            },
        }
    }
}

} // verus!
