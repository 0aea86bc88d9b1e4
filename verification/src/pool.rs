//! Sets of strings: their listing in ascending order, and the pool of
//! candidates that a negotiation draws from.

use crate::text::{
    chars_of, lemma_lex_lt_irreflexive, lemma_lex_lt_total, lemma_lex_lt_transitive, lex_less,
    lex_lt,
};
use vstd::prelude::*;

verus! {

/// The characters of each string of `strings`, in order.
pub open spec fn strings_view(strings: Seq<String>) -> Seq<Seq<char>> {
    strings.map_values(|s: String| s@)
}

/// Whether each element of `s` comes strictly before those after it.
pub open spec fn increasing(s: Seq<Seq<char>>) -> bool {
    forall|i: int, j: int| 0 <= i < j < s.len() ==> lex_lt(#[trigger] s[i], #[trigger] s[j])
}

/// Whether `s` lists `set`: it holds the elements of `set` and no others, in
/// ascending order, and so each of them once.
pub open spec fn lists(s: Seq<Seq<char>>, set: Set<Seq<char>>) -> bool {
    &&& increasing(s)
    &&& forall|x: Seq<char>| s.contains(x) <==> set.contains(x)
}

/// The elements of the finite set `set` in ascending order.
pub open spec fn sorted_listing(set: Set<Seq<char>>) -> Seq<Seq<char>> {
    choose|s: Seq<Seq<char>>| lists(s, set)
}

/// `s` with `x` entered before the first element that `x` comes before.
pub open spec fn insert_sorted(s: Seq<Seq<char>>, x: Seq<char>) -> Seq<Seq<char>>
    decreases s.len(),
{
    if s.len() > 0 && lex_lt(x, s.last()) {
        insert_sorted(s.drop_last(), x).push(s.last())
    } else {
        s.push(x)
    }
}

/// An increasing sequence holds nothing twice.
pub proof fn lemma_increasing_no_duplicates(s: Seq<Seq<char>>)
    requires
        increasing(s),
    ensures
        s.no_duplicates(),
{
    assert forall|i: int, j: int| 0 <= i < s.len() && 0 <= j < s.len() && i != j implies s[i]
        != s[j] by {
        lemma_lex_lt_irreflexive(s[i]);
        if i < j {
            assert(lex_lt(s[i], s[j]));
        } else {
            assert(lex_lt(s[j], s[i]));
        }
    }
}

/// A listing without its last element lists the set without that element.
pub proof fn lemma_lists_drop_last(s: Seq<Seq<char>>, set: Set<Seq<char>>)
    requires
        lists(s, set),
        s.len() > 0,
    ensures
        lists(s.drop_last(), set.remove(s.last())),
        set.contains(s.last()),
{
    let init = s.drop_last();
    let last = s.last();
    let rest = set.remove(last);
    assert(s.contains(last)) by {
        assert(s[s.len() - 1] == last);
    }
    lemma_increasing_no_duplicates(s);
    assert forall|y: Seq<char>| init.contains(y) <==> rest.contains(y) by {
        if init.contains(y) {
            let i = choose|i: int| 0 <= i < init.len() && init[i] == y;
            assert(s[i] == y);
            assert(s.contains(y));
        }
        if rest.contains(y) {
            assert(s.contains(y));
            let i = choose|i: int| 0 <= i < s.len() && s[i] == y;
            assert(init[i] == y);
        }
    }
    assert forall|i: int, j: int| 0 <= i < j < init.len() implies lex_lt(
        #[trigger] init[i],
        #[trigger] init[j],
    ) by {
        assert(init[i] == s[i] && init[j] == s[j]);
    }
}

/// Entering a new element into a listing gives the listing of the larger
/// set.
pub proof fn lemma_insert_sorted(s: Seq<Seq<char>>, set: Set<Seq<char>>, x: Seq<char>)
    requires
        lists(s, set),
        !set.contains(x),
    ensures
        lists(insert_sorted(s, x), set.insert(x)),
        insert_sorted(s, x).len() == s.len() + 1,
    decreases s.len(),
{
    let r = insert_sorted(s, x);
    if s.len() > 0 && lex_lt(x, s.last()) {
        let init = s.drop_last();
        let last = s.last();
        let rest = set.remove(last);
        lemma_lists_drop_last(s, set);
        lemma_insert_sorted(init, rest, x);
        let inner = insert_sorted(init, x);
        assert(r == inner.push(last));
        assert forall|i: int, j: int| 0 <= i < j < r.len() implies lex_lt(
            #[trigger] r[i],
            #[trigger] r[j],
        ) by {
            if j < inner.len() {
                assert(r[i] == inner[i] && r[j] == inner[j]);
            } else {
                assert(r[i] == inner[i]);
                assert(inner.contains(inner[i]));
                if inner[i] != x {
                    assert(rest.contains(inner[i]));
                    assert(s.contains(inner[i]));
                    let k = choose|k: int| 0 <= k < s.len() && s[k] == inner[i];
                    assert(k < s.len() - 1);
                    assert(lex_lt(s[k], s[s.len() - 1]));
                }
            }
        }
        assert forall|y: Seq<char>| r.contains(y) <==> set.insert(x).contains(y) by {
            if r.contains(y) {
                let i = choose|i: int| 0 <= i < r.len() && r[i] == y;
                if i < inner.len() {
                    assert(inner[i] == y);
                    assert(inner.contains(y));
                }
            }
            if set.insert(x).contains(y) {
                if y == last {
                    assert(r[r.len() - 1] == y);
                } else {
                    assert(rest.insert(x).contains(y));
                    assert(inner.contains(y));
                    let i = choose|i: int| 0 <= i < inner.len() && inner[i] == y;
                    assert(r[i] == y);
                }
            }
        }
    } else {
        assert(r == s.push(x));
        assert forall|i: int, j: int| 0 <= i < j < r.len() implies lex_lt(
            #[trigger] r[i],
            #[trigger] r[j],
        ) by {
            if j < s.len() {
                assert(r[i] == s[i] && r[j] == s[j]);
            } else {
                assert(r[i] == s[i] && r[j] == x);
                assert(s.contains(s[i]));
                lemma_lex_lt_total(s[i], x);
                if i < s.len() - 1 {
                    assert(lex_lt(s[i], s[s.len() - 1]));
                    lemma_lex_lt_total(s.last(), x);
                    lemma_lex_lt_transitive(s[i], s.last(), x);
                }
            }
        }
        assert forall|y: Seq<char>| r.contains(y) <==> set.insert(x).contains(y) by {
            if r.contains(y) {
                let i = choose|i: int| 0 <= i < r.len() && r[i] == y;
                if i < s.len() {
                    assert(s[i] == y);
                    assert(s.contains(y));
                }
            }
            if set.insert(x).contains(y) {
                if y == x {
                    assert(r[r.len() - 1] == y);
                } else {
                    assert(s.contains(y));
                    let i = choose|i: int| 0 <= i < s.len() && s[i] == y;
                    assert(r[i] == y);
                }
            }
        }
    }
}

/// The last element of a listing is the greatest of the set.
proof fn lemma_last_is_greatest(s: Seq<Seq<char>>, set: Set<Seq<char>>, x: Seq<char>)
    requires
        lists(s, set),
        s.len() > 0,
        set.contains(x),
    ensures
        !lex_lt(s.last(), x),
{
    assert(s.contains(x));
    let k = choose|k: int| 0 <= k < s.len() && s[k] == x;
    lemma_lex_lt_total(s.last(), x);
    if k < s.len() - 1 {
        assert(lex_lt(s[k], s[s.len() - 1]));
    }
}

/// A set has one listing at most.
pub proof fn lemma_listing_unique(a: Seq<Seq<char>>, b: Seq<Seq<char>>, set: Set<Seq<char>>)
    requires
        lists(a, set),
        lists(b, set),
    ensures
        a == b,
    decreases a.len(),
{
    if a.len() == 0 {
        if b.len() > 0 {
            assert(b.contains(b[0]));
            assert(a.contains(b[0]));
        }
        assert(a =~= b);
    } else {
        lemma_lists_drop_last(a, set);
        assert(b.contains(a.last()));
        lemma_lists_drop_last(b, set);
        lemma_last_is_greatest(a, set, b.last());
        lemma_last_is_greatest(b, set, a.last());
        lemma_lex_lt_total(a.last(), b.last());
        lemma_listing_unique(a.drop_last(), b.drop_last(), set.remove(a.last()));
        assert(a =~= a.drop_last().push(a.last()));
        assert(b =~= b.drop_last().push(b.last()));
    }
}

/// Every finite set has a listing, and `sorted_listing` is it.
pub proof fn lemma_sorted_listing(set: Set<Seq<char>>)
    requires
        set.finite(),
    ensures
        lists(sorted_listing(set), set),
    decreases set.len(),
{
    if set.len() == 0 {
        assert(set =~= Set::empty());
        let none = Seq::<Seq<char>>::empty();
        assert(lists(none, set));
    } else {
        let x = set.choose();
        let rest = set.remove(x);
        lemma_sorted_listing(rest);
        lemma_insert_sorted(sorted_listing(rest), rest, x);
        assert(rest.insert(x) =~= set);
        assert(lists(insert_sorted(sorted_listing(rest), x), set));
    }
}

/// What lists a set is its sorted listing.
pub proof fn lemma_lists_is_sorted_listing(s: Seq<Seq<char>>, set: Set<Seq<char>>)
    requires
        lists(s, set),
    ensures
        s == sorted_listing(set),
{
    lemma_listing_unique(s, sorted_listing(set), set);
}

/// `s` in ascending order: its elements entered one after the other, each
/// before the first that it comes before.
pub open spec fn sorted(s: Seq<Seq<char>>) -> Seq<Seq<char>>
    decreases s.len(),
{
    if s.len() == 0 {
        Seq::empty()
    } else {
        insert_sorted(sorted(s.drop_last()), s.last())
    }
}

/// Where `s` holds nothing twice, `sorted(s)` lists its elements.
pub proof fn lemma_sorted_lists(s: Seq<Seq<char>>)
    requires
        s.no_duplicates(),
    ensures
        lists(sorted(s), s.to_set()),
        sorted(s).len() == s.len(),
    decreases s.len(),
{
    if s.len() == 0 {
        assert(lists(sorted(s), s.to_set()));
    } else {
        let init = s.drop_last();
        lemma_sorted_lists(init);
        assert(!init.to_set().contains(s.last())) by {
            if init.contains(s.last()) {
                let i = choose|i: int| 0 <= i < init.len() && init[i] == s.last();
                assert(s[i] == s[s.len() - 1]);
            }
        }
        lemma_insert_sorted(sorted(init), init.to_set(), s.last());
        assert(init.to_set().insert(s.last()) =~= s.to_set()) by {
            assert forall|x: Seq<char>| init.to_set().insert(s.last()).contains(x)
                <==> s.to_set().contains(x) by {
                if init.contains(x) {
                    let i = choose|i: int| 0 <= i < init.len() && init[i] == x;
                    assert(s[i] == x);
                }
                if x == s.last() {
                    assert(s[s.len() - 1] == x);
                }
                if s.contains(x) {
                    let i = choose|i: int| 0 <= i < s.len() && s[i] == x;
                    if i < s.len() - 1 {
                        assert(init[i] == x);
                    }
                }
            }
        }
    }
}

/// Whether `a` comes strictly before `b`, code point by code point.
pub fn string_lt(a: &str, b: &str) -> (r: bool)
    ensures
        r == lex_lt(a@, b@),
{
    let x = chars_of(a);
    let y = chars_of(b);
    lex_less(&x, &y)
}

/// The strings of `strings` in ascending order. Of equal strings the one that
/// stood first stays first.
pub fn sort_strings(strings: Vec<String>) -> (out: Vec<String>)
    ensures
        strings_view(out@) == sorted(strings_view(strings@)),
{
    let mut out: Vec<String> = Vec::new();
    let mut i: usize = 0;
    assert(strings_view(strings@).take(0) == Seq::<Seq<char>>::empty());
    while i < strings.len()
        invariant
            i <= strings.len(),
            strings_view(out@) == sorted(strings_view(strings@).take(i as int)),
        decreases strings.len() - i,
    {
        let ghost done = strings_view(strings@).take(i as int);
        let ghost x = strings@[i as int]@;
        let ghost before = strings_view(out@);
        let mut k: usize = out.len();
        assert(before.take(k as int) == before && before.skip(k as int) == Seq::<
            Seq<char>,
        >::empty());
        assert(insert_sorted(before, x) + Seq::<Seq<char>>::empty() == insert_sorted(before, x));
        while k > 0 && string_lt(strings[i].as_str(), out[k - 1].as_str())
            invariant
                k <= out.len(),
                i < strings.len(),
                x == strings@[i as int]@,
                before == strings_view(out@),
                insert_sorted(before, x) == insert_sorted(before.take(k as int), x) + before.skip(
                    k as int,
                ),
            decreases k,
        {
            proof {
                let head = before.take(k as int);
                assert(head.last() == out@[k - 1]@);
                assert(head.drop_last() == before.take(k - 1));
                assert(insert_sorted(head, x) == insert_sorted(head.drop_last(), x).push(
                    head.last(),
                ));
                assert(before.skip(k - 1) == seq![head.last()] + before.skip(k as int));
                assert(insert_sorted(head.drop_last(), x).push(head.last()) + before.skip(k as int)
                    == insert_sorted(head.drop_last(), x) + before.skip(k - 1));
            }
            k = k - 1;
        }
        proof {
            let head = before.take(k as int);
            if k > 0 {
                assert(head.last() == out@[k - 1]@);
            }
            assert(insert_sorted(head, x) == head.push(x));
            assert(strings_view(strings@).take(i + 1).drop_last() == done);
            assert(strings_view(strings@).take(i + 1).last() == x);
        }
        out.insert(k, strings[i].clone());
        assert(strings_view(out@) == before.take(k as int).push(x) + before.skip(k as int));
        i = i + 1;
    }
    assert(strings_view(strings@).take(strings.len() as int) == strings_view(strings@));
    out
}

/// The content types that a server can still offer: a set of strings. Its
/// view is the set of their characters.
pub struct CandidatePool {
    items: Vec<String>,
}

impl View for CandidatePool {
    type V = Set<Seq<char>>;

    closed spec fn view(&self) -> Set<Seq<char>> {
        strings_view(self.items@).to_set()
    }
}

impl CandidatePool {
    #[verifier::type_invariant]
    spec fn well_formed(&self) -> bool {
        strings_view(self.items@).no_duplicates()
    }

    /// The empty pool.
    pub fn new() -> (pool: Self)
        ensures
            pool@ == Set::<Seq<char>>::empty(),
    {
        let pool = CandidatePool { items: Vec::new() };
        assert(pool@ =~= Set::<Seq<char>>::empty());
        pool
    }

    /// The number of candidates.
    pub fn len(&self) -> (n: usize)
        ensures
            self@.finite(),
            n == self@.len(),
    {
        proof {
            use_type_invariant(self);
            strings_view(self.items@).unique_seq_to_set();
            vstd::seq_lib::seq_to_set_is_finite(strings_view(self.items@));
        }
        self.items.len()
    }

    /// Whether the pool has no candidate.
    pub fn is_empty(&self) -> (r: bool)
        ensures
            r == (self@ == Set::<Seq<char>>::empty()),
    {
        proof {
            if self.items.len() == 0 {
                assert(self@ =~= Set::<Seq<char>>::empty());
            } else {
                assert(strings_view(self.items@)[0] == self.items@[0]@);
                assert(self@.contains(self.items@[0]@));
            }
        }
        self.items.len() == 0
    }

    fn position(&self, item: &String) -> (r: Option<usize>)
        ensures
            match r {
                Some(i) => i < self.items.len() && self.items[i as int]@ == item@,
                None => !self@.contains(item@),
            },
    {
        let mut i: usize = 0;
        while i < self.items.len()
            invariant
                i <= self.items.len(),
                forall|j: int| 0 <= j < i ==> (#[trigger] self.items[j])@ != item@,
            decreases self.items.len() - i,
        {
            if self.items[i] == *item {
                return Some(i);
            }
            i = i + 1;
        }
        proof {
            if self@.contains(item@) {
                let views = strings_view(self.items@);
                let j = choose|j: int| 0 <= j < views.len() && views[j] == item@;
                assert(self.items[j]@ == item@);
            }
        }
        None
    }

    /// Whether `item` is in the pool.
    pub fn contains(&self, item: &str) -> (r: bool)
        ensures
            r == self@.contains(item@),
    {
        let owned = item.to_owned();
        match self.position(&owned) {
            Some(i) => {
                assert(strings_view(self.items@)[i as int] == item@);
                true
            },
            None => false,
        }
    }

    /// Puts `item` into the pool. Returns whether it was new to it.
    pub fn insert(&mut self, item: String) -> (added: bool)
        ensures
            final(self)@ == old(self)@.insert(item@),
            added == !old(self)@.contains(item@),
    {
        let mut taken = CandidatePool { items: Vec::new() };
        core::mem::swap(self, &mut taken);
        proof {
            use_type_invariant(&taken);
        }
        let found = taken.position(&item);
        let mut items = taken.items;
        let ghost before = strings_view(items@);
        let added = match found {
            Some(i) => {
                assert(before[i as int] == item@);
                assert(before.to_set().insert(item@) =~= before.to_set());
                false
            },
            None => {
                items.push(item);
                assert(strings_view(items@) == before.push(item@));
                assert(before.push(item@).to_set() =~= before.to_set().insert(item@)) by {
                    let after = before.push(item@);
                    assert forall|x: Seq<char>| after.contains(x) <==> before.to_set().insert(
                        item@,
                    ).contains(x) by {
                        if after.contains(x) {
                            let j = choose|j: int| 0 <= j < after.len() && after[j] == x;
                            if j < before.len() {
                                assert(before[j] == x);
                            }
                        }
                        if before.contains(x) {
                            let j = choose|j: int| 0 <= j < before.len() && before[j] == x;
                            assert(after[j] == x);
                        }
                        if x == item@ {
                            assert(after[after.len() - 1] == x);
                        }
                    }
                }
                true
            },
        };
        *self = CandidatePool { items };
        added
    }

    /// Takes `item` out of the pool. Returns whether it was in it.
    pub fn remove(&mut self, item: &str) -> (removed: bool)
        ensures
            final(self)@ == old(self)@.remove(item@),
            removed == old(self)@.contains(item@),
    {
        let mut taken = CandidatePool { items: Vec::new() };
        core::mem::swap(self, &mut taken);
        proof {
            use_type_invariant(&taken);
        }
        let owned = item.to_owned();
        let found = taken.position(&owned);
        let mut items = taken.items;
        let ghost before = strings_view(items@);
        let removed = match found {
            Some(i) => {
                items.remove(i);
                proof {
                    let after = strings_view(items@);
                    assert(after == before.remove(i as int));
                    assert(before[i as int] == item@);
                    assert forall|x: Seq<char>| after.contains(x) <==> before.to_set().remove(
                        item@,
                    ).contains(x) by {
                        if after.contains(x) {
                            let j = choose|j: int| 0 <= j < after.len() && after[j] == x;
                            if j < i {
                                assert(before[j] == x);
                            } else {
                                assert(before[j + 1] == x);
                            }
                        }
                        if before.contains(x) && x != item@ {
                            let j = choose|j: int| 0 <= j < before.len() && before[j] == x;
                            if j < i {
                                assert(after[j] == x);
                            } else {
                                assert(after[j - 1] == x);
                            }
                        }
                    }
                    assert(after.to_set() =~= before.to_set().remove(item@));
                }
                true
            },
            None => {
                assert(before.to_set().remove(item@) =~= before.to_set());
                false
            },
        };
        *self = CandidatePool { items };
        removed
    }

    /// The candidates, each once, in no order that callers may rely on.
    pub fn items(&self) -> (items: &Vec<String>)
        ensures
            strings_view(items@).no_duplicates(),
            strings_view(items@).to_set() == self@,
            self@.finite(),
    {
        proof {
            use_type_invariant(self);
            vstd::seq_lib::seq_to_set_is_finite(strings_view(self.items@));
        }
        &self.items
    }
}

} // verus!
