//! Multisets of n-grams, held as a list of the distinct n-grams with the
//! number of times each occurs.

use vstd::multiset::*;
use vstd::prelude::*;
use vstd::utf8::*;

verus! {

/// An n-gram as a mathematical value: the sequence of its tokens, each token
/// the sequence of its characters.
pub type Gram = Seq<Seq<char>>;

/// How many n-grams two multisets share: for each distinct n-gram the smaller
/// of its two counts, summed. This is the size of their intersection.
pub open spec fn overlap_spec(left: Multiset<Gram>, right: Multiset<Gram>) -> nat {
    left.intersection_with(right).len()
}

/// `grams` with `gram` at its end, unless `gram` is in it already.
pub open spec fn push_if_new(grams: Seq<Gram>, gram: Gram) -> Seq<Gram> {
    if grams.contains(gram) {
        grams
    } else {
        grams.push(gram)
    }
}

/// The distinct n-grams of `grams`, in the order in which each occurs first.
pub open spec fn first_occurrences(grams: Seq<Gram>) -> Seq<Gram>
    decreases grams.len(),
{
    if grams.len() == 0 {
        Seq::empty()
    } else {
        push_if_new(first_occurrences(grams.drop_last()), grams.last())
    }
}

/// The multiset that holds `count` copies of `gram` and nothing else.
spec fn copies(gram: Gram, count: nat) -> Multiset<Gram>
    decreases count,
{
    if count == 0 {
        Multiset::empty()
    } else {
        copies(gram, (count - 1) as nat).insert(gram)
    }
}

/// The multiset that holds `counts[i]` copies of `grams[i]`, for each `i`.
spec fn bag(grams: Seq<Gram>, counts: Seq<nat>) -> Multiset<Gram>
    decreases grams.len(),
{
    if grams.len() == 0 {
        Multiset::empty()
    } else {
        bag(grams.drop_last(), counts.drop_last()).add(copies(grams.last(), counts.last()))
    }
}

proof fn lemma_copies(gram: Gram, count: nat)
    ensures
        copies(gram, count).len() == count,
        copies(gram, count).count(gram) == count,
        forall|other: Gram| other != gram ==> copies(gram, count).count(other) == 0,
    decreases count,
{
    broadcast use group_multiset_axioms;

    if count > 0 {
        lemma_copies(gram, (count - 1) as nat);
    }
}

/// What a bag of distinct n-grams holds: `counts[i]` of `grams[i]`, and none
/// of an n-gram that is not listed.
proof fn lemma_bag_count(grams: Seq<Gram>, counts: Seq<nat>)
    requires
        grams.len() == counts.len(),
        grams.no_duplicates(),
    ensures
        forall|i: int| 0 <= i < grams.len() ==> bag(grams, counts).count(#[trigger] grams[i]) == counts[i],
        forall|gram: Gram| !grams.contains(gram) ==> bag(grams, counts).count(gram) == 0,
    decreases grams.len(),
{
    broadcast use group_multiset_axioms;

    if grams.len() > 0 {
        let head = grams.drop_last();
        let last = grams.last();
        lemma_bag_count(head, counts.drop_last());
        lemma_copies(last, counts.last());
        assert(!head.contains(last));
        assert forall|i: int| 0 <= i < grams.len() implies bag(grams, counts).count(
            #[trigger] grams[i],
        ) == counts[i] by {
            if i < grams.len() - 1 {
                assert(head[i] == grams[i]);
                assert(grams[i] != last);
            }
        }
        assert forall|gram: Gram| !grams.contains(gram) implies bag(grams, counts).count(gram)
            == 0 by {
            assert(gram != last);
            if head.contains(gram) {
                let j = choose|j: int| 0 <= j < head.len() && head[j] == gram;
                assert(grams[j] == gram);
            }
        }
    }
}

/// Increasing one count of a bag of distinct n-grams adds one copy of that n-gram.
proof fn lemma_bag_increment(grams: Seq<Gram>, counts: Seq<nat>, i: int)
    requires
        grams.len() == counts.len(),
        grams.no_duplicates(),
        0 <= i < grams.len(),
    ensures
        bag(grams, counts.update(i, counts[i] + 1)) == bag(grams, counts).insert(grams[i]),
{
    broadcast use group_multiset_axioms;

    let bumped = counts.update(i, counts[i] + 1);
    lemma_bag_count(grams, counts);
    lemma_bag_count(grams, bumped);
    assert forall|gram: Gram|
        bag(grams, bumped).count(gram) == bag(grams, counts).insert(grams[i]).count(gram) by {
        if grams.contains(gram) {
            let j = choose|j: int| 0 <= j < grams.len() && grams[j] == gram;
            assert(bag(grams, bumped).count(grams[j]) == bumped[j]);
            assert(bag(grams, counts).count(grams[j]) == counts[j]);
        }
    }
    assert(bag(grams, bumped) =~= bag(grams, counts).insert(grams[i]));
}

/// Listing a further n-gram once adds one copy of it.
proof fn lemma_bag_push(grams: Seq<Gram>, counts: Seq<nat>, gram: Gram)
    requires
        grams.len() == counts.len(),
    ensures
        bag(grams.push(gram), counts.push(1)) == bag(grams, counts).insert(gram),
{
    broadcast use group_multiset_axioms;

    assert(grams.push(gram).drop_last() =~= grams);
    assert(counts.push(1).drop_last() =~= counts);
    lemma_copies(gram, 1);
    assert(copies(gram, 1) =~= Multiset::singleton(gram));
}

/// A prefix of a bag, extended by the next entry.
proof fn lemma_bag_take_next(grams: Seq<Gram>, counts: Seq<nat>, k: int)
    requires
        grams.len() == counts.len(),
        0 <= k < grams.len(),
    ensures
        bag(grams.take(k + 1), counts.take(k + 1)) == bag(grams.take(k), counts.take(k)).add(
            copies(grams[k], counts[k]),
        ),
{
    assert(grams.take(k + 1).drop_last() =~= grams.take(k));
    assert(counts.take(k + 1).drop_last() =~= counts.take(k));
}

/// A prefix of a bag is no larger than the bag.
proof fn lemma_bag_take_len(grams: Seq<Gram>, counts: Seq<nat>, k: int)
    requires
        grams.len() == counts.len(),
        0 <= k <= grams.len(),
    ensures
        bag(grams.take(k), counts.take(k)).len() <= bag(grams, counts).len(),
    decreases grams.len() - k,
{
    broadcast use group_multiset_axioms;

    if k == grams.len() {
        assert(grams.take(k) =~= grams);
        assert(counts.take(k) =~= counts);
    } else {
        lemma_bag_take_next(grams, counts, k);
        lemma_bag_take_len(grams, counts, k + 1);
    }
}

spec fn smaller(a: nat, b: nat) -> nat {
    if a <= b {
        a
    } else {
        b
    }
}

/// What a further entry adds to the intersection with another multiset: the
/// smaller of its count here and its count there.
proof fn lemma_intersection_next(head: Multiset<Gram>, gram: Gram, count: nat, other: Multiset<Gram>)
    requires
        head.count(gram) == 0,
    ensures
        head.add(copies(gram, count)).intersection_with(other).len() == head.intersection_with(
            other,
        ).len() + smaller(count, other.count(gram)),
{
    broadcast use {group_multiset_axioms, lemma_intersection_count};

    let least = smaller(count, other.count(gram));
    lemma_copies(gram, count);
    lemma_copies(gram, least);
    assert(head.add(copies(gram, count)).intersection_with(other) =~= head.intersection_with(
        other,
    ).add(copies(gram, least)));
}

/// Whether two string slices hold the same characters: they do where their
/// UTF-8 encodings are the same bytes.
fn str_eq(left: &str, right: &str) -> (same: bool)
    ensures
        same == (left@ == right@),
{
    let left_bytes = left.as_bytes();
    let right_bytes = right.as_bytes();
    proof {
        encode_utf8_decode_utf8(left@);
        encode_utf8_decode_utf8(right@);
    }
    if left_bytes.len() != right_bytes.len() {
        return false;
    }
    let mut i: usize = 0;
    while i < left_bytes.len()
        invariant
            i <= left_bytes.len(),
            left_bytes.len() == right_bytes.len(),
            left_bytes@ == encode_utf8(left@),
            right_bytes@ == encode_utf8(right@),
            forall|j: int| 0 <= j < i ==> left_bytes@[j] == right_bytes@[j],
        decreases left_bytes.len() - i,
    {
        if left_bytes[i] != right_bytes[i] {
            return false;
        }
        i += 1;
    }
    assert(left_bytes@ =~= right_bytes@);
    true
}

/// Whether two n-grams hold the same tokens in the same order.
fn same_gram(left: &Vec<&str>, right: &Vec<&str>) -> (same: bool)
    ensures
        same == (left.deep_view() == right.deep_view()),
{
    if left.len() != right.len() {
        assert(left.deep_view().len() != right.deep_view().len());
        return false;
    }
    let mut i: usize = 0;
    while i < left.len()
        invariant
            i <= left.len(),
            left.len() == right.len(),
            forall|j: int| 0 <= j < i ==> left@[j]@ == right@[j]@,
        decreases left.len() - i,
    {
        if !str_eq(left[i], right[i]) {
            assert(left.deep_view()[i as int] != right.deep_view()[i as int]);
            return false;
        }
        i += 1;
    }
    assert(left.deep_view() =~= right.deep_view());
    true
}

/// One distinct n-gram and the number of times it occurs.
struct Entry<'a> {
    gram: Vec<&'a str>,
    count: usize,
}

/// A multiset of n-grams: for each distinct n-gram, how often it occurs.
///
/// The abstract value, `self@`, is a `Multiset<Gram>`. The distinct n-grams
/// are kept in a list, in the order in which they first came in, and an
/// n-gram is found by comparing it with each of them in turn.
pub struct NgramCounts<'a> {
    entries: Vec<Entry<'a>>,
    total: usize,
}

impl<'a> View for NgramCounts<'a> {
    type V = Multiset<Gram>;

    closed spec fn view(&self) -> Multiset<Gram> {
        bag(grams_of(self.entries@), counts_of(self.entries@))
    }
}

spec fn grams_of(entries: Seq<Entry>) -> Seq<Gram> {
    Seq::new(entries.len(), |i: int| entries[i].gram.deep_view())
}

spec fn counts_of(entries: Seq<Entry>) -> Seq<nat> {
    Seq::new(entries.len(), |i: int| entries[i].count as nat)
}

/// The entries list each n-gram once, none with a count of zero, and `total`
/// is the size of the multiset that they stand for.
spec fn consistent(entries: Seq<Entry>, total: usize) -> bool {
    &&& grams_of(entries).no_duplicates()
    &&& forall|i: int| 0 <= i < entries.len() ==> (#[trigger] entries[i]).count > 0
    &&& total == bag(grams_of(entries), counts_of(entries)).len()
}

impl<'a> NgramCounts<'a> {
    /// The distinct n-grams, in the order in which they first came in.
    pub closed spec fn grams(&self) -> Seq<Gram> {
        grams_of(self.entries@)
    }

    #[verifier::type_invariant]
    spec fn well_formed(&self) -> bool {
        consistent(self.entries@, self.total)
    }

    /// The empty multiset.
    pub fn new() -> (ngrams: Self)
        ensures
            ngrams@ == Multiset::<Gram>::empty(),
            ngrams.grams() == Seq::<Gram>::empty(),
    {
        NgramCounts { entries: Vec::new(), total: 0 }
    }

    /// The place of `gram` among the distinct n-grams, if it is there.
    fn position(&self, gram: &Vec<&str>) -> (found: Option<usize>)
        ensures
            found matches Some(i) ==> i < self.grams().len() && self.grams()[i as int]
                == gram.deep_view(),
            found is None ==> !self.grams().contains(gram.deep_view()),
    {
        let mut i: usize = 0;
        while i < self.entries.len()
            invariant
                i <= self.entries.len(),
                forall|j: int| 0 <= j < i ==> self.grams()[j] != gram.deep_view(),
            decreases self.entries.len() - i,
        {
            if same_gram(&self.entries[i].gram, gram) {
                return Some(i);
            }
            i += 1;
        }
        None
    }

    /// The number of distinct n-grams. Each of them occurs at least once in
    /// the multiset, and whatever occurs in the multiset is among them.
    pub fn len(&self) -> (len: usize)
        ensures
            len == self.grams().len(),
            self.grams().no_duplicates(),
            forall|gram: Gram| self.grams().contains(gram) <==> self@.count(gram) > 0,
    {
        proof {
            use_type_invariant(self);
            lemma_bag_count(grams_of(self.entries@), counts_of(self.entries@));
        }
        self.entries.len()
    }

    /// The `i`-th distinct n-gram.
    pub fn ngram_at(&self, i: usize) -> (gram: &Vec<&'a str>)
        requires
            i < self.grams().len(),
        ensures
            gram.deep_view() == self.grams()[i as int],
    {
        &self.entries[i].gram
    }

    /// How often the `i`-th distinct n-gram occurs.
    pub fn count_at(&self, i: usize) -> (count: usize)
        requires
            i < self.grams().len(),
        ensures
            count == self@.count(self.grams()[i as int]),
            count > 0,
    {
        proof {
            use_type_invariant(self);
            lemma_bag_count(grams_of(self.entries@), counts_of(self.entries@));
        }
        self.entries[i].count
    }

    /// How often `gram` occurs, or `None` where it does not occur.
    pub fn get(&self, gram: &Vec<&str>) -> (count: Option<usize>)
        ensures
            count is None <==> self@.count(gram.deep_view()) == 0,
            count matches Some(c) ==> c == self@.count(gram.deep_view()),
    {
        proof {
            use_type_invariant(self);
            lemma_bag_count(grams_of(self.entries@), counts_of(self.entries@));
        }
        match self.position(gram) {
            Some(i) => Some(self.entries[i].count),
            None => None,
        }
    }

    /// The size of the multiset: the sum of all counts.
    pub fn total(&self) -> (total: usize)
        ensures
            total == self@.len(),
    {
        proof {
            use_type_invariant(self);
        }
        self.total
    }

    /// How many n-grams `self` shares with `other`: the sum, over the
    /// distinct n-grams of `self`, of the smaller of the two counts.
    pub fn overlap(&self, other: &NgramCounts) -> (shared: usize)
        ensures
            shared == overlap_spec(self@, other@),
    {
        proof {
            use_type_invariant(self);
        }
        let ghost grams = grams_of(self.entries@);
        let ghost counts = counts_of(self.entries@);
        let mut shared: usize = 0;
        let mut i: usize = 0;
        proof {
            broadcast use {group_multiset_axioms, lemma_intersection_count};

            assert(bag(grams.take(0), counts.take(0)).intersection_with(other@)
                =~= Multiset::<Gram>::empty());
        }
        while i < self.entries.len()
            invariant
                i <= self.entries.len(),
                grams == grams_of(self.entries@),
                counts == counts_of(self.entries@),
                grams.no_duplicates(),
                self.total == bag(grams, counts).len(),
                shared == bag(grams.take(i as int), counts.take(i as int)).intersection_with(
                    other@,
                ).len(),
                shared <= bag(grams.take(i as int), counts.take(i as int)).len(),
            decreases self.entries.len() - i,
        {
            let entry = &self.entries[i];
            let theirs = match other.get(&entry.gram) {
                Some(count) => count,
                None => 0,
            };
            let least = if entry.count < theirs {
                entry.count
            } else {
                theirs
            };
            proof {
                broadcast use group_multiset_axioms;

                let head = bag(grams.take(i as int), counts.take(i as int));
                lemma_bag_take_next(grams, counts, i as int);
                lemma_bag_take_len(grams, counts, i + 1);
                lemma_copies(grams[i as int], counts[i as int]);
                assert(head.count(grams[i as int]) == 0) by {
                    lemma_bag_count(grams.take(i as int), counts.take(i as int));
                    assert(!grams.take(i as int).contains(grams[i as int]));
                }
                lemma_intersection_next(head, grams[i as int], counts[i as int], other@);
            }
            shared = shared + least;
            i += 1;
        }
        proof {
            assert(grams.take(i as int) =~= grams);
            assert(counts.take(i as int) =~= counts);
        }
        shared
    }

    /// Adds one occurrence of `gram`.
    pub fn insert(&mut self, gram: Vec<&'a str>)
        requires
            old(self)@.len() < usize::MAX,
        ensures
            final(self)@ == old(self)@.insert(gram.deep_view()),
            final(self).grams() == push_if_new(old(self).grams(), gram.deep_view()),
    {
        broadcast use group_multiset_axioms;

        proof {
            use_type_invariant(&*self);
        }
        let ghost grams = grams_of(self.entries@);
        let ghost counts = counts_of(self.entries@);
        let found = self.position(&gram);
        // The entries and the total change together: the value is taken out
        // whole and put back whole.
        let mut taken = NgramCounts::new();
        core::mem::swap(self, &mut taken);
        let NgramCounts { mut entries, total } = taken;
        match found {
            Some(i) => {
                proof {
                    lemma_bag_count(grams, counts);
                    lemma_bag_increment(grams, counts, i as int);
                    assert(bag(grams, counts).count(grams[i as int]) <= bag(grams, counts).len());
                }
                entries[i].count += 1;
                proof {
                    assert(grams_of(entries@) =~= grams);
                    assert(counts_of(entries@) =~= counts.update(i as int, counts[i as int] + 1));
                }
            },
            None => {
                proof {
                    lemma_bag_push(grams, counts, gram.deep_view());
                }
                entries.push(Entry { gram, count: 1 });
                proof {
                    assert(grams_of(entries@) =~= grams.push(gram.deep_view()));
                    assert(counts_of(entries@) =~= counts.push(1));
                }
            },
        }
        *self = NgramCounts { entries, total: total + 1 };
    }
}

} // verus!
