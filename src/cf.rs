//! Item-item collaborative filtering: rating tables, the similarity model
//! and what training and prediction read from them.
//!
//! A rating is the ratio `wins / battles` of one account on one item, kept
//! exactly as the two counts.

use vstd::prelude::*;
use std::collections::{HashMap, HashSet};

verus! {

broadcast use vstd::std_specs::hash::group_hash_axioms;

/// An id (of an account or of an item) with the rating `wins / battles`.
#[derive(Clone, Copy, Debug, PartialEq, Eq, Structural)]
pub struct Rating {
    pub id: u32,
    pub wins: u32,
    pub battles: u32,
}

/// Each id of `ratings` mapped to the last rating that carries it.
pub open spec fn rating_map(ratings: Seq<Rating>) -> Map<u32, Rating>
    decreases ratings.len(),
{
    if ratings.len() == 0 {
        Map::empty()
    } else {
        rating_map(ratings.drop_last()).insert(ratings.last().id, ratings.last())
    }
}

/// Whether `ratings[i]` is the first rating that carries its id.
pub open spec fn first_of_id(ratings: Seq<Rating>, i: int) -> bool {
    forall|j: int| 0 <= j < i ==> #[trigger] ratings[j].id != ratings[i].id
}

/// For the ids among the first `n` ratings of `ratings_1` that also occur in
/// `ratings_2`, once each and in order of first occurrence, the last rating
/// of that id on either side.
pub open spec fn shared_prefix(ratings_1: Seq<Rating>, ratings_2: Seq<Rating>, n: nat) -> Seq<(Rating, Rating)>
    decreases n,
{
    if n == 0 {
        seq![]
    } else {
        let prefix = shared_prefix(ratings_1, ratings_2, (n - 1) as nat);
        let id = ratings_1[n - 1].id;
        if first_of_id(ratings_1, n - 1) && rating_map(ratings_2).contains_key(id) {
            prefix.push((rating_map(ratings_1)[id], rating_map(ratings_2)[id]))
        } else {
            prefix
        }
    }
}

/// The ratings of the accounts (or items) that both sequences rate.
pub open spec fn shared_of(ratings_1: Seq<Rating>, ratings_2: Seq<Rating>) -> Seq<(Rating, Rating)> {
    shared_prefix(ratings_1, ratings_2, ratings_1.len())
}

/// Maps each id of `ratings` to its last rating.
fn to_rating_map(ratings: &Vec<Rating>) -> (r: HashMap<u32, Rating>)
    ensures
        r@ == rating_map(ratings@),
{
    let mut map: HashMap<u32, Rating> = HashMap::new();
    let mut i: usize = 0;
    while i < ratings.len()
        invariant
            i <= ratings@.len(),
            map@ == rating_map(ratings@.subrange(0, i as int)),
        decreases ratings@.len() - i,
    {
        let entry = ratings[i];
        map.insert(entry.id, entry);
        proof {
            let next = ratings@.subrange(0, i + 1);
            assert(next.drop_last() =~= ratings@.subrange(0, i as int));
        }
        i = i + 1;
    }
    proof {
        assert(ratings@.subrange(0, ratings@.len() as int) =~= ratings@);
    }
    map
}

/// Pairs up the ratings of the accounts that rate both items: one pair per
/// shared account, in order of its first rating in `ratings_1`, holding the
/// last rating of that account on each side.
pub fn shared_ratings(ratings_1: &Vec<Rating>, ratings_2: &Vec<Rating>) -> (r: Vec<(Rating, Rating)>)
    ensures
        r@ == shared_of(ratings_1@, ratings_2@),
{
    let map_1 = to_rating_map(ratings_1);
    let map_2 = to_rating_map(ratings_2);
    let mut seen: HashSet<u32> = HashSet::new();
    let mut shared: Vec<(Rating, Rating)> = Vec::new();
    let mut i: usize = 0;
    while i < ratings_1.len()
        invariant
            i <= ratings_1@.len(),
            map_1@ == rating_map(ratings_1@),
            map_2@ == rating_map(ratings_2@),
            forall|id: u32| seen@.contains(id) <==> exists|j: int| 0 <= j < i && #[trigger] ratings_1@[j].id == id,
            shared@ == shared_prefix(ratings_1@, ratings_2@, i as nat),
        decreases ratings_1@.len() - i,
    {
        let id = ratings_1[i].id;
        proof {
            if seen@.contains(id) {
                let j = choose|j: int| 0 <= j < i && #[trigger] ratings_1@[j].id == id;
                assert(!first_of_id(ratings_1@, i as int));
            } else {
                assert forall|j: int| 0 <= j < i implies #[trigger] ratings_1@[j].id != ratings_1@[i as int].id by {
                    if ratings_1@[j].id == id {
                        assert(seen@.contains(id));
                    }
                }
            }
        }
        let first = seen.insert(id);
        if first && map_2.contains_key(&id) {
            assert(rating_map(ratings_1@).contains_key(id)) by {
                lemma_rating_map_has(ratings_1@, i as int);
            }
            let r1 = *map_1.get(&id).unwrap();
            let r2 = *map_2.get(&id).unwrap();
            shared.push((r1, r2));
        }
        proof {
            assert forall|x: u32| seen@.contains(x) <==> exists|j: int| 0 <= j < i + 1 && #[trigger] ratings_1@[j].id == x by {
                if x == id {
                    assert(ratings_1@[i as int].id == x);
                }
            }
        }
        i = i + 1;
    }
    shared
}

proof fn lemma_rating_map_has(ratings: Seq<Rating>, i: int)
    requires
        0 <= i < ratings.len(),
    ensures
        rating_map(ratings).contains_key(ratings[i].id),
    decreases ratings.len(),
{
    if i < ratings.len() - 1 {
        lemma_rating_map_has(ratings.drop_last(), i);
    }
}

/// The ratings stored for `item`, empty when there are none.
pub open spec fn entries_of(table: Map<u32, Seq<Rating>>, item: u32) -> Seq<Rating> {
    if table.contains_key(item) {
        table[item]
    } else {
        seq![]
    }
}

/// Maps an item id to the ratings of the accounts that played it, in the
/// order in which they were added.
pub struct RatingTable {
    items: Vec<u32>,
    ratings: HashMap<u32, Vec<Rating>>,
}

impl View for RatingTable {
    type V = Map<u32, Seq<Rating>>;

    closed spec fn view(&self) -> Map<u32, Seq<Rating>> {
        self.ratings@.map_values(|v: Vec<Rating>| v@)
    }
}

impl RatingTable {
    /// The item ids are those of the map, each listed once.
    pub closed spec fn wf(&self) -> bool {
        &&& self.items@.no_duplicates()
        &&& forall|item: u32| self.ratings@.contains_key(item) <==> self.items@.contains(item)
    }

    /// An empty table.
    pub fn new() -> (r: RatingTable)
        ensures
            r.wf(),
            r@ == Map::<u32, Seq<Rating>>::empty(),
    {
        let r = RatingTable { items: Vec::new(), ratings: HashMap::new() };
        assert(r@ =~= Map::<u32, Seq<Rating>>::empty());
        r
    }

    /// The number of items.
    pub fn len(&self) -> (r: usize)
        ensures
            r == self@.len(),
    {
        assert(self@.dom() =~= self.ratings@.dom());
        self.ratings.len()
    }

    /// The ratings of `item`, if the table has it.
    pub fn get(&self, item: u32) -> (r: Option<&Vec<Rating>>)
        ensures
            match r {
                Some(v) => self@.contains_key(item) && v@ == self@[item],
                None => !self@.contains_key(item),
            },
    {
        self.ratings.get(&item)
    }

    /// Sets the ratings of `item`, replacing any it had.
    pub fn insert(&mut self, item: u32, ratings: Vec<Rating>)
        requires
            old(self).wf(),
        ensures
            final(self).wf(),
            final(self)@ == old(self)@.insert(item, ratings@),
    {
        let ghost v = ratings@;
        if !self.ratings.contains_key(&item) {
            proof {
                lemma_push_new(self.items@, item);
            }
            self.items.push(item);
        }
        self.ratings.insert(item, ratings);
        assert(self.ratings@.dom() =~= old(self).ratings@.dom().insert(item));
        assert(self.items@.no_duplicates());
        assert(forall|x: u32| self.items@.contains(x) <==> (old(self).items@.contains(x) || x == item));
        assert(forall|x: u32| self.ratings@.contains_key(x) <==> self.items@.contains(x));
        assert(self@ =~= old(self)@.insert(item, v));
    }

    /// Appends one rating to those of `item`.
    pub fn push(&mut self, item: u32, rating: Rating)
        requires
            old(self).wf(),
        ensures
            final(self).wf(),
            final(self)@ == old(self)@.insert(item, entries_of(old(self)@, item).push(rating)),
    {
        let ghost before = self@;
        let ghost stored = self.ratings@;
        match self.ratings.remove(&item) {
            Some(mut entries) => {
                assert(entries@ == entries_of(before, item));
                entries.push(rating);
                self.ratings.insert(item, entries);
                assert(self.ratings@ == stored.insert(item, entries));
            },
            None => {
                proof {
                    lemma_push_new(self.items@, item);
                }
                self.items.push(item);
                let entries = vec![rating];
                assert(entries@ == entries_of(before, item).push(rating));
                self.ratings.insert(item, entries);
            },
        }
        assert(self.ratings@.dom() =~= stored.dom().insert(item));
        assert(self.items@.no_duplicates());
        assert(forall|x: u32| self.items@.contains(x) <==> (old(self).items@.contains(x) || x == item));
        assert(forall|x: u32| self.ratings@.contains_key(x) <==> self.items@.contains(x));
        assert(self@ =~= before.insert(item, entries_of(before, item).push(rating)));
    }
}

proof fn lemma_push_new(items: Seq<u32>, item: u32)
    requires
        items.no_duplicates(),
        !items.contains(item),
    ensures
        items.push(item).no_duplicates(),
        forall|x: u32| items.push(item).contains(x) <==> (items.contains(x) || x == item),
{
    let pushed = items.push(item);
    assert forall|x: u32| pushed.contains(x) <==> (items.contains(x) || x == item) by {
        if items.contains(x) {
            let i = items.index_of(x);
            assert(pushed[i] == x);
        }
        if x == item {
            assert(pushed[items.len() as int] == x);
        }
        if pushed.contains(x) {
            let i = pushed.index_of(x);
            if i < items.len() {
                assert(items[i] == x);
            }
        }
    }
    assert forall|i: int, j: int| 0 <= i < pushed.len() && 0 <= j < pushed.len() && i != j implies pushed[i] != pushed[j] by {
        if i < items.len() && j < items.len() {
        } else if i < items.len() {
            assert(items.contains(pushed[i]));
        } else {
            assert(items.contains(pushed[j]));
        }
    }
}

/// The key of the ordered pair `(a, b)`: `a` in the high half, `b` in the
/// low half.
pub open spec fn pair_key(a: u32, b: u32) -> u64 {
    (a as int * 0x1_0000_0000 + b as int) as u64
}

fn make_pair_key(a: u32, b: u32) -> (r: u64)
    ensures
        r == pair_key(a, b),
{
    a as u64 * 0x1_0000_0000 + b as u64
}

/// Maps ordered pairs of item ids to their similarity.
pub struct Model<S> {
    entries: HashMap<u64, S>,
}

impl<S> View for Model<S> {
    type V = Map<(u32, u32), S>;

    closed spec fn view(&self) -> Map<(u32, u32), S> {
        Map::new(
            |p: (u32, u32)| self.entries@.contains_key(pair_key(p.0, p.1)),
            |p: (u32, u32)| self.entries@[pair_key(p.0, p.1)],
        )
    }
}

impl<S> Model<S> {
    /// An empty model.
    pub fn new() -> (r: Model<S>)
        ensures
            r@ == Map::<(u32, u32), S>::empty(),
    {
        let r = Model { entries: HashMap::new() };
        assert(r@ =~= Map::<(u32, u32), S>::empty());
        r
    }

    /// The similarity stored for the ordered pair `(a, b)`.
    pub fn get(&self, a: u32, b: u32) -> (r: Option<&S>)
        ensures
            match r {
                Some(v) => self@.contains_key((a, b)) && *v == self@[(a, b)],
                None => !self@.contains_key((a, b)),
            },
    {
        let key = make_pair_key(a, b);
        self.entries.get(&key)
    }

    /// Stores `similarity` for the ordered pair `(a, b)`.
    pub fn insert(&mut self, a: u32, b: u32, similarity: S)
        ensures
            final(self)@ == old(self)@.insert((a, b), similarity),
    {
        let key = make_pair_key(a, b);
        self.entries.insert(key, similarity);
        assert(self@ =~= old(self)@.insert((a, b), similarity));
    }
}

/// Whether `value` is a result that `similarity` can give on two rating
/// vectors that hold `ratings_1` and `ratings_2`.
pub open spec fn similarity_result<S, F: Fn(&Vec<Rating>, &Vec<Rating>) -> S>(
    similarity: F,
    ratings_1: Seq<Rating>,
    ratings_2: Seq<Rating>,
    value: S,
) -> bool {
    exists|v1: Vec<Rating>, v2: Vec<Rating>|
        v1@ == ratings_1 && v2@ == ratings_2 && #[trigger] call_ensures(similarity, (&v1, &v2), value)
}

/// Whether `model` holds a similarity for every ordered pair of distinct
/// items of `table` and for no other pair, the same one both ways.
pub open spec fn covers_pairs<S>(model: Map<(u32, u32), S>, table: Map<u32, Seq<Rating>>) -> bool {
    &&& forall|a: u32, b: u32| #[trigger]
        model.contains_key((a, b)) <==> (a != b && table.contains_key(a) && table.contains_key(b))
    &&& forall|a: u32, b: u32| #[trigger] model.contains_key((a, b)) ==> model[(a, b)] == model[(b, a)]
}

/// Trains a model: computes `similarity` once for each pair of distinct
/// items, on the lower id's ratings first, and stores it under both orders
/// of the pair.
pub fn train<S: Copy, F: Fn(&Vec<Rating>, &Vec<Rating>) -> S>(rating_table: RatingTable, similarity: F) -> (model: Model<S>)
    requires
        rating_table.wf(),
        forall|v1: Vec<Rating>, v2: Vec<Rating>| call_requires(similarity, (&v1, &v2)),
    ensures
        covers_pairs(model@, rating_table@),
        forall|a: u32, b: u32| #[trigger] model@.contains_key((a, b)) && a < b ==> similarity_result(
            similarity,
            rating_table@[a],
            rating_table@[b],
            model@[(a, b)],
        ),
{
    let mut model: Model<S> = Model::new();
    let ghost table = rating_table@;
    let items = &rating_table.items;
    let n = items.len();
    let mut i: usize = 0;
    while i < n
        invariant
            rating_table.wf(),
            table == rating_table@,
            items == &rating_table.items,
            n == items@.len(),
            i <= n,
            forall|v1: Vec<Rating>, v2: Vec<Rating>| call_requires(similarity, (&v1, &v2)),
            forall|a: u32, b: u32| #[trigger] model@.contains_key((a, b)) ==> {
                &&& a != b
                &&& table.contains_key(a)
                &&& table.contains_key(b)
                &&& model@.contains_key((b, a))
                &&& model@[(a, b)] == model@[(b, a)]
                &&& a < b ==> similarity_result(similarity, table[a], table[b], model@[(a, b)])
            },
            forall|p: int, q: int| #![trigger items@[p], items@[q]]
                0 <= p < i && 0 <= q < n && items@[p] < items@[q] ==> model@.contains_key((items@[p], items@[q])),
        decreases n - i,
    {
        let item_1 = items[i];
        assert(rating_table.ratings@.contains_key(item_1)) by {
            assert(items@.contains(item_1));
        }
        let ratings_1 = rating_table.ratings.get(&item_1).unwrap();
        let mut j: usize = 0;
        while j < n
            invariant
                rating_table.wf(),
                table == rating_table@,
                items == &rating_table.items,
                n == items@.len(),
                i < n,
                j <= n,
                item_1 == items@[i as int],
                ratings_1@ == table[item_1],
                table.contains_key(item_1),
                forall|v1: Vec<Rating>, v2: Vec<Rating>| call_requires(similarity, (&v1, &v2)),
                forall|a: u32, b: u32| #[trigger] model@.contains_key((a, b)) ==> {
                    &&& a != b
                    &&& table.contains_key(a)
                    &&& table.contains_key(b)
                    &&& model@.contains_key((b, a))
                    &&& model@[(a, b)] == model@[(b, a)]
                    &&& a < b ==> similarity_result(similarity, table[a], table[b], model@[(a, b)])
                },
                forall|p: int, q: int| #![trigger items@[p], items@[q]]
                    0 <= p < i && 0 <= q < n && items@[p] < items@[q] ==> model@.contains_key((items@[p], items@[q])),
                forall|q: int| #![trigger items@[q]]
                    0 <= q < j && item_1 < items@[q] ==> model@.contains_key((item_1, items@[q])),
            decreases n - j,
        {
            let item_2 = items[j];
            if item_1 < item_2 {
                assert(rating_table.ratings@.contains_key(item_2)) by {
                    assert(items@.contains(item_2));
                }
                let ratings_2 = rating_table.ratings.get(&item_2).unwrap();
                let value = similarity(ratings_1, ratings_2);
                assert(similarity_result(similarity, table[item_1], table[item_2], value)) by {
                    assert(call_ensures(similarity, (ratings_1, ratings_2), value));
                }
                model.insert(item_1, item_2, value);
                model.insert(item_2, item_1, value);
            }
            j = j + 1;
        }
        i = i + 1;
    }
    proof {
        assert forall|a: u32, b: u32| a != b && table.contains_key(a) && table.contains_key(b) implies
            #[trigger] model@.contains_key((a, b)) by {
            assert(items@.contains(a) && items@.contains(b));
            let lo = if a < b { a } else { b };
            let hi = if a < b { b } else { a };
            let p = items@.index_of(lo);
            let q = items@.index_of(hi);
            assert(items@[p] == lo && items@[q] == hi);
            assert(model@.contains_key((lo, hi)));
        }
    }
    model
}

/// A trained model holds a similarity for a pair in both orders, and the
/// same one.
pub proof fn lemma_model_symmetric<S>(model: Map<(u32, u32), S>, table: Map<u32, Seq<Rating>>, a: u32, b: u32)
    requires
        covers_pairs(model, table),
        model.contains_key((a, b)),
    ensures
        model.contains_key((b, a)),
        model[(a, b)] == model[(b, a)],
{
    assert(model.contains_key((b, a)));
}

/// A trained model holds no similarity of an item with itself.
pub proof fn lemma_no_self_similarity<S>(model: Map<(u32, u32), S>, table: Map<u32, Seq<Rating>>, a: u32)
    requires
        covers_pairs(model, table),
    ensures
        !model.contains_key((a, a)),
{
    assert(!model.contains_key((a, a)));
}

/// The similarities between `item` and each of `rated_items`, in order;
/// `None` when the model lacks one of them.
pub fn similarities_to<S: Copy>(model: &Model<S>, rated_items: &Vec<Rating>, item: u32) -> (r: Option<Vec<S>>)
    ensures
        match r {
            Some(v) => {
                &&& v@.len() == rated_items@.len()
                &&& forall|k: int| 0 <= k < v@.len() ==> {
                    &&& model@.contains_key((item, #[trigger] rated_items@[k].id))
                    &&& v@[k] == model@[(item, rated_items@[k].id)]
                }
            },
            None => exists|k: int| 0 <= k < rated_items@.len() && !model@.contains_key((item, #[trigger] rated_items@[k].id)),
        },
{
    let mut found: Vec<S> = Vec::new();
    let mut k: usize = 0;
    while k < rated_items.len()
        invariant
            k <= rated_items@.len(),
            found@.len() == k,
            forall|m: int| 0 <= m < k ==> {
                &&& model@.contains_key((item, #[trigger] rated_items@[m].id))
                &&& found@[m] == model@[(item, rated_items@[m].id)]
            },
        decreases rated_items@.len() - k,
    {
        match model.get(item, rated_items[k].id) {
            Some(s) => found.push(*s),
            None => return None,
        }
        k = k + 1;
    }
    Some(found)
}

} // verus!
