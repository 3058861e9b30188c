//! A set of strings kept in ascending order, as a `BTreeSet<String>` keeps it.
use vstd::prelude::*;
use crate::text::{seq_lt, strs, compare_str, str_eq, Order, lemma_lt_irreflexive, lemma_lt_transitive, lemma_lt_total};
use crate::cm::strictly_sorted;

verus! {

/// A set of strings, iterated in ascending order.
#[derive(Debug)]
pub struct StringSet {
    items: Vec<String>,
}

/// A strictly ascending sequence holds each member once.
pub proof fn lemma_sorted_no_dup(k: Seq<Seq<char>>)
    requires
        strictly_sorted(k),
    ensures
        k.no_duplicates(),
{
    assert forall|i: int, j: int| 0 <= i < k.len() && 0 <= j < k.len() && i != j implies k[i]
        != k[j] by {
        lemma_lt_irreflexive(k[i]);
        if i < j {
            assert(seq_lt(k[i], k[j]));
        } else {
            assert(seq_lt(k[j], k[i]));
        }
    }
}

impl StringSet {
    #[verifier::type_invariant]
    closed spec fn sorted(&self) -> bool {
        strictly_sorted(strs(self.items@))
    }

    /// The members, in ascending order.
    pub closed spec fn seq(&self) -> Seq<Seq<char>> {
        strs(self.items@)
    }

}

impl View for StringSet {
    type V = Set<Seq<char>>;

    closed spec fn view(&self) -> Set<Seq<char>> {
        self.seq().to_set()
    }
}

impl Clone for StringSet {
    fn clone(&self) -> (r: Self)
        ensures
            r.seq() == self.seq(),
            r@ == self@,
    {
        proof {
            use_type_invariant(self);
        }
        let mut items: Vec<String> = Vec::new();
        let mut i: usize = 0;
        while i < self.items.len()
            invariant
                i <= self.items@.len(),
                items@.len() == i,
                forall|k: int| 0 <= k < i ==> #[trigger] items@[k]@ == self.items@[k]@,
            decreases self.items.len() - i,
        {
            items.push(self.items[i].clone());
            i += 1;
        }
        proof {
            assert(strs(items@) =~= strs(self.items@));
        }
        StringSet { items }
    }
}

impl StringSet {
    /// An empty set.
    pub fn new() -> (r: StringSet)
        ensures
            r.seq().len() == 0,
            r@ == Set::<Seq<char>>::empty(),
    {
        let r = StringSet { items: Vec::new() };
        assert(r.seq() =~= Seq::<Seq<char>>::empty());
        assert(r@ =~= Set::<Seq<char>>::empty());
        r
    }

    /// The members, in ascending order.
    pub fn items(&self) -> (r: &Vec<String>)
        ensures
            strs(r@) == self.seq(),
            strs(r@).to_set() == self@,
            strictly_sorted(self.seq()),
            self.seq() == sorted_members(self@),
    {
        proof {
            use_type_invariant(self);
            let q = sorted_members(self@);
            assert(strictly_sorted(self.seq()) && self.seq().to_set() == self@);
            lemma_sorted_unique(q, self.seq());
        }
        &self.items
    }

    /// The number of members.
    pub fn len(&self) -> (r: usize)
        ensures
            r == self.seq().len(),
            r == self@.len(),
    {
        proof {
            use_type_invariant(self);
            lemma_sorted_no_dup(self.seq());
            self.seq().unique_seq_to_set();
        }
        self.items.len()
    }

    /// Whether `s` is a member.
    pub fn contains(&self, s: &str) -> (r: bool)
        ensures
            r == self@.contains(s@),
    {
        let mut i: usize = 0;
        while i < self.items.len()
            invariant
                i <= self.items@.len(),
                forall|j: int| 0 <= j < i ==> self.seq()[j] != s@,
            decreases self.items.len() - i,
        {
            if str_eq(self.items[i].as_str(), s) {
                assert(self.seq()[i as int] == s@);
                return true;
            }
            i += 1;
        }
        false
    }

    /// Adds `s`; returns whether it was not a member before.
    pub fn insert(&mut self, s: String) -> (r: bool)
        ensures
            final(self)@ == old(self)@.insert(s@),
            r == !old(self)@.contains(s@),
    {
        proof {
            use_type_invariant(&*self);
        }
        let ghost old_keys = self.seq();
        let ghost key_v = s@;
        let mut p: usize = 0;
        while p < self.items.len()
            invariant
                p <= self.items@.len(),
                self.seq() == old_keys,
                key_v == s@,
                strictly_sorted(old_keys),
                forall|j: int| 0 <= j < p ==> seq_lt(#[trigger] old_keys[j], key_v),
            ensures
                p <= self.items@.len(),
                self.seq() == old_keys,
                forall|j: int| 0 <= j < p ==> seq_lt(#[trigger] old_keys[j], key_v),
                p < self.items@.len() ==> !seq_lt(old_keys[p as int], key_v),
            decreases self.items.len() - p,
        {
            if compare_str(self.items[p].as_str(), s.as_str()) != Order::Less {
                break;
            }
            p += 1;
        }
        if p < self.items.len() && str_eq(self.items[p].as_str(), s.as_str()) {
            assert(old_keys[p as int] == key_v);
            return false;
        }
        proof {
            if p < old_keys.len() {
                lemma_lt_total(old_keys[p as int], key_v);
            }
            assert(!old_keys.contains(key_v)) by {
                if old_keys.contains(key_v) {
                    let q = choose|q: int| 0 <= q < old_keys.len() && old_keys[q] == key_v;
                    lemma_lt_irreflexive(key_v);
                    if q > p {
                        lemma_lt_transitive(key_v, old_keys[p as int], old_keys[q]);
                    }
                }
            }
        }
        let mut items: Vec<String> = Vec::new();
        std::mem::swap(&mut items, &mut self.items);
        items.insert(p, s);
        proof {
            let nk = strs(items@);
            assert(nk =~= old_keys.take(p as int).push(key_v) + old_keys.skip(p as int));
            assert forall|i: int, j: int| 0 <= i < j < nk.len() implies seq_lt(#[trigger] nk[i], #[trigger] nk[j]) by {
                if j < p {
                } else if j == p {
                } else if i == p {
                    if j - 1 > p {
                        lemma_lt_transitive(key_v, old_keys[p as int], old_keys[j - 1]);
                    }
                } else if i < p {
                    lemma_lt_transitive(old_keys[i], key_v, old_keys[p as int]);
                    if j - 1 > p {
                        lemma_lt_transitive(old_keys[i], old_keys[p as int], old_keys[j - 1]);
                    }
                }
            }
            assert(nk.to_set() =~= old_keys.to_set().insert(key_v)) by {
                assert forall|x: Seq<char>| nk.to_set().contains(x) implies old_keys.to_set().insert(key_v).contains(x) by {
                    let q = choose|q: int| 0 <= q < nk.len() && nk[q] == x;
                    if q < p {
                        assert(old_keys[q] == x);
                    } else if q > p {
                        assert(old_keys[q - 1] == x);
                    }
                }
                assert forall|x: Seq<char>| old_keys.to_set().insert(key_v).contains(x) implies nk.to_set().contains(x) by {
                    if x == key_v {
                        assert(nk[p as int] == x);
                    } else {
                        let q = choose|q: int| 0 <= q < old_keys.len() && old_keys[q] == x;
                        if q < p {
                            assert(nk[q] == x);
                        } else {
                            assert(nk[q + 1] == x);
                        }
                    }
                }
            }
        }
        self.items = items;
        true
    }

    /// The set of the given strings.
    pub fn from_strings(v: &Vec<String>) -> (r: StringSet)
        ensures
            r@ == strs(v@).to_set(),
    {
        let mut r = StringSet::new();
        let mut i: usize = 0;
        while i < v.len()
            invariant
                i <= v@.len(),
                r@ == strs(v@).take(i as int).to_set(),
            decreases v.len() - i,
        {
            r.insert(v[i].clone());
            proof {
                assert(strs(v@).take(i + 1) =~= strs(v@).take(i as int).push(v@[i as int]@));
                strs(v@).take(i as int).lemma_push_to_set_commute(v@[i as int]@);
            }
            i += 1;
        }
        proof {
            assert(strs(v@).take(i as int) =~= strs(v@));
        }
        r
    }
}


/// The members of a finite set of strings, in ascending order.
pub open spec fn sorted_members(s: Set<Seq<char>>) -> Seq<Seq<char>> {
    choose|q: Seq<Seq<char>>| strictly_sorted(q) && q.to_set() == s
}

/// Two strictly ascending sequences with the same members are equal.
pub proof fn lemma_sorted_unique(a: Seq<Seq<char>>, b: Seq<Seq<char>>)
    requires
        strictly_sorted(a),
        strictly_sorted(b),
        a.to_set() == b.to_set(),
    ensures
        a == b,
    decreases a.len(),
{
    if a.len() == 0 {
        if b.len() > 0 {
            assert(b.to_set().contains(b[0]));
        }
        assert(a =~= b);
    } else if b.len() == 0 {
        assert(a.to_set().contains(a[0]));
    } else {
        assert(a.to_set().contains(a[0]));
        assert(b.to_set().contains(b[0]));
        let j = choose|j: int| 0 <= j < b.len() && b[j] == a[0];
        let k = choose|k: int| 0 <= k < a.len() && a[k] == b[0];
        lemma_lt_irreflexive(a[0]);
        if j > 0 {
            assert(seq_lt(b[0], b[j]));
            if k > 0 {
                assert(seq_lt(a[0], a[k]));
                crate::text::lemma_lt_asymmetric(a[0], b[0]);
            }
        }
        assert(a[0] == b[0]);
        let a1 = a.drop_first();
        let b1 = b.drop_first();
        lemma_sorted_no_dup(a);
        lemma_sorted_no_dup(b);
        assert forall|x: Seq<char>| a1.to_set().contains(x) implies b1.to_set().contains(x) by {
            let q = choose|q: int| 0 <= q < a1.len() && a1[q] == x;
            assert(a[q + 1] == x);
            assert(a.to_set().contains(x));
            let r = choose|r: int| 0 <= r < b.len() && b[r] == x;
            if r == 0 {
                assert(a[0] == a[q + 1]);
            }
            assert(b1[r - 1] == x);
        }
        assert forall|x: Seq<char>| b1.to_set().contains(x) implies a1.to_set().contains(x) by {
            let q = choose|q: int| 0 <= q < b1.len() && b1[q] == x;
            assert(b[q + 1] == x);
            assert(b.to_set().contains(x));
            let r = choose|r: int| 0 <= r < a.len() && a[r] == x;
            if r == 0 {
                assert(b[0] == b[q + 1]);
            }
            assert(a1[r - 1] == x);
        }
        assert(a1.to_set() =~= b1.to_set());
        lemma_sorted_unique(a1, b1);
        assert forall|i: int| 0 <= i < a.len() implies a[i] == b[i] by {
            if i > 0 {
                assert(a[i] == a1[i - 1]);
                assert(b[i] == b1[i - 1]);
            }
        }
        assert(a =~= b);
    }
}

} // verus!
