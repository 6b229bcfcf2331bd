use vstd::prelude::*;
use crate::cst::{Cst, Tree};

verus! {

/// What a match binds: pattern variable names to trees, each marked whether
/// it is a sequence (the list of what a repeated sub-pattern matched) or a
/// single match. A later entry for a name hides an earlier one.
#[derive(Debug)]
pub struct Bindings {
    pub entries: Vec<(String, Cst, bool)>,
}

pub open spec fn map_of(s: Seq<(String, Cst, bool)>) -> Map<Seq<char>, (Tree, bool)>
    decreases s.len(),
{
    if s.len() == 0 {
        Map::empty()
    } else {
        map_of(s.drop_last()).insert(s.last().0@, (s.last().1@, s.last().2))
    }
}

impl View for Bindings {
    type V = Map<Seq<char>, (Tree, bool)>;

    open spec fn view(&self) -> Map<Seq<char>, (Tree, bool)> {
        map_of(self.entries@)
    }
}

/// The model of an optional set of bindings.
pub open spec fn opt_view(r: Option<Bindings>) -> Option<Map<Seq<char>, (Tree, bool)>> {
    match r {
        Some(b) => Some(b@),
        None => None,
    }
}

pub proof fn lemma_map_of_append(a: Seq<(String, Cst, bool)>, b: Seq<(String, Cst, bool)>)
    ensures
        map_of(a + b) == map_of(a).union_prefer_right(map_of(b)),
    decreases b.len(),
{
    if b.len() == 0 {
        assert(a + b =~= a);
        assert(map_of(a).union_prefer_right(map_of(b)) =~= map_of(a));
    } else {
        assert((a + b).drop_last() =~= a + b.drop_last());
        lemma_map_of_append(a, b.drop_last());
        assert(map_of(a + b) =~= map_of(a).union_prefer_right(map_of(b)));
    }
}

/// A name is bound exactly when some entry carries it.
pub proof fn lemma_map_of_keys(s: Seq<(String, Cst, bool)>)
    ensures
        forall|k: Seq<char>|
            #[trigger] map_of(s).dom().contains(k) <==> exists|i: int| 0 <= i < s.len() && s[i].0@ == k,
    decreases s.len(),
{
    if s.len() > 0 {
        lemma_map_of_keys(s.drop_last());
        assert forall|k: Seq<char>| #[trigger] map_of(s).dom().contains(k) implies exists|i: int|
            0 <= i < s.len() && s[i].0@ == k by {
            if k != s.last().0@ {
                assert(map_of(s.drop_last()).dom().contains(k));
                let i = choose|i: int| 0 <= i < s.drop_last().len() && s.drop_last()[i].0@ == k;
                assert(s[i].0@ == k);
            } else {
                assert(s[s.len() - 1].0@ == k);
            }
        }
        assert forall|k: Seq<char>| (exists|i: int| 0 <= i < s.len() && s[i].0@ == k) implies #[trigger] map_of(s).dom().contains(k) by {
            let i = choose|i: int| 0 <= i < s.len() && s[i].0@ == k;
            if i < s.len() - 1 {
                assert(s.drop_last()[i].0@ == k);
                assert(map_of(s.drop_last()).dom().contains(k));
            }
        }
    }
}

/// Entries after `n` that do not carry `k` leave its binding as it was.
proof fn lemma_map_of_tail_free(s: Seq<(String, Cst, bool)>, n: int, k: Seq<char>)
    requires
        0 <= n <= s.len(),
        forall|j: int| n <= j < s.len() ==> s[j].0@ != k,
    ensures
        map_of(s).dom().contains(k) == map_of(s.take(n)).dom().contains(k),
        map_of(s).dom().contains(k) ==> map_of(s)[k] == map_of(s.take(n))[k],
    decreases s.len(),
{
    if n < s.len() {
        assert(s.drop_last().take(n) =~= s.take(n));
        lemma_map_of_tail_free(s.drop_last(), n, k);
    } else {
        assert(s.take(n) =~= s);
    }
}

impl Bindings {
    pub fn new() -> (r: Bindings)
        ensures
            r@ == Map::<Seq<char>, (Tree, bool)>::empty(),
    {
        Bindings { entries: Vec::new() }
    }

    /// Binds `k` to `v`, as a sequence where `is_seq`, hiding any earlier
    /// binding of `k`.
    pub fn insert(&mut self, k: String, v: Cst, is_seq: bool)
        ensures
            final(self)@ == old(self)@.insert(k@, (v@, is_seq)),
    {
        proof {
            assert(old(self).entries@.push((k, v, is_seq)).drop_last() =~= old(self).entries@);
        }
        self.entries.push((k, v, is_seq));
    }

    /// Adds the bindings of `other`, which win over those of `self`.
    pub fn extend(&mut self, other: Bindings)
        ensures
            final(self)@ == old(self)@.union_prefer_right(other@),
    {
        let mut o = other.entries;
        proof {
            lemma_map_of_append(self.entries@, o@);
        }
        self.entries.append(&mut o);
    }

    /// The tree bound to `k`, and whether it is a sequence.
    pub fn get(&self, k: &String) -> (r: Option<(&Cst, bool)>)
        ensures
            r is Some == self@.dom().contains(k@),
            r matches Some((c, q)) ==> c@ == self@[k@].0 && q == self@[k@].1,
    {
        let mut i: usize = self.entries.len();
        while i > 0
            invariant
                i <= self.entries.len(),
                forall|j: int| i <= j < self.entries.len() ==> self.entries@[j].0@ != k@,
            decreases i,
        {
            if self.entries[i - 1].0 == *k {
                proof {
                    lemma_map_of_tail_free(self.entries@, i as int, k@);
                    assert(self.entries@.take(i as int).drop_last() =~= self.entries@.take(i - 1));
                }
                return Some((&self.entries[i - 1].1, self.entries[i - 1].2));
            }
            i = i - 1;
        }
        proof {
            lemma_map_of_tail_free(self.entries@, 0, k@);
        }
        None
    }
}

} // verus!
