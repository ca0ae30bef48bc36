//! Events and filters: the data the matching engine works on.
//!
//! An event is a mapping from tag name to a single tag value.  A filter is a
//! mapping from tag name to a set of acceptable values; a filter matches an
//! event exactly when every tag the filter names is carried by the event with
//! an acceptable value.  Tags the filter does not name are unconstrained.

use vstd::prelude::*;

verus! {

/// First-match lookup in an association sequence keyed by string view.
pub open spec fn assoc_from<T>(s: Seq<(String, T)>, i: int, k: Seq<char>) -> Option<T>
    decreases s.len() - i,
{
    if i < 0 || i >= s.len() {
        None
    } else if s[i].0@ == k {
        Some(s[i].1)
    } else {
        assoc_from(s, i + 1, k)
    }
}

/// An immutable snapshot of one published message's tags.
#[derive(Clone, Eq)]
pub struct Event {
    tags: Vec<(String, String)>,
}

/// A subscriber's interest: a conjunction of per-tag equality constraints.
#[derive(Clone)]
pub struct Filter {
    tags: Vec<(String, Vec<String>)>,
}

impl View for Event {
    type V = Map<Seq<char>, Seq<char>>;

    closed spec fn view(&self) -> Map<Seq<char>, Seq<char>> {
        Map::new(
            |k: Seq<char>| assoc_from(self.tags@, 0, k) is Some,
            |k: Seq<char>| assoc_from(self.tags@, 0, k).unwrap()@,
        )
    }
}

impl Event {
    /// An event carrying no tags.
    pub fn new() -> (e: Event)
        ensures
            e@ == Map::<Seq<char>, Seq<char>>::empty(),
    {
        let e = Event { tags: Vec::new() };
        proof {
            assert(e@ =~= Map::<Seq<char>, Seq<char>>::empty());
        }
        e
    }

    /// Sets tag `k` to value `v`, replacing any previous value for `k`.
    pub fn insert(&mut self, k: String, v: String)
        ensures
            final(self)@ == old(self)@.insert(k@, v@),
    {
        let n = self.tags.len();
        let mut i: usize = 0;
        while i < n
            invariant
                n == self.tags@.len(),
                i <= n,
                self.tags@ == old(self).tags@,
                forall|j: int| 0 <= j < i ==> self.tags@[j].0@ != k@,
                assoc_from(self.tags@, 0, k@) == assoc_from(self.tags@, i as int, k@),
            decreases n - i,
        {
            if self.tags[i].0 == k {
                let y = (k, v);
                proof {
                    lemma_assoc_update(self.tags@, i as int, y, 0, k@);
                    assert forall|q: Seq<char>| q != k@ implies assoc_from(
                        self.tags@.update(i as int, y),
                        0,
                        q,
                    ) == assoc_from(self.tags@, 0, q) by {
                        lemma_assoc_update(self.tags@, i as int, y, 0, q);
                    }
                }
                self.tags.remove(i);
                self.tags.insert(i, y);
                proof {
                    lemma_remove_insert_is_update(old(self).tags@, i as int, y);
                    assert(self@ =~= old(self)@.insert(k@, v@));
                }
                return ;
            }
            i += 1;
        }
        let y = (k, v);
        proof {
            assert(assoc_from(self.tags@, n as int, k@) is None);
            lemma_assoc_push(self.tags@, y, 0, k@);
            assert forall|q: Seq<char>| q != k@ implies assoc_from(self.tags@.push(y), 0, q)
                == assoc_from(self.tags@, 0, q) by {
                lemma_assoc_push(self.tags@, y, 0, q);
            }
        }
        self.tags.push(y);
        proof {
            assert(self@ =~= old(self)@.insert(k@, v@));
        }
    }

    /// Whether every tag of `a` is carried by `b` with the same value.
    fn covered(a: &Event, b: &Event) -> (r: bool)
        ensures
            r == (forall|q: Seq<char>|
                #[trigger] a@.contains_key(q) ==> b@.contains_key(q) && b@[q] == a@[q]),
    {
        let n = a.tags.len();
        let mut i: usize = 0;
        while i < n
            invariant
                n == a.tags@.len(),
                i <= n,
                forall|j: int|
                    0 <= j < i ==> b@.contains_key(#[trigger] a.tags@[j].0@) && b@[a.tags@[j].0@]
                        == a@[a.tags@[j].0@],
            decreases n - i,
        {
            let k = &a.tags[i].0;
            proof {
                lemma_assoc_present(a.tags@, 0, i as int, k@);
                assert(a@.contains_key(k@));
            }
            match (a.get(k), b.get(k)) {
                (Some(x), Some(y)) => {
                    if !(*x == *y) {
                        proof {
                            assert(b@[k@] != a@[k@]);
                        }
                        return false;
                    }
                },
                (Some(_), None) => {
                    return false;
                },
                (None, _) => {
                    proof {
                        assert(false);
                    }
                    return false;
                },
            }
            i += 1;
        }
        proof {
            assert forall|q: Seq<char>| #[trigger] a@.contains_key(q) implies b@.contains_key(q)
                && b@[q] == a@[q] by {
                lemma_assoc_some_index(a.tags@, 0, q);
                let j = choose|j: int| 0 <= j < a.tags@.len() && a.tags@[j].0@ == q;
                assert(b@.contains_key(a.tags@[j].0@));
            }
        }
        true
    }

    /// The value the event carries for tag `k`, if any.
    pub fn get(&self, k: &String) -> (r: Option<&String>)
        ensures
            match r {
                Some(v) => self@.contains_key(k@) && self@[k@] == v@,
                None => !self@.contains_key(k@),
            },
    {
        let n = self.tags.len();
        let mut i: usize = 0;
        while i < n
            invariant
                n == self.tags@.len(),
                i <= n,
                assoc_from(self.tags@, 0, k@) == assoc_from(self.tags@, i as int, k@),
            decreases n - i,
        {
            if self.tags[i].0 == *k {
                return Some(&self.tags[i].1);
            }
            i += 1;
        }
        None
    }
}

impl PartialEq for Event {
    /// Events are equal exactly when they carry the same tags with the same
    /// values, whatever order the tags were set in.
    fn eq(&self, other: &Event) -> (r: bool) {
        if Event::covered(self, other) {
            if Event::covered(other, self) {
                proof {
                    assert forall|q: Seq<char>| self@.dom().contains(q)
                        == other@.dom().contains(q) by {
                        assert(self@.dom().contains(q) == self@.contains_key(q));
                        assert(other@.dom().contains(q) == other@.contains_key(q));
                    }
                    assert(self@.dom() =~= other@.dom());
                    assert(self@ =~= other@);
                }
                true
            } else {
                proof {
                    if self@ == other@ {
                        assert(forall|q: Seq<char>|
                            other@.contains_key(q) ==> self@.contains_key(q) && self@[q]
                                == other@[q]);
                    }
                }
                false
            }
        } else {
            proof {
                if self@ == other@ {
                    assert(forall|q: Seq<char>|
                        self@.contains_key(q) ==> other@.contains_key(q) && other@[q]
                            == self@[q]);
                }
            }
            false
        }
    }
}

impl vstd::std_specs::cmp::PartialEqSpecImpl for Event {
    open spec fn obeys_eq_spec() -> bool {
        true
    }

    open spec fn eq_spec(&self, other: &Event) -> bool {
        self@ == other@
    }
}

impl View for Filter {
    type V = Map<Seq<char>, Set<Seq<char>>>;

    closed spec fn view(&self) -> Map<Seq<char>, Set<Seq<char>>> {
        Map::new(
            |k: Seq<char>| assoc_from(self.tags@, 0, k) is Some,
            |k: Seq<char>| assoc_from(self.tags@, 0, k).unwrap()@.map_values(
                |v: String| v@,
            ).to_set(),
        )
    }
}

impl Filter {
    /// Well-formedness: tag names are pairwise distinct and every value list
    /// is a non-empty list of pairwise distinct values, so the tag list
    /// faithfully represents a map from tag name to a set of values.  Every
    /// filter built through `new` and `insert_value` is well-formed.
    pub closed spec fn wf(self) -> bool {
        &&& forall|i: int, j: int|
            0 <= i < j < self.tags@.len() ==> self.tags@[i].0@ != self.tags@[j].0@
        &&& forall|i: int|
            0 <= i < self.tags@.len() ==> (#[trigger] self.tags@[i].1@).len() >= 1
        &&& forall|i: int, a: int, b: int|
            0 <= i < self.tags@.len() && 0 <= a < b < self.tags@[i].1@.len() ==> (
            #[trigger] self.tags@[i].1@[a])@ != (#[trigger] self.tags@[i].1@[b])@
    }

    /// The filter's tag names in insertion order.
    pub closed spec fn key_order(&self) -> Seq<Seq<char>> {
        self.tags@.map_values(|p: (String, Vec<String>)| p.0@)
    }

    /// Whether the filter matches the event given by its map view: every
    /// constrained tag, taken in the filter's own storage order, must be
    /// carried by the event with an acceptable value.  On well-formed filters
    /// this coincides with `map_matches` (see `lemma_matches_view`).
    pub closed spec fn seq_matches(self, em: Map<Seq<char>, Seq<char>>) -> bool {
        forall|i: int|
            0 <= i < self.tags@.len() ==> em.contains_key(#[trigger] self.tags@[i].0@)
                && self.tags@[i].1@.map_values(|x: String| x@).to_set().contains(
                em[self.tags@[i].0@],
            )
    }

    /// A filter constraining no tags; it matches every event.
    pub fn new() -> (f: Filter)
        ensures
            f@ == Map::<Seq<char>, Set<Seq<char>>>::empty(),
            f.key_order() == Seq::<Seq<char>>::empty(),
            f.wf(),
    {
        let f = Filter { tags: Vec::new() };
        proof {
            assert(f@ =~= Map::<Seq<char>, Set<Seq<char>>>::empty());
            assert(f.key_order() =~= Seq::<Seq<char>>::empty());
        }
        f
    }

    /// Adds `v` to the set of acceptable values for tag `k`, constraining `k`
    /// if it was unconstrained before.
    pub fn insert_value(&mut self, k: String, v: String)
        requires
            old(self).wf(),
        ensures
            final(self).wf(),
            final(self)@ == filter_plus(old(self)@, k@, v@),
            final(self).key_order() == (if old(self)@.contains_key(k@) {
                old(self).key_order()
            } else {
                old(self).key_order().push(k@)
            }),
    {
        let n = self.tags.len();
        let mut i: usize = 0;
        while i < n
            invariant
                n == self.tags@.len(),
                i <= n,
                self.tags@ == old(self).tags@,
                old(self).wf(),
                forall|j: int| 0 <= j < i ==> self.tags@[j].0@ != k@,
                assoc_from(self.tags@, 0, k@) == assoc_from(self.tags@, i as int, k@),
            decreases n - i,
        {
            if self.tags[i].0 == k {
                let m = self.tags[i].1.len();
                let mut a: usize = 0;
                while a < m
                    invariant
                        0 <= i < self.tags@.len(),
                        m == self.tags@[i as int].1@.len(),
                        a <= m,
                        self.tags@ == old(self).tags@,
                        old(self).wf(),
                        self.tags@[i as int].0@ == k@,
                        assoc_from(self.tags@, 0, k@) == Some(self.tags@[i as int].1),
                        forall|b: int| 0 <= b < a ==> self.tags@[i as int].1@[b]@ != v@,
                    decreases m - a,
                {
                    if self.tags[i].1[a] == v {
                        proof {
                            let vs = self.tags@[i as int].1@.map_values(|x: String| x@);
                            assert(vs[a as int] == v@);
                            assert(vs.contains(v@));
                            assert(self@[k@].insert(v@) =~= self@[k@]);
                            assert(self@ =~= filter_plus(old(self)@, k@, v@));
                        }
                        return ;
                    }
                    a += 1;
                }
                let pair = self.tags.remove(i);
                let ck = pair.0;
                let mut cvs = pair.1;
                cvs.push(v);
                let y = (ck, cvs);
                self.tags.insert(i, y);
                proof {
                    lemma_remove_insert_is_update(old(self).tags@, i as int, y);
                    assert(self.tags@ == old(self).tags@.update(i as int, y));
                    lemma_assoc_update(old(self).tags@, i as int, y, 0, k@);
                    assert forall|q: Seq<char>| q != k@ implies assoc_from(self.tags@, 0, q)
                        == assoc_from(old(self).tags@, 0, q) by {
                        lemma_assoc_update(old(self).tags@, i as int, y, 0, q);
                    }
                    let olds = old(self).tags@[i as int].1@.map_values(|x: String| x@);
                    let news = y.1@.map_values(|x: String| x@);
                    assert(news =~= olds.push(v@));
                    olds.lemma_push_to_set_commute(v@);
                    assert(news.to_set() =~= olds.to_set().insert(v@));
                    assert(self@ =~= filter_plus(old(self)@, k@, v@));
                    assert(self.key_order() =~= old(self).key_order());
                    assert forall|b: int| 0 <= b < olds.len() implies olds[b] != v@ by {}
                    assert(self.wf());
                }
                return ;
            }
            i += 1;
        }
        let mut vs: Vec<String> = Vec::new();
        vs.push(v);
        let y = (k, vs);
        proof {
            assert(assoc_from(self.tags@, n as int, k@) is None);
            lemma_assoc_push(self.tags@, y, 0, k@);
            assert forall|q: Seq<char>| q != k@ implies assoc_from(self.tags@.push(y), 0, q)
                == assoc_from(self.tags@, 0, q) by {
                lemma_assoc_push(self.tags@, y, 0, q);
            }
        }
        self.tags.push(y);
        proof {
            let news = y.1@.map_values(|x: String| x@);
            assert(news =~= Seq::<Seq<char>>::empty().push(y.1@[0]@));
            Seq::<Seq<char>>::empty().lemma_push_to_set_commute(y.1@[0]@);
            assert(Seq::<Seq<char>>::empty().to_set() =~= Set::<Seq<char>>::empty());
            assert(news.to_set() =~= Set::empty().insert(y.1@[0]@));
            assert(self@ =~= filter_plus(old(self)@, k@, v@));
            assert(self.key_order() =~= old(self).key_order().push(k@));
            assert(self.wf());
        }
    }

    /// How many tags this filter constrains.
    pub fn tag_count(&self) -> (n: usize)
        ensures
            n == self.key_order().len(),
    {
        self.tags.len()
    }

    /// The `i`-th constrained tag name, in insertion order.
    pub fn key_at(&self, i: usize) -> (k: &String)
        requires
            i < self.key_order().len(),
        ensures
            k@ == self.key_order()[i as int],
    {
        &self.tags[i].0
    }

    /// The acceptable values for tag `k`, if the filter constrains `k`.
    pub fn get_values(&self, k: &String) -> (r: Option<&Vec<String>>)
        ensures
            match r {
                Some(vs) => self@.contains_key(k@) && vs@.map_values(|v: String| v@).to_set()
                    == self@[k@],
                None => !self@.contains_key(k@),
            },
    {
        let n = self.tags.len();
        let mut i: usize = 0;
        while i < n
            invariant
                n == self.tags@.len(),
                i <= n,
                assoc_from(self.tags@, 0, k@) == assoc_from(self.tags@, i as int, k@),
            decreases n - i,
        {
            if self.tags[i].0 == *k {
                return Some(&self.tags[i].1);
            }
            i += 1;
        }
        None
    }

    /// Whether every constrained tag accepts exactly one value; only such
    /// filters are supported by the indexed strategy.
    pub fn is_single_valued(&self) -> (b: bool)
        requires
            self.wf(),
        ensures
            b == single_valued(self@),
    {
        let n = self.tags.len();
        let mut i: usize = 0;
        while i < n
            invariant
                n == self.tags@.len(),
                i <= n,
                self.wf(),
                forall|j: int| 0 <= j < i ==> (#[trigger] self.tags@[j].1@).len() == 1,
            decreases n - i,
        {
            if self.tags[i].1.len() != 1 {
                proof {
                    let q = self.tags@[i as int].0@;
                    lemma_assoc_first(self.tags@, 0, i as int, q);
                    let vsq = self.tags@[i as int].1@.map_values(|x: String| x@);
                    assert(vsq.no_duplicates());
                    vsq.unique_seq_to_set();
                    assert(self@.contains_key(q) && self@[q].len() != 1);
                }
                return false;
            }
            i += 1;
        }
        proof {
            assert forall|q: Seq<char>| self@.contains_key(q) implies self@[q].finite()
                && self@[q].len() == 1 by {
                lemma_assoc_some_index(self.tags@, 0, q);
                let j = choose|j: int| 0 <= j < self.tags@.len() && self.tags@[j].0@ == q;
                lemma_assoc_first(self.tags@, 0, j, q);
                let vsq = self.tags@[j].1@.map_values(|x: String| x@);
                assert(vsq.no_duplicates());
                vsq.unique_seq_to_set();
                vstd::seq_lib::seq_to_set_is_finite(vsq);
            }
        }
        true
    }

    /// Whether this filter matches the event: every constrained tag must be
    /// carried by the event with an acceptable value.
    pub fn matches(&self, evt: &Event) -> (r: bool)
        ensures
            r == self.seq_matches(evt@),
            self.wf() ==> r == map_matches(self@, evt@),
    {
        let n = self.tags.len();
        let mut i: usize = 0;
        let mut ok = true;
        while i < n
            invariant
                n == self.tags@.len(),
                i <= n,
                ok ==> forall|j: int|
                    0 <= j < i ==> evt@.contains_key(#[trigger] self.tags@[j].0@)
                        && self.tags@[j].1@.map_values(|x: String| x@).to_set().contains(
                        evt@[self.tags@[j].0@],
                    ),
                !ok ==> !self.seq_matches(evt@),
            decreases n - i,
        {
            let key = &self.tags[i].0;
            match evt.get(key) {
                None => {
                    proof {
                        assert(!self.seq_matches(evt@));
                    }
                    ok = false;
                },
                Some(v) => {
                    let m = self.tags[i].1.len();
                    let mut a: usize = 0;
                    let mut found = false;
                    while a < m
                        invariant
                            0 <= i < self.tags@.len(),
                            m == self.tags@[i as int].1@.len(),
                            a <= m,
                            evt@.contains_key(self.tags@[i as int].0@),
                            evt@[self.tags@[i as int].0@] == v@,
                            found ==> self.tags@[i as int].1@.map_values(
                                |x: String| x@,
                            ).to_set().contains(v@),
                            !found ==> forall|b: int|
                                0 <= b < a ==> self.tags@[i as int].1@[b]@ != v@,
                        decreases m - a,
                    {
                        if self.tags[i].1[a] == *v {
                            proof {
                                let vsq = self.tags@[i as int].1@.map_values(|x: String| x@);
                                assert(vsq[a as int] == v@);
                                assert(vsq.contains(v@));
                            }
                            found = true;
                        }
                        a += 1;
                    }
                    if !found {
                        proof {
                            let vsq = self.tags@[i as int].1@.map_values(|x: String| x@);
                            assert forall|x: Seq<char>| vsq.contains(x) implies x != v@ by {
                                let b = choose|b: int| 0 <= b < vsq.len() && vsq[b] == x;
                                assert(self.tags@[i as int].1@[b]@ != v@);
                            }
                            assert(!vsq.to_set().contains(v@));
                            assert(!self.seq_matches(evt@));
                        }
                        ok = false;
                    }
                },
            }
            i += 1;
        }
        proof {
            if self.wf() {
                lemma_matches_view(*self, evt@);
            }
        }
        ok
    }
}

/// The map `m` with `v` added to the value set of key `k`.
pub open spec fn filter_plus(
    m: Map<Seq<char>, Set<Seq<char>>>,
    k: Seq<char>,
    v: Seq<char>,
) -> Map<Seq<char>, Set<Seq<char>>> {
    m.insert(
        k,
        if m.contains_key(k) {
            m[k].insert(v)
        } else {
            Set::empty().insert(v)
        },
    )
}

/// Whether a filter (given as its map view) matches an event (given as its
/// map view): every tag the filter names must be carried by the event with a
/// value in the filter's acceptable set.
pub open spec fn map_matches(
    fm: Map<Seq<char>, Set<Seq<char>>>,
    em: Map<Seq<char>, Seq<char>>,
) -> bool {
    forall|k: Seq<char>|
        #[trigger] fm.contains_key(k) ==> em.contains_key(k) && fm[k].contains(em[k])
}

/// Whether every constrained tag accepts exactly one value.  The indexed
/// strategy supports only such filters.
pub open spec fn single_valued(fm: Map<Seq<char>, Set<Seq<char>>>) -> bool {
    forall|k: Seq<char>| #[trigger] fm.contains_key(k) ==> fm[k].finite() && fm[k].len() == 1
}

/// An empty filter matches every event, whatever tags the event carries.
pub proof fn lemma_empty_filter_matches(
    fm: Map<Seq<char>, Set<Seq<char>>>,
    em: Map<Seq<char>, Seq<char>>,
)
    requires
        fm == Map::<Seq<char>, Set<Seq<char>>>::empty(),
    ensures
        map_matches(fm, em),
{
}

/// An event tag that the filter does not name has no bearing on whether the
/// filter matches: adding such a tag changes nothing.
pub proof fn lemma_unconstrained_tag_ignored(
    fm: Map<Seq<char>, Set<Seq<char>>>,
    em: Map<Seq<char>, Seq<char>>,
    k: Seq<char>,
    v: Seq<char>,
)
    requires
        !fm.contains_key(k),
    ensures
        map_matches(fm, em.insert(k, v)) == map_matches(fm, em),
{
    if map_matches(fm, em) {
        assert forall|q: Seq<char>| fm.contains_key(q) implies em.insert(k, v).contains_key(q)
            && fm[q].contains(em.insert(k, v)[q]) by {
            assert(q != k);
        }
    }
    if map_matches(fm, em.insert(k, v)) {
        assert forall|q: Seq<char>| fm.contains_key(q) implies em.contains_key(q)
            && fm[q].contains(em[q]) by {
            assert(q != k);
        }
    }
}

/// A filter that constrains a tag the event does not carry never matches.
pub proof fn lemma_missing_tag_never_matches(
    fm: Map<Seq<char>, Set<Seq<char>>>,
    em: Map<Seq<char>, Seq<char>>,
    k: Seq<char>,
)
    requires
        fm.contains_key(k),
        !em.contains_key(k),
    ensures
        !map_matches(fm, em),
{
}

/// On a well-formed filter, matching entry by entry is the same as matching
/// by the filter's map view.
pub proof fn lemma_matches_view(f: Filter, em: Map<Seq<char>, Seq<char>>)
    requires
        f.wf(),
    ensures
        f.seq_matches(em) == map_matches(f@, em),
{
    if f.seq_matches(em) {
        assert forall|k: Seq<char>| f@.contains_key(k) implies em.contains_key(k)
            && f@[k].contains(em[k]) by {
            lemma_assoc_some_index(f.tags@, 0, k);
            let j = choose|j: int| 0 <= j < f.tags@.len() && f.tags@[j].0@ == k;
            lemma_assoc_first(f.tags@, 0, j, k);
            assert(em.contains_key(f.tags@[j].0@));
        }
    }
    if map_matches(f@, em) {
        assert forall|i: int| 0 <= i < f.tags@.len() implies em.contains_key(
            #[trigger] f.tags@[i].0@,
        ) && f.tags@[i].1@.map_values(|x: String| x@).to_set().contains(
            em[f.tags@[i].0@],
        ) by {
            lemma_assoc_first(f.tags@, 0, i, f.tags@[i].0@);
            assert(f@.contains_key(f.tags@[i].0@));
        }
    }
}

/// A well-formed filter's tag names are pairwise distinct and are exactly
/// the keys of its map view: the view's domain is finite with one key per
/// stored name.
pub proof fn lemma_filter_keys(f: Filter)
    requires
        f.wf(),
    ensures
        f.key_order().no_duplicates(),
        f.key_order().to_set() == f@.dom(),
        f@.dom().finite(),
        f@.dom().len() == f.key_order().len(),
{
    assert forall|q: Seq<char>| f.key_order().to_set().contains(q) implies f@.dom().contains(
        q,
    ) by {
        let j = choose|j: int| 0 <= j < f.key_order().len() && f.key_order()[j] == q;
        lemma_assoc_present(f.tags@, 0, j, q);
    }
    assert forall|q: Seq<char>| f@.dom().contains(q) implies f.key_order().to_set().contains(
        q,
    ) by {
        lemma_assoc_some_index(f.tags@, 0, q);
        let j = choose|j: int| 0 <= j < f.tags@.len() && f.tags@[j].0@ == q;
        assert(f.key_order()[j] == q);
    }
    assert(f.key_order().to_set() =~= f@.dom());
    f.key_order().unique_seq_to_set();
    vstd::seq_lib::seq_to_set_is_finite(f.key_order());
}

pub(crate) proof fn lemma_assoc_present<T>(s: Seq<(String, T)>, j: int, i: int, k: Seq<char>)
    requires
        0 <= j <= i < s.len(),
        s[i].0@ == k,
    ensures
        assoc_from(s, j, k) is Some,
    decreases i - j,
{
    if s[j].0@ == k {
    } else {
        lemma_assoc_present(s, j + 1, i, k);
    }
}

pub(crate) proof fn lemma_assoc_first<T>(s: Seq<(String, T)>, i: int, j: int, k: Seq<char>)
    requires
        0 <= i <= j < s.len(),
        s[j].0@ == k,
        forall|jj: int| i <= jj < j ==> s[jj].0@ != k,
    ensures
        assoc_from(s, i, k) == Some(s[j].1),
    decreases j - i,
{
    if i < j {
        lemma_assoc_first(s, i + 1, j, k);
    }
}

pub(crate) proof fn lemma_assoc_some_index<T>(s: Seq<(String, T)>, i: int, k: Seq<char>)
    requires
        0 <= i <= s.len(),
        assoc_from(s, i, k) is Some,
    ensures
        exists|j: int| i <= j < s.len() && s[j].0@ == k,
    decreases s.len() - i,
{
    if i < s.len() {
        if s[i].0@ == k {
        } else {
            lemma_assoc_some_index(s, i + 1, k);
        }
    }
}

pub(crate) proof fn lemma_assoc_push<T>(s: Seq<(String, T)>, x: (String, T), i: int, k: Seq<char>)
    requires
        0 <= i <= s.len(),
    ensures
        assoc_from(s.push(x), i, k) == (if assoc_from(s, i, k) is Some {
            assoc_from(s, i, k)
        } else if x.0@ == k {
            Some(x.1)
        } else {
            None::<T>
        }),
    decreases s.len() - i,
{
    if i < s.len() {
        assert(s.push(x)[i] == s[i]);
        if s[i].0@ == k {
            assert(assoc_from(s, i, k) == Some(s[i].1));
            assert(assoc_from(s.push(x), i, k) == Some(s[i].1));
        } else {
            lemma_assoc_push(s, x, i + 1, k);
            assert(assoc_from(s, i, k) == assoc_from(s, i + 1, k));
            assert(assoc_from(s.push(x), i, k) == assoc_from(s.push(x), i + 1, k));
        }
    } else {
        assert(assoc_from(s, i, k) is None);
        assert(s.push(x)[i] == x);
        if x.0@ == k {
            assert(assoc_from(s.push(x), i, k) == Some(x.1));
        } else {
            assert(assoc_from(s.push(x), i + 1, k) is None);
            assert(assoc_from(s.push(x), i, k) is None);
        }
    }
}

pub(crate) proof fn lemma_assoc_update<T>(s: Seq<(String, T)>, j: int, y: (String, T), i: int, k: Seq<char>)
    requires
        0 <= i <= s.len(),
        0 <= j < s.len(),
        y.0@ == s[j].0@,
        forall|jj: int| 0 <= jj < j ==> s[jj].0@ != s[j].0@,
    ensures
        assoc_from(s.update(j, y), i, k) == (if k == s[j].0@ && i <= j {
            Some(y.1)
        } else {
            assoc_from(s, i, k)
        }),
    decreases s.len() - i,
{
    if i < s.len() {
        if i != j {
            assert(s.update(j, y)[i] == s[i]);
        }
        if i == j {
            assert(s.update(j, y)[j] == y);
            if k == s[j].0@ {
                assert(assoc_from(s.update(j, y), i, k) == Some(y.1));
            } else {
                lemma_assoc_same_tail(s, s.update(j, y), i + 1, k);
                assert(assoc_from(s.update(j, y), i, k) == assoc_from(s.update(j, y), i + 1, k));
                assert(assoc_from(s, i, k) == assoc_from(s, i + 1, k));
            }
        } else if s[i].0@ == k {
            assert(assoc_from(s, i, k) == Some(s[i].1));
            if i < j {
                assert(s[i].0@ != s[j].0@);
            }
            assert(assoc_from(s.update(j, y), i, k) == Some(s[i].1));
        } else {
            lemma_assoc_update(s, j, y, i + 1, k);
            assert(assoc_from(s.update(j, y), i, k) == assoc_from(s.update(j, y), i + 1, k));
            assert(assoc_from(s, i, k) == assoc_from(s, i + 1, k));
        }
    }
}

pub(crate) proof fn lemma_assoc_same_tail<T>(s: Seq<(String, T)>, t: Seq<(String, T)>, i: int, k: Seq<char>)
    requires
        0 <= i <= s.len(),
        s.len() == t.len(),
        forall|j: int| i <= j < s.len() ==> s[j] == t[j],
    ensures
        assoc_from(s, i, k) == assoc_from(t, i, k),
    decreases s.len() - i,
{
    if i < s.len() {
        lemma_assoc_same_tail(s, t, i + 1, k);
    }
}

pub(crate) proof fn lemma_remove_insert_is_update<T>(s: Seq<T>, j: int, y: T)
    requires
        0 <= j < s.len(),
    ensures
        s.remove(j).insert(j, y) == s.update(j, y),
{
    assert(s.remove(j).insert(j, y) =~= s.update(j, y));
}

} // verus!
