//! The indexed strategy: a shared ordering of discovered tag names (the
//! pipeline) and a trie of nodes keyed by tag value.
//!
//! A node of the trie is reached by a path: one edge per pipeline position,
//! either a passthrough edge (the subscription does not constrain the tag at
//! that depth) or a value edge (the event must carry the tag with exactly
//! that value).  Subscribing walks one path, creating nodes as needed, and
//! stores the listener at its end; dispatching an event delivers to every
//! node whose path the event satisfies.

use vstd::prelude::*;
use crate::tags::Event;
use crate::tags::Filter;
use crate::tags::assoc_from;
use crate::tags::single_valued;
use crate::tags::lemma_assoc_push;
use crate::tags::lemma_assoc_update;
use crate::tags::lemma_remove_insert_is_update;
use crate::topic::Listener;
use crate::topic::Topic;

verus! {

/// The view of a sequence of strings as a sequence of character sequences.
pub open spec fn strings_view(s: Seq<String>) -> Seq<Seq<char>> {
    s.map_values(|x: String| x@)
}

/// The edge a filter takes at pipeline key `k`: a passthrough edge when the
/// filter does not constrain `k`, otherwise a value edge carrying the
/// filter's single acceptable value for `k`.
pub open spec fn filter_edge(fm: Map<Seq<char>, Set<Seq<char>>>, k: Seq<char>) -> Option<
    Seq<char>,
> {
    if fm.contains_key(k) {
        Some(fm[k].choose())
    } else {
        None
    }
}

/// The path a subscription walks: one edge for each pipeline position in
/// `i..steps`.
pub open spec fn walk_from(
    fm: Map<Seq<char>, Set<Seq<char>>>,
    pl: Seq<Seq<char>>,
    i: int,
    steps: int,
) -> Seq<Option<Seq<char>>> {
    Seq::new((steps - i) as nat, |j: int| filter_edge(fm, pl[i + j]))
}

/// The path a subscription with `n` constrained tags walks from the root:
/// exactly `n` steps through the pipeline prefix (all of it, if the pipeline
/// is shorter).
pub open spec fn subscribe_path(
    fm: Map<Seq<char>, Set<Seq<char>>>,
    n: int,
    pl: Seq<Seq<char>>,
) -> Seq<Option<Seq<char>>> {
    walk_from(
        fm,
        pl,
        0,
        if n <= pl.len() {
            n
        } else {
            pl.len() as int
        },
    )
}

/// The pipeline after discovering the tag names `ks`, in order: names not
/// yet present are appended at the end, existing names keep their position.
pub open spec fn extend_pipeline(pl: Seq<Seq<char>>, ks: Seq<Seq<char>>) -> Seq<Seq<char>>
    decreases ks.len(),
{
    if ks.len() == 0 {
        pl
    } else {
        extend_pipeline(
            if pl.contains(ks[0]) {
                pl
            } else {
                pl.push(ks[0])
            },
            ks.drop_first(),
        )
    }
}

/// Whether the event (as its map view) satisfies every edge of `path`, the
/// edges being laid against pipeline positions `i..i + path.len()`: a value
/// edge demands the tag with exactly that value, a passthrough edge demands
/// nothing.
pub open spec fn accepts_from(
    path: Seq<Option<Seq<char>>>,
    pl: Seq<Seq<char>>,
    i: int,
    em: Map<Seq<char>, Seq<char>>,
) -> bool {
    &&& i + path.len() <= pl.len()
    &&& forall|j: int|
        0 <= j < path.len() ==> ((#[trigger] path[j]) matches Some(v) ==> em.contains_key(
            pl[i + j],
        ) && em[pl[i + j]] == v)
}

/// One trie node.  `interested` holds the listeners whose subscription walk
/// ended here; `passthrough` is the child for subscriptions that do not
/// constrain the tag at this depth; `children` maps a tag value to the child
/// for subscriptions demanding that value.
pub struct TagTree<L: Listener> {
    interested: Vec<L>,
    passthrough: Option<Box<TagTree<L>>>,
    children: Vec<(String, TagTree<L>)>,
}

/// The indexed strategy: a pipeline of discovered tag names and the trie.
pub struct TreeScanner<L: Listener> {
    pipeline: Vec<String>,
    root: TagTree<L>,
}

impl<L: Listener> TagTree<L> {
    /// The listeners stored at the node reached by `path`, in subscription
    /// order; empty when no such node exists.
    pub closed spec fn listeners_at(self, path: Seq<Option<Seq<char>>>) -> Seq<L>
        decreases path.len(),
    {
        if path.len() == 0 {
            self.interested@
        } else {
            match path[0] {
                None => match self.passthrough {
                    Some(b) => b.listeners_at(path.drop_first()),
                    None => Seq::empty(),
                },
                Some(v) => match assoc_from(self.children@, 0, v) {
                    Some(c) => c.listeners_at(path.drop_first()),
                    None => Seq::empty(),
                },
            }
        }
    }

    /// A node holding no listeners anywhere.
    pub fn new() -> (t: Self)
        ensures
            forall|p: Seq<Option<Seq<char>>>| #[trigger] t.listeners_at(p) == Seq::<L>::empty(),
    {
        let t = TagTree { interested: Vec::new(), passthrough: None, children: Vec::new() };
        proof {
            assert forall|p: Seq<Option<Seq<char>>>| #[trigger] t.listeners_at(p) == Seq::<
                L,
            >::empty() by {
                if p.len() == 0 {
                    assert(t.listeners_at(p) =~= Seq::<L>::empty());
                }
            }
        }
        t
    }
}

/// Two nodes with the same passthrough child and the same value children
/// hold the same listeners on every non-empty path.
proof fn lemma_frame<L: Listener>(a: TagTree<L>, b: TagTree<L>, p: Seq<Option<Seq<char>>>)
    requires
        p.len() > 0,
        a.passthrough == b.passthrough,
        a.children == b.children,
    ensures
        a.listeners_at(p) == b.listeners_at(p),
{
    match p[0] {
        None => {
            match a.passthrough {
                Some(x) => {
                    assert(a.listeners_at(p) == x.listeners_at(p.drop_first()));
                    assert(b.listeners_at(p) == x.listeners_at(p.drop_first()));
                },
                None => {
                    assert(a.listeners_at(p) == Seq::<L>::empty());
                    assert(b.listeners_at(p) == Seq::<L>::empty());
                },
            }
        },
        Some(w) => {
            match assoc_from(a.children@, 0, w) {
                Some(c) => {
                    assert(a.listeners_at(p) == c.listeners_at(p.drop_first()));
                    assert(b.listeners_at(p) == c.listeners_at(p.drop_first()));
                },
                None => {
                    assert(a.listeners_at(p) == Seq::<L>::empty());
                    assert(b.listeners_at(p) == Seq::<L>::empty());
                },
            }
        },
    }
}

/// On a passthrough path, only the passthrough child matters.
proof fn lemma_frame_none<L: Listener>(a: TagTree<L>, b: TagTree<L>, p: Seq<Option<Seq<char>>>)
    requires
        p.len() > 0,
        p[0] is None,
        a.passthrough == b.passthrough,
    ensures
        a.listeners_at(p) == b.listeners_at(p),
{
    match a.passthrough {
        Some(x) => {
            assert(a.listeners_at(p) == x.listeners_at(p.drop_first()));
            assert(b.listeners_at(p) == x.listeners_at(p.drop_first()));
        },
        None => {
            assert(a.listeners_at(p) == Seq::<L>::empty());
            assert(b.listeners_at(p) == Seq::<L>::empty());
        },
    }
}

/// On a value path, only the value children matter.
proof fn lemma_frame_some<L: Listener>(a: TagTree<L>, b: TagTree<L>, p: Seq<Option<Seq<char>>>)
    requires
        p.len() > 0,
        p[0] is Some,
        a.children == b.children,
    ensures
        a.listeners_at(p) == b.listeners_at(p),
{
    match p[0] {
        Some(w) => {
            match assoc_from(a.children@, 0, w) {
                Some(c) => {
                    assert(a.listeners_at(p) == c.listeners_at(p.drop_first()));
                    assert(b.listeners_at(p) == c.listeners_at(p.drop_first()));
                },
                None => {
                    assert(a.listeners_at(p) == Seq::<L>::empty());
                    assert(b.listeners_at(p) == Seq::<L>::empty());
                },
            }
        },
        None => {},
    }
}

/// Acceptance of a non-empty path splits into its first edge and the rest.
proof fn lemma_accepts_shift(
    p: Seq<Option<Seq<char>>>,
    pv: Seq<Seq<char>>,
    i: int,
    em: Map<Seq<char>, Seq<char>>,
)
    requires
        p.len() > 0,
        0 <= i,
    ensures
        accepts_from(p, pv, i, em) == ((match p[0] {
            Some(v) => em.contains_key(pv[i]) && em[pv[i]] == v,
            None => true,
        }) && accepts_from(p.drop_first(), pv, i + 1, em)),
{
    let rest = p.drop_first();
    if accepts_from(p, pv, i, em) {
        assert forall|j: int| 0 <= j < rest.len() implies ((#[trigger] rest[j]) matches Some(v)
            ==> em.contains_key(pv[i + 1 + j]) && em[pv[i + 1 + j]] == v) by {
            assert(rest[j] == p[j + 1]);
        }
    }
    if (match p[0] {
        Some(v) => em.contains_key(pv[i]) && em[pv[i]] == v,
        None => true,
    }) && accepts_from(rest, pv, i + 1, em) {
        assert forall|j: int| 0 <= j < p.len() implies ((#[trigger] p[j]) matches Some(v)
            ==> em.contains_key(pv[i + j]) && em[pv[i + j]] == v) by {
            if j > 0 {
                assert(p[j] == rest[j - 1]);
            }
        }
    }
}

/// An edge and the rest of a walk: dropping the first edge of the walk from
/// position `i` gives the walk from position `i + 1`.
proof fn lemma_walk_unfold(
    fm: Map<Seq<char>, Set<Seq<char>>>,
    pl: Seq<Seq<char>>,
    i: int,
    steps: int,
)
    requires
        0 <= i < steps,
    ensures
        walk_from(fm, pl, i, steps).len() == steps - i,
        walk_from(fm, pl, i, steps)[0] == filter_edge(fm, pl[i]),
        walk_from(fm, pl, i, steps).drop_first() == walk_from(fm, pl, i + 1, steps),
{
    assert(walk_from(fm, pl, i, steps).drop_first() =~= walk_from(fm, pl, i + 1, steps));
}

/// In a one-element set, `choose` picks the one element.
pub(crate) proof fn lemma_singleton_choose(s: Set<Seq<char>>, x: Seq<char>)
    requires
        s.finite(),
        s.len() == 1,
        s.contains(x),
    ensures
        s.choose() == x,
        s.contains(s.choose()),
{
    broadcast use vstd::set::group_set_axioms;

    assert(exists|a: Seq<char>| s.contains(a));
    let c = s.choose();
    assert(s.contains(c));
    if c != x {
        vstd::set::axiom_set_remove_len(s, c);
        assert(s.remove(c).len() == 0);
        assert(s.remove(c).contains(x));
        vstd::set::axiom_set_contains_len(s.remove(c), x);
    }
}

/// After one subscription step at a node: the subtree at `edge` went from
/// `sub0` to `subn`, which pushed `listener` at `rest` and changed nothing
/// else; all other edges of the node are unchanged.  Then the node pushed
/// `listener` at the path `edge` followed by `rest`, and nothing else.
proof fn lemma_step<L: Listener>(
    pre: TagTree<L>,
    post: TagTree<L>,
    edge: Option<Seq<char>>,
    sub0: TagTree<L>,
    subn: TagTree<L>,
    rest: Seq<Option<Seq<char>>>,
    listener: L,
)
    requires
        post.interested@ == pre.interested@,
        subn.listeners_at(rest) == sub0.listeners_at(rest).push(listener),
        forall|q: Seq<Option<Seq<char>>>|
            q != rest ==> #[trigger] subn.listeners_at(q) == sub0.listeners_at(q),
        match edge {
            None => {
                &&& post.children == pre.children
                &&& post.passthrough matches Some(b) && *b == subn
                &&& match pre.passthrough {
                    Some(b0) => *b0 == sub0,
                    None => forall|q: Seq<Option<Seq<char>>>|
                        #[trigger] sub0.listeners_at(q) == Seq::<L>::empty(),
                }
            },
            Some(v) => {
                &&& post.passthrough == pre.passthrough
                &&& assoc_from(post.children@, 0, v) == Some(subn)
                &&& forall|q: Seq<char>|
                    q != v ==> assoc_from(post.children@, 0, q) == assoc_from(
                        pre.children@,
                        0,
                        q,
                    )
                &&& match assoc_from(pre.children@, 0, v) {
                    Some(c) => c == sub0,
                    None => forall|q: Seq<Option<Seq<char>>>|
                        #[trigger] sub0.listeners_at(q) == Seq::<L>::empty(),
                }
            },
        },
    ensures
        post.listeners_at(seq![edge] + rest) == pre.listeners_at(seq![edge] + rest).push(
            listener,
        ),
        forall|p: Seq<Option<Seq<char>>>|
            p != seq![edge] + rest ==> #[trigger] post.listeners_at(p) == pre.listeners_at(p),
{
    let t = seq![edge] + rest;
    assert(t.len() == 1 + rest.len());
    assert(t[0] == edge);
    assert(t.drop_first() =~= rest);
    match edge {
        None => {
            assert(post.listeners_at(t) == subn.listeners_at(rest));
            match pre.passthrough {
                Some(b0) => {
                    assert(pre.listeners_at(t) == sub0.listeners_at(rest));
                },
                None => {
                    assert(pre.listeners_at(t) == Seq::<L>::empty());
                    assert(sub0.listeners_at(rest) == Seq::<L>::empty());
                },
            }
        },
        Some(v) => {
            assert(post.listeners_at(t) == subn.listeners_at(rest));
            match assoc_from(pre.children@, 0, v) {
                Some(c) => {
                    assert(pre.listeners_at(t) == sub0.listeners_at(rest));
                },
                None => {
                    assert(pre.listeners_at(t) == Seq::<L>::empty());
                    assert(sub0.listeners_at(rest) == Seq::<L>::empty());
                },
            }
        },
    }
    assert forall|p: Seq<Option<Seq<char>>>| p != t implies #[trigger] post.listeners_at(p)
        == pre.listeners_at(p) by {
        if p.len() == 0 {
            assert(post.listeners_at(p) == post.interested@);
            assert(pre.listeners_at(p) == pre.interested@);
        } else {
            if p[0] == edge {
                assert(p.drop_first() != rest) by {
                    if p.drop_first() == rest {
                        assert forall|j: int| 0 <= j < t.len() implies p[j] == t[j] by {
                            if j > 0 {
                                assert(p[j] == p.drop_first()[j - 1]);
                                assert(t[j] == t.drop_first()[j - 1]);
                            }
                        }
                        assert(p =~= t);
                    }
                }
                match edge {
                    None => {
                        assert(post.listeners_at(p) == subn.listeners_at(p.drop_first()));
                        assert(subn.listeners_at(p.drop_first()) == sub0.listeners_at(
                            p.drop_first(),
                        ));
                        match pre.passthrough {
                            Some(b0) => {
                                assert(pre.listeners_at(p) == sub0.listeners_at(p.drop_first()));
                            },
                            None => {
                                assert(pre.listeners_at(p) == Seq::<L>::empty());
                                assert(sub0.listeners_at(p.drop_first()) == Seq::<L>::empty());
                            },
                        }
                    },
                    Some(v) => {
                        assert(post.listeners_at(p) == subn.listeners_at(p.drop_first()));
                        assert(subn.listeners_at(p.drop_first()) == sub0.listeners_at(
                            p.drop_first(),
                        ));
                        match assoc_from(pre.children@, 0, v) {
                            Some(c) => {
                                assert(pre.listeners_at(p) == sub0.listeners_at(p.drop_first()));
                            },
                            None => {
                                assert(pre.listeners_at(p) == Seq::<L>::empty());
                                assert(sub0.listeners_at(p.drop_first()) == Seq::<L>::empty());
                            },
                        }
                    },
                }
            } else {
                match p[0] {
                    None => {
                        assert(pre.passthrough == post.passthrough);
                        match pre.passthrough {
                            Some(b0) => {
                                assert(post.listeners_at(p) == b0.listeners_at(p.drop_first()));
                                assert(pre.listeners_at(p) == b0.listeners_at(p.drop_first()));
                            },
                            None => {
                                assert(post.listeners_at(p) == Seq::<L>::empty());
                                assert(pre.listeners_at(p) == Seq::<L>::empty());
                            },
                        }
                    },
                    Some(w) => {
                        assert(assoc_from(post.children@, 0, w) == assoc_from(
                            pre.children@,
                            0,
                            w,
                        ));
                        match assoc_from(pre.children@, 0, w) {
                            Some(c) => {
                                assert(post.listeners_at(p) == c.listeners_at(p.drop_first()));
                                assert(pre.listeners_at(p) == c.listeners_at(p.drop_first()));
                            },
                            None => {
                                assert(post.listeners_at(p) == Seq::<L>::empty());
                                assert(pre.listeners_at(p) == Seq::<L>::empty());
                            },
                        }
                    },
                }
            }
        }
    }
}

impl<L: Listener> TagTree<L> {
    /// Walks the trie from this node along pipeline positions `i..steps`,
    /// taking at each position the edge the filter prescribes (creating
    /// missing nodes), and appends `listener` at the end of the walk.  No
    /// other node's listeners change.
    fn subscribe_walk(
        &mut self,
        pipeline: &Vec<String>,
        i: usize,
        steps: usize,
        filter: &Filter,
        listener: L,
    )
        requires
            i <= steps,
            steps <= pipeline@.len(),
            single_valued(filter@),
        ensures
            final(self).listeners_at(
                walk_from(filter@, strings_view(pipeline@), i as int, steps as int),
            ) == old(self).listeners_at(
                walk_from(filter@, strings_view(pipeline@), i as int, steps as int),
            ).push(listener),
            forall|p: Seq<Option<Seq<char>>>|
                p != walk_from(filter@, strings_view(pipeline@), i as int, steps as int)
                    ==> #[trigger] final(self).listeners_at(p) == old(self).listeners_at(p),
        decreases steps - i,
    {
        let ghost pv = strings_view(pipeline@);
        let ghost target = walk_from(filter@, pv, i as int, steps as int);
        if i == steps {
            self.interested.push(listener);
            proof {
                assert(target.len() == 0);
                assert(self.listeners_at(target) == old(self).listeners_at(target).push(
                    listener,
                ));
                assert forall|p: Seq<Option<Seq<char>>>| p != target implies #[trigger] self
                    .listeners_at(p) == old(self).listeners_at(p) by {
                    if p.len() == 0 {
                        assert(p =~= target);
                    } else {
                        lemma_frame(*self, *old(self), p);
                    }
                }
            }
            return ;
        }
        proof {
            lemma_walk_unfold(filter@, pv, i as int, steps as int);
            assert(pv[i as int] == pipeline@[i as int]@);
        }
        let ghost rest = walk_from(filter@, pv, i as int + 1, steps as int);
        proof {
            assert(target =~= seq![target[0]] + rest);
        }
        let key = &pipeline[i];
        match filter.get_values(key) {
            None => {
                proof {
                    assert(target[0] is None);
                }
                let mut sub: Box<TagTree<L>> = match self.passthrough.take() {
                    Some(b) => b,
                    None => Box::new(TagTree::new()),
                };
                let ghost sub0 = *sub;
                sub.subscribe_walk(pipeline, i + 1, steps, filter, listener);
                let ghost subn = *sub;
                self.passthrough = Some(sub);
                proof {
                    lemma_step(
                        *old(self),
                        *self,
                        None,
                        sub0,
                        subn,
                        rest,
                        listener,
                    );
                }
            },
            Some(vs) => {
                proof {
                    assert(filter@.contains_key(key@));
                    let vset = filter@[key@];
                    vstd::set::axiom_set_choose_len(vset);
                    assert(vset.contains(vset.choose()));
                    let vsq = vs@.map_values(|x: String| x@);
                    assert(vsq.contains(vset.choose()));
                    assert(vsq.len() >= 1);
                    assert(vs@.len() >= 1);
                }
                let v: &String = &vs[0];
                proof {
                    let vsq = vs@.map_values(|x: String| x@);
                    assert(vsq[0] == v@);
                    assert(vsq.contains(v@));
                    assert(filter@[key@].contains(v@));
                    lemma_singleton_choose(filter@[key@], v@);
                    assert(target[0] == Some(v@));
                }
                let m = self.children.len();
                let mut j: usize = 0;
                let mut idx: usize = m;
                while j < m
                    invariant
                        m == self.children@.len(),
                        j <= m,
                        idx <= m,
                        self == old(self),
                        idx == m ==> forall|jj: int| 0 <= jj < j ==> self.children@[jj].0@ != v@,
                        idx == m ==> assoc_from(self.children@, 0, v@) == assoc_from(
                            self.children@,
                            j as int,
                            v@,
                        ),
                        idx < m ==> idx <= j && self.children@[idx as int].0@ == v@
                            && assoc_from(self.children@, 0, v@) == Some(
                            self.children@[idx as int].1,
                        ) && forall|jj: int| 0 <= jj < idx ==> self.children@[jj].0@ != v@,
                    decreases m - j,
                {
                    if idx == m {
                        if self.children[j].0 == *v {
                            idx = j;
                        }
                    }
                    j += 1;
                }
                if idx < m {
                    proof {
                        assert(self.children@[idx as int].0@ == v@);
                        assert(assoc_from(self.children@, 0, v@) == Some(
                            self.children@[idx as int].1,
                        ));
                    }
                    let pair = self.children.remove(idx);
                    let ck = pair.0;
                    let mut sub = pair.1;
                    let ghost sub0 = sub;
                    sub.subscribe_walk(pipeline, i + 1, steps, filter, listener);
                    let ghost subn = sub;
                    self.children.insert(idx, (ck, sub));
                    proof {
                        let y = (ck, subn);
                        lemma_remove_insert_is_update(old(self).children@, idx as int, y);
                        assert(self.children@ == old(self).children@.update(idx as int, y));
                        lemma_assoc_update(old(self).children@, idx as int, y, 0, v@);
                        assert(assoc_from(self.children@, 0, v@) == Some(subn));
                        assert forall|q: Seq<char>| q != v@ implies assoc_from(
                            self.children@,
                            0,
                            q,
                        ) == assoc_from(old(self).children@, 0, q) by {
                            lemma_assoc_update(old(self).children@, idx as int, y, 0, q);
                        }
                        lemma_step(
                            *old(self),
                            *self,
                            Some(v@),
                            sub0,
                            subn,
                            rest,
                            listener,
                        );
                    }
                } else {
                    proof {
                        assert(assoc_from(self.children@, m as int, v@) is None);
                        assert(assoc_from(self.children@, 0, v@) is None);
                    }
                    let mut sub = TagTree::new();
                    let ghost sub0 = sub;
                    sub.subscribe_walk(pipeline, i + 1, steps, filter, listener);
                    let ghost subn = sub;
                    let cv = v.clone();
                    self.children.push((cv, sub));
                    proof {
                        let y = (cv, subn);
                        assert(self.children@ == old(self).children@.push(y));
                        lemma_assoc_push(old(self).children@, y, 0, v@);
                        assert(assoc_from(self.children@, 0, v@) == Some(subn));
                        assert forall|q: Seq<char>| q != v@ implies assoc_from(
                            self.children@,
                            0,
                            q,
                        ) == assoc_from(old(self).children@, 0, q) by {
                            lemma_assoc_push(old(self).children@, y, 0, q);
                        }
                        lemma_step(
                            *old(self),
                            *self,
                            Some(v@),
                            sub0,
                            subn,
                            rest,
                            listener,
                        );
                    }
                }
            },
        }
    }
}


impl<L: Listener> TreeScanner<L> {
    /// The shared ordering of discovered tag names.
    pub closed spec fn pipeline_view(&self) -> Seq<Seq<char>> {
        strings_view(self.pipeline@)
    }

    /// The listeners stored at the trie node reached by `path`.
    pub closed spec fn listeners_at(&self, path: Seq<Option<Seq<char>>>) -> Seq<L> {
        self.root.listeners_at(path)
    }

    /// A scanner with no subscriptions and an empty pipeline.
    pub fn new() -> (s: Self)
        ensures
            s.pipeline_view() == Seq::<Seq<char>>::empty(),
            s.pipeline_view().no_duplicates(),
            forall|p: Seq<Option<Seq<char>>>| #[trigger] s.listeners_at(p) == Seq::<L>::empty(),
    {
        let s = TreeScanner { pipeline: Vec::new(), root: TagTree::new() };
        proof {
            assert(s.pipeline_view() =~= Seq::<Seq<char>>::empty());
        }
        s
    }
}

/// Extending a pipeline by one more name appends it exactly when it is not
/// present yet.
pub proof fn lemma_extend_snoc(pl: Seq<Seq<char>>, ks: Seq<Seq<char>>, k: Seq<char>)
    ensures
        extend_pipeline(pl, ks.push(k)) == (if extend_pipeline(pl, ks).contains(k) {
            extend_pipeline(pl, ks)
        } else {
            extend_pipeline(pl, ks).push(k)
        }),
    decreases ks.len(),
{
    if ks.len() == 0 {
        let pl2 = if pl.contains(k) {
            pl
        } else {
            pl.push(k)
        };
        assert(ks.push(k)[0] == k);
        assert(ks.push(k).drop_first() =~= Seq::<Seq<char>>::empty());
        assert(extend_pipeline(pl, ks.push(k)) == extend_pipeline(pl2, ks.push(k).drop_first()));
        assert(extend_pipeline(pl2, ks.push(k).drop_first()) == pl2);
        assert(extend_pipeline(pl, ks) == pl);
    } else {
        let pl2 = if pl.contains(ks[0]) {
            pl
        } else {
            pl.push(ks[0])
        };
        assert(ks.push(k)[0] == ks[0]);
        assert(ks.push(k).drop_first() =~= ks.drop_first().push(k));
        lemma_extend_snoc(pl2, ks.drop_first(), k);
    }
}

/// Extension keeps the pipeline free of duplicate names: a name is appended
/// only when it is not present yet.
pub proof fn lemma_extend_no_dup(pl: Seq<Seq<char>>, ks: Seq<Seq<char>>)
    requires
        pl.no_duplicates(),
    ensures
        extend_pipeline(pl, ks).no_duplicates(),
    decreases ks.len(),
{
    if ks.len() > 0 {
        let pl2 = if pl.contains(ks[0]) {
            pl
        } else {
            pl.push(ks[0])
        };
        assert(extend_pipeline(pl, ks) == extend_pipeline(pl2, ks.drop_first()));
        if !pl.contains(ks[0]) {
            assert forall|i: int, j: int|
                0 <= i < pl2.len() && 0 <= j < pl2.len() && i != j implies pl2[i] != pl2[j] by {
                if i < pl.len() && j < pl.len() {
                } else if j == pl.len() {
                    assert(pl2[j] == ks[0]);
                    if pl2[i] == ks[0] {
                        assert(pl[i] == ks[0]);
                        assert(pl.contains(ks[0]));
                    }
                } else {
                    assert(pl2[i] == ks[0]);
                    if pl2[j] == ks[0] {
                        assert(pl[j] == ks[0]);
                        assert(pl.contains(ks[0]));
                    }
                }
            }
        }
        lemma_extend_no_dup(pl2, ks.drop_first());
    }
}

impl<L: Listener> TreeScanner<L> {
    fn pipeline_contains(pipeline: &Vec<String>, k: &String) -> (b: bool)
        ensures
            b == strings_view(pipeline@).contains(k@),
    {
        let n = pipeline.len();
        let mut i: usize = 0;
        while i < n
            invariant
                n == pipeline@.len(),
                i <= n,
                forall|j: int| 0 <= j < i ==> strings_view(pipeline@)[j] != k@,
            decreases n - i,
        {
            if pipeline[i] == *k {
                proof {
                    assert(strings_view(pipeline@)[i as int] == k@);
                }
                return true;
            }
            proof {
                assert(strings_view(pipeline@)[i as int] == pipeline@[i as int]@);
            }
            i += 1;
        }
        proof {
            assert forall|j: int| 0 <= j < strings_view(pipeline@).len() implies strings_view(
                pipeline@,
            )[j] != k@ by {}
        }
        false
    }

    /// Registers `listener` under `filter`: appends the filter's tag names
    /// that the pipeline does not yet know, in the filter's own order, then
    /// walks the trie for as many steps as the filter has tags and stores the
    /// listener at the end of the walk.  Only single-valued filters are
    /// supported (see `try_subscribe` for the checked entry point).
    pub fn subscribe(&mut self, listener: L, filter: Filter)
        requires
            single_valued(filter@),
        ensures
            final(self).pipeline_view() == extend_pipeline(
                old(self).pipeline_view(),
                filter.key_order(),
            ),
            old(self).pipeline_view().no_duplicates()
                ==> final(self).pipeline_view().no_duplicates(),
            final(self).listeners_at(
                subscribe_path(
                    filter@,
                    filter.key_order().len() as int,
                    final(self).pipeline_view(),
                ),
            ) == old(self).listeners_at(
                subscribe_path(
                    filter@,
                    filter.key_order().len() as int,
                    final(self).pipeline_view(),
                ),
            ).push(listener),
            forall|p: Seq<Option<Seq<char>>>|
                p != subscribe_path(
                    filter@,
                    filter.key_order().len() as int,
                    final(self).pipeline_view(),
                ) ==> #[trigger] final(self).listeners_at(p) == old(self).listeners_at(p),
    {
        let nkeys = filter.tag_count();
        let mut i: usize = 0;
        while i < nkeys
            invariant
                nkeys == filter.key_order().len(),
                i <= nkeys,
                self.root == old(self).root,
                self.pipeline_view() == extend_pipeline(
                    old(self).pipeline_view(),
                    filter.key_order().take(i as int),
                ),
            decreases nkeys - i,
        {
            let key = filter.key_at(i);
            let ghost plv = self.pipeline_view();
            if !Self::pipeline_contains(&self.pipeline, key) {
                self.pipeline.push(key.clone());
                proof {
                    assert(self.pipeline_view() =~= plv.push(key@));
                }
            }
            proof {
                lemma_extend_snoc(
                    old(self).pipeline_view(),
                    filter.key_order().take(i as int),
                    filter.key_order()[i as int],
                );
                assert(filter.key_order().take(i as int + 1) =~= filter.key_order().take(
                    i as int,
                ).push(filter.key_order()[i as int]));
            }
            i += 1;
        }
        proof {
            assert(filter.key_order().take(nkeys as int) =~= filter.key_order());
            if old(self).pipeline_view().no_duplicates() {
                lemma_extend_no_dup(old(self).pipeline_view(), filter.key_order());
            }
        }
        let n = filter.tag_count();
        let plen = self.pipeline.len();
        let steps = if n <= plen {
            n
        } else {
            plen
        };
        proof {
            assert(subscribe_path(
                filter@,
                filter.key_order().len() as int,
                self.pipeline_view(),
            ) == walk_from(filter@, strings_view(self.pipeline@), 0, steps as int));
        }
        self.root.subscribe_walk(&self.pipeline, 0, steps, &filter, listener);
    }

    /// Registers `listener` under `filter` when the indexed strategy supports
    /// the filter, and reports the unsupported shape otherwise, leaving the
    /// scanner untouched.
    pub fn try_subscribe(&mut self, listener: L, filter: Filter) -> (r: Result<
        (),
        SubscribeError,
    >)
        requires
            filter.wf(),
        ensures
            match r {
                Ok(_) => single_valued(filter@) && final(self).pipeline_view()
                    == extend_pipeline(old(self).pipeline_view(), filter.key_order()) && (old(self).pipeline_view().no_duplicates()
                    ==> final(self).pipeline_view().no_duplicates())
                    && final(self).listeners_at(
                    subscribe_path(
                        filter@,
                        filter.key_order().len() as int,
                        final(self).pipeline_view(),
                    ),
                ) == old(self).listeners_at(
                    subscribe_path(
                        filter@,
                        filter.key_order().len() as int,
                        final(self).pipeline_view(),
                    ),
                ).push(listener) && forall|p: Seq<Option<Seq<char>>>|
                    p != subscribe_path(
                        filter@,
                        filter.key_order().len() as int,
                        final(self).pipeline_view(),
                    ) ==> #[trigger] final(self).listeners_at(p) == old(self).listeners_at(p),
                Err(e) => !single_valued(filter@) && e == SubscribeError::MultiValuedTag && *final(self) == *old(self),
            },
    {
        if filter.is_single_valued() {
            self.subscribe(listener, filter);
            Ok(())
        } else {
            Err(SubscribeError::MultiValuedTag)
        }
    }
}

/// Why the indexed strategy refused a subscription: it supports only filters
/// whose every constrained tag accepts exactly one value.
#[derive(Clone, Copy, PartialEq, Eq, Structural, Debug)]
pub enum SubscribeError {
    MultiValuedTag,
}

impl<L: Listener> Topic<L> for TreeScanner<L> {
    /// The indexed strategy takes only single-valued filters.
    open spec fn accepts_filter(&self, filter: &Filter) -> bool {
        single_valued(filter@)
    }

    /// One registration extends the pipeline and stores the listener at the
    /// end of its walk: the inherent `subscribe` contract, stated as a
    /// relation.
    open spec fn on_subscribe(pre: Self, listener: L, filter: Filter, post: Self) -> bool {
        &&& post.pipeline_view() == extend_pipeline(pre.pipeline_view(), filter.key_order())
        &&& (pre.pipeline_view().no_duplicates() ==> post.pipeline_view().no_duplicates())
        &&& post.listeners_at(
            subscribe_path(filter@, filter.key_order().len() as int, post.pipeline_view()),
        ) == pre.listeners_at(
            subscribe_path(filter@, filter.key_order().len() as int, post.pipeline_view()),
        ).push(listener)
        &&& forall|p: Seq<Option<Seq<char>>>|
            p != subscribe_path(filter@, filter.key_order().len() as int, post.pipeline_view())
                ==> #[trigger] post.listeners_at(p) == pre.listeners_at(p)
    }

    fn subscribe(&mut self, listener: L, filter: Filter) {
        self.subscribe(listener, filter);
    }
}

impl<L: Listener> TagTree<L> {
    /// One round of the breadth-first dispatch: descends from this node at
    /// pipeline position `i` along the edges the event satisfies, and
    /// delivers `evt` to the listeners of exactly the satisfied nodes at
    /// depth `d`.  The trie keeps its shape, and every node at another depth,
    /// or on a path the event does not satisfy, is untouched.
    fn deliver_at_depth(&mut self, pipeline: &Vec<String>, i: usize, d: usize, evt: &Event)
        requires
            i <= d,
            d <= pipeline@.len(),
        ensures
            forall|p: Seq<Option<Seq<char>>>| #[trigger] final(self).listeners_at(p).len()
                == old(self).listeners_at(p).len(),
            forall|p: Seq<Option<Seq<char>>>|
                !(p.len() == d - i && accepts_from(p, strings_view(pipeline@), i as int, evt@))
                    ==> #[trigger] final(self).listeners_at(p) == old(self).listeners_at(p),
            forall|p: Seq<Option<Seq<char>>>, j: int|
                p.len() == d - i && accepts_from(p, strings_view(pipeline@), i as int, evt@) && 0
                    <= j < old(self).listeners_at(p).len() ==> L::on_receive(
                    old(self).listeners_at(p)[j],
                    evt@,
                    #[trigger] final(self).listeners_at(p)[j],
                ),
        decreases d - i,
    {
        let ghost pv = strings_view(pipeline@);
        let ghost em = evt@;
        let ghost iv = i as int;
        if i == d {
            let m = self.interested.len();
            let mut a: usize = 0;
            while a < m
                invariant
                    m == old(self).interested@.len(),
                    self.interested@.len() == m,
                    a <= m,
                    self.passthrough == old(self).passthrough,
                    self.children == old(self).children,
                    forall|j: int|
                        0 <= j < m - a ==> #[trigger] self.interested@[j] == old(
                            self,
                        ).interested@[a + j],
                    forall|j: int|
                        m - a <= j < m ==> L::on_receive(
                            old(self).interested@[j - (m - a)],
                            evt@,
                            #[trigger] self.interested@[j],
                        ),
                decreases m - a,
            {
                let mut l = self.interested.remove(0);
                l.accept(evt);
                self.interested.push(l);
                a += 1;
            }
            proof {
                assert forall|p: Seq<Option<Seq<char>>>| #[trigger] self.listeners_at(p).len()
                    == old(self).listeners_at(p).len() by {
                    if p.len() > 0 {
                        lemma_frame(*self, *old(self), p);
                    }
                }
                assert forall|p: Seq<Option<Seq<char>>>|
                    !(p.len() == d - i && accepts_from(p, pv, iv, em)) implies #[trigger] self
                    .listeners_at(p) == old(self).listeners_at(p) by {
                    if p.len() == 0 {
                        assert(accepts_from(p, pv, iv, em));
                    } else {
                        lemma_frame(*self, *old(self), p);
                    }
                }
                assert forall|p: Seq<Option<Seq<char>>>, j: int|
                    p.len() == d - i && accepts_from(p, pv, iv, em) && 0 <= j < old(
                        self,
                    ).listeners_at(p).len() implies L::on_receive(
                    old(self).listeners_at(p)[j],
                    evt@,
                    #[trigger] self.listeners_at(p)[j],
                ) by {
                    assert(self.listeners_at(p) == self.interested@);
                    assert(old(self).listeners_at(p) == old(self).interested@);
                }
            }
        } else {
            let ghost pre = *self;
            match self.passthrough.take() {
                Some(mut b) => {
                    (&mut *b).deliver_at_depth(pipeline, i + 1, d, evt);
                    self.passthrough = Some(b);
                },
                None => {},
            }
            let ghost mid = *self;
            let key = &pipeline[i];
            proof {
                assert(pv[iv] == key@);
            }
            match evt.get(key) {
                Some(v) => {
                    let m2 = self.children.len();
                    let mut j: usize = 0;
                    let mut idx: usize = m2;
                    while j < m2
                        invariant
                            m2 == self.children@.len(),
                            j <= m2,
                            idx <= m2,
                            *self == mid,
                            idx == m2 ==> forall|jj: int|
                                0 <= jj < j ==> self.children@[jj].0@ != v@,
                            idx == m2 ==> assoc_from(self.children@, 0, v@) == assoc_from(
                                self.children@,
                                j as int,
                                v@,
                            ),
                            idx < m2 ==> idx <= j && self.children@[idx as int].0@ == v@
                                && assoc_from(self.children@, 0, v@) == Some(
                                self.children@[idx as int].1,
                            ) && forall|jj: int| 0 <= jj < idx ==> self.children@[jj].0@ != v@,
                        decreases m2 - j,
                    {
                        if idx == m2 {
                            if self.children[j].0 == *v {
                                idx = j;
                            }
                        }
                        j += 1;
                    }
                    if idx < m2 {
                        proof {
                            assert(assoc_from(self.children@, 0, v@) == Some(
                                self.children@[idx as int].1,
                            ));
                        }
                        let pair = self.children.remove(idx);
                        let ck = pair.0;
                        let mut sub = pair.1;
                        let ghost sub0 = sub;
                        sub.deliver_at_depth(pipeline, i + 1, d, evt);
                        let ghost subn = sub;
                        self.children.insert(idx, (ck, sub));
                        proof {
                            let y = (ck, subn);
                            lemma_remove_insert_is_update(mid.children@, idx as int, y);
                            assert(self.children@ == mid.children@.update(idx as int, y));
                            lemma_assoc_update(mid.children@, idx as int, y, 0, v@);
                            assert(assoc_from(self.children@, 0, v@) == Some(subn));
                            assert forall|q: Seq<char>| q != v@ implies assoc_from(
                                self.children@,
                                0,
                                q,
                            ) == assoc_from(mid.children@, 0, q) by {
                                lemma_assoc_update(mid.children@, idx as int, y, 0, q);
                            }
                        }
                    }
                },
                None => {},
            }
            proof {
                lemma_deliver_glue(pre, mid, *self, pv, iv, d - i, em);
            }
        }
    }
}

/// Glues the two stages of one dispatch round below a node at pipeline
/// position `i`, looking for depth `rd` below it: descending the passthrough
/// edge (`pre` to `mid`), then the value edge the event takes (`mid` to
/// `post`).  Each stage touched only satisfied paths of the right length
/// below its own edge, so the node touched only satisfied paths of length
/// `rd`.
proof fn lemma_deliver_glue<L: Listener>(
    pre: TagTree<L>,
    mid: TagTree<L>,
    post: TagTree<L>,
    pv: Seq<Seq<char>>,
    i: int,
    rd: int,
    em: Map<Seq<char>, Seq<char>>,
)
    requires
        0 <= i < pv.len(),
        rd >= 1,
        mid.interested == pre.interested,
        mid.children == pre.children,
        match pre.passthrough {
            Some(b0) => mid.passthrough matches Some(b1) && (forall|
                q: Seq<Option<Seq<char>>>,
            |
                #[trigger] b1.listeners_at(q).len() == b0.listeners_at(q).len()) && (forall|
                q: Seq<Option<Seq<char>>>,
            |
                !(q.len() == rd - 1 && accepts_from(q, pv, i + 1, em))
                    ==> #[trigger] b1.listeners_at(q) == b0.listeners_at(q)) && (forall|
                q: Seq<Option<Seq<char>>>,
                j: int,
            |
                q.len() == rd - 1 && accepts_from(q, pv, i + 1, em) && 0 <= j < b0.listeners_at(
                    q,
                ).len() ==> L::on_receive(
                    b0.listeners_at(q)[j],
                    em,
                    #[trigger] b1.listeners_at(q)[j],
                )),
            None => mid.passthrough is None,
        },
        post.interested == mid.interested,
        post.passthrough == mid.passthrough,
        em.contains_key(pv[i]) ==> (match assoc_from(mid.children@, 0, em[pv[i]]) {
            Some(c0) => assoc_from(post.children@, 0, em[pv[i]]) matches Some(c1) && (forall|
                q: Seq<Option<Seq<char>>>,
            |
                #[trigger] c1.listeners_at(q).len() == c0.listeners_at(q).len()) && (forall|
                q: Seq<Option<Seq<char>>>,
            |
                !(q.len() == rd - 1 && accepts_from(q, pv, i + 1, em))
                    ==> #[trigger] c1.listeners_at(q) == c0.listeners_at(q)) && (forall|
                q: Seq<Option<Seq<char>>>,
                j: int,
            |
                q.len() == rd - 1 && accepts_from(q, pv, i + 1, em) && 0 <= j < c0.listeners_at(
                    q,
                ).len() ==> L::on_receive(
                    c0.listeners_at(q)[j],
                    em,
                    #[trigger] c1.listeners_at(q)[j],
                )),
            None => assoc_from(post.children@, 0, em[pv[i]]) is None,
        }),
        em.contains_key(pv[i]) ==> forall|q: Seq<char>|
            q != em[pv[i]] ==> assoc_from(post.children@, 0, q) == assoc_from(
                mid.children@,
                0,
                q,
            ),
        !em.contains_key(pv[i]) ==> post.children == mid.children,
    ensures
        forall|p: Seq<Option<Seq<char>>>| #[trigger] post.listeners_at(p).len()
            == pre.listeners_at(p).len(),
        forall|p: Seq<Option<Seq<char>>>|
            !(p.len() == rd && accepts_from(p, pv, i, em)) ==> #[trigger] post.listeners_at(p)
                == pre.listeners_at(p),
        forall|p: Seq<Option<Seq<char>>>, j: int|
            p.len() == rd && accepts_from(p, pv, i, em) && 0 <= j < pre.listeners_at(p).len()
                ==> L::on_receive(pre.listeners_at(p)[j], em, #[trigger] post.listeners_at(p)[j]),
{
    assert forall|p: Seq<Option<Seq<char>>>, j: int|
        p.len() == rd && accepts_from(p, pv, i, em) && 0 <= j < pre.listeners_at(p).len() implies
        L::on_receive(pre.listeners_at(p)[j], em, #[trigger] post.listeners_at(p)[j]) by {
        lemma_accepts_shift(p, pv, i, em);
        let rest = p.drop_first();
        match p[0] {
            None => {
                lemma_frame_none(post, mid, p);
                match pre.passthrough {
                    Some(b0) => {
                        let b1 = mid.passthrough.unwrap();
                        assert(pre.listeners_at(p) == b0.listeners_at(rest));
                        assert(mid.listeners_at(p) == b1.listeners_at(rest));
                        assert(rest.len() == rd - 1 && accepts_from(rest, pv, i + 1, em));
                        assert(L::on_receive(
                            b0.listeners_at(rest)[j],
                            em,
                            b1.listeners_at(rest)[j],
                        ));
                    },
                    None => {
                        assert(pre.listeners_at(p) == Seq::<L>::empty());
                    },
                }
            },
            Some(w) => {
                lemma_frame_some(pre, mid, p);
                assert(em.contains_key(pv[i]) && em[pv[i]] == w);
                match assoc_from(mid.children@, 0, w) {
                    Some(c0) => {
                        let c1 = assoc_from(post.children@, 0, w).unwrap();
                        assert(mid.listeners_at(p) == c0.listeners_at(rest));
                        assert(post.listeners_at(p) == c1.listeners_at(rest));
                        assert(rest.len() == rd - 1 && accepts_from(rest, pv, i + 1, em));
                        assert(L::on_receive(
                            c0.listeners_at(rest)[j],
                            em,
                            c1.listeners_at(rest)[j],
                        ));
                    },
                    None => {
                        assert(mid.listeners_at(p) == Seq::<L>::empty());
                    },
                }
            },
        }
    }
    assert forall|p: Seq<Option<Seq<char>>>| #[trigger] post.listeners_at(p).len()
        == pre.listeners_at(p).len() && (!(p.len() == rd && accepts_from(p, pv, i, em))
        ==> post.listeners_at(p) == pre.listeners_at(p)) by {
        if p.len() == 0 {
            assert(post.listeners_at(p) == post.interested@);
            assert(pre.listeners_at(p) == pre.interested@);
        } else {
            lemma_accepts_shift(p, pv, i, em);
            let rest = p.drop_first();
            match p[0] {
                None => {
                    lemma_frame_none(post, mid, p);
                    match pre.passthrough {
                        Some(b0) => {
                            let b1 = mid.passthrough.unwrap();
                            assert(pre.listeners_at(p) == b0.listeners_at(rest));
                            assert(mid.listeners_at(p) == b1.listeners_at(rest));
                            assert(b1.listeners_at(rest).len() == b0.listeners_at(rest).len());
                            if !(p.len() == rd && accepts_from(p, pv, i, em)) {
                                assert(!(rest.len() == rd - 1 && accepts_from(
                                    rest,
                                    pv,
                                    i + 1,
                                    em,
                                )));
                            }
                        },
                        None => {
                            assert(pre.listeners_at(p) == Seq::<L>::empty());
                            assert(mid.listeners_at(p) == Seq::<L>::empty());
                        },
                    }
                },
                Some(w) => {
                    lemma_frame_some(pre, mid, p);
                    if em.contains_key(pv[i]) && em[pv[i]] == w {
                        match assoc_from(mid.children@, 0, w) {
                            Some(c0) => {
                                let c1 = assoc_from(post.children@, 0, w).unwrap();
                                assert(mid.listeners_at(p) == c0.listeners_at(rest));
                                assert(post.listeners_at(p) == c1.listeners_at(rest));
                                assert(c1.listeners_at(rest).len() == c0.listeners_at(
                                    rest,
                                ).len());
                                if !(p.len() == rd && accepts_from(p, pv, i, em)) {
                                    assert(!(rest.len() == rd - 1 && accepts_from(
                                        rest,
                                        pv,
                                        i + 1,
                                        em,
                                    )));
                                }
                            },
                            None => {
                                assert(mid.listeners_at(p) == Seq::<L>::empty());
                                assert(post.listeners_at(p) == Seq::<L>::empty());
                            },
                        }
                    } else {
                        if em.contains_key(pv[i]) {
                            assert(w != em[pv[i]]);
                            assert(assoc_from(post.children@, 0, w) == assoc_from(
                                mid.children@,
                                0,
                                w,
                            ));
                            lemma_frame_some_assoc(mid, post, p, w);
                        } else {
                            lemma_frame_some(mid, post, p);
                        }
                    }
                },
            }
        }
    }
}

/// Like `lemma_frame_some`, resting only on the looked-up child being the
/// same.
proof fn lemma_frame_some_assoc<L: Listener>(
    a: TagTree<L>,
    b: TagTree<L>,
    p: Seq<Option<Seq<char>>>,
    w: Seq<char>,
)
    requires
        p.len() > 0,
        p[0] == Some(w),
        assoc_from(a.children@, 0, w) == assoc_from(b.children@, 0, w),
    ensures
        a.listeners_at(p) == b.listeners_at(p),
{
    match assoc_from(a.children@, 0, w) {
        Some(c) => {
            assert(a.listeners_at(p) == c.listeners_at(p.drop_first()));
            assert(b.listeners_at(p) == c.listeners_at(p.drop_first()));
        },
        None => {
            assert(a.listeners_at(p) == Seq::<L>::empty());
            assert(b.listeners_at(p) == Seq::<L>::empty());
        },
    }
}

impl<L: Listener> TreeScanner<L> {
    /// Dispatches `evt`: every listener stored on a trie path the event
    /// satisfies receives it, breadth-first, one pipeline depth per round, so
    /// deliveries are grouped by non-decreasing depth; the pipeline and the
    /// trie's shape are unchanged, and a listener on a path the event does
    /// not satisfy is untouched.
    pub fn accept(&mut self, evt: &Event)
        ensures
            final(self).pipeline_view() == old(self).pipeline_view(),
            forall|p: Seq<Option<Seq<char>>>| #[trigger] final(self).listeners_at(p).len()
                == old(self).listeners_at(p).len(),
            forall|p: Seq<Option<Seq<char>>>|
                !accepts_from(p, old(self).pipeline_view(), 0, evt@)
                    ==> #[trigger] final(self).listeners_at(p) == old(self).listeners_at(p),
            forall|p: Seq<Option<Seq<char>>>, j: int|
                accepts_from(p, old(self).pipeline_view(), 0, evt@) && 0 <= j < old(
                    self,
                ).listeners_at(p).len() ==> L::on_receive(
                    old(self).listeners_at(p)[j],
                    evt@,
                    #[trigger] final(self).listeners_at(p)[j],
                ),
    {
        let plen = self.pipeline.len();
        let mut d: usize = 0;
        while d < plen
            invariant
                plen == self.pipeline@.len(),
                self.pipeline == old(self).pipeline,
                d <= plen,
                forall|p: Seq<Option<Seq<char>>>| #[trigger] self.listeners_at(p).len()
                    == old(self).listeners_at(p).len(),
                forall|p: Seq<Option<Seq<char>>>|
                    !accepts_from(p, old(self).pipeline_view(), 0, evt@)
                        ==> #[trigger] self.listeners_at(p) == old(self).listeners_at(p),
                forall|p: Seq<Option<Seq<char>>>|
                    p.len() >= d ==> #[trigger] self.listeners_at(p) == old(self).listeners_at(p),
                forall|p: Seq<Option<Seq<char>>>, j: int|
                    p.len() < d && accepts_from(p, old(self).pipeline_view(), 0, evt@) && 0 <= j
                        < old(self).listeners_at(p).len() ==> L::on_receive(
                        old(self).listeners_at(p)[j],
                        evt@,
                        #[trigger] self.listeners_at(p)[j],
                    ),
            decreases plen - d,
        {
            let ghost pre = *self;
            self.root.deliver_at_depth(&self.pipeline, 0, d, evt);
            proof {
                assert(strings_view(self.pipeline@) == old(self).pipeline_view());
                lemma_round_glue(pre, *self, old(self).pipeline_view(), d as int, evt@);
                assert forall|p: Seq<Option<Seq<char>>>, j: int|
                    p.len() < d + 1 && accepts_from(p, old(self).pipeline_view(), 0, evt@) && 0
                        <= j < old(self).listeners_at(p).len() implies L::on_receive(
                    old(self).listeners_at(p)[j],
                    evt@,
                    #[trigger] self.listeners_at(p)[j],
                ) by {
                    if p.len() < d {
                        assert(self.listeners_at(p) == pre.listeners_at(p));
                        assert(L::on_receive(
                            old(self).listeners_at(p)[j],
                            evt@,
                            pre.listeners_at(p)[j],
                        ));
                    } else {
                        assert(pre.listeners_at(p) == old(self).listeners_at(p));
                        assert(L::on_receive(
                            pre.listeners_at(p)[j],
                            evt@,
                            self.listeners_at(p)[j],
                        ));
                    }
                }
            }
            d += 1;
        }
        let ghost pre = *self;
        self.root.deliver_at_depth(&self.pipeline, 0, plen, evt);
        proof {
            assert(strings_view(self.pipeline@) == old(self).pipeline_view());
            lemma_round_glue(pre, *self, old(self).pipeline_view(), plen as int, evt@);
            assert(old(self).pipeline_view().len() == plen);
            assert forall|p: Seq<Option<Seq<char>>>, j: int|
                accepts_from(p, old(self).pipeline_view(), 0, evt@) && 0 <= j < old(
                    self,
                ).listeners_at(p).len() implies L::on_receive(
                old(self).listeners_at(p)[j],
                evt@,
                #[trigger] self.listeners_at(p)[j],
            ) by {
                assert(p.len() <= plen);
                if p.len() < plen {
                    assert(self.listeners_at(p) == pre.listeners_at(p));
                    assert(L::on_receive(
                        old(self).listeners_at(p)[j],
                        evt@,
                        pre.listeners_at(p)[j],
                    ));
                } else {
                    assert(pre.listeners_at(p) == old(self).listeners_at(p));
                    assert(L::on_receive(pre.listeners_at(p)[j], evt@, self.listeners_at(p)[j]));
                }
            }
        }
    }
}

/// One breadth-first round preserves every node's listener count and leaves
/// unsatisfied paths untouched, so the rounds compose.
proof fn lemma_round_glue<L: Listener>(
    pre: TreeScanner<L>,
    post: TreeScanner<L>,
    pv: Seq<Seq<char>>,
    d: int,
    em: Map<Seq<char>, Seq<char>>,
)
    requires
        pre.pipeline_view() == pv,
        post.pipeline_view() == pv,
        forall|p: Seq<Option<Seq<char>>>| #[trigger] post.root.listeners_at(p).len()
            == pre.root.listeners_at(p).len(),
        forall|p: Seq<Option<Seq<char>>>|
            !(p.len() == d && accepts_from(p, pv, 0, em)) ==> #[trigger] post.root.listeners_at(
                p,
            ) == pre.root.listeners_at(p),
        forall|p: Seq<Option<Seq<char>>>, j: int|
            p.len() == d && accepts_from(p, pv, 0, em) && 0 <= j < pre.root.listeners_at(p).len()
                ==> L::on_receive(
                pre.root.listeners_at(p)[j],
                em,
                #[trigger] post.root.listeners_at(p)[j],
            ),
    ensures
        forall|p: Seq<Option<Seq<char>>>| #[trigger] post.listeners_at(p).len()
            == pre.listeners_at(p).len(),
        forall|p: Seq<Option<Seq<char>>>|
            !accepts_from(p, pv, 0, em) ==> #[trigger] post.listeners_at(p)
                == pre.listeners_at(p),
        forall|p: Seq<Option<Seq<char>>>|
            p.len() != d ==> #[trigger] post.listeners_at(p) == pre.listeners_at(p),
        forall|p: Seq<Option<Seq<char>>>, j: int|
            p.len() == d && accepts_from(p, pv, 0, em) && 0 <= j < pre.listeners_at(p).len()
                ==> L::on_receive(pre.listeners_at(p)[j], em, #[trigger] post.listeners_at(p)[j]),
{
    assert forall|p: Seq<Option<Seq<char>>>| #[trigger] post.listeners_at(p).len()
        == pre.listeners_at(p).len() by {
        assert(post.root.listeners_at(p).len() == pre.root.listeners_at(p).len());
    }
    assert forall|p: Seq<Option<Seq<char>>>| !(p.len() == d && accepts_from(p, pv, 0, em))
        implies #[trigger] post.listeners_at(p) == pre.listeners_at(p) by {
        assert(post.root.listeners_at(p) == pre.root.listeners_at(p));
    }
    assert forall|p: Seq<Option<Seq<char>>>, j: int|
        p.len() == d && accepts_from(p, pv, 0, em) && 0 <= j < pre.listeners_at(p).len() implies
        L::on_receive(pre.listeners_at(p)[j], em, #[trigger] post.listeners_at(p)[j]) by {
        assert(pre.listeners_at(p) == pre.root.listeners_at(p));
        assert(post.listeners_at(p) == post.root.listeners_at(p));
        assert(L::on_receive(pre.root.listeners_at(p)[j], em, post.root.listeners_at(p)[j]));
    }
}

impl<L: Listener> Listener for TreeScanner<L> {
    /// A tree scanner receives an event by dispatching it: the inherent
    /// `accept` contract, stated as a relation.
    open spec fn on_receive(pre: Self, em: Map<Seq<char>, Seq<char>>, post: Self) -> bool {
        &&& post.pipeline_view() == pre.pipeline_view()
        &&& forall|p: Seq<Option<Seq<char>>>| #[trigger] post.listeners_at(p).len()
            == pre.listeners_at(p).len()
        &&& forall|p: Seq<Option<Seq<char>>>|
            !accepts_from(p, pre.pipeline_view(), 0, em) ==> #[trigger] post.listeners_at(p)
                == pre.listeners_at(p)
        &&& forall|p: Seq<Option<Seq<char>>>, j: int|
            accepts_from(p, pre.pipeline_view(), 0, em) && 0 <= j < pre.listeners_at(p).len()
                ==> L::on_receive(pre.listeners_at(p)[j], em, #[trigger] post.listeners_at(p)[j])
    }

    fn accept(&mut self, evt: &Event) {
        self.accept(evt);
    }
}

impl<L: Listener> Default for TreeScanner<L> {
    /// A scanner with no subscriptions and an empty pipeline.
    fn default() -> (s: Self)
        ensures
            s.pipeline_view() == Seq::<Seq<char>>::empty(),
            s.pipeline_view().no_duplicates(),
            forall|p: Seq<Option<Seq<char>>>| #[trigger] s.listeners_at(p) == Seq::<L>::empty(),
    {
        TreeScanner::new()
    }
}

} // verus!
