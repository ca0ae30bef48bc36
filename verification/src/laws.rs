//! The laws tying the two strategies together: the indexed strategy's walk
//! accepts exactly the events the filter matches, and re-subscribing a filter
//! changes neither the pipeline nor the walk.

use vstd::prelude::*;
use crate::tags::map_matches;
use crate::tags::single_valued;
use crate::tree::accepts_from;
use crate::tree::extend_pipeline;
use crate::tree::filter_edge;
use crate::tree::lemma_singleton_choose;
use crate::tree::subscribe_path;
use crate::tree::walk_from;

verus! {

/// Match-equivalence of the two strategies, at the heart of the trie: when a
/// single-valued filter with `n` constrained tags has those tags occupy the
/// first `n` pipeline positions, an event satisfies the filter's subscription
/// walk exactly when the filter matches the event.  The linear strategy
/// delivers by `map_matches` directly, the indexed strategy by
/// `accepts_from`, so the two deliver to the same listeners.
pub proof fn lemma_tree_walk_matches_filter(
    fm: Map<Seq<char>, Set<Seq<char>>>,
    n: int,
    pl: Seq<Seq<char>>,
    em: Map<Seq<char>, Seq<char>>,
)
    requires
        single_valued(fm),
        0 <= n <= pl.len(),
        pl.take(n).to_set() == fm.dom(),
    ensures
        accepts_from(subscribe_path(fm, n, pl), pl, 0, em) == map_matches(fm, em),
{
    let path = subscribe_path(fm, n, pl);
    assert(path == walk_from(fm, pl, 0, n));
    assert(path.len() == n);
    if accepts_from(path, pl, 0, em) {
        assert forall|k: Seq<char>| #[trigger] fm.contains_key(k) implies em.contains_key(k)
            && fm[k].contains(em[k]) by {
            assert(fm.dom().contains(k));
            assert(pl.take(n).to_set().contains(k));
            assert(pl.take(n).contains(k));
            let j = choose|j: int| 0 <= j < pl.take(n).len() && pl.take(n)[j] == k;
            assert(pl[j] == k);
            assert(path[j] == filter_edge(fm, k));
            let v = fm[k].choose();
            assert(path[j] == Some(v));
            assert(em.contains_key(k) && em[k] == v);
            vstd::set::axiom_set_choose_len(fm[k]);
        }
    }
    if map_matches(fm, em) {
        assert forall|j: int| 0 <= j < path.len() implies ((#[trigger] path[j]) matches Some(v)
            ==> em.contains_key(pl[j]) && em[pl[j]] == v) by {
            let k = pl[j];
            assert(pl.take(n)[j] == k);
            assert(pl.take(n).contains(k));
            assert(pl.take(n).to_set().contains(k));
            assert(fm.contains_key(k));
            assert(em.contains_key(k) && fm[k].contains(em[k]));
            assert(path[j] == filter_edge(fm, k));
            lemma_singleton_choose(fm[k], em[k]);
        }
        assert(accepts_from(path, pl, 0, em));
    }
}

/// Every name already in the pipeline, and every discovered name, is in the
/// extended pipeline.
pub proof fn lemma_extend_grows(pl: Seq<Seq<char>>, ks: Seq<Seq<char>>)
    ensures
        forall|x: Seq<char>| pl.contains(x) ==> #[trigger] extend_pipeline(pl, ks).contains(x),
        forall|j: int| 0 <= j < ks.len() ==> extend_pipeline(pl, ks).contains(#[trigger] ks[j]),
    decreases ks.len(),
{
    if ks.len() > 0 {
        let pl2 = if pl.contains(ks[0]) {
            pl
        } else {
            pl.push(ks[0])
        };
        assert forall|x: Seq<char>| pl.contains(x) implies pl2.contains(x) by {
            let idx = choose|idx: int| 0 <= idx < pl.len() && pl[idx] == x;
            assert(pl2[idx] == x);
        }
        assert(pl2.contains(ks[0])) by {
            if !pl.contains(ks[0]) {
                assert(pl2[pl.len() as int] == ks[0]);
            }
        }
        assert(extend_pipeline(pl, ks) == extend_pipeline(pl2, ks.drop_first()));
        lemma_extend_grows(pl2, ks.drop_first());
        assert forall|j: int| 0 <= j < ks.len() implies extend_pipeline(pl, ks).contains(
            #[trigger] ks[j],
        ) by {
            if j > 0 {
                assert(ks.drop_first()[j - 1] == ks[j]);
            }
        }
    }
}

/// Discovering names the pipeline already holds changes nothing.
pub proof fn lemma_extend_absorbed(pl: Seq<Seq<char>>, ks: Seq<Seq<char>>)
    requires
        forall|j: int| 0 <= j < ks.len() ==> pl.contains(#[trigger] ks[j]),
    ensures
        extend_pipeline(pl, ks) == pl,
    decreases ks.len(),
{
    if ks.len() > 0 {
        assert(pl.contains(ks[0]));
        assert(extend_pipeline(pl, ks) == extend_pipeline(pl, ks.drop_first()));
        assert forall|j: int| 0 <= j < ks.drop_first().len() implies pl.contains(
            #[trigger] ks.drop_first()[j],
        ) by {
            assert(ks.drop_first()[j] == ks[j + 1]);
        }
        lemma_extend_absorbed(pl, ks.drop_first());
    }
}

/// Idempotent construction: discovering the same tag names a second time
/// leaves the pipeline as it was, so a second subscription with the same
/// filter walks the very same path and its listener lands beside the first —
/// neither subscription suppresses the other.
pub proof fn lemma_subscribe_idempotent(
    fm: Map<Seq<char>, Set<Seq<char>>>,
    n: int,
    pl: Seq<Seq<char>>,
    ks: Seq<Seq<char>>,
)
    ensures
        extend_pipeline(extend_pipeline(pl, ks), ks) == extend_pipeline(pl, ks),
        subscribe_path(fm, n, extend_pipeline(extend_pipeline(pl, ks), ks)) == subscribe_path(
            fm,
            n,
            extend_pipeline(pl, ks),
        ),
{
    lemma_extend_grows(pl, ks);
    lemma_extend_absorbed(extend_pipeline(pl, ks), ks);
}

} // verus!
