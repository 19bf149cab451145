//! Facts about what is gathered bucket by bucket.

use crate::clock::{Moment, Span};
use crate::model::{aged, fresh, gather, ids, EntryView};
use crate::stack_key::StackKeyView;
use vstd::prelude::*;

verus! {

/// What is gathered depends only on the keys that it is gathered for.
pub proof fn lemma_gather_same<T>(
    keys: Seq<StackKeyView>,
    f: spec_fn(StackKeyView) -> Seq<T>,
    g: spec_fn(StackKeyView) -> Seq<T>,
)
    requires
        forall|i: int| 0 <= i < keys.len() ==> f(#[trigger] keys[i]) == g(keys[i]),
    ensures
        gather(keys, f) == gather(keys, g),
    decreases keys.len(),
{
    if keys.len() > 0 {
        lemma_gather_same(keys.drop_last(), f, g);
        assert(f(keys[keys.len() - 1]) == g(keys[keys.len() - 1]));
    }
}

/// A change at one key changes how much is gathered by as much.
pub proof fn lemma_gather_len_at<T>(
    keys: Seq<StackKeyView>,
    f: spec_fn(StackKeyView) -> Seq<T>,
    g: spec_fn(StackKeyView) -> Seq<T>,
    at: int,
)
    requires
        0 <= at < keys.len(),
        keys.no_duplicates(),
        forall|i: int| 0 <= i < keys.len() && i != at ==> f(#[trigger] keys[i]) == g(keys[i]),
    ensures
        gather(keys, g).len() + f(keys[at]).len() == gather(keys, f).len() + g(keys[at]).len(),
    decreases keys.len(),
{
    let front = keys.drop_last();
    if at == keys.len() - 1 {
        lemma_gather_same(front, f, g);
    } else {
        lemma_gather_len_at(front, f, g, at);
        assert(f(keys[keys.len() - 1]) == g(keys[keys.len() - 1]));
    }
}

/// Without one key, what it gave is missing.
pub proof fn lemma_gather_len_without<T>(
    keys: Seq<StackKeyView>,
    f: spec_fn(StackKeyView) -> Seq<T>,
    at: int,
)
    requires
        0 <= at < keys.len(),
    ensures
        gather(keys.remove(at), f).len() + f(keys[at]).len() == gather(keys, f).len(),
    decreases keys.len(),
{
    let front = keys.drop_last();
    if at == keys.len() - 1 {
        assert(keys.remove(at) =~= front);
    } else {
        lemma_gather_len_without(front, f, at);
        assert(keys.remove(at).drop_last() =~= front.remove(at));
        assert(keys.remove(at).last() == keys.last());
    }
}

/// What is gathered in two parts is as much as the whole.
pub proof fn lemma_gather_len_parts<S, T, U>(
    keys: Seq<StackKeyView>,
    whole: spec_fn(StackKeyView) -> Seq<S>,
    part: spec_fn(StackKeyView) -> Seq<T>,
    rest: spec_fn(StackKeyView) -> Seq<U>,
)
    requires
        forall|i: int|
            0 <= i < keys.len() ==> whole(#[trigger] keys[i]).len() == part(keys[i]).len() + rest(
                keys[i],
            ).len(),
    ensures
        gather(keys, whole).len() == gather(keys, part).len() + gather(keys, rest).len(),
    decreases keys.len(),
{
    if keys.len() > 0 {
        let front = keys.drop_last();
        assert forall|i: int| 0 <= i < front.len() implies whole(#[trigger] front[i]).len() == part(
            front[i],
        ).len() + rest(front[i]).len() by {
            assert(front[i] == keys[i]);
        }
        lemma_gather_len_parts(front, whole, part, rest);
        assert(whole(keys[keys.len() - 1]).len() == part(keys[keys.len() - 1]).len() + rest(
            keys[keys.len() - 1],
        ).len());
    }
}

/// An entry is either young enough or too old.
pub proof fn lemma_fresh_and_aged(entries: Seq<EntryView>, now: Moment, max_age: Span)
    ensures
        entries.len() == fresh(entries, now, max_age).len() + aged(entries, now, max_age).len(),
    decreases entries.len(),
{
    reveal(Seq::filter);
    if entries.len() > 0 {
        lemma_fresh_and_aged(entries.drop_last(), now, max_age);
    }
}

/// The entries that are young enough are all among the entries, and are named
/// differently where the entries are.
pub proof fn lemma_fresh_among(entries: Seq<EntryView>, now: Moment, max_age: Span)
    ensures
        forall|i: int|
            0 <= i < fresh(entries, now, max_age).len() ==> entries.contains(
                #[trigger] fresh(entries, now, max_age)[i],
            ),
        ids(entries).no_duplicates() ==> ids(fresh(entries, now, max_age)).no_duplicates(),
    decreases entries.len(),
{
    reveal(Seq::filter);
    if entries.len() > 0 {
        let front = entries.drop_last();
        let kept = fresh(entries, now, max_age);
        let kept_front = fresh(front, now, max_age);
        lemma_fresh_among(front, now, max_age);
        assert forall|i: int| 0 <= i < kept.len() implies entries.contains(#[trigger] kept[i]) by {
            if i < kept_front.len() {
                assert(kept[i] == kept_front[i]);
                let j = front.index_of(kept_front[i]);
                assert(front[j] == kept[i]);
                assert(entries[j] == kept[i]);
            } else {
                assert(entries[entries.len() - 1] == kept[i]);
            }
        }
        if ids(entries).no_duplicates() {
            assert(ids(front) =~= ids(entries).drop_last());
            assert(ids(front).no_duplicates());
            assert forall|i: int, j: int| 0 <= i < j < kept.len() implies ids(kept)[i] != ids(
                kept,
            )[j] by {
                if j < kept_front.len() {
                    assert(ids(kept)[i] == ids(kept_front)[i]);
                    assert(ids(kept)[j] == ids(kept_front)[j]);
                } else {
                    assert(kept[i] == kept_front[i]);
                    let k = front.index_of(kept_front[i]);
                    assert(ids(entries)[k] == kept[i].vm_id);
                    assert(ids(entries)[entries.len() - 1] == kept[j].vm_id);
                }
            }
        }
    }
}

} // verus!
