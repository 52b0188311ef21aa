//! Counting by key: lists of distinct stacks with a count each.

use vstd::prelude::*;

verus! {

/// A stack that can be told apart from others.
pub trait Stack: Sized {
    /// What a value holds.
    type Model;

    /// What tells values apart.
    type Key;

    spec fn model(&self) -> Self::Model;

    spec fn key_of(model: Self::Model) -> Self::Key;

    /// Whether both are the same stack.
    fn same_stack(&self, other: &Self) -> (r: bool)
        ensures
            r == (Self::key_of(self.model()) == Self::key_of(other.model())),
    ;

    /// Another value with the same contents.
    fn copy(&self) -> (r: Self)
        ensures
            r.model() == self.model(),
    ;
}

/// The contents of a list of counted stacks.
pub open spec fn models<S: Stack>(list: Seq<(S, isize)>) -> Seq<(S::Model, isize)> {
    Seq::new(list.len(), |i: int| (list[i].0.model(), list[i].1))
}

/// Whether the entry at `i` is that of the key.
pub open spec fn is_entry<S: Stack>(data: Seq<(S::Model, isize)>, key: S::Key, i: int) -> bool {
    0 <= i < data.len() && S::key_of(data[i].0) == key
}

/// Whether the list has an entry for the key.
pub open spec fn has_key<S: Stack>(data: Seq<(S::Model, isize)>, key: S::Key) -> bool {
    exists|i: int| is_entry::<S>(data, key, i)
}

/// Where the entry for the key stands.
pub open spec fn entry_index<S: Stack>(data: Seq<(S::Model, isize)>, key: S::Key) -> int {
    choose|i: int| is_entry::<S>(data, key, i)
}

/// The count for the key, 0 where there is no entry.
pub open spec fn count_at<S: Stack>(data: Seq<(S::Model, isize)>, key: S::Key) -> int {
    if has_key::<S>(data, key) {
        data[entry_index::<S>(data, key)].1 as int
    } else {
        0
    }
}

/// No two entries have the same key.
pub open spec fn distinct<S: Stack>(data: Seq<(S::Model, isize)>) -> bool {
    forall|i: int, j: int|
        #![trigger data[i], data[j]]
        0 <= i < j < data.len() ==> S::key_of(data[i].0) != S::key_of(data[j].0)
}

/// The list with the count for the stack of `model` set: in its place where the key
/// has an entry, at the end otherwise.
pub open spec fn with_count<S: Stack>(
    data: Seq<(S::Model, isize)>,
    model: S::Model,
    count: isize,
) -> Seq<(S::Model, isize)> {
    let key = S::key_of(model);
    if has_key::<S>(data, key) {
        let i = entry_index::<S>(data, key);
        data.update(i, (data[i].0, count))
    } else {
        data.push((model, count))
    }
}

/// The list of the stacks that were seen: entries of one key become one, with the
/// sum of their counts, and entries without a positive count are left out.
pub open spec fn merged<S: Stack>(entries: Seq<(S::Model, isize)>) -> Seq<(S::Model, isize)>
    decreases entries.len(),
{
    if entries.len() == 0 {
        Seq::empty()
    } else {
        let before = merged::<S>(entries.drop_last());
        let (model, count) = entries.last();
        if count > 0 {
            let sum = count_at::<S>(before, S::key_of(model)) + count;
            with_count::<S>(before, model, sum as isize)
        } else {
            before
        }
    }
}

/// The sum of the positive counts of the entries of the key.
pub open spec fn count_of<S: Stack>(entries: Seq<(S::Model, isize)>, key: S::Key) -> nat
    decreases entries.len(),
{
    if entries.len() == 0 {
        0
    } else {
        let before = count_of::<S>(entries.drop_last(), key);
        let (model, count) = entries.last();
        if count > 0 && S::key_of(model) == key {
            before + count as nat
        } else {
            before
        }
    }
}

/// Whether the sum of each key can be told.
pub open spec fn sums_fit<S: Stack>(entries: Seq<(S::Model, isize)>) -> bool {
    forall|key: S::Key| #[trigger] count_of::<S>(entries, key) <= isize::MAX
}

/// Setting one count keeps the entries distinct and the other counts as they were.
pub proof fn law_with_count<S: Stack>(
    data: Seq<(S::Model, isize)>,
    model: S::Model,
    count: isize,
    key: S::Key,
)
    requires
        distinct::<S>(data),
    ensures
        distinct::<S>(with_count::<S>(data, model, count)),
        has_key::<S>(with_count::<S>(data, model, count), key) <==> (has_key::<S>(data, key) || key
            == S::key_of(model)),
        count_at::<S>(with_count::<S>(data, model, count), key) == (if key == S::key_of(model) {
            count as int
        } else {
            count_at::<S>(data, key)
        }),
{
    let own = S::key_of(model);
    let after = with_count::<S>(data, model, count);
    if has_key::<S>(data, own) {
        let p = entry_index::<S>(data, own);
        assert(is_entry::<S>(data, own, p));
        assert(S::key_of(after[p].0) == own);
        assert(is_entry::<S>(after, own, p));
        assert forall|i: int| 0 <= i < data.len() implies (#[trigger] after[i]).0 == data[i].0 by {}
    } else {
        assert(is_entry::<S>(after, own, data.len() as int));
        assert forall|i: int| 0 <= i < data.len() implies #[trigger] after[i] == data[i] by {}
    }
    assert forall|i: int, j: int|
        #![trigger after[i], after[j]]
        0 <= i < j < after.len() implies S::key_of(after[i].0) != S::key_of(after[j].0) by {
        if j < data.len() {
            assert(S::key_of(data[i].0) != S::key_of(data[j].0));
        } else {
            assert(!is_entry::<S>(data, own, i));
        }
    }
    if has_key::<S>(data, key) {
        let q = entry_index::<S>(data, key);
        assert(is_entry::<S>(data, key, q));
        assert(is_entry::<S>(after, key, q));
        let r = entry_index::<S>(after, key);
        assert(is_entry::<S>(after, key, r));
        if r != q {
            assert(false) by {
                if r < q {
                    assert(S::key_of(after[r].0) != S::key_of(after[q].0));
                } else {
                    assert(S::key_of(after[q].0) != S::key_of(after[r].0));
                }
            }
        }
        if key != own {
            if has_key::<S>(data, own) {
                assert(is_entry::<S>(data, own, entry_index::<S>(data, own)));
            }
            assert(after[q] == data[q]);
        } else {
            assert(after[q].1 == count);
        }
    } else if key == own {
        let r = entry_index::<S>(after, key);
        assert(is_entry::<S>(after, key, r));
        assert(r == data.len()) by {
            if r < data.len() {
                assert(is_entry::<S>(data, key, r));
            }
        }
    } else {
        assert(!has_key::<S>(after, key)) by {
            if has_key::<S>(after, key) {
                let r = entry_index::<S>(after, key);
                assert(is_entry::<S>(after, key, r));
                assert(r < data.len());
                assert(is_entry::<S>(data, key, r));
            }
        }
    }
}

/// Each key seen has one entry, and its count is the sum of the key's positive counts.
pub proof fn law_merged_counts<S: Stack>(entries: Seq<(S::Model, isize)>, key: S::Key)
    requires
        sums_fit::<S>(entries),
    ensures
        distinct::<S>(merged::<S>(entries)),
        count_at::<S>(merged::<S>(entries), key) == count_of::<S>(entries, key),
        has_key::<S>(merged::<S>(entries), key) <==> count_of::<S>(entries, key) > 0,
    decreases entries.len(),
{
    if entries.len() > 0 {
        let shorter = entries.drop_last();
        assert forall|k: S::Key| #[trigger] count_of::<S>(shorter, k) <= isize::MAX by {
            assert(count_of::<S>(entries, k) <= isize::MAX);
        }
        law_merged_counts::<S>(shorter, key);
        let (model, count) = entries.last();
        if count > 0 {
            let own = S::key_of(model);
            law_merged_counts::<S>(shorter, own);
            let before = merged::<S>(shorter);
            let sum = count_at::<S>(before, own) + count;
            assert(count_of::<S>(entries, own) == sum);
            assert(sum <= isize::MAX);
            law_with_count::<S>(before, model, sum as isize, key);
        }
    } else {
        assert(!has_key::<S>(merged::<S>(entries), key)) by {
            if has_key::<S>(merged::<S>(entries), key) {
                assert(is_entry::<S>(
                    merged::<S>(entries),
                    key,
                    entry_index::<S>(merged::<S>(entries), key),
                ));
            }
        }
    }
}

/// Every count of the merged list is positive.
pub proof fn law_merged_positive<S: Stack>(entries: Seq<(S::Model, isize)>)
    requires
        sums_fit::<S>(entries),
    ensures
        forall|i: int|
            0 <= i < merged::<S>(entries).len() ==> (#[trigger] merged::<S>(entries)[i]).1 > 0,
{
    let data = merged::<S>(entries);
    assert forall|i: int| 0 <= i < data.len() implies (#[trigger] data[i]).1 > 0 by {
        let key = S::key_of(data[i].0);
        law_merged_counts::<S>(entries, key);
        assert(is_entry::<S>(data, key, i));
        let p = entry_index::<S>(data, key);
        assert(is_entry::<S>(data, key, p));
        assert(p == i) by {
            if p < i {
                assert(S::key_of(data[p].0) != S::key_of(data[i].0));
            } else if i < p {
                assert(S::key_of(data[i].0) != S::key_of(data[p].0));
            }
        }
    }
}

/// A count, or 0 below zero.
pub open spec fn positive_part(count: isize) -> nat {
    if count > 0 {
        count as nat
    } else {
        0
    }
}

/// The sum of the positive counts.
pub open spec fn positive_total<M>(data: Seq<(M, isize)>) -> nat
    decreases data.len(),
{
    if data.len() == 0 {
        0
    } else {
        positive_total(data.drop_last()) + positive_part(data.last().1)
    }
}

proof fn lemma_total_update<M>(data: Seq<(M, isize)>, i: int, entry: (M, isize))
    requires
        0 <= i < data.len(),
    ensures
        positive_total(data.update(i, entry)) + positive_part(data[i].1) == positive_total(data)
            + positive_part(entry.1),
    decreases data.len(),
{
    let after = data.update(i, entry);
    if i == data.len() - 1 {
        assert(after.drop_last() =~= data.drop_last());
    } else {
        lemma_total_update(data.drop_last(), i, entry);
        assert(after.drop_last() =~= data.drop_last().update(i, entry));
        assert(after.last() == data.last());
    }
}

/// No sample is lost or made up: the counts of the merged list add up to the
/// positive counts that went in.
pub proof fn law_merged_total<S: Stack>(entries: Seq<(S::Model, isize)>)
    requires
        sums_fit::<S>(entries),
    ensures
        positive_total(merged::<S>(entries)) == positive_total(entries),
    decreases entries.len(),
{
    if entries.len() > 0 {
        let shorter = entries.drop_last();
        assert forall|k: S::Key| #[trigger] count_of::<S>(shorter, k) <= isize::MAX by {
            assert(count_of::<S>(entries, k) <= isize::MAX);
        }
        law_merged_total::<S>(shorter);
        let (model, count) = entries.last();
        if count > 0 {
            let own = S::key_of(model);
            let before = merged::<S>(shorter);
            law_merged_counts::<S>(shorter, own);
            let sum = count_at::<S>(before, own) + count;
            assert(count_of::<S>(entries, own) == sum);
            if has_key::<S>(before, own) {
                let i = entry_index::<S>(before, own);
                assert(is_entry::<S>(before, own, i));
                lemma_total_update(before, i, (before[i].0, sum as isize));
            } else {
                assert(before.push((model, sum as isize)).drop_last() =~= before);
            }
        }
    }
}

/// A longer list has at least the sums of a shorter one.
proof fn lemma_count_grows<S: Stack>(entries: Seq<(S::Model, isize)>, i: int, key: S::Key)
    requires
        0 <= i <= entries.len(),
    ensures
        count_of::<S>(entries.take(i), key) <= count_of::<S>(entries, key),
    decreases entries.len() - i,
{
    if i < entries.len() {
        lemma_count_grows::<S>(entries, i + 1, key);
        assert(entries.take(i + 1).drop_last() =~= entries.take(i));
    } else {
        assert(entries.take(i) =~= entries);
    }
}

/// Where the stack has its entry.
fn find_entry<S: Stack>(data: &Vec<(S, isize)>, stack: &S) -> (r: Option<usize>)
    requires
        distinct::<S>(models(data@)),
    ensures
        r is Some <==> has_key::<S>(models(data@), S::key_of(stack.model())),
        r matches Some(i) ==> i < data@.len() && i == entry_index::<S>(
            models(data@),
            S::key_of(stack.model()),
        ) && is_entry::<S>(models(data@), S::key_of(stack.model()), i as int),
{
    let ghost list = models(data@);
    let ghost key = S::key_of(stack.model());
    let mut i: usize = 0;
    while i < data.len()
        invariant
            i <= data@.len(),
            list == models(data@),
            key == S::key_of(stack.model()),
            distinct::<S>(list),
            forall|k: int| 0 <= k < i ==> !#[trigger] is_entry::<S>(list, key, k),
        decreases data@.len() - i,
    {
        if data[i].0.same_stack(stack) {
            proof {
                assert(is_entry::<S>(list, key, i as int));
                let p = entry_index::<S>(list, key);
                assert(is_entry::<S>(list, key, p));
                if p < i {
                    assert(!is_entry::<S>(list, key, p));
                } else if p > i {
                    assert(S::key_of(list[i as int].0) != S::key_of(list[p].0));
                }
            }
            return Some(i);
        }
        assert(!is_entry::<S>(list, key, i as int));
        i += 1;
    }
    proof {
        if has_key::<S>(list, key) {
            assert(is_entry::<S>(list, key, entry_index::<S>(list, key)));
        }
    }
    None
}

/// Sets the count of a stack.
pub fn set_count<S: Stack>(data: &mut Vec<(S, isize)>, stack: S, count: isize)
    requires
        distinct::<S>(models(old(data)@)),
    ensures
        models(final(data)@) == with_count::<S>(models(old(data)@), stack.model(), count),
        distinct::<S>(models(final(data)@)),
{
    let ghost before = models(data@);
    proof {
        law_with_count::<S>(before, stack.model(), count, S::key_of(stack.model()));
    }
    match find_entry(data, &stack) {
        Some(i) => {
            data[i].1 = count;
        },
        None => {
            data.push((stack, count));
        },
    }
    assert(models(data@) =~= with_count::<S>(before, stack.model(), count));
}

/// Adds to the count of a stack; `false`, with nothing changed, where the sum is
/// too large to tell.
fn add_count<S: Stack>(data: &mut Vec<(S, isize)>, stack: S, count: isize) -> (r: bool)
    requires
        distinct::<S>(models(old(data)@)),
        count > 0,
        count_at::<S>(models(old(data)@), S::key_of(stack.model())) >= 0,
    ensures
        r <==> count_at::<S>(models(old(data)@), S::key_of(stack.model())) + count <= isize::MAX,
        r ==> models(final(data)@) == with_count::<S>(
            models(old(data)@),
            stack.model(),
            (count_at::<S>(models(old(data)@), S::key_of(stack.model())) + count) as isize,
        ),
        !r ==> *final(data) == *old(data),
        distinct::<S>(models(final(data)@)),
{
    let ghost before = models(data@);
    let ghost key = S::key_of(stack.model());
    match find_entry(data, &stack) {
        Some(i) => {
            let value: isize = data[i].1;
            if value > isize::MAX - count {
                return false;
            }
            data[i].1 = value + count;
            proof {
                law_with_count::<S>(before, stack.model(), (value + count) as isize, key);
                assert(models(data@) =~= with_count::<S>(
                    before,
                    stack.model(),
                    (value + count) as isize,
                ));
            }
        },
        None => {
            proof {
                law_with_count::<S>(before, stack.model(), count, key);
            }
            let ghost model = stack.model();
            data.push((stack, count));
            assert(models(data@) =~= with_count::<S>(before, model, count));
        },
    }
    true
}

/// Merges counted stacks; `None` where the sum of a stack is too large to tell.
pub fn merge<S: Stack>(entries: &Vec<(S, isize)>) -> (r: Option<Vec<(S, isize)>>)
    ensures
        r is Some <==> sums_fit::<S>(models(entries@)),
        r matches Some(data) ==> models(data@) == merged::<S>(models(entries@)) && distinct::<S>(
            models(data@),
        ),
{
    let ghost all = models(entries@);
    let mut data: Vec<(S, isize)> = Vec::new();
    let mut i: usize = 0;
    assert(models(data@) =~= merged::<S>(all.take(0)));
    while i < entries.len()
        invariant
            i <= entries@.len(),
            all == models(entries@),
            sums_fit::<S>(all.take(i as int)),
            models(data@) == merged::<S>(all.take(i as int)),
            distinct::<S>(models(data@)),
        decreases entries@.len() - i,
    {
        let count: isize = entries[i].1;
        let ghost shorter = all.take(i as int);
        let ghost longer = all.take(i + 1);
        let ghost key = S::key_of(all[i as int].0);
        proof {
            assert(longer.drop_last() =~= shorter);
            assert(longer.last() == all[i as int]);
            law_merged_counts::<S>(shorter, key);
        }
        if count > 0 {
            let stack = entries[i].0.copy();
            if !add_count(&mut data, stack, count) {
                proof {
                    assert(count_of::<S>(longer, key) > isize::MAX);
                    lemma_count_grows::<S>(all, i + 1, key);
                    assert(!sums_fit::<S>(all));
                }
                return None;
            }
        }
        proof {
            assert forall|k: S::Key| #[trigger] count_of::<S>(longer, k) <= isize::MAX by {
                assert(count_of::<S>(shorter, k) <= isize::MAX);
                if count > 0 && k == key {
                    assert(count_of::<S>(longer, key) == count_of::<S>(shorter, key) + count);
                }
            }
        }
        i += 1;
    }
    assert(all.take(i as int) =~= all);
    Some(data)
}

} // verus!
