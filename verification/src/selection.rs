//! What is taken out of a list, by place.

use vstd::prelude::*;

verus! {

/// The places of what a filter keeps: they rise, each holds what is kept, and every
/// place that holds what is to be kept is among them.
pub proof fn filter_places<A>(s: Seq<A>, keep: spec_fn(A) -> bool) -> (at: Seq<int>)
    ensures
        at.len() == s.filter(keep).len(),
        forall|j: int|
            0 <= j < at.len() ==> 0 <= #[trigger] at[j] < s.len() && keep(s[at[j]]) && s.filter(
                keep,
            )[j] == s[at[j]],
        forall|i: int, j: int| 0 <= i < j < at.len() ==> #[trigger] at[i] < #[trigger] at[j],
        forall|i: int| 0 <= i < s.len() && keep(#[trigger] s[i]) ==> at.contains(i),
    decreases s.len(),
{
    reveal(Seq::filter);
    if s.len() == 0 {
        Seq::empty()
    } else {
        let init = s.drop_last();
        let before = filter_places(init, keep);
        assert forall|i: int| 0 <= i < init.len() && keep(#[trigger] s[i]) implies before.contains(
            i,
        ) by {
            assert(init[i] == s[i]);
        }
        if keep(s.last()) {
            let at = before.push(s.len() - 1);
            assert forall|i: int| 0 <= i < s.len() && keep(#[trigger] s[i]) implies at.contains(
                i,
            ) by {
                if i < init.len() {
                    let j = choose|j: int| 0 <= j < before.len() && before[j] == i;
                    assert(at[j] == i);
                } else {
                    assert(at[before.len() as int] == i);
                }
            }
            assert forall|j: int| 0 <= j < at.len() implies 0 <= #[trigger] at[j] < s.len() && keep(
                s[at[j]],
            ) && s.filter(keep)[j] == s[at[j]] by {
                if j < before.len() {
                    assert(at[j] == before[j]);
                    assert(init[before[j]] == s[before[j]]);
                }
            }
            at
        } else {
            assert forall|j: int| 0 <= j < before.len() implies 0 <= #[trigger] before[j] < s.len()
                && keep(s[before[j]]) && s.filter(keep)[j] == s[before[j]] by {
                assert(init[before[j]] == s[before[j]]);
            }
            before
        }
    }
}

} // verus!
