//! Lemmas on filtered lists.

use vstd::prelude::*;

verus! {

/// What a filtered list holds is what the list holds of the wanted.
pub proof fn lemma_filter_holds(s: Seq<usize>, wanted: spec_fn(usize) -> bool, u: usize)
    ensures
        s.filter(wanted).contains(u) <==> s.contains(u) && wanted(u),
{
    broadcast use vstd::seq_lib::group_filter_ensures;

    let kept = s.filter(wanted);
    if kept.contains(u) {
        let i = choose|i: int| 0 <= i < kept.len() && kept[i] == u;
        assert(wanted(kept[i]));
        s.lemma_filter_contains_rev(wanted, u);
    }
    if s.contains(u) && wanted(u) {
        let i = choose|i: int| 0 <= i < s.len() && s[i] == u;
        assert(wanted(s[i]));
        assert(kept.contains(s[i]));
    }
}

/// A filter that wants every entry keeps the list.
pub proof fn lemma_filter_all(s: Seq<usize>, wanted: spec_fn(usize) -> bool)
    requires
        forall|k: int| 0 <= k < s.len() ==> wanted(#[trigger] s[k]),
    ensures
        s.filter(wanted) == s,
    decreases s.len(),
{
    reveal(Seq::filter);
    if s.len() > 0 {
        lemma_filter_all(s.drop_last(), wanted);
        assert(s.drop_last().push(s.last()) =~= s);
    } else {
        assert(s.filter(wanted) =~= s);
    }
}

/// A filtered list keeps the order of the list: two of its entries stand
/// in the list at two places in the same order.
pub proof fn lemma_filter_keeps_order(
    s: Seq<usize>,
    wanted: spec_fn(usize) -> bool,
    i: int,
    j: int,
) -> (places: (int, int))
    requires
        0 <= i < j < s.filter(wanted).len(),
    ensures
        0 <= places.0 < places.1 < s.len(),
        s[places.0] == s.filter(wanted)[i],
        s[places.1] == s.filter(wanted)[j],
    decreases s.len(),
{
    reveal(Seq::filter);
    let front = s.drop_last();
    let kept = front.filter(wanted);
    if wanted(s.last()) && j == kept.len() {
        let a = lemma_filter_place(front, wanted, i);
        (a, s.len() - 1)
    } else {
        let (a, b) = lemma_filter_keeps_order(front, wanted, i, j);
        (a, b)
    }
}

/// An entry of a filtered list stands somewhere in the list.
pub proof fn lemma_filter_place(s: Seq<usize>, wanted: spec_fn(usize) -> bool, i: int) -> (place: int)
    requires
        0 <= i < s.filter(wanted).len(),
    ensures
        0 <= place < s.len(),
        s[place] == s.filter(wanted)[i],
    decreases s.len(),
{
    reveal(Seq::filter);
    let front = s.drop_last();
    let kept = front.filter(wanted);
    if wanted(s.last()) && i == kept.len() {
        s.len() - 1
    } else {
        lemma_filter_place(front, wanted, i)
    }
}

} // verus!
