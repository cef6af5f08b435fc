//! The order of a listing, and a stable sort by it.
//!
//! A file whose time or size is unknown counts as the largest. Files that an
//! order cannot tell apart keep the order in which they came.

use crate::directory::{Comparison, FileEntry, Order};
use crate::path::{
    lemma_lex_le_antisymmetric, lemma_lex_le_reflexive, lemma_lex_le_total,
    lemma_lex_le_transitive, lex_le, path_le,
};
use vstd::prelude::*;
use vstd::utf8::encode_utf8;

verus! {

/// The time by which a file is ordered.
pub open spec fn modified_key(e: FileEntry) -> u64 {
    match e.stat.modified {
        Some(t) => t,
        None => u64::MAX,
    }
}

/// The size by which a file is ordered.
pub open spec fn size_key(e: FileEntry) -> u64 {
    match e.stat.size {
        Some(n) => n,
        None => u64::MAX,
    }
}

/// `a` is at or below `b` in the ascending order.
pub open spec fn ascends(a: FileEntry, b: FileEntry, order: Order) -> bool {
    match order {
        Order::Name => lex_le(encode_utf8(a.path@), encode_utf8(b.path@)),
        Order::UpdatedDate => modified_key(a) <= modified_key(b),
        Order::FileSize => size_key(a) <= size_key(b),
    }
}

/// `a` may stand before `b` in a listing ordered by `order` in the direction
/// `comp`.
pub open spec fn precedes(a: FileEntry, b: FileEntry, order: Order, comp: Comparison) -> bool {
    match comp {
        Comparison::Ascending => ascends(a, b, order),
        Comparison::Descending => ascends(b, a, order),
    }
}

/// The order cannot tell `a` and `b` apart.
pub open spec fn tied(a: FileEntry, b: FileEntry, order: Order) -> bool {
    ascends(a, b, order) && ascends(b, a, order)
}

/// The files that the order cannot tell from `x`.
pub open spec fn tied_with(x: FileEntry, order: Order) -> spec_fn(FileEntry) -> bool {
    |e: FileEntry| tied(e, x, order)
}

/// Every file may stand before all that follow it.
pub open spec fn is_sorted(s: Seq<FileEntry>, order: Order, comp: Comparison) -> bool {
    forall|i: int, j: int| 0 <= i < j < s.len() ==> precedes(s[i], s[j], order, comp)
}

/// Files that the order cannot tell apart stand in `r` as they stand in `s`.
pub open spec fn keeps_ties(r: Seq<FileEntry>, s: Seq<FileEntry>, order: Order) -> bool {
    forall|x: FileEntry| #[trigger]
        r.filter(tied_with(x, order)) == s.filter(tied_with(x, order))
}

/// `r` holds the files of `s`, in order, with ties left as they were. There
/// is one such listing for each `s`.
pub open spec fn is_stable_sort(
    r: Seq<FileEntry>,
    s: Seq<FileEntry>,
    order: Order,
    comp: Comparison,
) -> bool {
    &&& is_sorted(r, order, comp)
    &&& r.to_multiset() == s.to_multiset()
    &&& keeps_ties(r, s, order)
}

/// Of two files, one may stand before the other.
pub proof fn lemma_precedes_total(a: FileEntry, b: FileEntry, order: Order, comp: Comparison)
    ensures
        precedes(a, b, order, comp) || precedes(b, a, order, comp),
{
    lemma_lex_le_total(encode_utf8(a.path@), encode_utf8(b.path@));
}

/// If `a` may stand before `b` and `b` before `c`, then `a` may stand before
/// `c`.
pub proof fn lemma_precedes_transitive(
    a: FileEntry,
    b: FileEntry,
    c: FileEntry,
    order: Order,
    comp: Comparison,
)
    requires
        precedes(a, b, order, comp),
        precedes(b, c, order, comp),
    ensures
        precedes(a, c, order, comp),
{
    if order == Order::Name {
        match comp {
            Comparison::Ascending => lemma_lex_le_transitive(
                encode_utf8(a.path@),
                encode_utf8(b.path@),
                encode_utf8(c.path@),
            ),
            Comparison::Descending => lemma_lex_le_transitive(
                encode_utf8(c.path@),
                encode_utf8(b.path@),
                encode_utf8(a.path@),
            ),
        }
    }
}

/// Every file is tied with itself.
pub proof fn lemma_tied_reflexive(a: FileEntry, order: Order)
    ensures
        tied(a, a, order),
{
    lemma_lex_le_reflexive(encode_utf8(a.path@));
}

/// Ordered by name, only files with the same path are tied.
pub proof fn lemma_name_ties_share_a_path(a: FileEntry, b: FileEntry)
    requires
        tied(a, b, Order::Name),
    ensures
        a.path@ == b.path@,
{
    lemma_lex_le_antisymmetric(encode_utf8(a.path@), encode_utf8(b.path@));
    vstd::utf8::encode_utf8_decode_utf8(a.path@);
    vstd::utf8::encode_utf8_decode_utf8(b.path@);
}

/// Two files that are both tied with a third may stand before each other.
proof fn lemma_tied_through(
    a: FileEntry,
    b: FileEntry,
    x: FileEntry,
    order: Order,
    comp: Comparison,
)
    requires
        tied(a, x, order),
        tied(b, x, order),
    ensures
        precedes(a, b, order, comp),
{
    lemma_precedes_transitive(a, x, b, order, Comparison::Ascending);
    lemma_precedes_transitive(b, x, a, order, Comparison::Ascending);
}

/// Filtering a sequence extended by one element.
pub proof fn lemma_filter_push(s: Seq<FileEntry>, e: FileEntry, pred: spec_fn(FileEntry) -> bool)
    ensures
        s.push(e).filter(pred) == if pred(e) {
            s.filter(pred).push(e)
        } else {
            s.filter(pred)
        },
{
    reveal(Seq::filter);
    assert(s.push(e).drop_last() =~= s);
}

/// Filtering a sequence from which the first element is split off.
proof fn lemma_filter_first(s: Seq<FileEntry>, pred: spec_fn(FileEntry) -> bool)
    requires
        s.len() > 0,
    ensures
        s.filter(pred) == if pred(s[0]) {
            seq![s[0]] + s.drop_first().filter(pred)
        } else {
            s.drop_first().filter(pred)
        },
{
    Seq::filter_distributes_over_add(seq![s[0]], s.drop_first(), pred);
    assert(s =~= seq![s[0]] + s.drop_first());
    lemma_filter_push(Seq::empty(), s[0], pred);
    assert(Seq::<FileEntry>::empty().push(s[0]) =~= seq![s[0]]);
    reveal(Seq::filter);
    assert(Seq::<FileEntry>::empty().filter(pred) =~= Seq::<FileEntry>::empty());
    if !pred(s[0]) {
        assert(Seq::<FileEntry>::empty() + s.drop_first().filter(pred) =~= s.drop_first().filter(
            pred,
        ));
    }
}

/// Nothing in a sorted run is tied with a file that stands strictly before the run.
proof fn lemma_no_ties_behind(
    run: Seq<FileEntry>,
    first: int,
    front: FileEntry,
    x: FileEntry,
    order: Order,
    comp: Comparison,
)
    requires
        is_sorted(run, order, comp),
        0 <= first < run.len(),
        !precedes(run[first], front, order, comp),
        tied(front, x, order),
    ensures
        run.skip(first).filter(tied_with(x, order)).len() == 0,
{
    let rest = run.skip(first);
    let pred = tied_with(x, order);
    assert forall|k: int| 0 <= k < rest.len() implies !pred(#[trigger] rest[k]) by {
        if pred(rest[k]) {
            lemma_tied_through(rest[k], front, x, order, comp);
            if k > 0 {
                lemma_precedes_transitive(run[first], rest[k], front, order, comp);
            }
        }
    }
    assert(rest.all(|e: FileEntry| !pred(e)));
    rest.lemma_all_neg_filter_empty(pred);
}

/// Two sorted listings that hold the same files with the same ties are the
/// same listing.
proof fn lemma_sorted_with_same_ties(
    r1: Seq<FileEntry>,
    r2: Seq<FileEntry>,
    order: Order,
    comp: Comparison,
)
    requires
        is_sorted(r1, order, comp),
        is_sorted(r2, order, comp),
        r1.to_multiset() == r2.to_multiset(),
        keeps_ties(r1, r2, order),
    ensures
        r1 == r2,
    decreases r1.len(),
{
    r1.to_multiset_ensures();
    r2.to_multiset_ensures();
    if r1.len() == 0 {
        assert(r1 =~= r2);
    } else {
        let x = r1[0];
        let y = r2[0];
        let t1 = r1.drop_first();
        let t2 = r2.drop_first();
        let pred = tied_with(x, order);
        assert(r1.contains(x));
        assert(r2.contains(y));
        assert(r1.to_multiset().count(x) > 0);
        assert(r2.to_multiset().count(y) > 0);
        assert(r2.contains(x));
        assert(r1.contains(y));
        let k = choose|k: int| 0 <= k < r2.len() && r2[k] == x;
        let m = choose|m: int| 0 <= m < r1.len() && r1[m] == y;
        lemma_tied_reflexive(x, order);
        lemma_tied_reflexive(y, order);
        assert(precedes(y, x, order, comp)) by {
            if k > 0 {
                assert(precedes(r2[0], r2[k], order, comp));
            }
        }
        assert(precedes(x, y, order, comp)) by {
            if m > 0 {
                assert(precedes(r1[0], r1[m], order, comp));
            }
        }
        assert(pred(x) && pred(y));
        lemma_filter_first(r1, pred);
        lemma_filter_first(r2, pred);
        assert(r1.filter(pred) == r2.filter(pred));
        assert((seq![x] + t1.filter(pred))[0] == x);
        assert((seq![y] + t2.filter(pred))[0] == y);
        assert(x == y);
        assert(is_sorted(t1, order, comp)) by {
            assert forall|i: int, j: int| 0 <= i < j < t1.len() implies precedes(
                t1[i],
                t1[j],
                order,
                comp,
            ) by {
                assert(precedes(r1[i + 1], r1[j + 1], order, comp));
            }
        }
        assert(is_sorted(t2, order, comp)) by {
            assert forall|i: int, j: int| 0 <= i < j < t2.len() implies precedes(
                t2[i],
                t2[j],
                order,
                comp,
            ) by {
                assert(precedes(r2[i + 1], r2[j + 1], order, comp));
            }
        }
        assert(t1.to_multiset() =~= t2.to_multiset()) by {
            vstd::seq_lib::to_multiset_remove(r1, 0);
            vstd::seq_lib::to_multiset_remove(r2, 0);
            assert(r1.remove(0) =~= t1);
            assert(r2.remove(0) =~= t2);
        }
        assert forall|z: FileEntry| #[trigger]
            t1.filter(tied_with(z, order)) == t2.filter(tied_with(z, order)) by {
            let p = tied_with(z, order);
            lemma_filter_first(r1, p);
            lemma_filter_first(r2, p);
            assert(r1.filter(p) == r2.filter(p));
            if p(x) {
                assert((seq![x] + t1.filter(p)).drop_first() =~= t1.filter(p));
                assert((seq![y] + t2.filter(p)).drop_first() =~= t2.filter(p));
            }
        }
        lemma_sorted_with_same_ties(t1, t2, order, comp);
        assert(r1 =~= seq![x] + t1);
        assert(r2 =~= seq![y] + t2);
    }
}

/// A listing has one stable sort only: the order, the files and the ties
/// leave nothing open.
pub proof fn lemma_stable_sort_is_unique(
    r1: Seq<FileEntry>,
    r2: Seq<FileEntry>,
    s: Seq<FileEntry>,
    order: Order,
    comp: Comparison,
)
    requires
        is_stable_sort(r1, s, order, comp),
        is_stable_sort(r2, s, order, comp),
    ensures
        r1 == r2,
{
    assert forall|x: FileEntry| #[trigger]
        r1.filter(tied_with(x, order)) == r2.filter(tied_with(x, order)) by {
        assert(r1.filter(tied_with(x, order)) == s.filter(tied_with(x, order)));
        assert(r2.filter(tied_with(x, order)) == s.filter(tied_with(x, order)));
    }
    lemma_sorted_with_same_ties(r1, r2, order, comp);
}

/// Tells whether `a` may stand before `b`.
pub fn entry_precedes(a: &FileEntry, b: &FileEntry, order: Order, comp: Comparison) -> (r: bool)
    ensures
        r == precedes(*a, *b, order, comp),
{
    match comp {
        Comparison::Ascending => entry_ascends(a, b, order),
        Comparison::Descending => entry_ascends(b, a, order),
    }
}

fn entry_ascends(a: &FileEntry, b: &FileEntry, order: Order) -> (r: bool)
    ensures
        r == ascends(*a, *b, order),
{
    match order {
        Order::Name => path_le(a.path.as_str(), b.path.as_str()),
        Order::UpdatedDate => {
            let x: u64 = match a.stat.modified {
                Some(t) => t,
                None => u64::MAX,
            };
            let y: u64 = match b.stat.modified {
                Some(t) => t,
                None => u64::MAX,
            };
            x <= y
        },
        Order::FileSize => {
            let x: u64 = match a.stat.size {
                Some(n) => n,
                None => u64::MAX,
            };
            let y: u64 = match b.stat.size {
                Some(n) => n,
                None => u64::MAX,
            };
            x <= y
        },
    }
}

/// The files of `v`, last first.
pub(crate) fn reversed(v: Vec<FileEntry>) -> (r: Vec<FileEntry>)
    ensures
        r@.len() == v@.len(),
        forall|k: int| 0 <= k < r@.len() ==> r@[k] == v@[v@.len() - 1 - k],
{
    let mut v = v;
    let ghost all = v@;
    let mut r: Vec<FileEntry> = Vec::new();
    while v.len() > 0
        invariant
            v@.len() + r@.len() == all.len(),
            v@ == all.take(v@.len() as int),
            forall|k: int| 0 <= k < r@.len() ==> r@[k] == all[all.len() - 1 - k],
        decreases v@.len(),
    {
        let e = v.pop().unwrap();
        r.push(e);
        assert(v@ =~= all.take(v@.len() as int));
    }
    r
}

/// Everything in `out` may stand before everything in `rest`.
spec fn all_precede(
    out: Seq<FileEntry>,
    rest: Seq<FileEntry>,
    order: Order,
    comp: Comparison,
) -> bool {
    forall|p: int, q: int|
        0 <= p < out.len() && 0 <= q < rest.len() ==> precedes(
            #[trigger] out[p],
            #[trigger] rest[q],
            order,
            comp,
        )
}

/// What is merged and what is still to come hold, for the files tied with
/// `x`, what the two runs held.
spec fn ties_split(
    out: Seq<FileEntry>,
    left_rest: Seq<FileEntry>,
    right_rest: Seq<FileEntry>,
    left: Seq<FileEntry>,
    right: Seq<FileEntry>,
    x: FileEntry,
    order: Order,
) -> bool {
    out.filter(tied_with(x, order)) + left_rest.filter(tied_with(x, order)) + right_rest.filter(
        tied_with(x, order),
    ) == left.filter(tied_with(x, order)) + right.filter(tied_with(x, order))
}

/// The step of a merge that takes the next file of the left run.
proof fn lemma_take_left(
    out: Seq<FileEntry>,
    left: Seq<FileEntry>,
    right: Seq<FileEntry>,
    i: int,
    j: int,
    order: Order,
    comp: Comparison,
)
    requires
        is_sorted(left, order, comp),
        is_sorted(right, order, comp),
        0 <= i < left.len(),
        0 <= j <= right.len(),
        j < right.len() ==> precedes(left[i], right[j], order, comp),
        is_sorted(out, order, comp),
        all_precede(out, left.skip(i), order, comp),
        all_precede(out, right.skip(j), order, comp),
        forall|x: FileEntry| #[trigger]
            ties_split(out, left.skip(i), right.skip(j), left, right, x, order),
        out.to_multiset().add(left.skip(i).to_multiset()).add(right.skip(j).to_multiset())
            == left.to_multiset().add(right.to_multiset()),
    ensures
        is_sorted(out.push(left[i]), order, comp),
        all_precede(out.push(left[i]), left.skip(i + 1), order, comp),
        all_precede(out.push(left[i]), right.skip(j), order, comp),
        forall|x: FileEntry| #[trigger]
            ties_split(out.push(left[i]), left.skip(i + 1), right.skip(j), left, right, x, order),
        out.push(left[i]).to_multiset().add(left.skip(i + 1).to_multiset()).add(
            right.skip(j).to_multiset(),
        ) == left.to_multiset().add(right.to_multiset()),
{
    let e = left[i];
    let grown = out.push(e);
    let rest = left.skip(i);
    let other = right.skip(j);
    assert(rest[0] == e);
    assert(rest.drop_first() =~= left.skip(i + 1));
    assert forall|p: int, q: int| 0 <= p < q < grown.len() implies precedes(
        grown[p],
        grown[q],
        order,
        comp,
    ) by {
        if q == out.len() {
            assert(precedes(out[p], rest[0], order, comp));
        }
    }
    let behind = left.skip(i + 1);
    assert forall|p: int, q: int| 0 <= p < grown.len() && 0 <= q < behind.len() implies precedes(
        #[trigger] grown[p],
        #[trigger] behind[q],
        order,
        comp,
    ) by {
        if p < out.len() {
            assert(precedes(out[p], rest[q + 1], order, comp));
        }
    }
    assert forall|p: int, q: int| 0 <= p < grown.len() && 0 <= q < other.len() implies precedes(
        #[trigger] grown[p],
        #[trigger] other[q],
        order,
        comp,
    ) by {
        if p < out.len() {
            assert(precedes(out[p], other[q], order, comp));
        } else if q > 0 {
            lemma_precedes_transitive(e, right[j], other[q], order, comp);
        }
    }
    assert forall|x: FileEntry| #[trigger]
        ties_split(grown, left.skip(i + 1), other, left, right, x, order) by {
        let pred = tied_with(x, order);
        assert(ties_split(out, rest, other, left, right, x, order));
        lemma_filter_push(out, e, pred);
        lemma_filter_first(rest, pred);
        if pred(e) {
            assert(out.filter(pred).push(e) + left.skip(i + 1).filter(pred) =~= out.filter(pred) + (
            seq![e] + left.skip(i + 1).filter(pred)));
        }
    }
    assert(grown.to_multiset().add(left.skip(i + 1).to_multiset()).add(other.to_multiset())
        =~= left.to_multiset().add(right.to_multiset())) by {
        vstd::seq_lib::to_multiset_build(out, e);
        vstd::seq_lib::to_multiset_remove(rest, 0);
        assert(rest.remove(0) =~= left.skip(i + 1));
        rest.to_multiset_ensures();
    }
}

/// The step of a merge that takes the next file of the right run. It is
/// taken only if it stands strictly before what is left of the left run.
proof fn lemma_take_right(
    out: Seq<FileEntry>,
    left: Seq<FileEntry>,
    right: Seq<FileEntry>,
    i: int,
    j: int,
    order: Order,
    comp: Comparison,
)
    requires
        is_sorted(left, order, comp),
        is_sorted(right, order, comp),
        0 <= i <= left.len(),
        0 <= j < right.len(),
        i < left.len() ==> !precedes(left[i], right[j], order, comp),
        is_sorted(out, order, comp),
        all_precede(out, left.skip(i), order, comp),
        all_precede(out, right.skip(j), order, comp),
        forall|x: FileEntry| #[trigger]
            ties_split(out, left.skip(i), right.skip(j), left, right, x, order),
        out.to_multiset().add(left.skip(i).to_multiset()).add(right.skip(j).to_multiset())
            == left.to_multiset().add(right.to_multiset()),
    ensures
        is_sorted(out.push(right[j]), order, comp),
        all_precede(out.push(right[j]), left.skip(i), order, comp),
        all_precede(out.push(right[j]), right.skip(j + 1), order, comp),
        forall|x: FileEntry| #[trigger]
            ties_split(out.push(right[j]), left.skip(i), right.skip(j + 1), left, right, x, order),
        out.push(right[j]).to_multiset().add(left.skip(i).to_multiset()).add(
            right.skip(j + 1).to_multiset(),
        ) == left.to_multiset().add(right.to_multiset()),
{
    let e = right[j];
    let grown = out.push(e);
    let rest = right.skip(j);
    let other = left.skip(i);
    assert(rest[0] == e);
    assert(rest.drop_first() =~= right.skip(j + 1));
    assert forall|p: int, q: int| 0 <= p < q < grown.len() implies precedes(
        grown[p],
        grown[q],
        order,
        comp,
    ) by {
        if q == out.len() {
            assert(precedes(out[p], rest[0], order, comp));
        }
    }
    let behind = right.skip(j + 1);
    assert forall|p: int, q: int| 0 <= p < grown.len() && 0 <= q < behind.len() implies precedes(
        #[trigger] grown[p],
        #[trigger] behind[q],
        order,
        comp,
    ) by {
        if p < out.len() {
            assert(precedes(out[p], rest[q + 1], order, comp));
        }
    }
    assert forall|p: int, q: int| 0 <= p < grown.len() && 0 <= q < other.len() implies precedes(
        #[trigger] grown[p],
        #[trigger] other[q],
        order,
        comp,
    ) by {
        if p < out.len() {
            assert(precedes(out[p], other[q], order, comp));
        } else {
            lemma_precedes_total(left[i], e, order, comp);
            if q > 0 {
                lemma_precedes_transitive(e, left[i], other[q], order, comp);
            }
        }
    }
    assert forall|x: FileEntry| #[trigger]
        ties_split(grown, other, right.skip(j + 1), left, right, x, order) by {
        let pred = tied_with(x, order);
        assert(ties_split(out, other, rest, left, right, x, order));
        lemma_filter_push(out, e, pred);
        lemma_filter_first(rest, pred);
        if pred(e) {
            if i < left.len() {
                lemma_no_ties_behind(left, i, e, x, order, comp);
            } else {
                assert(other.len() == 0);
                other.lemma_filter_len(pred);
            }
            assert(other.filter(pred) =~= Seq::<FileEntry>::empty());
            assert(out.filter(pred).push(e) + other.filter(pred) + right.skip(j + 1).filter(pred)
                =~= out.filter(pred) + other.filter(pred) + (seq![e] + right.skip(j + 1).filter(
                pred,
            )));
        }
    }
    assert(grown.to_multiset().add(other.to_multiset()).add(right.skip(j + 1).to_multiset())
        =~= left.to_multiset().add(right.to_multiset())) by {
        vstd::seq_lib::to_multiset_build(out, e);
        vstd::seq_lib::to_multiset_remove(rest, 0);
        assert(rest.remove(0) =~= right.skip(j + 1));
        rest.to_multiset_ensures();
    }
}

/// Merges two sorted runs into one. Where a file of the left run and one of
/// the right are tied, the one of the left run comes first.
fn merge(left: Vec<FileEntry>, right: Vec<FileEntry>, order: Order, comp: Comparison) -> (out: Vec<
    FileEntry,
>)
    requires
        is_sorted(left@, order, comp),
        is_sorted(right@, order, comp),
    ensures
        is_sorted(out@, order, comp),
        out@.to_multiset() == left@.to_multiset().add(right@.to_multiset()),
        forall|x: FileEntry| #[trigger]
            out@.filter(tied_with(x, order)) == left@.filter(tied_with(x, order)) + right@.filter(
                tied_with(x, order),
            ),
{
    let ghost l = left@;
    let ghost r = right@;
    let mut from_left = reversed(left);
    let mut from_right = reversed(right);
    let mut out: Vec<FileEntry> = Vec::new();
    let ghost mut i: int = 0;
    let ghost mut j: int = 0;
    proof {
        assert(l.skip(0) =~= l);
        assert(r.skip(0) =~= r);
        assert forall|x: FileEntry| #[trigger]
            ties_split(out@, l.skip(0), r.skip(0), l, r, x, order) by {
            reveal(Seq::filter);
            assert(out@.filter(tied_with(x, order)) + l.filter(tied_with(x, order)) =~= l.filter(
                tied_with(x, order),
            ));
        }
        assert(out@.to_multiset().add(l.to_multiset()) =~= l.to_multiset()) by {
            out@.to_multiset_ensures();
        }
    }
    while from_left.len() > 0 || from_right.len() > 0
        invariant
            is_sorted(l, order, comp),
            is_sorted(r, order, comp),
            0 <= i <= l.len(),
            0 <= j <= r.len(),
            from_left@.len() == l.len() - i,
            from_right@.len() == r.len() - j,
            forall|k: int| 0 <= k < from_left@.len() ==> from_left@[k] == l[l.len() - 1 - k],
            forall|k: int| 0 <= k < from_right@.len() ==> from_right@[k] == r[r.len() - 1 - k],
            is_sorted(out@, order, comp),
            all_precede(out@, l.skip(i), order, comp),
            all_precede(out@, r.skip(j), order, comp),
            forall|x: FileEntry| #[trigger] ties_split(out@, l.skip(i), r.skip(j), l, r, x, order),
            out@.to_multiset().add(l.skip(i).to_multiset()).add(r.skip(j).to_multiset())
                == l.to_multiset().add(r.to_multiset()),
        decreases from_left@.len() + from_right@.len(),
    {
        let take_left = if from_left.len() == 0 {
            false
        } else if from_right.len() == 0 {
            true
        } else {
            entry_precedes(
                &from_left[from_left.len() - 1],
                &from_right[from_right.len() - 1],
                order,
                comp,
            )
        };
        if take_left {
            proof {
                lemma_take_left(out@, l, r, i, j, order, comp);
            }
            let e = from_left.pop().unwrap();
            out.push(e);
            proof {
                i = i + 1;
            }
        } else {
            proof {
                lemma_take_right(out@, l, r, i, j, order, comp);
            }
            let e = from_right.pop().unwrap();
            out.push(e);
            proof {
                j = j + 1;
            }
        }
    }
    proof {
        assert forall|x: FileEntry| #[trigger]
            out@.filter(tied_with(x, order)) == l.filter(tied_with(x, order)) + r.filter(
                tied_with(x, order),
            ) by {
            let pred = tied_with(x, order);
            assert(ties_split(out@, l.skip(i), r.skip(j), l, r, x, order));
            l.skip(i).lemma_filter_len(pred);
            r.skip(j).lemma_filter_len(pred);
            assert(out@.filter(pred) + l.skip(i).filter(pred) + r.skip(j).filter(pred)
                =~= out@.filter(pred));
        }
        assert(out@.to_multiset() =~= l.to_multiset().add(r.to_multiset())) by {
            l.skip(i).to_multiset_ensures();
            r.skip(j).to_multiset_ensures();
        }
    }
    out
}

/// Sorts `files` by `order` in the direction `comp`. Files that the order
/// cannot tell apart stay in the order in which they came.
pub fn stable_sort(files: Vec<FileEntry>, order: Order, comp: Comparison) -> (sorted: Vec<
    FileEntry,
>)
    ensures
        is_stable_sort(sorted@, files@, order, comp),
    decreases files@.len(),
{
    if files.len() <= 1 {
        return files;
    }
    let ghost all = files@;
    let mut left = files;
    let mid = left.len() / 2;
    let right = left.split_off(mid);
    let ghost first = left@;
    let ghost second = right@;
    let left = stable_sort(left, order, comp);
    let right = stable_sort(right, order, comp);
    let sorted = merge(left, right, order, comp);
    proof {
        assert(all =~= first + second);
        vstd::seq_lib::lemma_multiset_commutative(first, second);
        assert forall|x: FileEntry| #[trigger]
            sorted@.filter(tied_with(x, order)) == all.filter(tied_with(x, order)) by {
            Seq::filter_distributes_over_add(first, second, tied_with(x, order));
        }
    }
    sorted
}

} // verus!
