//! Sorting of places by a number at each of them. Places with the same number
//! keep their order.
use vstd::prelude::*;

verus! {

// ---------------------------------------------------------------- statements

/// The place `i` comes before the place `j`: it has the smaller number, or the
/// same one and is the smaller place.
pub open spec fn before(numbers: Seq<i128>, i: usize, j: usize) -> bool {
    numbers[i as int] < numbers[j as int] || (numbers[i as int] == numbers[j as int] && i < j)
}

/// Every place comes before those that stand behind it.
pub open spec fn in_order(numbers: Seq<i128>, places: Seq<usize>) -> bool {
    forall|k: int, l: int|
        0 <= k < l < places.len() ==> before(numbers, #[trigger] places[k], #[trigger] places[l])
}

/// Places that grow.
pub open spec fn growing(places: Seq<usize>) -> bool {
    forall|k: int, l: int|
        0 <= k < l < places.len() ==> #[trigger] places[k] < #[trigger] places[l]
}

/// Nothing but places of the row.
pub open spec fn within(places: Seq<usize>, len: nat) -> bool {
    forall|k: int| 0 <= k < places.len() ==> #[trigger] places[k] < len
}

/// The two rows hold the same places.
pub open spec fn same_places(a: Seq<usize>, b: Seq<usize>) -> bool {
    forall|x: usize| a.contains(x) <==> b.contains(x)
}

// -------------------------------------------------------------------- lemmas

/// What a row holds once something is put behind it.
proof fn lemma_contains_push(s: Seq<usize>, c: usize)
    ensures
        forall|x: usize| #[trigger] s.push(c).contains(x) <==> s.contains(x) || x == c,
{
    assert forall|x: usize| #[trigger] s.push(c).contains(x) <==> s.contains(x) || x == c by {
        if s.contains(x) {
            let k = choose|k: int| 0 <= k < s.len() && s[k] == x;
            assert(s.push(c)[k] == x);
        }
        if x == c {
            assert(s.push(c)[s.len() as int] == x);
        }
        if s.push(c).contains(x) {
            let k = choose|k: int| 0 <= k < s.push(c).len() && s.push(c)[k] == x;
            if k < s.len() {
                assert(s[k] == x);
            }
        }
    }
}

/// What a row holds, half by half.
proof fn lemma_contains_halves(s: Seq<usize>, n: int)
    requires
        0 <= n <= s.len(),
    ensures
        forall|x: usize| #[trigger]
            s.contains(x) <==> s.take(n).contains(x) || s.skip(n).contains(x),
{
    assert forall|x: usize| #[trigger]
        s.contains(x) <==> s.take(n).contains(x) || s.skip(n).contains(x) by {
        if s.contains(x) {
            let k = choose|k: int| 0 <= k < s.len() && s[k] == x;
            if k < n {
                assert(s.take(n)[k] == x);
            } else {
                assert(s.skip(n)[k - n] == x);
            }
        }
        if s.take(n).contains(x) {
            let k = choose|k: int| 0 <= k < n && s.take(n)[k] == x;
            assert(s[k] == x);
        }
        if s.skip(n).contains(x) {
            let k = choose|k: int| 0 <= k < s.len() - n && s.skip(n)[k] == x;
            assert(s[k + n] == x);
        }
    }
}

/// There is one order only.
pub proof fn order_is_unique(numbers: Seq<i128>, a: Seq<usize>, b: Seq<usize>)
    requires
        in_order(numbers, a),
        in_order(numbers, b),
        same_places(a, b),
    ensures
        a == b,
    decreases a.len(),
{
    if a.len() == 0 {
        if b.len() > 0 {
            assert(b.contains(b[0]));
            assert(a.contains(b[0]));
        }
        assert(a == b);
    } else {
        assert(a.contains(a.last()));
        assert(b.contains(a.last()));
        let k = choose|k: int| 0 <= k < b.len() && b[k] == a.last();
        assert(b.contains(b.last()));
        assert(a.contains(b.last()));
        let l = choose|l: int| 0 <= l < a.len() && a[l] == b.last();
        assert(a.last() == b.last()) by {
            if k < b.len() - 1 {
                assert(before(numbers, b[k], b[b.len() - 1]));
                if l < a.len() - 1 {
                    assert(before(numbers, a[l], a[a.len() - 1]));
                }
            }
        }
        let front_a = a.drop_last();
        let front_b = b.drop_last();
        assert(front_a.push(a.last()) == a);
        assert(front_b.push(b.last()) == b);
        lemma_contains_push(front_a, a.last());
        lemma_contains_push(front_b, b.last());
        assert forall|x: usize| front_a.contains(x) <==> front_b.contains(x) by {
            if front_a.contains(x) {
                let i = choose|i: int| 0 <= i < front_a.len() && front_a[i] == x;
                assert(before(numbers, a[i], a[a.len() - 1]));
                assert(a.contains(x));
                assert(b.contains(x));
            }
            if front_b.contains(x) {
                let i = choose|i: int| 0 <= i < front_b.len() && front_b[i] == x;
                assert(before(numbers, b[i], b[b.len() - 1]));
                assert(b.contains(x));
                assert(a.contains(x));
            }
        }
        assert(in_order(numbers, front_a));
        assert(in_order(numbers, front_b));
        order_is_unique(numbers, front_a, front_b);
    }
}

// ---------------------------------------------------------------- operations

/// Merges two rows in order, where every place of the first is smaller than
/// every place of the second.
fn merge(numbers: &Vec<i128>, a: &Vec<usize>, b: &Vec<usize>) -> (r: Vec<usize>)
    requires
        in_order(numbers@, a@),
        in_order(numbers@, b@),
        within(a@, numbers@.len()),
        within(b@, numbers@.len()),
        forall|k: int, l: int|
            0 <= k < a@.len() && 0 <= l < b@.len() ==> #[trigger] a@[k] < #[trigger] b@[l],
    ensures
        in_order(numbers@, r@),
        within(r@, numbers@.len()),
        forall|x: usize| #[trigger] r@.contains(x) <==> a@.contains(x) || b@.contains(x),
{
    let mut r: Vec<usize> = Vec::new();
    let mut i: usize = 0;
    let mut j: usize = 0;
    assert(a@.take(0) == Seq::<usize>::empty());
    assert(b@.take(0) == Seq::<usize>::empty());
    while i < a.len() || j < b.len()
        invariant
            i <= a@.len(),
            j <= b@.len(),
            in_order(numbers@, a@),
            in_order(numbers@, b@),
            within(a@, numbers@.len()),
            within(b@, numbers@.len()),
            forall|k: int, l: int|
                0 <= k < a@.len() && 0 <= l < b@.len() ==> #[trigger] a@[k] < #[trigger] b@[l],
            in_order(numbers@, r@),
            within(r@, numbers@.len()),
            forall|k: int, l: int|
                0 <= k < r@.len() && i <= l < a@.len() ==> before(
                    numbers@,
                    #[trigger] r@[k],
                    #[trigger] a@[l],
                ),
            forall|k: int, l: int|
                0 <= k < r@.len() && j <= l < b@.len() ==> before(
                    numbers@,
                    #[trigger] r@[k],
                    #[trigger] b@[l],
                ),
            forall|x: usize| #[trigger]
                r@.contains(x) <==> a@.take(i as int).contains(x) || b@.take(j as int).contains(x),
        decreases a@.len() - i + b@.len() - j,
    {
        let first = j >= b.len() || (i < a.len() && numbers[a[i]] <= numbers[b[j]]);
        let ghost row = r@;
        if first {
            let place: usize = a[i];
            proof {
                lemma_contains_push(row, place);
                lemma_contains_push(a@.take(i as int), place);
                assert(a@.take(i + 1) == a@.take(i as int).push(place));
                if j < b@.len() {
                    assert(before(numbers@, place, b@[j as int]));
                }
            }
            r.push(place);
            i = i + 1;
        } else {
            let place: usize = b[j];
            proof {
                lemma_contains_push(row, place);
                lemma_contains_push(b@.take(j as int), place);
                assert(b@.take(j + 1) == b@.take(j as int).push(place));
                if i < a@.len() {
                    assert(before(numbers@, place, a@[i as int]));
                }
            }
            r.push(place);
            j = j + 1;
        }
    }
    assert(a@.take(i as int) == a@);
    assert(b@.take(j as int) == b@);
    r
}

/// The places in order, where they are given in growing order.
pub fn sorted_places(numbers: &Vec<i128>, places: &Vec<usize>) -> (r: Vec<usize>)
    requires
        growing(places@),
        within(places@, numbers@.len()),
    ensures
        in_order(numbers@, r@),
        same_places(r@, places@),
        within(r@, numbers@.len()),
    decreases places@.len(),
{
    if places.len() <= 1 {
        let mut r: Vec<usize> = Vec::new();
        if places.len() == 1 {
            r.push(places[0]);
        }
        assert(r@ == places@);
        return r;
    }
    let half: usize = places.len() / 2;
    let mut left: Vec<usize> = Vec::new();
    let mut right: Vec<usize> = Vec::new();
    let mut i: usize = 0;
    while i < places.len()
        invariant
            i <= places@.len(),
            half <= places@.len(),
            i <= half ==> left@ == places@.take(i as int) && right@.len() == 0,
            i > half ==> left@ == places@.take(half as int) && right@ == places@.subrange(
                half as int,
                i as int,
            ),
            i == half ==> right@ == places@.subrange(half as int, half as int),
        decreases places@.len() - i,
    {
        if i < half {
            left.push(places[i]);
            assert(places@.take(i + 1) == places@.take(i as int).push(places@[i as int]));
        } else {
            right.push(places[i]);
            assert(places@.subrange(half as int, i + 1) == places@.subrange(
                half as int,
                i as int,
            ).push(places@[i as int]));
        }
        i = i + 1;
    }
    assert(right@ == places@.skip(half as int));
    proof {
        lemma_contains_halves(places@, half as int);
    }
    let a = sorted_places(numbers, &left);
    let b = sorted_places(numbers, &right);
    assert forall|k: int, l: int| 0 <= k < a@.len() && 0 <= l < b@.len() implies #[trigger] a@[k]
        < #[trigger] b@[l] by {
        assert(a@.contains(a@[k]));
        assert(b@.contains(b@[l]));
        assert(left@.contains(a@[k]));
        assert(right@.contains(b@[l]));
        let m = choose|m: int| 0 <= m < left@.len() && left@[m] == a@[k];
        let n = choose|n: int| 0 <= n < right@.len() && right@[n] == b@[l];
        assert(places@[m] < places@[half + n]);
    }
    let r = merge(numbers, &a, &b);
    assert forall|x: usize| r@.contains(x) <==> places@.contains(x) by {
        assert(a@.contains(x) <==> left@.contains(x));
        assert(b@.contains(x) <==> right@.contains(x));
    }
    r
}

} // verus!
