//! A grid to start from: the first three rows and the first column filled
//! at random.

use crate::generator::GeneratorError;
use crate::random::RandomIter;
use std::collections::HashSet;
use vstd::prelude::*;

verus! {

/// Whether every item of a list is a digit from 1 to 9.
pub open spec fn all_digits(items: Seq<&u8>) -> bool {
    forall|j: int| 0 <= j < items.len() ==> 1 <= *(#[trigger] items[j]) <= 9
}

/// Whether no item of a list is in a set.
pub open spec fn all_avoid(items: Seq<&u8>, taken: Set<u8>) -> bool {
    forall|j: int| 0 <= j < items.len() ==> !taken.contains(*(#[trigger] items[j]))
}

/// Whether no two items of a list are the same.
pub open spec fn distinct_items(items: Seq<&u8>) -> bool {
    forall|i: int, j: int|
        0 <= i < j < items.len() ==> *(#[trigger] items[i]) != *(#[trigger] items[j])
}

/// Whether none of the first `left` items of a list was drawn before.
pub open spec fn front_avoids(items: Seq<&u8>, left: int, drawn: Seq<u8>) -> bool {
    forall|j: int| 0 <= j < left && j < items.len() ==> !drawn.contains(*(#[trigger] items[j]))
}

/// A list with two items in each other's place.
pub open spec fn swapped(items: Seq<&u8>, a: int, b: int) -> Seq<&u8> {
    items.update(a, items[b]).update(b, items[a])
}

/// Two items changing places leave a list with the items it had.
pub proof fn lemma_swapped(items: Seq<&u8>, a: int, b: int, taken: Set<u8>)
    requires
        0 <= a < items.len(),
        0 <= b < items.len(),
    ensures
        all_digits(items) ==> all_digits(swapped(items, a, b)),
        all_avoid(items, taken) ==> all_avoid(swapped(items, a, b), taken),
        distinct_items(items) ==> distinct_items(swapped(items, a, b)),
{
    let after = swapped(items, a, b);
    assert forall|j: int| 0 <= j < after.len() implies exists|i: int|
        0 <= i < items.len() && #[trigger] after[j] == #[trigger] items[i] by {
        if j == b {
            assert(after[j] == items[a]);
        } else if j == a {
            assert(after[j] == items[b]);
        } else {
            assert(after[j] == items[j]);
        }
    }
    if all_digits(items) {
        assert forall|j: int| 0 <= j < after.len() implies 1 <= *(#[trigger] after[j]) <= 9 by {
            let i = choose|i: int| 0 <= i < items.len() && #[trigger] after[j] == #[trigger] items[i];
            assert(1 <= *items[i] <= 9);
        }
    }
    if all_avoid(items, taken) {
        assert forall|j: int| 0 <= j < after.len() implies !taken.contains(
            *(#[trigger] after[j]),
        ) by {
            let i = choose|i: int| 0 <= i < items.len() && #[trigger] after[j] == #[trigger] items[i];
            assert(!taken.contains(*items[i]));
        }
    }
    if distinct_items(items) {
        assert forall|i: int, j: int| 0 <= i < j < after.len() implies *(#[trigger] after[i])
            != *(#[trigger] after[j]) by {
            let from_i = if i == a {
                b
            } else if i == b {
                a
            } else {
                i
            };
            let from_j = if j == a {
                b
            } else if j == b {
                a
            } else {
                j
            };
            assert(after[i] == items[from_i]);
            assert(after[j] == items[from_j]);
            if from_i < from_j {
                assert(*items[from_i] != *items[from_j]);
            } else {
                assert(*items[from_j] != *items[from_i]);
            }
        }
    }
}

/// Whether a digit is among the first `left` items of a list.
pub open spec fn in_front(items: Seq<&u8>, left: int, digit: u8) -> bool {
    exists|j: int| 0 <= j < left && j < items.len() && *(#[trigger] items[j]) == digit
}

/// A pass over a list of digits that has come some way: the digits drawn so
/// far and those still in front are the digits of the list, each once.
pub open spec fn pass_ok(items: Seq<&u8>, left: int, drawn: Seq<u8>, list: Set<u8>) -> bool {
    &&& 0 <= left <= items.len()
    &&& distinct_items(items)
    &&& drawn.no_duplicates()
    &&& forall|j: int| 0 <= j < items.len() ==> list.contains(*(#[trigger] items[j]))
    &&& forall|k: int| 0 <= k < drawn.len() ==> list.contains(#[trigger] drawn[k])
    &&& front_avoids(items, left, drawn)
    &&& forall|d: u8| #[trigger] list.contains(d) ==> drawn.contains(d) || in_front(items, left, d)
}

/// A list with one more item holds what it held, and that item.
pub proof fn lemma_push_contains(list: Seq<u8>, last: u8, d: u8)
    ensures
        list.push(last).contains(d) <==> list.contains(d) || d == last,
{
    let longer = list.push(last);
    if longer.contains(d) {
        let i = choose|i: int| 0 <= i < longer.len() && longer[i] == d;
        if i < list.len() {
            assert(list[i] == d);
        }
    }
    if list.contains(d) {
        let i = choose|i: int| 0 <= i < list.len() && list[i] == d;
        assert(longer[i] == d);
    }
    if d == last {
        assert(longer[list.len() as int] == d);
    }
}

/// At the start of a pass nothing is drawn and the whole list is in front.
pub proof fn lemma_pass_start(items: Seq<&u8>, list: Seq<u8>)
    requires
        items.len() == list.len(),
        list.no_duplicates(),
        forall|j: int| 0 <= j < items.len() ==> *(#[trigger] items[j]) == list[j],
    ensures
        pass_ok(items, items.len() as int, Seq::empty(), list.to_set()),
{
    let all = list.to_set();
    assert forall|i: int, j: int| 0 <= i < j < items.len() implies *(#[trigger] items[i])
        != *(#[trigger] items[j]) by {
        assert(list[i] != list[j]);
    }
    assert forall|j: int| 0 <= j < items.len() implies all.contains(*(#[trigger] items[j])) by {
        assert(list[j] == *items[j]);
        assert(list.contains(list[j]));
    }
    assert forall|d: u8| #[trigger] all.contains(d) implies Seq::<u8>::empty().contains(d)
        || in_front(items, items.len() as int, d) by {
        assert(list.contains(d));
        let j = choose|j: int| 0 <= j < list.len() && list[j] == d;
        assert(*items[j] == d);
    }
}

/// One step of a pass: the item picked among those in front changes places
/// with the last of them and counts as drawn.
pub proof fn lemma_pass_step(items: Seq<&u8>, left: int, drawn: Seq<u8>, list: Set<u8>, a: int)
    requires
        pass_ok(items, left, drawn, list),
        0 <= a < left,
    ensures
        pass_ok(swapped(items, a, left - 1), left - 1, drawn.push(*items[a]), list),
        !drawn.contains(*items[a]),
        list.contains(*items[a]),
{
    let b = left - 1;
    let digit = *items[a];
    let after = swapped(items, a, b);
    let more = drawn.push(digit);
    lemma_swapped(items, a, b, Set::empty());
    assert(!drawn.contains(digit));
    assert forall|i: int, j: int| 0 <= i < more.len() && 0 <= j < more.len() && i != j implies more[i]
        != more[j] by {
        if i < drawn.len() && j < drawn.len() {
            assert(drawn[i] != drawn[j]);
        } else if i < drawn.len() {
            assert(drawn.contains(drawn[i]));
        } else {
            assert(drawn.contains(drawn[j]));
        }
    }
    assert forall|j: int| 0 <= j < after.len() implies list.contains(*(#[trigger] after[j])) by {
        let from = if j == a {
            b
        } else if j == b {
            a
        } else {
            j
        };
        assert(after[j] == items[from]);
        assert(list.contains(*items[from]));
    }
    assert forall|k: int| 0 <= k < more.len() implies list.contains(#[trigger] more[k]) by {
        if k < drawn.len() {
            assert(more[k] == drawn[k]);
        }
    }
    assert forall|j: int| 0 <= j < left - 1 && j < after.len() implies !more.contains(
        *(#[trigger] after[j]),
    ) by {
        let from = if j == a {
            b
        } else {
            j
        };
        assert(after[j] == items[from]);
        assert(!drawn.contains(*items[from]));
        if from < a {
            assert(*items[from] != *items[a]);
        } else {
            assert(*items[a] != *items[from]);
        }
        lemma_push_contains(drawn, digit, *after[j]);
    }
    assert forall|d: u8| #[trigger] list.contains(d) implies more.contains(d) || in_front(
        after,
        left - 1,
        d,
    ) by {
        lemma_push_contains(drawn, digit, d);
        if !drawn.contains(d) && d != digit {
            let j = choose|j: int| 0 <= j < left && j < items.len() && *(#[trigger] items[j]) == d;
            if j == b {
                assert(a != b);
                assert(after[a] == items[b]);
                assert(0 <= a < left - 1 && *after[a] == d);
            } else {
                assert(j != a);
                assert(after[j] == items[j]);
                assert(0 <= j < left - 1 && *after[j] == d);
            }
        }
    }
}

/// At the end of a pass the digits drawn are those of the list.
pub proof fn lemma_pass_end(items: Seq<&u8>, drawn: Seq<u8>, list: Set<u8>)
    requires
        pass_ok(items, 0, drawn, list),
    ensures
        forall|d: u8| drawn.contains(d) <==> list.contains(d),
{
    assert forall|d: u8| drawn.contains(d) <==> list.contains(d) by {
        if drawn.contains(d) {
            let k = choose|k: int| 0 <= k < drawn.len() && drawn[k] == d;
            assert(list.contains(drawn[k]));
        }
        if list.contains(d) {
            assert(!in_front(items, 0, d));
        }
    }
}

/// The digits from 1 to 9.
fn digits() -> (r: Vec<u8>)
    ensures
        r@.len() == 9,
        forall|i: int| 0 <= i < r@.len() ==> r@[i] == i + 1,
{
    let mut all: Vec<u8> = Vec::new();
    let mut d: u8 = 1;
    while d < 10
        invariant
            1 <= d <= 10,
            all@.len() == d - 1,
            forall|k: int| 0 <= k < all@.len() ==> all@[k] == k + 1,
        decreases 10 - d,
    {
        all.push(d);
        d += 1;
    }
    all
}

/// References to the digits of a list, in order.
fn borrow_digits<'a>(list: &'a Vec<u8>) -> (r: Vec<&'a u8>)
    ensures
        r@.len() == list@.len(),
        forall|i: int| 0 <= i < r@.len() ==> *(#[trigger] r@[i]) == list@[i],
{
    let mut all: Vec<&'a u8> = Vec::new();
    let mut i: usize = 0;
    while i < list.len()
        invariant
            i <= list@.len(),
            all@.len() == i,
            forall|k: int| 0 <= k < i ==> *(#[trigger] all@[k]) == list@[k],
        decreases list@.len() - i,
    {
        all.push(&list[i]);
        i += 1;
    }
    all
}

/// The digits of a list in random order.
fn shuffled_digits<'a>(list: &'a Vec<u8>, Ghost(taken): Ghost<Set<u8>>) -> (r: Result<
    RandomIter<'a, u8>,
    GeneratorError,
>)
    requires
        1 <= list@.len() <= 9,
        list@.no_duplicates(),
        forall|i: int|
            0 <= i < list@.len() ==> 1 <= #[trigger] list@[i] <= 9 && !taken.contains(list@[i]),
    ensures
        r matches Ok(iter) ==> (iter.wf() && iter.left() == list@.len() && iter.items().len()
            == list@.len() && all_digits(iter.items()) && all_avoid(iter.items(), taken)
            && distinct_items(iter.items()) && pass_ok(
            iter.items(),
            list@.len() as int,
            Seq::empty(),
            list@.to_set(),
        )),
        r matches Err(e) ==> e == GeneratorError::NoRandomBytes,
{
    let items = borrow_digits(list);
    proof {
        lemma_pass_start(items@, list@);
    }
    proof {
        assert forall|i: int, j: int| 0 <= i < j < items@.len() implies *(#[trigger] items@[i])
            != *(#[trigger] items@[j]) by {
            assert(list@[i] != list@[j]);
        }
    }
    match RandomIter::new(items) {
        Ok(iter) => Ok(iter),
        Err(_) => Err(GeneratorError::NoRandomBytes),
    }
}

/// The next digit of a random order that has digits left. It is none of
/// those drawn before.
fn draw(
    choices: &mut RandomIter<u8>,
    Ghost(taken): Ghost<Set<u8>>,
    Ghost(drawn): Ghost<Seq<u8>>,
) -> (digit: u8)
    requires
        old(choices).wf(),
        old(choices).left() > 0,
        all_digits(old(choices).items()),
        all_avoid(old(choices).items(), taken),
        distinct_items(old(choices).items()),
        front_avoids(old(choices).items(), old(choices).left() as int, drawn),
    ensures
        final(choices).wf(),
        final(choices).left() == old(choices).left() - 1,
        final(choices).items().len() == old(choices).items().len(),
        all_digits(final(choices).items()),
        all_avoid(final(choices).items(), taken),
        distinct_items(final(choices).items()),
        front_avoids(final(choices).items(), final(choices).left() as int, drawn.push(digit)),
        1 <= digit <= 9,
        !taken.contains(digit),
        !drawn.contains(digit),
        0 <= old(choices).picked() < old(choices).left(),
        digit == *old(choices).items()[old(choices).picked()],
        final(choices).items() == swapped(
            old(choices).items(),
            old(choices).picked(),
            old(choices).left() - 1,
        ),
{
    let ghost before = *choices;
    let ghost a = before.picked();
    let ghost b = before.cursor() as int;
    proof {
        before.lemma_wf();
        lemma_swapped(before.items(), a, b, taken);
        assert(1 <= *before.items()[a] <= 9);
        assert(!taken.contains(*before.items()[a]));
        assert(!drawn.contains(*before.items()[a]));
    }
    let digit = match choices.next() {
        Ok(Some(digit)) => *digit,
        _ => {
            assert(false);
            0
        },
    };
    proof {
        let after = choices.items();
        assert(after == swapped(before.items(), a, b));
        assert forall|j: int| 0 <= j < choices.left() && j < after.len() implies !drawn.push(
            digit,
        ).contains(*(#[trigger] after[j])) by {
            let from = if j == a {
                b
            } else {
                j
            };
            assert(after[j] == before.items()[from]);
            assert(!drawn.contains(*before.items()[from]));
            if from < a {
                assert(*before.items()[from] != *before.items()[a]);
            } else {
                assert(*before.items()[a] != *before.items()[from]);
            }
            let value = *after[j];
            if drawn.push(digit).contains(value) {
                let i = choose|i: int| 0 <= i < drawn.push(digit).len() && drawn.push(digit)[i]
                    == value;
                if i < drawn.len() {
                    assert(drawn[i] == value);
                    assert(drawn.contains(value));
                }
            }
        }
    }
    digit
}

/// The next digit of a random order: the item picked among those in front,
/// which changes places with the last of them. At the end of a pass `None`,
/// and the next pass begins with all items in front again.
fn next_digit(choices: &mut RandomIter<u8>) -> (r: Result<Option<u8>, GeneratorError>)
    requires
        old(choices).wf(),
        all_digits(old(choices).items()),
    ensures
        final(choices).wf(),
        all_digits(final(choices).items()),
        final(choices).items().len() == old(choices).items().len(),
        old(choices).left() > 0 ==> (r matches Ok(Some(digit)) && 1 <= digit <= 9 && 0 <= old(
            choices,
        ).picked() < old(choices).left() && digit == *old(choices).items()[old(choices).picked()]
            && final(choices).items() == swapped(
            old(choices).items(),
            old(choices).picked(),
            old(choices).left() - 1,
        ) && final(choices).left() == old(choices).left() - 1),
        old(choices).left() == 0 ==> (final(choices).items() == old(choices).items() && match r {
            Ok(digit) => digit is None && final(choices).left() == old(choices).items().len(),
            Err(e) => e == GeneratorError::NoRandomBytes && final(choices).left() == 0,
        }),
{
    let ghost before = *choices;
    proof {
        before.lemma_wf();
        lemma_swapped(before.items(), before.picked(), before.cursor() as int, Set::empty());
        if before.left() > 0 {
            assert(1 <= *before.items()[before.picked()] <= 9);
        }
    }
    match choices.next() {
        Ok(Some(digit)) => Ok(Some(*digit)),
        Ok(None) => Ok(None),
        Err(_) => Err(GeneratorError::NoRandomBytes),
    }
}

/// The digits up to `n` that a set holds.
pub open spec fn taken_upto(taken: Set<u8>, n: int) -> Set<u8> {
    Set::new(|d: u8| 1 <= d <= n && taken.contains(d))
}

/// The digits that a set does not hold, in ascending order.
fn digits_without(taken: &HashSet<u8>) -> (r: Vec<u8>)
    requires
        taken@.finite(),
    ensures
        r@.len() <= 9,
        r@.len() + taken@.len() >= 9,
        (forall|d: u8| taken@.contains(d) ==> 1 <= d <= 9) ==> r@.len() + taken@.len() == 9,
        r@.no_duplicates(),
        forall|i: int|
            0 <= i < r@.len() ==> 1 <= #[trigger] r@[i] <= 9 && !taken@.contains(r@[i]),
        forall|d: u8| 1 <= d <= 9 && !taken@.contains(d) ==> r@.contains(d),
{
    broadcast use vstd::std_specs::hash::group_hash_axioms;

    let all = digits();
    let mut left: Vec<u8> = Vec::new();
    let mut i: usize = 0;
    proof {
        assert(taken_upto(taken@, 0) =~= Set::<u8>::empty());
    }
    while i < all.len()
        invariant
            i <= all@.len(),
            all@.len() == 9,
            forall|k: int| 0 <= k < all@.len() ==> all@[k] == k + 1,
            taken@.finite(),
            taken_upto(taken@, i as int).finite(),
            left@.len() + taken_upto(taken@, i as int).len() == i,
            forall|k: int|
                0 <= k < left@.len() ==> 1 <= #[trigger] left@[k] <= i && !taken@.contains(
                    left@[k],
                ),
            forall|j: int, k: int| 0 <= j < k < left@.len() ==> left@[j] < left@[k],
            forall|d: u8| 1 <= d <= i && !taken@.contains(d) ==> left@.contains(d),
        decreases all@.len() - i,
    {
        let digit = all[i];
        let ghost before = left@;
        let ghost fewer = taken_upto(taken@, i as int);
        let ghost more = taken_upto(taken@, i as int + 1);
        if !taken.contains(&digit) {
            left.push(digit);
            proof {
                assert(more =~= fewer);
                assert(left@[before.len() as int] == digit);
                assert forall|d: u8| 1 <= d <= i + 1 && !taken@.contains(d) implies left@.contains(
                    d,
                ) by {
                    if d <= i {
                        assert(before.contains(d));
                        let k = choose|k: int| 0 <= k < before.len() && before[k] == d;
                        assert(left@[k] == d);
                    }
                }
            }
        } else {
            proof {
                assert(more =~= fewer.insert(digit));
                assert(!fewer.contains(digit));
            }
        }
        i += 1;
    }
    proof {
        vstd::set_lib::lemma_len_subset(taken_upto(taken@, 9), taken@);
        if forall|d: u8| taken@.contains(d) ==> 1 <= d <= 9 {
            assert(taken_upto(taken@, 9) =~= taken@);
        }
    }
    left
}

/// The first items of a row, `count` at most, as a set.
fn first_of(row: &Vec<u8>, count: usize) -> (r: HashSet<u8>)
    ensures
        r@.finite(),
        r@.len() <= count,
        forall|d: u8|
            r@.contains(d) <==> exists|k: int|
                0 <= k < count && k < row@.len() && #[trigger] row@[k] == d,
{
    broadcast use vstd::std_specs::hash::group_hash_axioms;

    let mut set: HashSet<u8> = HashSet::new();
    let mut i: usize = 0;
    while i < count && i < row.len()
        invariant
            i <= row@.len(),
            i <= count,
            set@.finite(),
            set@.len() <= i,
            forall|d: u8| set@.contains(d) <==> exists|k: int| 0 <= k < i && #[trigger] row@[k] == d,
        decreases row@.len() - i,
    {
        let ghost before = set@;
        set.insert(row[i]);
        proof {
            assert forall|d: u8|
                set@.contains(d) <==> exists|k: int| 0 <= k < i + 1 && #[trigger] row@[k] == d by {
                if before.contains(d) {
                    let k = choose|k: int| 0 <= k < i && #[trigger] row@[k] == d;
                    assert(0 <= k < i + 1 && row@[k] == d);
                }
                if d == row@[i as int] {
                    assert(0 <= i < i + 1 && row@[i as int] == d);
                }
                if exists|k: int| 0 <= k < i + 1 && #[trigger] row@[k] == d {
                    let k = choose|k: int| 0 <= k < i + 1 && #[trigger] row@[k] == d;
                    if k < i {
                        assert(before.contains(d));
                    }
                }
            }
        }
        i += 1;
    }
    proof {
        assert forall|d: u8|
            set@.contains(d) <==> exists|k: int|
                0 <= k < count && k < row@.len() && #[trigger] row@[k] == d by {
            if set@.contains(d) {
                let k = choose|k: int| 0 <= k < i && #[trigger] row@[k] == d;
                assert(0 <= k < count && k < row@.len() && row@[k] == d);
            }
            if exists|k: int| 0 <= k < count && k < row@.len() && #[trigger] row@[k] == d {
                let k = choose|k: int| 0 <= k < count && k < row@.len() && #[trigger] row@[k] == d;
                assert(0 <= k < i && row@[k] == d);
            }
        }
    }
    set
}

/// Nine rows that hold digits and empty cells only.
pub open spec fn is_rows(grid: Seq<Vec<u8>>) -> bool {
    &&& grid.len() == 9
    &&& forall|r: int, k: int|
        0 <= r < grid.len() && 0 <= k < grid[r]@.len() ==> #[trigger] grid[r]@[k] <= 9
}

/// The first three rows hold three digits each, no digit twice among the nine.
pub open spec fn boxed(grid: Seq<Vec<u8>>) -> bool {
    &&& grid[0]@.len() == 3
    &&& grid[1]@.len() == 3
    &&& grid[2]@.len() == 3
    &&& (grid[0]@ + grid[1]@ + grid[2]@).no_duplicates()
    &&& forall|k: int| 0 <= k < 9 ==> 1 <= #[trigger] (grid[0]@ + grid[1]@ + grid[2]@)[k] <= 9
}

/// Each of the first three rows holds something.
pub open spec fn started(grid: Seq<Vec<u8>>) -> bool {
    grid[0]@.len() >= 1 && grid[1]@.len() >= 1 && grid[2]@.len() >= 1
}

/// A grid with the first three rows and the first column filled at random.
pub(crate) fn prefill_solution() -> (r: Result<[u8; 81], GeneratorError>)
    ensures
        r matches Ok(grid) ==> forall|i: int| 0 <= i < 81 ==> grid@[i] <= 9,
        r matches Err(e) ==> e == GeneratorError::NoRandomBytes,
{
    let mut grid: Vec<Vec<u8>> = Vec::new();
    let mut r: usize = 0;
    while r < 9
        invariant
            r <= 9,
            grid@.len() == r,
            forall|i: int| 0 <= i < r ==> (#[trigger] grid@[i])@.len() == 0,
        decreases 9 - r,
    {
        grid.push(Vec::new());
        r += 1;
    }

    match fill_box_one(&mut grid) {
        Ok(_) => {},
        Err(e) => {
            return Err(e);
        },
    }
    match fill_box_two(&mut grid) {
        Ok(_) => {},
        Err(e) => {
            return Err(e);
        },
    }
    match fill_box_three(&mut grid) {
        Ok(_) => {},
        Err(e) => {
            return Err(e);
        },
    }
    match fill_remaining(&mut grid) {
        Ok(_) => {},
        Err(e) => {
            return Err(e);
        },
    }

    let mut output = [0u8;81];
    let mut i: usize = 0;
    let mut row: usize = 0;
    while row < 9
        invariant
            row <= 9,
            i <= 81,
            is_rows(grid@),
            forall|k: int| 0 <= k < 81 ==> output@[k] <= 9,
        decreases 9 - row,
    {
        let mut k: usize = 0;
        while k < grid[row].len() && i < 81
            invariant
                row < 9,
                i <= 81,
                k <= grid@[row as int]@.len(),
                is_rows(grid@),
                forall|k: int| 0 <= k < 81 ==> output@[k] <= 9,
            decreases grid@[row as int]@.len() - k,
        {
            let item = grid[row][k];
            assert(grid@[row as int]@[k as int] <= 9);
            output[i] = item;
            i += 1;
            k += 1;
        }
        row += 1;
    }
    Ok(output)
}

/// Adds a digit to a row.
fn place(grid: &mut Vec<Vec<u8>>, row: usize, digit: u8)
    requires
        is_rows(old(grid)@),
        row < 9,
        digit <= 9,
    ensures
        is_rows(final(grid)@),
        final(grid)@[row as int]@ == old(grid)@[row as int]@.push(digit),
        forall|r: int| 0 <= r < 9 && r != row ==> (#[trigger] final(grid)@[r])@ == old(grid)@[r]@,
{
    let ghost before = grid@;
    grid[row].push(digit);
    proof {
        assert forall|r: int, k: int|
            0 <= r < grid@.len() && 0 <= k < grid@[r]@.len() implies #[trigger] grid@[r]@[k]
            <= 9 by {
            if r != row || k < before[r]@.len() {
                assert(grid@[r]@[k] == before[r]@[k]);
            }
        }
    }
}

/// Fills the first box with the nine digits in random order.
fn fill_box_one(grid: &mut Vec<Vec<u8>>) -> (r: Result<(), GeneratorError>)
    requires
        is_rows(old(grid)@),
        forall|i: int| 0 <= i < 9 ==> (#[trigger] old(grid)@[i])@.len() == 0,
    ensures
        is_rows(final(grid)@),
        r is Ok ==> boxed(final(grid)@),
        r matches Err(e) ==> e == GeneratorError::NoRandomBytes,
{
    let all = digits();
    let mut choices = match shuffled_digits(&all, Ghost(Set::empty())) {
        Ok(iter) => iter,
        Err(e) => {
            return Err(e);
        },
    };
    let ghost mut placed: Seq<u8> = Seq::empty();
    let mut row: usize = 0;
    while row < 3
        invariant
            row <= 3,
            is_rows(grid@),
            choices.wf(),
            all_digits(choices.items()),
            all_avoid(choices.items(), Set::empty()),
            distinct_items(choices.items()),
            front_avoids(choices.items(), choices.left() as int, placed),
            choices.left() + placed.len() == 9,
            placed.len() == 3 * row,
            placed.no_duplicates(),
            forall|k: int| 0 <= k < placed.len() ==> 1 <= #[trigger] placed[k] <= 9,
            forall|r: int| 0 <= r < row ==> (#[trigger] grid@[r])@ == placed.subrange(3 * r, 3 * r + 3),
            forall|r: int| row <= r < 9 ==> (#[trigger] grid@[r])@.len() == 0,
        decreases 3 - row,
    {
        let mut k: usize = 0;
        while k < 3
            invariant
                k <= 3,
                row < 3,
                is_rows(grid@),
                choices.wf(),
                all_digits(choices.items()),
                all_avoid(choices.items(), Set::empty()),
                distinct_items(choices.items()),
                front_avoids(choices.items(), choices.left() as int, placed),
                choices.left() + placed.len() == 9,
                placed.len() == 3 * row + k,
                placed.no_duplicates(),
                forall|k: int| 0 <= k < placed.len() ==> 1 <= #[trigger] placed[k] <= 9,
                forall|r: int|
                    0 <= r < row ==> (#[trigger] grid@[r])@ == placed.subrange(3 * r, 3 * r + 3),
                grid@[row as int]@ == placed.subrange(3 * row, 3 * row + k),
                forall|r: int| row < r < 9 ==> (#[trigger] grid@[r])@.len() == 0,
            decreases 3 - k,
        {
            let ghost before = placed;
            let ghost rows = grid@;
            let digit = draw(&mut choices, Ghost(Set::empty()), Ghost(placed));
            place(grid, row, digit);
            proof {
                placed = before.push(digit);
                assert forall|i: int, j: int|
                    0 <= i < placed.len() && 0 <= j < placed.len() && i != j implies placed[i]
                    != placed[j] by {
                    if i < before.len() && j < before.len() {
                        assert(before[i] != before[j]);
                    } else if i < before.len() {
                        assert(before.contains(before[i]));
                    } else {
                        assert(before.contains(before[j]));
                    }
                }
                assert forall|r: int| 0 <= r < row implies (#[trigger] grid@[r])@
                    == placed.subrange(3 * r, 3 * r + 3) by {
                    assert(grid@[r]@ == rows[r]@);
                    assert(before.subrange(3 * r, 3 * r + 3) =~= placed.subrange(
                        3 * r,
                        3 * r + 3,
                    ));
                }
                assert(grid@[row as int]@ =~= placed.subrange(3 * row, 3 * row + k + 1));
                assert forall|r: int| row < r < 9 implies (#[trigger] grid@[r])@.len() == 0 by {
                    assert(grid@[r]@ == rows[r]@);
                }
            }
            k += 1;
        }
        row += 1;
    }
    proof {
        let joined = grid@[0]@ + grid@[1]@ + grid@[2]@;
        assert(joined =~= placed);
    }
    Ok(())
}

/// Whether one of two lists holds a digit.
pub proof fn lemma_concat_contains(x: Seq<u8>, y: Seq<u8>, d: u8)
    ensures
        (x + y).contains(d) <==> x.contains(d) || y.contains(d),
{
    let joined = x + y;
    if joined.contains(d) {
        let i = choose|i: int| 0 <= i < joined.len() && joined[i] == d;
        if i < x.len() {
            assert(x[i] == d);
        } else {
            assert(y[i - x.len()] == d);
        }
    }
    if x.contains(d) {
        let i = choose|i: int| 0 <= i < x.len() && x[i] == d;
        assert(joined[i] == d);
    }
    if y.contains(d) {
        let i = choose|i: int| 0 <= i < y.len() && y[i] == d;
        assert(joined[x.len() + i] == d);
    }
}

/// Two lists without a digit twice that share no digit join to a list
/// without a digit twice.
pub proof fn lemma_concat_distinct(x: Seq<u8>, y: Seq<u8>)
    requires
        x.no_duplicates(),
        y.no_duplicates(),
        forall|d: u8| !(x.contains(d) && y.contains(d)),
    ensures
        (x + y).no_duplicates(),
{
    let joined = x + y;
    assert forall|i: int, j: int|
        0 <= i < joined.len() && 0 <= j < joined.len() && i != j implies joined[i]
        != joined[j] by {
        if i < x.len() && j < x.len() {
            assert(x[i] != x[j]);
        } else if i >= x.len() && j >= x.len() {
            assert(y[i - x.len()] != y[j - x.len()]);
        } else if i < x.len() {
            assert(x.contains(x[i]));
            assert(y.contains(y[j - x.len()]));
        } else {
            assert(x.contains(x[j]));
            assert(y.contains(y[i - x.len()]));
        }
    }
}

/// A part of a list without a digit twice holds no digit twice.
pub proof fn lemma_parts_distinct(x: Seq<u8>, y: Seq<u8>)
    requires
        (x + y).no_duplicates(),
    ensures
        x.no_duplicates(),
        y.no_duplicates(),
        forall|d: u8| !(x.contains(d) && y.contains(d)),
{
    let joined = x + y;
    assert forall|i: int, j: int| 0 <= i < x.len() && 0 <= j < x.len() && i != j implies x[i]
        != x[j] by {
        assert(joined[i] == x[i] && joined[j] == x[j]);
    }
    assert forall|i: int, j: int| 0 <= i < y.len() && 0 <= j < y.len() && i != j implies y[i]
        != y[j] by {
        assert(joined[x.len() + i] == y[i] && joined[x.len() + j] == y[j]);
    }
    assert forall|d: u8| !(x.contains(d) && y.contains(d)) by {
        if x.contains(d) && y.contains(d) {
            let i = choose|i: int| 0 <= i < x.len() && x[i] == d;
            let j = choose|j: int| 0 <= j < y.len() && y[j] == d;
            assert(joined[i] == d && joined[x.len() + j] == d);
        }
    }
}

/// A list without a digit twice, all of its digits in a finite set, is no
/// longer than the set is large.
pub proof fn lemma_seq_within(x: Seq<u8>, s: Set<u8>)
    requires
        x.no_duplicates(),
        s.finite(),
        forall|d: u8| x.contains(d) ==> s.contains(d),
    ensures
        x.len() <= s.len(),
{
    x.unique_seq_to_set();
    assert forall|d: u8| x.to_set().contains(d) implies s.contains(d) by {
        assert(x.contains(d));
    }
    vstd::set_lib::lemma_len_subset(x.to_set(), s);
}

/// The digits that the three rows gained in the second box go together: no
/// row holds a digit twice, no two rows share a digit, and no row gained a
/// digit that it held in the first box.
pub open spec fn gains_ok(
    a0: Seq<u8>,
    a1: Seq<u8>,
    a2: Seq<u8>,
    r1: Set<u8>,
    r2: Set<u8>,
    r3: Set<u8>,
) -> bool {
    &&& a0.no_duplicates()
    &&& a1.no_duplicates()
    &&& a2.no_duplicates()
    &&& forall|d: u8| #[trigger] a0.contains(d) ==> 1 <= d <= 9 && !r1.contains(d) && !a1.contains(d)
        && !a2.contains(d)
    &&& forall|d: u8| #[trigger] a1.contains(d) ==> 1 <= d <= 9 && !r2.contains(d) && !a2.contains(d)
    &&& forall|d: u8| #[trigger] a2.contains(d) ==> 1 <= d <= 9 && !r3.contains(d)
}

/// The digits that a row gained after its first three entries.
pub open spec fn gained(row: Seq<u8>) -> Seq<u8> {
    row.subrange(3, row.len() as int)
}

/// What the second box is after it was filled: each of the first three rows
/// has six entries, none of them twice, its first three as before; the nine
/// entries of the second box are the nine digits, each once. The other rows
/// stay.
pub open spec fn second_box(before: Seq<Vec<u8>>, after: Seq<Vec<u8>>) -> bool {
    &&& forall|i: int| 3 <= i < 9 ==> (#[trigger] after[i])@ == before[i]@
    &&& forall|i: int|
        0 <= i < 3 ==> (#[trigger] after[i])@.len() == 6 && after[i]@.subrange(0, 3) == before[i]@
            && after[i]@.no_duplicates()
    &&& (gained(after[0]@) + gained(after[1]@) + gained(after[2]@)).no_duplicates()
    &&& forall|d: u8|
        1 <= d <= 9 ==> #[trigger] (gained(after[0]@) + gained(after[1]@) + gained(
            after[2]@,
        )).contains(d)
}

/// A fresh digit that a row may take keeps the gains of the rows together.
pub proof fn lemma_gain(
    a0: Seq<u8>,
    a1: Seq<u8>,
    a2: Seq<u8>,
    r1: Set<u8>,
    r2: Set<u8>,
    r3: Set<u8>,
    row: int,
    d: u8,
)
    requires
        gains_ok(a0, a1, a2, r1, r2, r3),
        0 <= row < 3,
        1 <= d <= 9,
        !a0.contains(d),
        !a1.contains(d),
        !a2.contains(d),
        row == 0 ==> !r1.contains(d),
        row == 1 ==> !r2.contains(d),
        row == 2 ==> !r3.contains(d),
    ensures
        row == 0 ==> gains_ok(a0.push(d), a1, a2, r1, r2, r3),
        row == 1 ==> gains_ok(a0, a1.push(d), a2, r1, r2, r3),
        row == 2 ==> gains_ok(a0, a1, a2.push(d), r1, r2, r3),
{
    let grown = if row == 0 {
        a0
    } else if row == 1 {
        a1
    } else {
        a2
    };
    let more = grown.push(d);
    assert forall|i: int, j: int| 0 <= i < more.len() && 0 <= j < more.len() && i != j implies more[i]
        != more[j] by {
        if i < grown.len() && j < grown.len() {
            assert(grown[i] != grown[j]);
        } else if i < grown.len() {
            assert(grown.contains(grown[i]));
        } else {
            assert(grown.contains(grown[j]));
        }
    }
    assert forall|e: u8| more.contains(e) <==> grown.contains(e) || e == d by {
        lemma_push_contains(grown, d, e);
    }
    if row == 0 {
        assert(gains_ok(a0.push(d), a1, a2, r1, r2, r3));
    } else if row == 1 {
        assert(gains_ok(a0, a1.push(d), a2, r1, r2, r3));
    } else {
        assert(gains_ok(a0, a1, a2.push(d), r1, r2, r3));
    }
}

/// Fills the second box: its first row avoids the first row of the first
/// box, and the digits of the other rows of the first box change rows.
fn fill_box_two(grid: &mut Vec<Vec<u8>>) -> (r: Result<(), GeneratorError>)
    requires
        is_rows(old(grid)@),
        boxed(old(grid)@),
    ensures
        is_rows(final(grid)@),
        r is Ok ==> started(final(grid)@),
        r is Ok ==> second_box(old(grid)@, final(grid)@),
        r matches Err(e) ==> e == GeneratorError::NoRandomBytes,
{
    broadcast use vstd::std_specs::hash::group_hash_axioms;

    let ghost before = grid@;
    let ghost b0 = before[0]@;
    let ghost b1 = before[1]@;
    let ghost b2 = before[2]@;
    let ghost joined = b0 + b1 + b2;
    let box1_row1 = first_of(&grid[0], 3);
    let box1_row2 = first_of(&grid[1], 3);
    let box1_row3 = first_of(&grid[2], 3);
    let mut used: HashSet<u8> = HashSet::new();
    let ghost r1 = box1_row1@;
    let ghost r2 = box1_row2@;
    let ghost r3 = box1_row3@;
    let ghost first = b0[0];
    let ghost mut a0: Seq<u8> = Seq::empty();
    let ghost mut a1: Seq<u8> = Seq::empty();
    let ghost mut a2: Seq<u8> = Seq::empty();
    proof {
        assert(joined[0] == first);
        assert(1 <= first <= 9);
        assert(r1.contains(first)) by {
            assert(0 <= 0 < 3 && b0[0] == first);
        }
        assert forall|d: u8| r1.contains(d) <==> b0.contains(d) by {
            if r1.contains(d) {
                let k = choose|k: int| 0 <= k < 3 && k < b0.len() && #[trigger] b0[k] == d;
                assert(b0[k] == d);
            }
            if b0.contains(d) {
                let k = choose|k: int| 0 <= k < b0.len() && b0[k] == d;
                assert(0 <= k < 3 && k < b0.len() && b0[k] == d);
            }
        }
        assert forall|d: u8| r2.contains(d) <==> b1.contains(d) by {
            if r2.contains(d) {
                let k = choose|k: int| 0 <= k < 3 && k < b1.len() && #[trigger] b1[k] == d;
                assert(b1[k] == d);
            }
            if b1.contains(d) {
                let k = choose|k: int| 0 <= k < b1.len() && b1[k] == d;
                assert(0 <= k < 3 && k < b1.len() && b1[k] == d);
            }
        }
        assert forall|d: u8| r3.contains(d) <==> b2.contains(d) by {
            if r3.contains(d) {
                let k = choose|k: int| 0 <= k < 3 && k < b2.len() && #[trigger] b2[k] == d;
                assert(b2[k] == d);
            }
            if b2.contains(d) {
                let k = choose|k: int| 0 <= k < b2.len() && b2[k] == d;
                assert(0 <= k < 3 && k < b2.len() && b2[k] == d);
            }
        }
        // The three rows of the first box hold digits, none of them twice,
        // and share no digit.
        lemma_parts_distinct(b0 + b1, b2);
        lemma_parts_distinct(b0, b1);
        assert forall|d: u8| !((b0 + b1).contains(d) && b2.contains(d)) by {}
        assert forall|d: u8| b0.contains(d) || b1.contains(d) || b2.contains(d) implies 1 <= d
            <= 9 by {
            lemma_concat_contains(b0 + b1, b2, d);
            lemma_concat_contains(b0, b1, d);
            let k = choose|k: int| 0 <= k < joined.len() && joined[k] == d;
            assert(1 <= joined[k] <= 9);
        }
        assert forall|d: u8| !(r1.contains(d) && r2.contains(d)) && !(r1.contains(d)
            && r3.contains(d)) && !(r2.contains(d) && r3.contains(d)) by {
            lemma_concat_contains(b0, b1, d);
        }
        assert(gains_ok(a0, a1, a2, r1, r2, r3));
        assert(b0 + a0 =~= b0);
        assert(b1 + a1 =~= b1);
        assert(b2 + a2 =~= b2);
    }

    // The first row of the second box takes none of the first three digits
    // of the row.
    let open = digits_without(&box1_row1);
    let mut choices = match shuffled_digits(&open, Ghost(r1)) {
        Ok(iter) => iter,
        Err(e) => {
            return Err(e);
        },
    };
    let mut k: usize = 0;
    while k < 3
        invariant
            k <= 3,
            is_rows(grid@),
            is_rows(before),
            grid@[0]@ == b0 + a0,
            grid@[1]@ == b1 + a1,
            grid@[2]@ == b2 + a2,
            forall|i: int| 3 <= i < 9 ==> (#[trigger] grid@[i])@ == before[i]@,
            a0.len() == k,
            a1.len() == 0,
            a2.len() == 0,
            gains_ok(a0, a1, a2, r1, r2, r3),
            choices.wf(),
            all_digits(choices.items()),
            all_avoid(choices.items(), r1),
            distinct_items(choices.items()),
            front_avoids(choices.items(), choices.left() as int, a0),
            choices.left() + k >= 6,
            used@.finite(),
            used@.len() == k,
            forall|d: u8| used@.contains(d) <==> a0.contains(d),
        decreases 3 - k,
    {
        let ghost rows = grid@;
        let choice = draw(&mut choices, Ghost(r1), Ghost(a0));
        place(grid, 0, choice);
        used.insert(choice);
        proof {
            lemma_gain(a0, a1, a2, r1, r2, r3, 0, choice);
            assert forall|d: u8| used@.contains(d) <==> a0.push(choice).contains(d) by {
                lemma_push_contains(a0, choice, d);
            }
            a0 = a0.push(choice);
            assert(grid@[0]@ =~= b0 + a0);
            assert(grid@[1]@ == rows[1]@);
            assert(grid@[2]@ == rows[2]@);
            assert forall|i: int| 3 <= i < 9 implies (#[trigger] grid@[i])@ == before[i]@ by {
                assert(grid@[i]@ == rows[i]@);
            }
        }
        k += 1;
    }

    // Of the digits that are left, those of the second and third row of the
    // first box come first: each goes to the other of the two rows. A digit
    // of neither row waits.
    let ghost used_first = used@;
    let open = digits_without(&used);
    let ghost list = open@.to_set();
    let ghost mut drawn: Seq<u8> = Seq::empty();
    let mut choices = match shuffled_digits(&open, Ghost(Set::empty())) {
        Ok(iter) => iter,
        Err(e) => {
            return Err(e);
        },
    };
    loop
        invariant_except_break
            pass_ok(choices.items(), choices.left() as int, drawn, list),
        invariant
            is_rows(grid@),
            is_rows(before),
            grid@[0]@ == b0 + a0,
            grid@[1]@ == b1 + a1,
            grid@[2]@ == b2 + a2,
            forall|i: int| 3 <= i < 9 ==> (#[trigger] grid@[i])@ == before[i]@,
            a0.len() == 3,
            gains_ok(a0, a1, a2, r1, r2, r3),
            choices.wf(),
            all_digits(choices.items()),
            used@.finite(),
            used@.len() == 3 + a1.len() + a2.len(),
            forall|d: u8| used@.contains(d) <==> a0.contains(d) || a1.contains(d) || a2.contains(d),
            forall|d: u8| used_first.contains(d) <==> a0.contains(d),
            forall|d: u8| list.contains(d) <==> 1 <= d <= 9 && !used_first.contains(d),
            forall|d: u8| a1.contains(d) ==> r3.contains(d) && drawn.contains(d),
            forall|d: u8| a2.contains(d) ==> r2.contains(d) && drawn.contains(d),
            forall|d: u8|
                drawn.contains(d) && (r2.contains(d) || r3.contains(d)) ==> used@.contains(d),
            forall|d: u8| #[trigger] r2.contains(d) ==> !r3.contains(d),
            r2 == box1_row2@,
            r3 == box1_row3@,
        ensures
            is_rows(grid@),
            grid@[0]@ == b0 + a0,
            grid@[1]@ == b1 + a1,
            grid@[2]@ == b2 + a2,
            forall|i: int| 3 <= i < 9 ==> (#[trigger] grid@[i])@ == before[i]@,
            a0.len() == 3,
            gains_ok(a0, a1, a2, r1, r2, r3),
            used@.finite(),
            used@.len() == 3 + a1.len() + a2.len(),
            forall|d: u8| used@.contains(d) <==> a0.contains(d) || a1.contains(d) || a2.contains(d),
            forall|d: u8| a1.contains(d) ==> r3.contains(d),
            forall|d: u8| a2.contains(d) ==> r2.contains(d),
            forall|d: u8| list.contains(d) && (r2.contains(d) || r3.contains(d)) ==> used@.contains(d),
        decreases choices.left(),
    {
        let ghost earlier = choices;
        let ghost rows = grid@;
        let choice = match next_digit(&mut choices) {
            Ok(Some(choice)) => choice,
            Ok(None) => {
                proof {
                    lemma_pass_end(earlier.items(), drawn, list);
                }
                break ;
            },
            Err(e) => {
                return Err(e);
            },
        };
        proof {
            lemma_pass_step(
                earlier.items(),
                earlier.left() as int,
                drawn,
                list,
                earlier.picked(),
            );
            assert(list.contains(choice));
            assert(!a0.contains(choice));
            assert(!a1.contains(choice));
            assert(!a2.contains(choice));
        }
        let ghost earlier_drawn = drawn;
        proof {
            drawn = drawn.push(choice);
            assert forall|d: u8| drawn.contains(d) <==> earlier_drawn.contains(d) || d == choice by {
                lemma_push_contains(earlier_drawn, choice, d);
            }
        }
        if box1_row2.contains(&choice) {
            place(grid, 2, choice);
            used.insert(choice);
            proof {
                assert(r2.contains(choice));
                assert(!r3.contains(choice));
                lemma_gain(a0, a1, a2, r1, r2, r3, 2, choice);
                assert forall|d: u8| a2.push(choice).contains(d) <==> a2.contains(d) || d
                    == choice by {
                    lemma_push_contains(a2, choice, d);
                }
                a2 = a2.push(choice);
                assert(grid@[2]@ =~= b2 + a2);
                assert(grid@[0]@ == rows[0]@);
                assert(grid@[1]@ == rows[1]@);
                assert forall|i: int| 3 <= i < 9 implies (#[trigger] grid@[i])@ == before[i]@ by {
                    assert(grid@[i]@ == rows[i]@);
                }
            }
        } else if box1_row3.contains(&choice) {
            place(grid, 1, choice);
            used.insert(choice);
            proof {
                assert(!r2.contains(choice));
                assert(r3.contains(choice));
                lemma_gain(a0, a1, a2, r1, r2, r3, 1, choice);
                assert forall|d: u8| a1.push(choice).contains(d) <==> a1.contains(d) || d
                    == choice by {
                    lemma_push_contains(a1, choice, d);
                }
                a1 = a1.push(choice);
                assert(grid@[1]@ =~= b1 + a1);
                assert(grid@[0]@ == rows[0]@);
                assert(grid@[2]@ == rows[2]@);
                assert forall|i: int| 3 <= i < 9 implies (#[trigger] grid@[i])@ == before[i]@ by {
                    assert(grid@[i]@ == rows[i]@);
                }
            }
        }
    }

    // The rest of the second box takes the digits that waited: those of the
    // first row of the first box.
    let ghost used_second = used@;
    proof {
        assert forall|d: u8| used@.contains(d) implies 1 <= d <= 9 by {
            if a0.contains(d) {
            } else if a1.contains(d) {
            } else {
                assert(a2.contains(d));
            }
        }
    }
    let open = digits_without(&used);
    let ghost rest = open@.to_set();
    let ghost mut taken_last: Seq<u8> = Seq::empty();
    proof {
        assert(!used@.contains(first));
        assert(open@.contains(first));
        lemma_seq_within(a1, r3);
        lemma_seq_within(a2, r2);
        assert forall|d: u8| r2.contains(d) || r3.contains(d) implies used_second.contains(d) by {
            if !used_first.contains(d) {
                assert(list.contains(d));
            }
        }
    }
    let mut choices = match shuffled_digits(&open, Ghost(Set::empty())) {
        Ok(iter) => iter,
        Err(e) => {
            return Err(e);
        },
    };
    loop
        invariant_except_break
            pass_ok(choices.items(), choices.left() as int, taken_last, rest),
            a1.len() + a2.len() + choices.left() == 6,
        invariant
            is_rows(grid@),
            is_rows(before),
            grid@[0]@ == b0 + a0,
            grid@[1]@ == b1 + a1,
            grid@[2]@ == b2 + a2,
            forall|i: int| 3 <= i < 9 ==> (#[trigger] grid@[i])@ == before[i]@,
            a0.len() == 3,
            a1.len() <= 3,
            a2.len() <= 3,
            b1.len() == 3,
            b2.len() == 3,
            gains_ok(a0, a1, a2, r1, r2, r3),
            choices.wf(),
            all_digits(choices.items()),
            forall|d: u8| rest.contains(d) <==> 1 <= d <= 9 && !used_second.contains(d),
            forall|d: u8| r2.contains(d) || r3.contains(d) ==> used_second.contains(d),
            forall|d: u8|
                a0.contains(d) || a1.contains(d) || a2.contains(d) ==> used_second.contains(d)
                    || taken_last.contains(d),
            forall|d: u8|
                used_second.contains(d) ==> a0.contains(d) || a1.contains(d) || a2.contains(d),
            forall|d: u8| taken_last.contains(d) ==> a1.contains(d) || a2.contains(d),
        ensures
            is_rows(grid@),
            grid@[0]@ == b0 + a0,
            grid@[1]@ == b1 + a1,
            grid@[2]@ == b2 + a2,
            forall|i: int| 3 <= i < 9 ==> (#[trigger] grid@[i])@ == before[i]@,
            a0.len() == 3,
            a1.len() == 3,
            a2.len() == 3,
            gains_ok(a0, a1, a2, r1, r2, r3),
            forall|d: u8| 1 <= d <= 9 ==> a0.contains(d) || a1.contains(d) || a2.contains(d),
        decreases choices.left(),
    {
        let ghost earlier = choices;
        let ghost rows = grid@;
        let choice = match next_digit(&mut choices) {
            Ok(Some(choice)) => choice,
            Ok(None) => {
                proof {
                    lemma_pass_end(earlier.items(), taken_last, rest);
                    assert forall|d: u8| 1 <= d <= 9 implies a0.contains(d) || a1.contains(d)
                        || a2.contains(d) by {
                        if !used_second.contains(d) {
                            assert(rest.contains(d));
                            assert(taken_last.contains(d));
                        }
                    }
                }
                break ;
            },
            Err(e) => {
                return Err(e);
            },
        };
        proof {
            lemma_pass_step(
                earlier.items(),
                earlier.left() as int,
                taken_last,
                rest,
                earlier.picked(),
            );
            assert(rest.contains(choice));
            assert(!used_second.contains(choice));
            assert(!a0.contains(choice));
            assert(!a1.contains(choice));
            assert(!a2.contains(choice));
            assert(!r2.contains(choice));
            assert(!r3.contains(choice));
        }
        let ghost earlier_taken = taken_last;
        proof {
            taken_last = taken_last.push(choice);
            assert forall|d: u8|
                taken_last.contains(d) <==> earlier_taken.contains(d) || d == choice by {
                lemma_push_contains(earlier_taken, choice, d);
            }
        }
        if grid[1].len() < grid[2].len() {
            place(grid, 1, choice);
            proof {
                lemma_gain(a0, a1, a2, r1, r2, r3, 1, choice);
                assert forall|d: u8| a1.push(choice).contains(d) <==> a1.contains(d) || d
                    == choice by {
                    lemma_push_contains(a1, choice, d);
                }
                a1 = a1.push(choice);
                assert(grid@[1]@ =~= b1 + a1);
                assert(grid@[0]@ == rows[0]@);
                assert(grid@[2]@ == rows[2]@);
                assert forall|i: int| 3 <= i < 9 implies (#[trigger] grid@[i])@ == before[i]@ by {
                    assert(grid@[i]@ == rows[i]@);
                }
            }
        } else {
            place(grid, 2, choice);
            proof {
                lemma_gain(a0, a1, a2, r1, r2, r3, 2, choice);
                assert forall|d: u8| a2.push(choice).contains(d) <==> a2.contains(d) || d
                    == choice by {
                    lemma_push_contains(a2, choice, d);
                }
                a2 = a2.push(choice);
                assert(grid@[2]@ =~= b2 + a2);
                assert(grid@[0]@ == rows[0]@);
                assert(grid@[1]@ == rows[1]@);
                assert forall|i: int| 3 <= i < 9 implies (#[trigger] grid@[i])@ == before[i]@ by {
                    assert(grid@[i]@ == rows[i]@);
                }
            }
        }
    }
    proof {
        let after = grid@;
        assert(gained(after[0]@) =~= a0);
        assert(gained(after[1]@) =~= a1);
        assert(gained(after[2]@) =~= a2);
        assert(after[0]@.subrange(0, 3) =~= b0);
        assert(after[1]@.subrange(0, 3) =~= b1);
        assert(after[2]@.subrange(0, 3) =~= b2);
        lemma_concat_distinct(b0, a0);
        lemma_concat_distinct(b1, a1);
        lemma_concat_distinct(b2, a2);
        lemma_concat_distinct(a0, a1);
        assert forall|d: u8| !((a0 + a1).contains(d) && a2.contains(d)) by {
            lemma_concat_contains(a0, a1, d);
        }
        lemma_concat_distinct(a0 + a1, a2);
        assert forall|d: u8| 1 <= d <= 9 implies #[trigger] (a0 + a1 + a2).contains(d) by {
            lemma_concat_contains(a0 + a1, a2, d);
            lemma_concat_contains(a0, a1, d);
        }
        assert(second_box(before, after));
    }
    Ok(())
}

/// The digits among the first six entries of a row.
pub open spec fn first_six(row: Seq<u8>) -> Set<u8> {
    Set::new(|d: u8| exists|k: int| 0 <= k < 6 && k < row.len() && #[trigger] row[k] == d)
}

/// A row that gained the digits missing among its first six entries, each once.
pub open spec fn row_completed(before: Seq<u8>, after: Seq<u8>) -> bool {
    &&& before.len() <= after.len()
    &&& after.subrange(0, before.len() as int) == before
    &&& after.subrange(before.len() as int, after.len() as int).no_duplicates()
    &&& forall|d: u8|
        after.subrange(before.len() as int, after.len() as int).contains(d) <==> 1 <= d <= 9
            && !first_six(before).contains(d)
}

/// Fills the third box: each row takes the digits that it does not hold yet.
fn fill_box_three(grid: &mut Vec<Vec<u8>>) -> (r: Result<(), GeneratorError>)
    requires
        is_rows(old(grid)@),
        started(old(grid)@),
    ensures
        is_rows(final(grid)@),
        r is Ok ==> started(final(grid)@),
        r is Ok ==> forall|i: int|
            0 <= i < 3 ==> row_completed(old(grid)@[i]@, (#[trigger] final(grid)@[i])@),
        r is Ok ==> forall|i: int| 3 <= i < 9 ==> (#[trigger] final(grid)@[i])@ == old(grid)@[i]@,
        r matches Err(e) ==> e == GeneratorError::NoRandomBytes,
{
    let ghost before = grid@;
    let mut row: usize = 0;
    while row < 3
        invariant
            row <= 3,
            is_rows(grid@),
            started(grid@),
            is_rows(before),
            forall|i: int| 0 <= i < row ==> row_completed(before[i]@, (#[trigger] grid@[i])@),
            forall|i: int| row <= i < 9 ==> (#[trigger] grid@[i])@ == before[i]@,
        decreases 3 - row,
    {
        let held = first_of(&grid[row], 6);
        let open = digits_without(&held);
        let ghost start = grid@[row as int]@;
        let ghost list = open@.to_set();
        let ghost mut drawn: Seq<u8> = Seq::empty();
        let mut choices = match shuffled_digits(&open, Ghost(Set::empty())) {
            Ok(iter) => iter,
            Err(e) => {
                return Err(e);
            },
        };
        proof {
            assert(start + drawn =~= start);
        }
        loop
            invariant_except_break
                pass_ok(choices.items(), choices.left() as int, drawn, list),
            invariant
                row < 3,
                is_rows(grid@),
                is_rows(before),
                started(grid@),
                choices.wf(),
                all_digits(choices.items()),
                grid@[row as int]@ == start + drawn,
                start == before[row as int]@,
                forall|i: int| 0 <= i < row ==> row_completed(before[i]@, (#[trigger] grid@[i])@),
                forall|i: int| row < i < 9 ==> (#[trigger] grid@[i])@ == before[i]@,
            ensures
                is_rows(grid@),
                started(grid@),
                grid@[row as int]@ == start + drawn,
                start == before[row as int]@,
                forall|d: u8| drawn.contains(d) <==> list.contains(d),
                drawn.no_duplicates(),
                forall|i: int| 0 <= i < row ==> row_completed(before[i]@, (#[trigger] grid@[i])@),
                forall|i: int| row < i < 9 ==> (#[trigger] grid@[i])@ == before[i]@,
            decreases choices.left(),
        {
            let ghost earlier = choices;
            let ghost rows = grid@;
            let choice = match next_digit(&mut choices) {
                Ok(Some(choice)) => choice,
                Ok(None) => {
                    proof {
                        lemma_pass_end(earlier.items(), drawn, list);
                    }
                    break ;
                },
                Err(e) => {
                    return Err(e);
                },
            };
            proof {
                lemma_pass_step(
                    earlier.items(),
                    earlier.left() as int,
                    drawn,
                    list,
                    earlier.picked(),
                );
            }
            place(grid, row, choice);
            proof {
                drawn = drawn.push(choice);
                assert(grid@[row as int]@ =~= start + drawn);
                assert forall|i: int| 0 <= i < row implies row_completed(
                    before[i]@,
                    (#[trigger] grid@[i])@,
                ) by {
                    assert(grid@[i]@ == rows[i]@);
                }
                assert forall|i: int| row < i < 9 implies (#[trigger] grid@[i])@ == before[i]@ by {
                    assert(grid@[i]@ == rows[i]@);
                }
            }
        }
        proof {
            let after = grid@[row as int]@;
            assert(after.subrange(0, start.len() as int) =~= start);
            assert(after.subrange(start.len() as int, after.len() as int) =~= drawn);
            assert forall|d: u8| drawn.contains(d) <==> 1 <= d <= 9 && !first_six(start).contains(
                d,
            ) by {
                if list.contains(d) {
                    let i = choose|i: int| 0 <= i < open@.len() && open@[i] == d;
                    assert(1 <= open@[i] <= 9 && !held@.contains(open@[i]));
                }
                if 1 <= d <= 9 && !held@.contains(d) {
                    assert(open@.contains(d));
                }
            }
            assert(row_completed(start, after));
        }
        row += 1;
    }
    Ok(())
}

/// The digit that a row of the last six was started with.
pub open spec fn head_of(before: Seq<Vec<u8>>, after: Seq<Vec<u8>>, row: int) -> u8 {
    after[row]@[before[row]@.len() as int]
}

/// Eight empty cells.
pub open spec fn eight_empty() -> Seq<u8> {
    Seq::new(8, |k: int| 0u8)
}

/// What the last six rows gain: a digit from 1 to 9 and eight empty cells
/// each. None of the digits stands at the start of one of the first three
/// rows, and no two of them are the same. The first three rows stay.
pub open spec fn headed(before: Seq<Vec<u8>>, after: Seq<Vec<u8>>) -> bool {
    &&& forall|i: int| 0 <= i < 3 ==> (#[trigger] after[i])@ == before[i]@
    &&& forall|i: int|
        3 <= i < 9 ==> (#[trigger] after[i])@ == before[i]@.push(head_of(before, after, i))
            + eight_empty() && 1 <= head_of(before, after, i) <= 9
    &&& forall|i: int, t: int|
        3 <= i < 9 && 0 <= t < 3 ==> #[trigger] head_of(before, after, i) != (
        #[trigger] before[t])@[0]
    &&& forall|i: int, j: int|
        3 <= i < j < 9 ==> #[trigger] head_of(before, after, i) != #[trigger] head_of(
            before,
            after,
            j,
        )
}

/// Starts each of the last six rows with a digit that the first column does
/// not hold yet, and leaves the rest of the row empty.
fn fill_remaining(grid: &mut Vec<Vec<u8>>) -> (r: Result<(), GeneratorError>)
    requires
        is_rows(old(grid)@),
        started(old(grid)@),
    ensures
        is_rows(final(grid)@),
        r is Ok ==> headed(old(grid)@, final(grid)@),
        r matches Err(e) ==> e == GeneratorError::NoRandomBytes,
{
    broadcast use vstd::std_specs::hash::group_hash_axioms;

    let ghost before = grid@;
    let mut box1_col1: HashSet<u8> = HashSet::new();
    let mut top: usize = 0;
    while top < 3
        invariant
            top <= 3,
            grid@ == before,
            is_rows(grid@),
            started(grid@),
            box1_col1@.finite(),
            box1_col1@.len() <= top,
            forall|t: int| 0 <= t < top ==> box1_col1@.contains((#[trigger] before[t])@[0]),
        decreases 3 - top,
    {
        box1_col1.insert(grid[top][0]);
        top += 1;
    }
    let open = digits_without(&box1_col1);
    let mut choices = match shuffled_digits(&open, Ghost(box1_col1@)) {
        Ok(iter) => iter,
        Err(e) => {
            return Err(e);
        },
    };

    let ghost mut drawn: Seq<u8> = Seq::empty();
    let mut row: usize = 3;
    while row < 9
        invariant
            3 <= row <= 9,
            is_rows(grid@),
            is_rows(before),
            choices.wf(),
            all_digits(choices.items()),
            all_avoid(choices.items(), box1_col1@),
            distinct_items(choices.items()),
            front_avoids(choices.items(), choices.left() as int, drawn),
            choices.left() + row >= 9,
            drawn.len() == row - 3,
            forall|t: int| 0 <= t < 3 ==> box1_col1@.contains((#[trigger] before[t])@[0]),
            forall|i: int| 0 <= i < 3 ==> (#[trigger] grid@[i])@ == before[i]@,
            forall|i: int| row <= i < 9 ==> (#[trigger] grid@[i])@ == before[i]@,
            forall|i: int|
                3 <= i < row ==> (#[trigger] grid@[i])@ == before[i]@.push(drawn[i - 3])
                    + eight_empty() && 1 <= drawn[i - 3] <= 9 && !box1_col1@.contains(
                    drawn[i - 3],
                ),
            drawn.no_duplicates(),
        decreases 9 - row,
    {
        let ghost earlier = drawn;
        let ghost rows = grid@;
        let digit = draw(&mut choices, Ghost(box1_col1@), Ghost(drawn));
        place(grid, row, digit);
        let ghost started_row = grid@[row as int]@;
        let mut k: usize = 1;
        proof {
            assert(started_row + Seq::new(0, |i: int| 0u8) =~= started_row);
        }
        while k < 9
            invariant
                1 <= k <= 9,
                row < 9,
                is_rows(grid@),
                grid@[row as int]@ == started_row + Seq::new((k - 1) as nat, |i: int| 0u8),
                forall|i: int| 0 <= i < 9 && i != row ==> (#[trigger] grid@[i])@ == rows[i]@,
            decreases 9 - k,
        {
            let ghost inner = grid@;
            place(grid, row, 0);
            proof {
                assert(grid@[row as int]@ =~= started_row + Seq::new(k as nat, |i: int| 0u8));
                assert forall|i: int| 0 <= i < 9 && i != row implies (#[trigger] grid@[i])@
                    == rows[i]@ by {
                    assert(grid@[i]@ == inner[i]@);
                }
            }
            k += 1;
        }
        proof {
            drawn = earlier.push(digit);
            assert forall|i: int, j: int|
                0 <= i < drawn.len() && 0 <= j < drawn.len() && i != j implies drawn[i]
                != drawn[j] by {
                if i < earlier.len() && j < earlier.len() {
                    assert(earlier[i] != earlier[j]);
                } else if i < earlier.len() {
                    assert(earlier.contains(earlier[i]));
                } else {
                    assert(earlier.contains(earlier[j]));
                }
            }
            assert(Seq::new(8, |i: int| 0u8) =~= eight_empty());
            assert forall|i: int| 3 <= i < row + 1 implies (#[trigger] grid@[i])@
                == before[i]@.push(drawn[i - 3]) + eight_empty() && 1 <= drawn[i - 3] <= 9
                && !box1_col1@.contains(drawn[i - 3]) by {
                if i < row {
                    assert(grid@[i]@ == rows[i]@);
                    assert(drawn[i - 3] == earlier[i - 3]);
                } else {
                    assert(started_row == before[i]@.push(digit));
                }
            }
            assert forall|i: int| 0 <= i < 3 implies (#[trigger] grid@[i])@ == before[i]@ by {
                assert(grid@[i]@ == rows[i]@);
            }
            assert forall|i: int| row + 1 <= i < 9 implies (#[trigger] grid@[i])@
                == before[i]@ by {
                assert(grid@[i]@ == rows[i]@);
            }
        }
        row += 1;
    }
    proof {
        let after = grid@;
        assert forall|i: int| 3 <= i < 9 implies head_of(before, after, i) == drawn[i - 3] by {
            let joined = before[i]@.push(drawn[i - 3]) + eight_empty();
            assert(after[i]@ == joined);
            assert(joined[before[i]@.len() as int] == drawn[i - 3]);
        }
        assert forall|i: int, j: int| 3 <= i < j < 9 implies #[trigger] head_of(before, after, i)
            != #[trigger] head_of(before, after, j) by {
            assert(drawn[i - 3] != drawn[j - 3]);
        }
        assert(headed(before, after));
    }
    Ok(())
}

} // verus!
