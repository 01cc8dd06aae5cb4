use crate::block::{SudokuBlock, SudokuBlockStatus};
use crate::index::BlockIndex;
use crate::numbers::{SudokuNumber, SudokuNumbers};
use vstd::prelude::*;

verus! {

/// The numbers that the blocks hold, given or resolved.
pub open spec fn placed_in(blocks: Seq<SudokuBlock>) -> Set<SudokuNumber> {
    Set::new(
        |number: SudokuNumber|
            exists|k: int|
                0 <= k < blocks.len() && (#[trigger] blocks[k])@.status.placed() == Some(number),
    )
}

/// The numbers that at least one of the blocks lists as possible.
pub open spec fn possible_in(blocks: Seq<SudokuBlock>) -> Set<SudokuNumber> {
    Set::new(
        |number: SudokuNumber|
            exists|k: int|
                0 <= k < blocks.len() && (#[trigger] blocks[k])@.status.possible().contains(number),
    )
}

/// The indexes of the blocks that hold `number`, in the order of the
/// blocks, but for the block at `ignore`.
pub open spec fn similar_in(
    number: SudokuNumber,
    blocks: Seq<SudokuBlock>,
    ignore: Option<BlockIndex>,
) -> Seq<BlockIndex>
    decreases blocks.len(),
{
    if blocks.len() == 0 {
        Seq::empty()
    } else {
        let before = similar_in(number, blocks.drop_last(), ignore);
        let last = blocks.last()@;
        if last.status.placed() == Some(number) && ignore != Some(last.index) {
            before.push(last.index)
        } else {
            before
        }
    }
}

/// For every number that one of the blocks holds, in ascending order, the
/// number and the indexes of the blocks that hold it.
pub open spec fn mistakes_upto(blocks: Seq<SudokuBlock>, bound: int) -> Seq<
    (SudokuNumber, Seq<BlockIndex>),
>
    decreases bound,
{
    if bound <= 0 {
        Seq::empty()
    } else {
        let before = mistakes_upto(blocks, bound - 1);
        let number = SudokuNumber::of(bound);
        let found = similar_in(number, blocks, None);
        if found.len() > 0 {
            before.push((number, found))
        } else {
            before
        }
    }
}

/// Groups the blocks that hold a number by that number: one entry for each
/// number that is held, in ascending order, with the indexes of its blocks.
pub fn find_mistake_in_container(blocks: &[SudokuBlock]) -> (counts: Vec<
    (SudokuNumber, Vec<BlockIndex>),
>)
    ensures
        counts.len() == mistakes_upto(blocks@, 9).len(),
        forall|k: int|
            0 <= k < counts.len() ==> (#[trigger] counts[k]).0 == mistakes_upto(blocks@, 9)[k].0
                && counts[k].1@ == mistakes_upto(blocks@, 9)[k].1,
{
    let mut counts: Vec<(SudokuNumber, Vec<BlockIndex>)> = Vec::new();
    let mut index: usize = 0;
    while index < 9
        invariant
            index <= 9,
            counts.len() == mistakes_upto(blocks@, index as int).len(),
            forall|k: int|
                0 <= k < counts.len() ==> (#[trigger] counts[k]).0 == mistakes_upto(
                    blocks@,
                    index as int,
                )[k].0 && counts[k].1@ == mistakes_upto(blocks@, index as int)[k].1,
        decreases 9 - index,
    {
        let number = SudokuNumber::at(index);
        let found = find_similar_in_container(number, blocks, None);
        if found.len() > 0 {
            counts.push((number, found));
        }
        index += 1;
    }
    counts
}

/// The indexes of the blocks that hold `number`, in the order of the
/// blocks; the block at `ignore_index` is passed over.
pub fn find_similar_in_container(
    number: SudokuNumber,
    blocks: &[SudokuBlock],
    ignore_index: Option<&BlockIndex>,
) -> (counts: Vec<BlockIndex>)
    ensures
        counts@ == similar_in(
            number,
            blocks@,
            match ignore_index {
                Some(index) => Some(*index),
                None => None,
            },
        ),
{
    let ghost ignore = match ignore_index {
        Some(index) => Some(*index),
        None => None,
    };
    let mut counts: Vec<BlockIndex> = Vec::new();
    let mut k: usize = 0;
    while k < blocks.len()
        invariant
            k <= blocks.len(),
            ignore == match ignore_index {
                Some(index) => Some(*index),
                None => None,
            },
            counts@ == similar_in(number, blocks@.take(k as int), ignore),
        decreases blocks.len() - k,
    {
        let block = &blocks[k];
        proof {
            assert(blocks@.take(k + 1).drop_last() =~= blocks@.take(k as int));
            assert(blocks@.take(k + 1).last() == blocks@[k as int]);
        }
        let ignored = match ignore_index {
            Some(ignore) => *block.index() == *ignore,
            None => false,
        };
        let found = match block.status().placed() {
            Some(found_number) => found_number == number,
            None => false,
        };
        if found && !ignored {
            counts.push(*block.index());
        }
        k += 1;
    }
    proof {
        assert(blocks@.take(blocks.len() as int) =~= blocks@);
    }
    counts
}

/// The numbers that the blocks hold, given or resolved.
pub fn get_numbers(blocks: &[SudokuBlock]) -> (numbers: SudokuNumbers)
    ensures
        numbers@ == placed_in(blocks@),
{
    let mut numbers = SudokuNumbers::default();
    let mut k: usize = 0;
    while k < blocks.len()
        invariant
            k <= blocks.len(),
            numbers@ == placed_in(blocks@.take(k as int)),
        decreases blocks.len() - k,
    {
        let ghost before = numbers@;
        match blocks[k].status().placed() {
            Some(number) => {
                numbers.set_number(number);
            },
            None => {},
        }
        proof {
            let shorter = blocks@.take(k as int);
            let longer = blocks@.take(k + 1);
            assert forall|number: SudokuNumber|
                numbers@.contains(number) == placed_in(longer).contains(number) by {
                if placed_in(longer).contains(number) {
                    let j = choose|j: int|
                        0 <= j < longer.len() && (#[trigger] longer[j])@.status.placed() == Some(
                            number,
                        );
                    if j < k {
                        assert(shorter[j]@.status.placed() == Some(number));
                    }
                }
                if before.contains(number) {
                    let j = choose|j: int|
                        0 <= j < shorter.len() && (#[trigger] shorter[j])@.status.placed() == Some(
                            number,
                        );
                    assert(longer[j]@.status.placed() == Some(number));
                }
                if blocks[k as int]@.status.placed() == Some(number) {
                    assert(longer[k as int]@.status.placed() == Some(number));
                }
            }
            assert(numbers@ =~= placed_in(longer));
        }
        k += 1;
    }
    proof {
        assert(blocks@.take(blocks.len() as int) =~= blocks@);
    }
    numbers
}

/// The numbers that none of the blocks holds.
pub fn get_missing_numbers(blocks: &[SudokuBlock]) -> (numbers: SudokuNumbers)
    ensures
        numbers@ == placed_in(blocks@).complement(),
{
    let missing = get_numbers(blocks).get_missing_numbers();
    let numbers = SudokuNumbers::new(missing.as_slice());
    assert(numbers@ =~= placed_in(blocks@).complement());
    numbers
}

/// The numbers that at least one of the blocks lists as possible.
pub fn get_all_possible_numbers(blocks: &[SudokuBlock]) -> (numbers: SudokuNumbers)
    ensures
        numbers@ == possible_in(blocks@),
{
    let mut numbers = SudokuNumbers::default();
    let mut k: usize = 0;
    while k < blocks.len()
        invariant
            k <= blocks.len(),
            numbers@ == possible_in(blocks@.take(k as int)),
        decreases blocks.len() - k,
    {
        let ghost before = numbers@;
        let ghost shorter = blocks@.take(k as int);
        let ghost longer = blocks@.take(k + 1);
        match blocks[k].status() {
            SudokuBlockStatus::Possibilities(possibilities) => {
                let list = possibilities.numbers().get_numbers();
                let mut j: usize = 0;
                while j < list.len()
                    invariant
                        j <= list.len(),
                        forall|number: SudokuNumber| #[trigger]
                            numbers@.contains(number) <==> before.contains(number) || list@.take(
                                j as int,
                            ).contains(number),
                    decreases list.len() - j,
                {
                    let ghost held = numbers@;
                    numbers.set_number(list[j]);
                    proof {
                        assert forall|number: SudokuNumber| #[trigger]
                            numbers@.contains(number) <==> before.contains(number) || list@.take(
                                j + 1,
                            ).contains(number) by {
                            crate::conflicts::lemma_take_step(list@, j as int, number);
                            assert(held.contains(number) <==> before.contains(number) || list@.take(
                                j as int,
                            ).contains(number));
                        }
                    }
                    j += 1;
                }
                proof {
                    assert(list@.take(list.len() as int) =~= list@);
                }
            },
            _ => {},
        }
        proof {
            assert forall|number: SudokuNumber|
                numbers@.contains(number) == possible_in(longer).contains(number) by {
                if possible_in(longer).contains(number) {
                    let j = choose|j: int|
                        0 <= j < longer.len() && (#[trigger] longer[j])@.status.possible().contains(
                            number,
                        );
                    if j < k {
                        assert(shorter[j]@.status.possible().contains(number));
                    }
                }
                if before.contains(number) {
                    let j = choose|j: int|
                        0 <= j < shorter.len() && (
                        #[trigger] shorter[j])@.status.possible().contains(number);
                    assert(longer[j]@.status.possible().contains(number));
                }
                if blocks[k as int]@.status.possible().contains(number) {
                    assert(longer[k as int]@.status.possible().contains(number));
                }
            }
            assert(numbers@ =~= possible_in(longer));
        }
        k += 1;
    }
    proof {
        assert(blocks@.take(blocks.len() as int) =~= blocks@);
    }
    numbers
}

} // verus!
