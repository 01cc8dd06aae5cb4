use vstd::prelude::*;
use vstd::std_specs::convert::{FromSpecImpl, TryFromSpecImpl};

verus! {

/// One of the nine values a cell can hold.
#[derive(Debug, Clone, Copy, PartialEq, Eq, Structural, PartialOrd, Ord, Hash)]
pub enum SudokuNumber {
    One,
    Two,
    Three,
    Four,
    Five,
    Six,
    Seven,
    Eight,
    Nine,
}

impl SudokuNumber {
    /// The value as a mathematical integer, between 1 and 9.
    pub open spec fn value(self) -> int {
        match self {
            SudokuNumber::One => 1,
            SudokuNumber::Two => 2,
            SudokuNumber::Three => 3,
            SudokuNumber::Four => 4,
            SudokuNumber::Five => 5,
            SudokuNumber::Six => 6,
            SudokuNumber::Seven => 7,
            SudokuNumber::Eight => 8,
            SudokuNumber::Nine => 9,
        }
    }

    /// The number whose value is `value`; `Nine` for anything above 8 and
    /// `One` for anything below 2.
    pub open spec fn of(value: int) -> SudokuNumber {
        if value <= 1 {
            SudokuNumber::One
        } else if value == 2 {
            SudokuNumber::Two
        } else if value == 3 {
            SudokuNumber::Three
        } else if value == 4 {
            SudokuNumber::Four
        } else if value == 5 {
            SudokuNumber::Five
        } else if value == 6 {
            SudokuNumber::Six
        } else if value == 7 {
            SudokuNumber::Seven
        } else if value == 8 {
            SudokuNumber::Eight
        } else {
            SudokuNumber::Nine
        }
    }

    /// Zero-based position of this number: its value less one.
    pub fn to_index(&self) -> (index: usize)
        ensures
            index == self.value() - 1,
    {
        match self {
            SudokuNumber::One => 0,
            SudokuNumber::Two => 1,
            SudokuNumber::Three => 2,
            SudokuNumber::Four => 3,
            SudokuNumber::Five => 4,
            SudokuNumber::Six => 5,
            SudokuNumber::Seven => 6,
            SudokuNumber::Eight => 7,
            SudokuNumber::Nine => 8,
        }
    }

    pub fn to_u8(&self) -> (number: u8)
        ensures
            number == self.value(),
    {
        match self {
            SudokuNumber::One => 1,
            SudokuNumber::Two => 2,
            SudokuNumber::Three => 3,
            SudokuNumber::Four => 4,
            SudokuNumber::Five => 5,
            SudokuNumber::Six => 6,
            SudokuNumber::Seven => 7,
            SudokuNumber::Eight => 8,
            SudokuNumber::Nine => 9,
        }
    }

    /// The nine numbers in ascending order.
    pub fn all() -> (numbers: [SudokuNumber; 9])
        ensures
            forall|k: int| 0 <= k < 9 ==> numbers[k] == SudokuNumber::of(k + 1),
    {
        [
            SudokuNumber::One,
            SudokuNumber::Two,
            SudokuNumber::Three,
            SudokuNumber::Four,
            SudokuNumber::Five,
            SudokuNumber::Six,
            SudokuNumber::Seven,
            SudokuNumber::Eight,
            SudokuNumber::Nine,
        ]
    }

    /// The number at a zero-based position: the inverse of `to_index`.
    pub(crate) fn at(index: usize) -> (number: SudokuNumber)
        requires
            index < 9,
        ensures
            number == SudokuNumber::of(index + 1),
            number.value() == index + 1,
    {
        if index == 0 {
            SudokuNumber::One
        } else if index == 1 {
            SudokuNumber::Two
        } else if index == 2 {
            SudokuNumber::Three
        } else if index == 3 {
            SudokuNumber::Four
        } else if index == 4 {
            SudokuNumber::Five
        } else if index == 5 {
            SudokuNumber::Six
        } else if index == 6 {
            SudokuNumber::Seven
        } else if index == 7 {
            SudokuNumber::Eight
        } else {
            SudokuNumber::Nine
        }
    }
}

/// `value` and `of` are inverse to each other on 1..=9.
pub proof fn lemma_number_value(number: SudokuNumber)
    ensures
        1 <= number.value() <= 9,
        SudokuNumber::of(number.value()) == number,
{
}

pub proof fn lemma_number_of(value: int)
    requires
        1 <= value <= 9,
    ensures
        SudokuNumber::of(value).value() == value,
{
}

impl TryFrom<usize> for SudokuNumber {
    type Error = ();

    fn try_from(value: usize) -> (result: Result<Self, Self::Error>) {
        if 1 <= value && value <= 9 {
            Ok(SudokuNumber::at(value - 1))
        } else {
            Err(())
        }
    }
}

impl TryFromSpecImpl<usize> for SudokuNumber {
    open spec fn obeys_try_from_spec() -> bool {
        true
    }

    open spec fn try_from_spec(value: usize) -> Result<Self, Self::Error> {
        if 1 <= value <= 9 {
            Ok(SudokuNumber::of(value as int))
        } else {
            Err(())
        }
    }
}

impl From<SudokuNumber> for usize {
    fn from(value: SudokuNumber) -> (result: usize) {
        value.to_index() + 1
    }
}

impl FromSpecImpl<SudokuNumber> for usize {
    open spec fn obeys_from_spec() -> bool {
        true
    }

    open spec fn from_spec(value: SudokuNumber) -> usize {
        value.value() as usize
    }
}

/// Every set of sudoku numbers is finite.
pub proof fn lemma_set_finite(numbers: Set<SudokuNumber>)
    ensures
        numbers.finite(),
{
    let all = set![
        SudokuNumber::One,
        SudokuNumber::Two,
        SudokuNumber::Three,
        SudokuNumber::Four,
        SudokuNumber::Five,
        SudokuNumber::Six,
        SudokuNumber::Seven,
        SudokuNumber::Eight,
        SudokuNumber::Nine
    ];
    assert(numbers.subset_of(all));
    vstd::set_lib::lemma_len_subset(numbers, all);
}

/// Whether the values of a sequence of numbers strictly increase.
pub open spec fn ascending(numbers: Seq<SudokuNumber>) -> bool {
    forall|i: int, j: int| 0 <= i < j < numbers.len() ==> numbers[i].value() < numbers[j].value()
}

/// A set of sudoku numbers, one slot for each of the nine.
#[derive(Clone, Copy, Debug, PartialEq, Eq, Hash)]
pub struct SudokuNumbers {
    // false means the number is not contained
    numbers: [bool; 9],
}

impl View for SudokuNumbers {
    type V = Set<SudokuNumber>;

    closed spec fn view(&self) -> Set<SudokuNumber> {
        Set::new(|number: SudokuNumber| self.numbers[number.value() - 1])
    }
}

impl Default for SudokuNumbers {
    fn default() -> (set: Self)
        ensures
            set@ == Set::<SudokuNumber>::empty(),
    {
        let set = Self { numbers: [false, false, false, false, false, false, false, false, false] };
        proof {
            assert forall|number: SudokuNumber| !set@.contains(number) by {
                lemma_number_value(number);
                assert(!set.numbers[number.value() - 1]);
            }
            assert(set@ =~= Set::<SudokuNumber>::empty());
        }
        set
    }
}

impl SudokuNumbers {
    /// The members whose value is at most `bound`.
    closed spec fn upto(self, bound: int) -> Set<SudokuNumber> {
        Set::new(|number: SudokuNumber| number.value() <= bound && self.numbers[number.value() - 1])
    }

    proof fn lemma_upto(self, bound: int)
        requires
            0 <= bound <= 9,
        ensures
            self.upto(bound).finite(),
            self.upto(bound).len() <= bound,
            bound < 9 ==> self.upto(bound + 1) == if self.numbers[bound] {
                self.upto(bound).insert(SudokuNumber::of(bound + 1))
            } else {
                self.upto(bound)
            },
            bound < 9 ==> !self.upto(bound).contains(SudokuNumber::of(bound + 1)),
            bound == 9 ==> self.upto(bound) == self@,
        decreases bound,
    {
        if bound == 0 {
            assert(self.upto(0) =~= Set::<SudokuNumber>::empty());
        } else {
            self.lemma_upto(bound - 1);
        }
        if bound < 9 {
            let next = SudokuNumber::of(bound + 1);
            if self.numbers[bound] {
                assert(self.upto(bound + 1) =~= self.upto(bound).insert(next));
            } else {
                assert(self.upto(bound + 1) =~= self.upto(bound));
            }
        } else {
            assert(self.upto(bound) =~= self@);
        }
    }

    /// Every set of numbers is finite and has at most nine members.
    pub proof fn lemma_finite(self)
        ensures
            self@.finite(),
            self@.len() <= 9,
    {
        self.lemma_upto(9);
    }

    /// The set that holds exactly the listed numbers.
    pub fn new(numbers: &[SudokuNumber]) -> (set: Self)
        ensures
            set@ == numbers@.to_set(),
    {
        let mut real_numbers: [bool; 9] = [false, false, false, false, false, false, false, false, false];
        let mut i: usize = 0;
        while i < numbers.len()
            invariant
                i <= numbers.len(),
                forall|number: SudokuNumber| #[trigger]
                    real_numbers[number.value() - 1] <==> exists|j: int|
                        0 <= j < i && numbers[j] == number,
            decreases numbers.len() - i,
        {
            let ghost before = real_numbers;
            let index = numbers[i].to_index();
            real_numbers[index] = true;
            proof {
                assert forall|number: SudokuNumber| #[trigger]
                    real_numbers[number.value() - 1] <==> exists|j: int|
                        0 <= j < i + 1 && numbers[j] == number by {
                    if number == numbers[i as int] {
                    } else if before[number.value() - 1] {
                        let j = choose|j: int| 0 <= j < i && numbers[j] == number;
                        assert(0 <= j < i + 1 && numbers[j] == number);
                    }
                }
            }
            i += 1;
        }
        let set = Self { numbers: real_numbers };
        proof {
            assert forall|number: SudokuNumber| set@.contains(number) == numbers@.to_set().contains(
                number,
            ) by {
                if set@.contains(number) {
                    let j = choose|j: int| 0 <= j < numbers.len() && numbers[j] == number;
                    assert(numbers@[j] == number);
                }
                if numbers@.contains(number) {
                    let j = choose|j: int| 0 <= j < numbers@.len() && numbers@[j] == number;
                    assert(numbers[j] == number);
                }
            }
            assert(set@ =~= numbers@.to_set());
        }
        set
    }

    /// The set that holds `number` alone.
    pub fn only(number: SudokuNumber) -> (set: Self)
        ensures
            set@ == set![number],
    {
        let mut set = Self::default();
        set.set_number(number);
        assert(set@ =~= set![number]);
        set
    }

    /// Whether both sets hold the same numbers.
    pub fn same_as(&self, other: &SudokuNumbers) -> (same: bool)
        ensures
            same == (self@ == other@),
    {
        let mut index: usize = 0;
        while index < 9
            invariant
                index <= 9,
                forall|k: int| 0 <= k < index ==> self.numbers[k] == other.numbers[k],
            decreases 9 - index,
        {
            if self.numbers[index] != other.numbers[index] {
                proof {
                    let number = SudokuNumber::of(index + 1);
                    assert(self@.contains(number) != other@.contains(number));
                }
                return false;
            }
            index += 1;
        }
        assert(self@ =~= other@);
        true
    }

    /// Adds every number of `other`.
    pub fn add_numbers(&mut self, other: &SudokuNumbers)
        ensures
            final(self)@ == old(self)@.union(other@),
    {
        let mut index: usize = 0;
        while index < 9
            invariant
                index <= 9,
                forall|k: int|
                    0 <= k < 9 ==> #[trigger] self.numbers[k] == (old(self).numbers[k] || (k < index
                        && other.numbers[k])),
            decreases 9 - index,
        {
            if other.numbers[index] {
                self.numbers[index] = true;
            }
            index += 1;
        }
        proof {
            assert forall|number: SudokuNumber|
                self@.contains(number) == old(self)@.union(other@).contains(number) by {
                lemma_number_value(number);
                let held = self.numbers[number.value() - 1];
            }
            assert(self@ =~= old(self)@.union(other@));
        }
    }

    /// Keeps only the numbers that `other` holds too.
    pub fn keep_numbers(&mut self, other: &SudokuNumbers)
        ensures
            final(self)@ == old(self)@.intersect(other@),
    {
        let mut index: usize = 0;
        while index < 9
            invariant
                index <= 9,
                forall|k: int|
                    0 <= k < 9 ==> #[trigger] self.numbers[k] == (old(self).numbers[k] && (k
                        >= index || other.numbers[k])),
            decreases 9 - index,
        {
            if !other.numbers[index] {
                self.numbers[index] = false;
            }
            index += 1;
        }
        proof {
            assert forall|number: SudokuNumber|
                self@.contains(number) == old(self)@.intersect(other@).contains(number) by {
                lemma_number_value(number);
                let held = self.numbers[number.value() - 1];
            }
            assert(self@ =~= old(self)@.intersect(other@));
        }
    }

    /// The set of all nine numbers.
    pub fn new_all() -> (set: Self)
        ensures
            set@ == Set::<SudokuNumber>::full(),
    {
        let set = Self { numbers: [true, true, true, true, true, true, true, true, true] };
        proof {
            assert forall|number: SudokuNumber| set@.contains(number) by {
                lemma_number_value(number);
                assert(set.numbers[number.value() - 1]);
            }
            assert(set@ =~= Set::<SudokuNumber>::full());
        }
        set
    }

    /// The members, in ascending order.
    pub fn get_numbers(&self) -> (list: Vec<SudokuNumber>)
        ensures
            ascending(list@),
            forall|number: SudokuNumber| list@.contains(number) <==> self@.contains(number),
            list@.len() == self@.len(),
    {
        let mut list: Vec<SudokuNumber> = Vec::new();
        let mut index: usize = 0;
        proof {
            self.lemma_upto(0);
        }
        while index < 9
            invariant
                index <= 9,
                ascending(list@),
                forall|k: int| 0 <= k < list.len() ==> list[k].value() <= index,
                forall|number: SudokuNumber|
                    list@.contains(number) <==> self.upto(index as int).contains(number),
                list@.len() == self.upto(index as int).len(),
                self.upto(index as int).finite(),
            decreases 9 - index,
        {
            let ghost before = list@;
            proof {
                self.lemma_upto(index as int);
                self.lemma_upto(index + 1);
            }
            if self.numbers[index] {
                let number = SudokuNumber::at(index);
                list.push(number);
                proof {
                    assert(list@ == before.push(number));
                    assert forall|other: SudokuNumber|
                        list@.contains(other) <==> self.upto(index + 1).contains(other) by {
                        if list@.contains(other) {
                            let k = choose|k: int| 0 <= k < list@.len() && list@[k] == other;
                            if k < before.len() {
                                assert(before.contains(other));
                            }
                        }
                        if self.upto(index + 1).contains(other) {
                            if other == number {
                                assert(list@[before.len() as int] == other);
                            } else {
                                assert(before.contains(other));
                                let k = choose|k: int| 0 <= k < before.len() && before[k] == other;
                                assert(list@[k] == other);
                            }
                        }
                    }
                }
            }
            index += 1;
        }
        proof {
            self.lemma_upto(9);
        }
        list
    }

    /// Adds a number; nothing changes where it is a member already.
    pub fn set_number(&mut self, number: SudokuNumber)
        ensures
            final(self)@ == old(self)@.insert(number),
    {
        self.numbers[number.to_index()] = true;
        assert(self@ =~= old(self)@.insert(number));
    }

    /// Removes a number; nothing changes where it is no member.
    pub fn del_number(&mut self, number: SudokuNumber)
        ensures
            final(self)@ == old(self)@.remove(number),
    {
        self.numbers[number.to_index()] = false;
        assert(self@ =~= old(self)@.remove(number));
    }

    /// Removes every listed number.
    pub fn del_numbers(&mut self, numbers: &[SudokuNumber])
        ensures
            final(self)@ == old(self)@.difference(numbers@.to_set()),
    {
        let mut i: usize = 0;
        while i < numbers.len()
            invariant
                i <= numbers.len(),
                forall|number: SudokuNumber|
                    self@.contains(number) <==> old(self)@.contains(number) && !exists|j: int|
                        0 <= j < i && numbers[j] == number,
            decreases numbers.len() - i,
        {
            let ghost before = self@;
            self.del_number(numbers[i]);
            proof {
                assert forall|number: SudokuNumber|
                    self@.contains(number) <==> old(self)@.contains(number) && !exists|j: int|
                        0 <= j < i + 1 && numbers[j] == number by {
                    if before.contains(number) && number != numbers[i as int] {
                        if exists|j: int| 0 <= j < i + 1 && numbers[j] == number {
                            let j = choose|j: int| 0 <= j < i + 1 && numbers[j] == number;
                            assert(0 <= j < i && numbers[j] == number);
                        }
                    }
                }
            }
            i += 1;
        }
        proof {
            assert forall|number: SudokuNumber|
                self@.contains(number) == old(self)@.difference(numbers@.to_set()).contains(
                    number,
                ) by {
                if numbers@.contains(number) {
                    let j = choose|j: int| 0 <= j < numbers@.len() && numbers@[j] == number;
                    assert(numbers[j] == number);
                }
                if exists|j: int| 0 <= j < numbers.len() && numbers[j] == number {
                    let j = choose|j: int| 0 <= j < numbers.len() && numbers[j] == number;
                    assert(numbers@[j] == number);
                }
            }
            assert(self@ =~= old(self)@.difference(numbers@.to_set()));
        }
    }

    pub fn has_number(&self, number: SudokuNumber) -> (present: bool)
        ensures
            present == self@.contains(number),
    {
        self.numbers[number.to_index()]
    }

    /// How many numbers the set holds.
    pub fn count_numbers(&self) -> (count: usize)
        ensures
            self@.finite(),
            count == self@.len(),
    {
        let mut count: usize = 0;
        let mut index: usize = 0;
        proof {
            self.lemma_upto(0);
        }
        while index < 9
            invariant
                index <= 9,
                count == self.upto(index as int).len(),
                count <= index,
                self.upto(index as int).finite(),
            decreases 9 - index,
        {
            proof {
                self.lemma_upto(index as int);
                self.lemma_upto(index + 1);
            }
            if self.numbers[index] {
                count += 1;
            }
            index += 1;
        }
        proof {
            self.lemma_upto(9);
        }
        count
    }

    /// The numbers that are no members, in ascending order.
    pub fn get_missing_numbers(&self) -> (list: Vec<SudokuNumber>)
        ensures
            ascending(list@),
            forall|number: SudokuNumber| list@.contains(number) <==> !self@.contains(number),
    {
        let mut list: Vec<SudokuNumber> = Vec::new();
        let mut index: usize = 0;
        while index < 9
            invariant
                index <= 9,
                ascending(list@),
                forall|k: int| 0 <= k < list.len() ==> list[k].value() <= index,
                forall|number: SudokuNumber|
                    list@.contains(number) <==> number.value() <= index && !self@.contains(number),
            decreases 9 - index,
        {
            let ghost before = list@;
            if !self.numbers[index] {
                let number = SudokuNumber::at(index);
                list.push(number);
                proof {
                    assert(list@ == before.push(number));
                    assert forall|other: SudokuNumber|
                        list@.contains(other) <==> other.value() <= index + 1 && !self@.contains(
                            other,
                        ) by {
                        if list@.contains(other) {
                            let k = choose|k: int| 0 <= k < list@.len() && list@[k] == other;
                            if k < before.len() {
                                assert(before.contains(other));
                            }
                        }
                        if other.value() <= index + 1 && !self@.contains(other) {
                            if other == number {
                                assert(list@[before.len() as int] == other);
                            } else {
                                assert(before.contains(other));
                                let k = choose|k: int| 0 <= k < before.len() && before[k] == other;
                                assert(list@[k] == other);
                            }
                        }
                    }
                }
            }
            index += 1;
        }
        list
    }
}

} // verus!
