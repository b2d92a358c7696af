use vstd::prelude::*;

verus! {

/// A digit that a cell can hold: 1 to 9. Zero is no value.
#[derive(Clone, Copy, Debug, PartialEq, Eq, Structural)]
pub struct SudokuValue(pub(crate) u8);

impl SudokuValue {
    /// The digit itself, 1 to 9.
    pub open(crate) spec fn number(self) -> int {
        self.0 as int
    }

    /// The digit counted from 0, for use as an index: 0 to 8.
    pub open spec fn index(self) -> int {
        self.number() - 1
    }

    /// The digit is one of 1 to 9.
    #[verifier::type_invariant]
    pub open spec fn in_range(self) -> bool {
        1 <= self.number() <= 9
    }

    /// The value whose digit is `number`.
    pub open(crate) spec fn with_number(number: int) -> SudokuValue {
        SudokuValue(number as u8)
    }

    /// The value that the search tries first.
    pub fn first() -> (value: SudokuValue)
        ensures
            value.number() == 1,
    {
        SudokuValue(1)
    }

    pub fn new(val: u8) -> (value: SudokuValue)
        requires
            1 <= val <= 9,
        ensures
            value.number() == val,
    {
        SudokuValue(val)
    }

    /// The digit, 1 to 9.
    pub fn as_u8_value(self) -> (val: u8)
        ensures
            val == self.number(),
            1 <= val <= 9,
    {
        proof {
            use_type_invariant(&self);
        }
        self.0
    }

    /// The digit counted from 0, 0 to 8.
    pub fn as_usize_idx(self) -> (idx: usize)
        ensures
            idx == self.index(),
            idx < 9,
    {
        (self.as_u8_value() as usize) - 1
    }

    /// The digit, 1 to 9: another name for `as_u8_value`.
    pub fn as_u8_val(self) -> (val: u8)
        ensures
            val == self.number(),
            1 <= val <= 9,
    {
        self.as_u8_value()
    }

    /// The digit counted from 0, 0 to 8: another name for `as_usize_idx`.
    pub fn as_idx(self) -> (idx: usize)
        ensures
            idx == self.index(),
            idx < 9,
    {
        self.as_usize_idx()
    }

    /// The next digit up, and nothing after 9.
    pub fn next(self) -> (successor: Option<SudokuValue>)
        ensures
            successor is None <==> self.number() == 9,
            successor matches Some(value) ==> value.number() == self.number() + 1,
    {
        let val = self.as_u8_value();
        if val == 9 {
            None
        } else {
            Some(SudokuValue::new(val + 1))
        }
    }
}

} // verus!
