use vstd::prelude::*;

verus! {

/// The possible ways a printing operation can fail.
///
/// Equality on this type compares only which failure occurred, not the
/// payload carried along with it.
#[derive(Debug, Clone)]
pub enum PrintingError {
    /// Building a grid was given more characters than the requested
    /// dimensions can hold.
    TooManyCharacters(LengthErrorData),
    /// Building a grid was given fewer characters than the requested
    /// dimensions call for.
    TooLittleCharacters(LengthErrorData),
    /// The terminal's dimensions could not be queried; the payload carries
    /// the reason reported by the terminal backend.
    FailedToGetTerminalDimensions(String),
    /// A grid larger than the terminal itself was passed in.
    GridLargerThanTerminal,
    /// A non-rectangular grid was passed in.
    NonRectangularGrid,
    /// No grid dimensions are currently stored.
    GridDimensionsNotDefined,
    /// No terminal dimensions are currently stored.
    TerminalDimensionsNotDefined,
    /// No origin position is currently stored.
    OriginNotDefined,
}

/// Two errors are the same kind of failure when they are the same variant,
/// whatever data they carry.
pub open spec fn same_error_kind(a: &PrintingError, b: &PrintingError) -> bool {
    match (a, b) {
        (PrintingError::TooManyCharacters(_), PrintingError::TooManyCharacters(_)) => true,
        (PrintingError::TooLittleCharacters(_), PrintingError::TooLittleCharacters(_)) => true,
        (
            PrintingError::FailedToGetTerminalDimensions(_),
            PrintingError::FailedToGetTerminalDimensions(_),
        ) => true,
        (PrintingError::GridLargerThanTerminal, PrintingError::GridLargerThanTerminal) => true,
        (PrintingError::NonRectangularGrid, PrintingError::NonRectangularGrid) => true,
        (PrintingError::GridDimensionsNotDefined, PrintingError::GridDimensionsNotDefined) => true,
        (
            PrintingError::TerminalDimensionsNotDefined,
            PrintingError::TerminalDimensionsNotDefined,
        ) => true,
        (PrintingError::OriginNotDefined, PrintingError::OriginNotDefined) => true,
        _ => false,
    }
}

impl PartialEq for PrintingError {
    fn eq(&self, other: &Self) -> (r: bool) {
        match (self, other) {
            (PrintingError::TooManyCharacters(_), PrintingError::TooManyCharacters(_)) => true,
            (PrintingError::TooLittleCharacters(_), PrintingError::TooLittleCharacters(_)) => true,
            (
                PrintingError::FailedToGetTerminalDimensions(_),
                PrintingError::FailedToGetTerminalDimensions(_),
            ) => true,
            (PrintingError::GridLargerThanTerminal, PrintingError::GridLargerThanTerminal) => true,
            (PrintingError::NonRectangularGrid, PrintingError::NonRectangularGrid) => true,
            (
                PrintingError::GridDimensionsNotDefined,
                PrintingError::GridDimensionsNotDefined,
            ) => true,
            (
                PrintingError::TerminalDimensionsNotDefined,
                PrintingError::TerminalDimensionsNotDefined,
            ) => true,
            (PrintingError::OriginNotDefined, PrintingError::OriginNotDefined) => true,
            _ => false,
        }
    }
}

impl vstd::std_specs::cmp::PartialEqSpecImpl for PrintingError {
    open spec fn obeys_eq_spec() -> bool {
        true
    }

    open spec fn eq_spec(&self, other: &Self) -> bool {
        same_error_kind(self, other)
    }
}

impl Eq for PrintingError {}

/// The mismatch between how many characters a grid-building request supplied
/// and how many the requested dimensions call for.
#[derive(Debug, Clone, PartialEq, Eq, Structural)]
pub struct LengthErrorData {
    pub expected_character_count: usize,
    pub actual_character_count: usize,
}

impl LengthErrorData {
    pub(crate) fn new(
        expected_character_count: usize,
        actual_character_count: usize,
    ) -> (r: Self)
        ensures
            r.expected_character_count == expected_character_count,
            r.actual_character_count == actual_character_count,
    {
        Self { expected_character_count, actual_character_count }
    }
}

} // verus!
