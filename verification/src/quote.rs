use vstd::prelude::*;

verus! {

/// Where a scan of a line stands with respect to quoting.
#[derive(Clone, Copy, Debug, PartialEq, Eq, Structural)]
pub enum QuoteState {
    /// Outside any quoted region.
    Normal,
    /// Inside a region opened by `'`.
    SingleQuote,
    /// Inside a region opened by `"`.
    DoubleQuote,
    /// Inside a region opened by `'`, just behind a backslash.
    SingleEscape,
    /// Inside a region opened by `"`, just behind a backslash.
    DoubleEscape,
}

impl QuoteState {
    /// The state that reading `c` in this state leads to.
    pub open spec fn step(self, c: char) -> QuoteState {
        match (self, c) {
            (QuoteState::Normal, '\'') => QuoteState::SingleQuote,
            (QuoteState::SingleQuote, '\'') => QuoteState::Normal,
            (QuoteState::Normal, '"') => QuoteState::DoubleQuote,
            (QuoteState::DoubleQuote, '"') => QuoteState::Normal,
            (QuoteState::SingleQuote, '\\') => QuoteState::SingleEscape,
            (QuoteState::SingleEscape, _) => QuoteState::SingleQuote,
            (QuoteState::DoubleQuote, '\\') => QuoteState::DoubleEscape,
            (QuoteState::DoubleEscape, _) => QuoteState::DoubleQuote,
            _ => self,
        }
    }

    /// Whether this state lies inside a quoted region and not behind a backslash.
    pub open spec fn in_quotes(self) -> bool {
        self == QuoteState::SingleQuote || self == QuoteState::DoubleQuote
    }

    /// The state that reading `c` in this state leads to.
    pub fn next(self, c: char) -> (r: QuoteState)
        ensures
            r == self.step(c),
    {
        match (self, c) {
            (QuoteState::Normal, '\'') => QuoteState::SingleQuote,
            (QuoteState::SingleQuote, '\'') => QuoteState::Normal,
            (QuoteState::Normal, '"') => QuoteState::DoubleQuote,
            (QuoteState::DoubleQuote, '"') => QuoteState::Normal,
            (QuoteState::SingleQuote, '\\') => QuoteState::SingleEscape,
            (QuoteState::SingleEscape, _) => QuoteState::SingleQuote,
            (QuoteState::DoubleQuote, '\\') => QuoteState::DoubleEscape,
            (QuoteState::DoubleEscape, _) => QuoteState::DoubleQuote,
            _ => self,
        }
    }

    /// Whether a `c` read in this state ends a field.
    pub fn ends_field(self, c: char) -> (r: bool)
        ensures
            r == (self == QuoteState::Normal && c == ','),
    {
        match (self, c) {
            (QuoteState::Normal, ',') => true,
            _ => false,
        }
    }

    /// A backslash inside a quoted region takes the character behind it out of play:
    /// whatever that character is, a closing quote too, the region is still open after it.
    pub proof fn lemma_escape_keeps_region_open(self, c: char)
        requires
            self.in_quotes(),
        ensures
            self.step('\\').step(c) == self,
    {
    }

    /// Only the quote character that opened a region closes it.
    pub proof fn lemma_only_matching_quote_closes(self, c: char)
        requires
            self.in_quotes(),
        ensures
            self.step(c) == QuoteState::Normal <==> (self == QuoteState::SingleQuote && c == '\'')
                || (self == QuoteState::DoubleQuote && c == '"'),
    {
    }
}

/// The state of the scan of `line` when it has read the first `i` characters.
pub open spec fn state_before(line: Seq<char>, i: int) -> QuoteState
    decreases i,
{
    if i <= 0 {
        QuoteState::Normal
    } else {
        state_before(line, i - 1).step(line[i - 1])
    }
}

/// Whether `line` holds no quote character.
pub open spec fn quote_free(line: Seq<char>) -> bool {
    forall|k: int| 0 <= k < line.len() ==> #[trigger] line[k] != '\'' && line[k] != '"'
}

/// A line without quote characters is scanned in the normal state throughout.
pub proof fn lemma_quote_free_is_normal(line: Seq<char>, i: int)
    requires
        quote_free(line),
        0 <= i <= line.len(),
    ensures
        state_before(line, i) == QuoteState::Normal,
    decreases i,
{
    if i > 0 {
        lemma_quote_free_is_normal(line, i - 1);
    }
}

/// The scan of the front of a line does not depend on what follows it.
pub proof fn lemma_state_of_front(line: Seq<char>, front: Seq<char>, i: int)
    requires
        0 <= i <= front.len() <= line.len(),
        forall|k: int| 0 <= k < front.len() ==> line[k] == front[k],
    ensures
        state_before(line, i) == state_before(front, i),
    decreases i,
{
    if i > 0 {
        lemma_state_of_front(line, front, i - 1);
    }
}

/// From a position that the scan of a line reaches in the normal state, it goes on as
/// the scan of what follows would go by itself.
pub proof fn lemma_state_of_back(line: Seq<char>, back: Seq<char>, from: int, i: int)
    requires
        0 <= from,
        0 <= i <= back.len(),
        from + back.len() <= line.len(),
        state_before(line, from) == QuoteState::Normal,
        forall|k: int| 0 <= k < back.len() ==> line[from + k] == back[k],
    ensures
        state_before(line, from + i) == state_before(back, i),
    decreases i,
{
    if i > 0 {
        lemma_state_of_back(line, back, from, i - 1);
    }
}

/// A backslash read inside a quoted region of `line` leaves the scan, two characters
/// on, in the region it was in: the character behind the backslash cannot close it.
pub proof fn lemma_escaped_char_is_inert(line: Seq<char>, i: int)
    requires
        0 <= i,
        i + 2 <= line.len(),
        state_before(line, i).in_quotes(),
        line[i] == '\\',
    ensures
        state_before(line, i + 2) == state_before(line, i),
{
    assert(state_before(line, i + 2) == state_before(line, i + 1).step(line[i + 1]));
}

} // verus!
