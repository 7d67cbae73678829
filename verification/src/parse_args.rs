use crate::number::{number, parse_number};
use crate::split::{lemma_split_concat, lemma_split_without_sep, split, split_on, texts};
use crate::text::{trim, trimmed};
use vstd::prelude::*;
use vstd::string::*;

verus! {

/// Why an element of a column specification is refused.
#[derive(Clone, Copy, Debug, PartialEq, Eq, Structural)]
pub enum ColsErrorKind {
    /// A range does not consist of two parts with one `-` between them.
    RangeParts,
    /// An index, or a bound of a range, denotes no number.
    NotAnInteger,
    /// A range starts below the number of the first column.
    StartBelowOffset,
    /// A range holds no column: it ends before it starts.
    EmptyRange,
    /// An index lies below the number of the first column.
    IndexBelowOffset,
}

/// The refusal of a column specification: the first element that is at fault, trimmed,
/// and what is wrong with it.
#[derive(Debug, PartialEq, Eq)]
pub struct ColsError {
    pub kind: ColsErrorKind,
    pub token: String,
}

/// What a `ColsError` says, as plain values.
pub struct Rejection {
    pub kind: ColsErrorKind,
    pub token: Seq<char>,
}

impl View for ColsError {
    type V = Rejection;

    open spec fn view(&self) -> Rejection {
        Rejection { kind: self.kind, token: self.token@ }
    }
}

impl ColsErrorKind {
    /// What is wrong with an element that is refused for this reason, in words.
    pub open spec fn reason_text(self) -> Seq<char> {
        match self {
            ColsErrorKind::RangeParts => "a range takes two numbers with one '-' between them"@,
            ColsErrorKind::NotAnInteger => "not a non-negative integer"@,
            ColsErrorKind::StartBelowOffset => "the range starts below the first column"@,
            ColsErrorKind::EmptyRange => "the range ends before it starts"@,
            ColsErrorKind::IndexBelowOffset => "the index lies below the first column"@,
        }
    }

    /// What is wrong with an element that is refused for this reason, in words.
    pub fn reason(self) -> (text: &'static str)
        ensures
            text@ == self.reason_text(),
    {
        match self {
            ColsErrorKind::RangeParts => "a range takes two numbers with one '-' between them",
            ColsErrorKind::NotAnInteger => "not a non-negative integer",
            ColsErrorKind::StartBelowOffset => "the range starts below the first column",
            ColsErrorKind::EmptyRange => "the range ends before it starts",
            ColsErrorKind::IndexBelowOffset => "the index lies below the first column",
        }
    }
}

impl Rejection {
    /// The message that names the element at fault and says what is wrong with it.
    pub open spec fn message(self) -> Seq<char> {
        "invalid column specification '"@ + self.token + "': "@ + self.kind.reason_text()
    }
}

impl Clone for ColsError {
    fn clone(&self) -> (copy: Self)
        ensures
            copy@ == self@,
    {
        ColsError { kind: self.kind, token: self.token.clone() }
    }
}

impl ColsError {
    /// The message that names the element at fault and says what is wrong with it.
    pub fn message(&self) -> (text: String)
        ensures
            text@ == self@.message(),
    {
        let mut text = String::from_str("invalid column specification '");
        text.append(self.token.as_str());
        text.append("': ");
        text.append(self.kind.reason());
        text
    }
}

/// The numbers from `lo` up to, not including, `hi`, in rising order.
pub open spec fn run(lo: int, hi: int) -> Seq<usize> {
    Seq::new((hi - lo) as nat, |k: int| (lo + k) as usize)
}

/// The zero-based column that a single index names: the index less `offset`.
pub open spec fn index_columns(index: Option<usize>, offset: int) -> Result<
    Seq<usize>,
    ColsErrorKind,
> {
    match index {
        Some(i) => if i < offset {
            Err(ColsErrorKind::IndexBelowOffset)
        } else {
            Ok(seq![(i - offset) as usize])
        },
        None => Err(ColsErrorKind::NotAnInteger),
    }
}

/// The zero-based columns that a range with the bounds `start` and `end` names. With
/// `offset` 0 the range is half-open: it names the columns from `start` up to, not
/// including, `end`. With `offset` 1 it is closed: it names the columns from `start` to
/// `end`, both included, counted from 1.
pub open spec fn range_columns(start: Option<usize>, end: Option<usize>, offset: int) -> Result<
    Seq<usize>,
    ColsErrorKind,
> {
    match (start, end) {
        (Some(a), Some(b)) => if a < offset {
            Err(ColsErrorKind::StartBelowOffset)
        } else if a >= b + offset {
            Err(ColsErrorKind::EmptyRange)
        } else {
            Ok(run(a - offset, b as int))
        },
        _ => Err(ColsErrorKind::NotAnInteger),
    }
}

/// The zero-based columns that one element of a column specification names, where the
/// first column goes by the number `offset`. An element with a `-` in it is a range, of
/// two bounds with the `-` between them; any other element is a single index.
pub open spec fn element_columns(elem: Seq<char>, offset: int) -> Result<Seq<usize>, ColsErrorKind> {
    if elem.contains('-') {
        let parts = split(elem, '-');
        if parts.len() != 2 {
            Err(ColsErrorKind::RangeParts)
        } else {
            range_columns(number(parts[0]), number(parts[1]), offset)
        }
    } else {
        index_columns(number(elem), offset)
    }
}

/// What two lists of elements name together, where `first` is what the one names and
/// `second` what the other: the columns of both, or the first refusal.
pub open spec fn in_turn(
    first: Result<Seq<usize>, Rejection>,
    second: Result<Seq<usize>, Rejection>,
) -> Result<Seq<usize>, Rejection> {
    match first {
        Err(rejection) => Err(rejection),
        Ok(before) => match second {
            Err(rejection) => Err(rejection),
            Ok(behind) => Ok(before + behind),
        },
    }
}

/// What a list of one element names, where `named` is what the element `token` names.
pub open spec fn for_token(token: Seq<char>, named: Result<Seq<usize>, ColsErrorKind>) -> Result<
    Seq<usize>,
    Rejection,
> {
    match named {
        Err(kind) => Err(Rejection { kind, token }),
        Ok(named) => Ok(named),
    }
}

/// The zero-based columns that the elements name, one after the other, each element
/// trimmed first; or the first element that is refused, and why.
pub open spec fn elements_columns(elems: Seq<Seq<char>>, offset: int) -> Result<
    Seq<usize>,
    Rejection,
>
    decreases elems.len(),
{
    if elems.len() == 0 {
        Ok(Seq::empty())
    } else {
        let token = trimmed(elems.last());
        in_turn(
            elements_columns(elems.drop_last(), offset),
            for_token(token, element_columns(token, offset)),
        )
    }
}

/// The zero-based columns that the column specification `spec` names, in the order in
/// which it names them and as often as it names them, where the first column goes by the
/// number `offset`. The specification is a list of elements with commas between them.
pub open spec fn columns(spec: Seq<char>, offset: int) -> Result<Seq<usize>, Rejection> {
    elements_columns(split(spec, ','), offset)
}

/// The numbers that the columns of a line of `count` fields go by, where the first goes
/// by `offset`.
pub fn column_numbers(count: usize, offset: usize) -> (numbers: Vec<usize>)
    requires
        offset == 0 || offset == 1,
    ensures
        numbers@ == run(offset as int, count + offset),
{
    let mut numbers: Vec<usize> = Vec::new();
    let mut k: usize = 0;
    while k < count
        invariant
            k <= count,
            offset <= 1,
            numbers@ == run(offset as int, k + offset),
        decreases count - k,
    {
        numbers.push(k + offset);
        k += 1;
    }
    numbers
}

/// A range of two bounds is read by its bounds: where neither `start` nor `end` holds a
/// `-`, the element made of `start`, a `-` and `end` names what `range_columns` says of
/// the numbers that the two denote.
pub proof fn lemma_range_element(start: Seq<char>, end: Seq<char>, offset: int)
    requires
        !start.contains('-'),
        !end.contains('-'),
    ensures
        element_columns(start + seq!['-'] + end, offset) == range_columns(
            number(start),
            number(end),
            offset,
        ),
{
    let elem = start + seq!['-'] + end;
    assert(elem[start.len() as int] == '-');
    lemma_split_concat(start, end, '-');
    lemma_split_without_sep(start, '-');
    lemma_split_without_sep(end, '-');
}

/// A specification of one element names what the element, trimmed, names.
pub proof fn lemma_single_element(spec: Seq<char>, offset: int)
    requires
        !spec.contains(','),
    ensures
        columns(spec, offset) == for_token(trimmed(spec), element_columns(trimmed(spec), offset)),
{
    lemma_split_without_sep(spec, ',');
    // The one element stands behind an empty list.
    assert(elements_columns(seq![spec].drop_last(), offset) == Ok::<Seq<usize>, Rejection>(
        Seq::empty(),
    ));
}

/// Lists of elements are read one after the other: what two lists name together is what
/// the first names followed by what the second names, and the first refusal stands.
pub proof fn lemma_elements_concat(first: Seq<Seq<char>>, second: Seq<Seq<char>>, offset: int)
    ensures
        elements_columns(first + second, offset) == in_turn(
            elements_columns(first, offset),
            elements_columns(second, offset),
        ),
    decreases second.len(),
{
    if second.len() > 0 {
        assert((first + second).drop_last() == first + second.drop_last());
        lemma_elements_concat(first, second.drop_last(), offset);
        match (
            elements_columns(first, offset),
            elements_columns(second.drop_last(), offset),
            element_columns(trimmed(second.last()), offset),
        ) {
            (Ok(a), Ok(b), Ok(c)) => {
                assert((a + b) + c == a + (b + c));
            },
            _ => {},
        }
    }
}

/// A specification is read element by element, in order: `a`, a comma and `b` name the
/// columns that `a` names followed by those that `b` names, repeats and all; where one
/// of the two is refused, so is the whole, for the first element at fault.
pub proof fn lemma_columns_concat(a: Seq<char>, b: Seq<char>, offset: int)
    ensures
        columns(a + seq![','] + b, offset) == in_turn(columns(a, offset), columns(b, offset)),
{
    lemma_split_concat(a, b, ',');
    lemma_elements_concat(split(a, ','), split(b, ','), offset);
}

/// Appends the numbers from `lo` up to, not including, `hi` to `out`.
fn push_run(out: &mut Vec<usize>, lo: usize, hi: usize)
    requires
        lo <= hi,
    ensures
        final(out)@ == old(out)@ + run(lo as int, hi as int),
{
    let mut i: usize = lo;
    while i < hi
        invariant
            lo <= i <= hi,
            out@ == old(out)@ + run(lo as int, i as int),
        decreases hi - i,
    {
        out.push(i);
        i += 1;
    }
}

/// Appends to `out` the zero-based columns that the element `elem` names, or refuses
/// the element and leaves `out` as it is.
pub fn parse_element(elem: &str, offset: usize, out: &mut Vec<usize>) -> (res: Result<
    (),
    ColsErrorKind,
>)
    requires
        offset == 0 || offset == 1,
    ensures
        match element_columns(elem@, offset as int) {
            Ok(named) => res is Ok && final(out)@ == old(out)@ + named,
            Err(kind) => res == Err::<(), ColsErrorKind>(kind) && final(out)@ == old(out)@,
        },
{
    let parts = split_on(elem, '-');
    proof {
        lemma_split_without_sep(elem@, '-');
    }
    if parts.len() == 1 {
        match parse_number(elem) {
            Some(i) => {
                if i < offset {
                    Err(ColsErrorKind::IndexBelowOffset)
                } else {
                    out.push(i - offset);
                    Ok(())
                }
            },
            None => Err(ColsErrorKind::NotAnInteger),
        }
    } else if parts.len() != 2 {
        Err(ColsErrorKind::RangeParts)
    } else {
        match (parse_number(parts[0]), parse_number(parts[1])) {
            (Some(a), Some(b)) => {
                if a < offset {
                    Err(ColsErrorKind::StartBelowOffset)
                } else if a - offset >= b {
                    Err(ColsErrorKind::EmptyRange)
                } else {
                    push_run(out, a - offset, b);
                    Ok(())
                }
            },
            _ => Err(ColsErrorKind::NotAnInteger),
        }
    }
}

/// The zero-based columns that the column specification `cols` names, where `offset`, 0
/// or 1, is the number that the first column goes by: see `columns`. A specification
/// with an element at fault is refused as a whole.
pub fn parse_arg_cols(cols: &String, offset: usize) -> (res: Result<Vec<usize>, ColsError>)
    requires
        offset == 0 || offset == 1,
    ensures
        match columns(cols@, offset as int) {
            Ok(named) => res matches Ok(found) && found@ == named,
            Err(rejection) => res matches Err(error) && error@ == rejection,
        },
{
    let elems = split_on(cols.as_str(), ',');
    let ghost all = texts(elems@);
    let mut found: Vec<usize> = Vec::new();
    let mut k: usize = 0;
    while k < elems.len()
        invariant
            k <= elems.len(),
            offset == 0 || offset == 1,
            all == texts(elems@),
            all == split(cols@, ','),
            elements_columns(all.take(k as int), offset as int) == Ok::<Seq<usize>, Rejection>(
                found@,
            ),
        decreases elems.len() - k,
    {
        let token = trim(elems[k]);
        proof {
            assert(all.take(k + 1).drop_last() == all.take(k as int));
        }
        match parse_element(token, offset, &mut found) {
            Ok(()) => {},
            Err(kind) => {
                proof {
                    lemma_elements_concat(all.take(k + 1), all.skip(k + 1), offset as int);
                    assert(all.take(k + 1) + all.skip(k + 1) == all);
                }
                return Err(ColsError { kind, token: String::from_str(token) });
            },
        }
        k += 1;
    }
    assert(all.take(k as int) == all);
    Ok(found)
}

} // verus!
