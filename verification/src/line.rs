use crate::quote::{
    lemma_quote_free_is_normal, lemma_state_of_back, lemma_state_of_front, quote_free,
    state_before, QuoteState,
};
use crate::scan::{begin, byte_offset, lemma_byte_offset_rises, read_char, slice_between};
use crate::split::{
    closed_pieces, cuts_before, cuts_within, join, join_commas, lemma_closed_piece,
    lemma_cuts_before_is_len, lemma_join_pieces, lemma_piece_holds, lemma_piece_start_bounds,
    lemma_pieces_concat, lemma_pieces_len, occurrences, piece_start, pieces, split, texts,
};
use crate::text::{trim, trimmed};
use vstd::prelude::*;
use vstd::std_specs::iter::IteratorSpec;
use vstd::string::*;

verus! {

/// The positions of `line` that end a field: its commas outside any quoted region.
pub open spec fn separators(line: Seq<char>) -> Set<int> {
    Set::new(
        |i: int|
            0 <= i < line.len() && line[i] == ',' && state_before(line, i) == QuoteState::Normal,
    )
}

/// The fields of `line`: what stands between its separators, quotes and backslashes
/// included as they are.
pub open spec fn split_fields(line: Seq<char>) -> Seq<Seq<char>> {
    pieces(line, separators(line))
}

/// The number of the field that position `i` of `line` falls into: that of the
/// separators before it.
pub open spec fn field_of(line: Seq<char>, i: int) -> int {
    cuts_before(separators(line), i) as int
}

/// Where the field begins that position `i` of `line` falls into: just behind the last
/// separator before `i`, or at 0.
pub open spec fn field_start(line: Seq<char>, i: int) -> int {
    piece_start(separators(line), i)
}

/// For each of `cols`, in their order, the field with that number, or the empty text
/// where there is no such field.
pub open spec fn select(fields: Seq<Seq<char>>, cols: Seq<usize>) -> Seq<Seq<char>> {
    Seq::new(
        cols.len(),
        |k: int|
            if (cols[k] as int) < fields.len() {
                fields[cols[k] as int]
            } else {
                Seq::empty()
            },
    )
}

/// What is left of `line` when only the columns `cols` are kept, in their order.
pub open spec fn cut(line: Seq<char>, cols: Seq<usize>) -> Seq<char> {
    join(select(split_fields(trimmed(line)), cols), ',')
}

/// Splitting loses nothing: the fields of a line, joined by commas, are the line again,
/// whatever it holds of quotes and backslashes.
pub proof fn lemma_fields_rejoin(line: Seq<char>)
    ensures
        join(split_fields(line), ',') == line,
{
    lemma_join_pieces(line, separators(line), ',');
}

/// A line has one field more than it has separators.
pub proof fn lemma_field_count(line: Seq<char>)
    ensures
        separators(line).finite(),
        split_fields(line).len() == separators(line).len() + 1,
{
    let n = line.len() as int;
    lemma_cuts_before_is_len(separators(line), n);
    lemma_pieces_len(line, separators(line), n);
    assert(cuts_within(separators(line), n) =~= separators(line));
}

/// A line without quote characters is split at every comma.
pub proof fn lemma_quote_free_fields(line: Seq<char>)
    requires
        quote_free(line),
    ensures
        split_fields(line) == split(line, ','),
{
    assert forall|i: int| separators(line).contains(i) == occurrences(line, ',').contains(i) by {
        if 0 <= i < line.len() {
            lemma_quote_free_is_normal(line, i);
        }
    }
    assert(separators(line) =~= occurrences(line, ','));
}

/// The field that a separator ends is what stands between the separator before it, or
/// the start of the line, and itself.
pub proof fn lemma_field_before_separator(line: Seq<char>, i: int)
    requires
        separators(line).contains(i),
    ensures
        0 <= field_of(line, i) < split_fields(line).len() - 1,
        split_fields(line)[field_of(line, i)] == line.subrange(field_start(line, i), i),
        field_of(line, i + 1) == field_of(line, i) + 1,
        field_start(line, i + 1) == i + 1,
{
    lemma_closed_piece(line, separators(line), i, line.len() as int);
}

/// The last field is what stands behind the last separator, or the whole line where it
/// has none.
pub proof fn lemma_last_field(line: Seq<char>)
    ensures
        split_fields(line).last() == line.subrange(
            field_start(line, line.len() as int),
            line.len() as int,
        ),
        field_of(line, line.len() as int) == split_fields(line).len() - 1,
{
    lemma_pieces_len(line, separators(line), line.len() as int);
}

/// A character of a line that is no separator is kept: it stands in the field that its
/// position falls into, as far into the field as it stands behind the field's start.
pub proof fn lemma_char_stays_in_field(line: Seq<char>, i: int)
    requires
        0 <= i < line.len(),
        !separators(line).contains(i),
    ensures
        0 <= field_of(line, i) < split_fields(line).len(),
        0 <= i - field_start(line, i) < split_fields(line)[field_of(line, i)].len(),
        split_fields(line)[field_of(line, i)][i - field_start(line, i)] == line[i],
{
    lemma_piece_holds(line, separators(line), i, line.len() as int);
}

/// A comma inside a quoted region, closed later or not, ends no field: it is kept in
/// the field around it.
pub proof fn lemma_quoted_comma_stays(line: Seq<char>, i: int)
    requires
        0 <= i < line.len(),
        line[i] == ',',
        state_before(line, i) != QuoteState::Normal,
    ensures
        !separators(line).contains(i),
        0 <= field_of(line, i) < split_fields(line).len(),
        0 <= i - field_start(line, i) < split_fields(line)[field_of(line, i)].len(),
        split_fields(line)[field_of(line, i)][i - field_start(line, i)] == ',',
        field_of(line, i + 1) == field_of(line, i),
{
    lemma_char_stays_in_field(line, i);
}

/// A comma behind text whose quoted regions are all closed separates: the fields of
/// `a`, a comma and `b` are the fields of `a` followed by those of `b`.
pub proof fn lemma_fields_concat(a: Seq<char>, b: Seq<char>)
    requires
        state_before(a, a.len() as int) == QuoteState::Normal,
    ensures
        split_fields(a + seq![','] + b) == split_fields(a) + split_fields(b),
{
    let line = a + seq![','] + b;
    let la = a.len() as int;
    assert forall|k: int| 0 <= k < a.len() implies (separators(line).contains(k)
        <==> separators(a).contains(k)) by {
        lemma_state_of_front(line, a, k);
    }
    lemma_state_of_front(line, a, la);
    assert forall|k: int| 0 <= k < b.len() implies (separators(line).contains(la + 1 + k)
        <==> #[trigger] separators(b).contains(k)) by {
        lemma_state_of_back(line, b, la + 1, k);
    }
    lemma_pieces_concat(a, ',', b, separators(a), separators(b), separators(line));
}

/// Selecting never fails: there is one entry for each of `cols`, in their order; a column
/// that the fields have gives its field, as often as it is named, and one that they do
/// not have gives the empty text.
pub proof fn lemma_select_is_total(fields: Seq<Seq<char>>, cols: Seq<usize>)
    ensures
        select(fields, cols).len() == cols.len(),
        forall|k: int|
            0 <= k < cols.len() && cols[k] < fields.len() ==> #[trigger] select(fields, cols)[k]
                == fields[cols[k] as int],
        forall|k: int|
            0 <= k < cols.len() && cols[k] >= fields.len() ==> #[trigger] select(fields, cols)[k]
                == Seq::<char>::empty(),
{
}

/// Cutting a line to all of its columns, in their order, gives back the trimmed line.
pub proof fn lemma_cut_every_column(line: Seq<char>, cols: Seq<usize>)
    requires
        cols.len() == split_fields(trimmed(line)).len(),
        forall|k: int| 0 <= k < cols.len() ==> cols[k] == k,
    ensures
        cut(line, cols) == trimmed(line),
{
    let fields = split_fields(trimmed(line));
    assert(select(fields, cols) =~= fields);
    lemma_fields_rejoin(trimmed(line));
}

/// The fields of `line`, as slices of `line`, in one pass over it. They are what stands
/// between the commas outside quoted regions: joined by commas again they make up the
/// line, and there is one more of them than of such commas.
pub fn tokenize<'a>(line: &'a str) -> (fields: Vec<&'a str>)
    ensures
        texts(fields@) == split_fields(line@),
        join(texts(fields@), ',') == line@,
        fields@.len() == separators(line@).len() + 1,
{
    let ghost cuts = separators(line@);
    let mut fields: Vec<&'a str> = Vec::new();
    let mut state = QuoteState::Normal;
    let (mut chars, end) = begin(line);
    let mut offset: usize = 0;
    let mut start: usize = 0;
    let ghost mut i: int = 0;
    while offset < end
        invariant
            0 <= i <= line@.len(),
            chars.remaining() == line@.skip(i),
            chars.obeys_prophetic_iter_laws(),
            offset == byte_offset(line@, i),
            end == byte_offset(line@, line@.len() as int),
            cuts == separators(line@),
            state == state_before(line@, i),
            start == byte_offset(line@, piece_start(cuts, i)),
            texts(fields@) == closed_pieces(line@, cuts, i),
        decreases end - offset,
    {
        proof {
            lemma_piece_start_bounds(cuts, i);
        }
        let (c, next) = read_char(&mut chars, offset, end, Ghost(line@), Ghost(i));
        if state.ends_field(c) {
            let field = slice_between(line, Ghost(piece_start(cuts, i)), Ghost(i), start, offset);
            fields.push(field);
            start = next;
        }
        state = state.next(c);
        offset = next;
        proof {
            i = i + 1;
        }
    }
    proof {
        lemma_byte_offset_rises(line@, i, line@.len() as int);
        lemma_piece_start_bounds(cuts, i);
    }
    let field = slice_between(line, Ghost(piece_start(cuts, i)), Ghost(i), start, offset);
    fields.push(field);
    proof {
        lemma_fields_rejoin(line@);
        lemma_field_count(line@);
    }
    fields
}

/// The fields of `line` without the white space around it: see `tokenize`.
pub fn split_line<'a>(line: &'a String) -> (fields: Vec<&'a str>)
    ensures
        texts(fields@) == split_fields(trimmed(line@)),
        join(texts(fields@), ',') == trimmed(line@),
        fields@.len() == separators(trimmed(line@)).len() + 1,
{
    tokenize(trim(line.as_str()))
}

/// The fields numbered by `cols`, in the order of `cols`, joined by commas. A number
/// that no field has stands for an empty field.
pub fn select_columns(fields: &Vec<&str>, cols: &Vec<usize>) -> (res: String)
    ensures
        res@ == join(select(texts(fields@), cols@), ','),
{
    let mut picked: Vec<&str> = Vec::new();
    let mut k: usize = 0;
    while k < cols.len()
        invariant
            k <= cols.len(),
            texts(picked@) == select(texts(fields@), cols@).take(k as int),
        decreases cols.len() - k,
    {
        let col: usize = cols[k];
        let ghost before = picked@;
        if col >= fields.len() {
            let blank: &str = "";
            proof {
                reveal_strlit("");
                assert(blank@ =~= Seq::<char>::empty());
            }
            picked.push(blank);
            assert(texts(picked@) == texts(before).push(blank@));
        } else {
            picked.push(fields[col]);
            assert(texts(picked@) == texts(before).push(fields@[col as int]@));
        }
        k += 1;
    }
    assert(select(texts(fields@), cols@).take(k as int) == select(texts(fields@), cols@));
    join_commas(&picked)
}

/// The columns `cols` of `line`, in the order of `cols`, joined by commas: the line is
/// trimmed and split into fields with quoting observed, and each number in `cols` picks
/// the field it names, or an empty one where the line has too few.
pub fn cut_line(line: &String, cols: &Vec<usize>) -> (res: String)
    ensures
        res@ == cut(line@, cols@),
{
    let fields = split_line(line);
    select_columns(&fields, cols)
}

} // verus!
