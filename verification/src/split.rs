use crate::scan::{begin, byte_offset, lemma_byte_offset_rises, read_char, slice_between};
use vstd::prelude::*;
use vstd::std_specs::iter::IteratorSpec;
use vstd::string::*;

verus! {

/// The texts that a sequence of string slices stands for.
pub open spec fn texts(parts: Seq<&str>) -> Seq<Seq<char>> {
    parts.map_values(|p: &str| p@)
}

/// The parts put together again, with `sep` between each two neighbours.
pub open spec fn join(parts: Seq<Seq<char>>, sep: char) -> Seq<char>
    decreases parts.len(),
{
    if parts.len() == 0 {
        Seq::empty()
    } else if parts.len() == 1 {
        parts[0]
    } else {
        join(parts.drop_last(), sep).push(sep) + parts.last()
    }
}

/// Where the piece begins that position `n` of a text falls into, when the text is cut at
/// the positions in `cuts`: just behind the last cut before `n`, or at 0.
pub open spec fn piece_start(cuts: Set<int>, n: int) -> int
    decreases n,
{
    if n <= 0 {
        0
    } else if cuts.contains(n - 1) {
        n
    } else {
        piece_start(cuts, n - 1)
    }
}

/// How many of the positions in `cuts` lie in `0..n`.
pub open spec fn cuts_before(cuts: Set<int>, n: int) -> nat
    decreases n,
{
    if n <= 0 {
        0
    } else if cuts.contains(n - 1) {
        cuts_before(cuts, n - 1) + 1
    } else {
        cuts_before(cuts, n - 1)
    }
}

/// The pieces of `s` that a cut before position `n` has closed, in order. The character
/// at a cut belongs to no piece.
pub open spec fn closed_pieces(s: Seq<char>, cuts: Set<int>, n: int) -> Seq<Seq<char>>
    decreases n,
{
    if n <= 0 {
        Seq::empty()
    } else if cuts.contains(n - 1) {
        closed_pieces(s, cuts, n - 1).push(s.subrange(piece_start(cuts, n - 1), n - 1))
    } else {
        closed_pieces(s, cuts, n - 1)
    }
}

/// The pieces that the first `n` characters of `s` fall into when cut at `cuts`: those
/// that a cut has closed, and the one that is still open at `n`.
pub open spec fn pieces_upto(s: Seq<char>, cuts: Set<int>, n: int) -> Seq<Seq<char>> {
    closed_pieces(s, cuts, n).push(s.subrange(piece_start(cuts, n), n))
}

/// The pieces that `s` falls into when it is cut at the positions in `cuts`.
pub open spec fn pieces(s: Seq<char>, cuts: Set<int>) -> Seq<Seq<char>> {
    pieces_upto(s, cuts, s.len() as int)
}

/// The positions of `s` that hold `sep`.
pub open spec fn occurrences(s: Seq<char>, sep: char) -> Set<int> {
    Set::new(|i: int| 0 <= i < s.len() && s[i] == sep)
}

/// `s` split at every occurrence of `sep`.
pub open spec fn split(s: Seq<char>, sep: char) -> Seq<Seq<char>> {
    pieces(s, occurrences(s, sep))
}

/// The piece that position `n` falls into begins at or before `n`, just behind a cut or
/// at 0, and no cut lies between its start and `n`.
pub proof fn lemma_piece_start_bounds(cuts: Set<int>, n: int)
    requires
        0 <= n,
    ensures
        0 <= piece_start(cuts, n) <= n,
        forall|k: int| piece_start(cuts, n) <= k < n ==> !cuts.contains(k),
        piece_start(cuts, n) > 0 ==> cuts.contains(piece_start(cuts, n) - 1),
    decreases n,
{
    if n > 0 && !cuts.contains(n - 1) {
        lemma_piece_start_bounds(cuts, n - 1);
    }
}

/// There is one piece more than there are cuts.
pub proof fn lemma_pieces_len(s: Seq<char>, cuts: Set<int>, n: int)
    requires
        0 <= n,
    ensures
        closed_pieces(s, cuts, n).len() == cuts_before(cuts, n),
        pieces_upto(s, cuts, n).len() == cuts_before(cuts, n) + 1,
    decreases n,
{
    if n > 0 {
        lemma_pieces_len(s, cuts, n - 1);
    }
}

/// Where every cut before `n` stands on a `sep`, joining with `sep` the pieces that the
/// first `n` characters of `s` fall into gives back those characters.
pub proof fn lemma_join_pieces_upto(s: Seq<char>, cuts: Set<int>, sep: char, n: int)
    requires
        0 <= n <= s.len(),
        forall|i: int| 0 <= i < n && cuts.contains(i) ==> s[i] == sep,
    ensures
        join(pieces_upto(s, cuts, n), sep) == s.take(n),
    decreases n,
{
    if n > 0 {
        lemma_join_pieces_upto(s, cuts, sep, n - 1);
        lemma_piece_start_bounds(cuts, n);
        lemma_piece_start_bounds(cuts, n - 1);
        let closed = closed_pieces(s, cuts, n);
        let open = s.subrange(piece_start(cuts, n), n);
        assert(closed.push(open).drop_last() == closed);
        if !cuts.contains(n - 1) && closed.len() > 0 {
            // No piece was closed: the open one has grown by the character at `n - 1`.
            let grown = s.subrange(piece_start(cuts, n - 1), n - 1);
            let joined = join(closed, sep).push(sep);
            assert(pieces_upto(s, cuts, n - 1).drop_last() == closed);
            assert(joined + grown.push(s[n - 1]) == (joined + grown).push(s[n - 1]));
        }
    }
}

/// Cutting loses nothing: where every cut of `s` stands on a `sep`, joining the pieces
/// of `s` with `sep` gives back `s`.
pub proof fn lemma_join_pieces(s: Seq<char>, cuts: Set<int>, sep: char)
    requires
        forall|i: int| 0 <= i < s.len() && cuts.contains(i) ==> s[i] == sep,
    ensures
        join(pieces(s, cuts), sep) == s,
{
    lemma_join_pieces_upto(s, cuts, sep, s.len() as int);
}

/// Splitting at a character and joining with it again gives back the text.
pub proof fn lemma_join_split(s: Seq<char>, sep: char)
    ensures
        join(split(s, sep), sep) == s,
{
    lemma_join_pieces(s, occurrences(s, sep), sep);
}

/// The positions in `cuts` that lie in `0..n`.
pub open spec fn cuts_within(cuts: Set<int>, n: int) -> Set<int> {
    Set::new(|i: int| 0 <= i < n && cuts.contains(i))
}

/// `cuts_before` counts the cuts that lie in `0..n`.
pub proof fn lemma_cuts_before_is_len(cuts: Set<int>, n: int)
    requires
        0 <= n,
    ensures
        cuts_within(cuts, n).finite(),
        cuts_within(cuts, n).len() == cuts_before(cuts, n),
    decreases n,
{
    if n == 0 {
        assert(cuts_within(cuts, n) =~= Set::<int>::empty());
    } else {
        lemma_cuts_before_is_len(cuts, n - 1);
        if cuts.contains(n - 1) {
            assert(cuts_within(cuts, n) =~= cuts_within(cuts, n - 1).insert(n - 1));
        } else {
            assert(cuts_within(cuts, n) =~= cuts_within(cuts, n - 1));
        }
    }
}

/// A character that no cut stands on is kept, in the piece that the cuts before it
/// number, as far into that piece as it stands behind the piece's start.
pub proof fn lemma_piece_holds(s: Seq<char>, cuts: Set<int>, i: int, n: int)
    requires
        0 <= i < n <= s.len(),
        !cuts.contains(i),
    ensures
        cuts_before(cuts, i) < pieces_upto(s, cuts, n).len(),
        0 <= i - piece_start(cuts, i) < pieces_upto(s, cuts, n)[cuts_before(cuts, i) as int].len(),
        pieces_upto(s, cuts, n)[cuts_before(cuts, i) as int][i - piece_start(cuts, i)] == s[i],
    decreases n,
{
    lemma_piece_start_bounds(cuts, n - 1);
    lemma_pieces_len(s, cuts, i);
    if n > i + 1 {
        lemma_piece_holds(s, cuts, i, n - 1);
    }
}

/// The piece that a cut at `i` closes is what stands between the cut before it and `i`,
/// and it is the piece that the cuts before `i` number.
pub proof fn lemma_closed_piece(s: Seq<char>, cuts: Set<int>, i: int, n: int)
    requires
        0 <= i < n <= s.len(),
        cuts.contains(i),
    ensures
        cuts_before(cuts, i) < closed_pieces(s, cuts, n).len(),
        closed_pieces(s, cuts, n)[cuts_before(cuts, i) as int] == s.subrange(
            piece_start(cuts, i),
            i,
        ),
    decreases n,
{
    lemma_pieces_len(s, cuts, i);
    if n > i + 1 {
        lemma_closed_piece(s, cuts, i, n - 1);
    }
}

/// Cutting a text in two at a cut: where `cuts` holds, before the character that joins
/// `a` and `b`, the cuts of `a`, on that character a cut, and behind it the cuts of `b`,
/// the pieces of the whole are those of `a` followed by those of `b`.
pub proof fn lemma_pieces_concat(
    a: Seq<char>,
    mid: char,
    b: Seq<char>,
    cuts_a: Set<int>,
    cuts_b: Set<int>,
    cuts: Set<int>,
)
    requires
        forall|k: int| 0 <= k < a.len() ==> (cuts.contains(k) <==> cuts_a.contains(k)),
        cuts.contains(a.len() as int),
        forall|k: int|
            0 <= k < b.len() ==> (cuts.contains(a.len() + 1 + k) <==> #[trigger] cuts_b.contains(k)),
    ensures
        pieces(a + seq![mid] + b, cuts) == pieces(a, cuts_a) + pieces(b, cuts_b),
{
    let s = a + seq![mid] + b;
    let la = a.len() as int;
    let lb = b.len() as int;
    // Up to the cut between them, the whole is cut as `a` is.
    lemma_pieces_front(s, a, cuts, cuts_a, la);
    lemma_piece_start_bounds(cuts_a, la);
    assert(s.subrange(piece_start(cuts, la), la) == a.subrange(piece_start(cuts_a, la), la));
    // Behind it, the whole is cut as `b` is.
    lemma_pieces_back(s, a, b, cuts, cuts_a, cuts_b, lb);
    lemma_piece_start_bounds(cuts_b, lb);
    assert(s.subrange(la + 1 + piece_start(cuts_b, lb), s.len() as int) == b.subrange(
        piece_start(cuts_b, lb),
        lb,
    ));
}

/// The first `n` characters of a text are cut as those of any text that begins with them
/// and has the same cuts among them.
proof fn lemma_pieces_front(s: Seq<char>, a: Seq<char>, cuts: Set<int>, cuts_a: Set<int>, n: int)
    requires
        0 <= n <= a.len() <= s.len(),
        forall|k: int| 0 <= k < a.len() ==> s[k] == a[k],
        forall|k: int| 0 <= k < a.len() ==> (cuts.contains(k) <==> cuts_a.contains(k)),
    ensures
        piece_start(cuts, n) == piece_start(cuts_a, n),
        closed_pieces(s, cuts, n) == closed_pieces(a, cuts_a, n),
    decreases n,
{
    if n > 0 {
        lemma_pieces_front(s, a, cuts, cuts_a, n - 1);
        lemma_piece_start_bounds(cuts_a, n - 1);
        assert(s.subrange(piece_start(cuts, n - 1), n - 1) == a.subrange(
            piece_start(cuts_a, n - 1),
            n - 1,
        ));
    }
}

/// Behind a cut, a text is cut as what stands behind the cut is cut by itself.
proof fn lemma_pieces_back(
    s: Seq<char>,
    a: Seq<char>,
    b: Seq<char>,
    cuts: Set<int>,
    cuts_a: Set<int>,
    cuts_b: Set<int>,
    m: int,
)
    requires
        0 <= m <= b.len(),
        s.len() == a.len() + 1 + b.len(),
        forall|k: int| 0 <= k < b.len() ==> s[a.len() + 1 + k] == b[k],
        cuts.contains(a.len() as int),
        forall|k: int|
            0 <= k < b.len() ==> (cuts.contains(a.len() + 1 + k) <==> #[trigger] cuts_b.contains(k)),
        closed_pieces(s, cuts, a.len() as int + 1) == pieces(a, cuts_a),
    ensures
        piece_start(cuts, a.len() + 1 + m) == a.len() + 1 + piece_start(cuts_b, m),
        closed_pieces(s, cuts, a.len() + 1 + m) == pieces(a, cuts_a) + closed_pieces(b, cuts_b, m),
    decreases m,
{
    if m > 0 {
        lemma_pieces_back(s, a, b, cuts, cuts_a, cuts_b, m - 1);
        lemma_piece_start_bounds(cuts_b, m - 1);
        if cuts_b.contains(m - 1) {
            let start = piece_start(cuts_b, m - 1);
            assert(s.subrange(a.len() + 1 + start, a.len() + m) == b.subrange(start, m - 1));
        }
    }
}

/// Splitting goes part by part: the parts of `a`, a separator and `b` are those of `a`
/// followed by those of `b`.
pub proof fn lemma_split_concat(a: Seq<char>, b: Seq<char>, sep: char)
    ensures
        split(a + seq![sep] + b, sep) == split(a, sep) + split(b, sep),
{
    let s = a + seq![sep] + b;
    lemma_pieces_concat(a, sep, b, occurrences(a, sep), occurrences(b, sep), occurrences(s, sep));
}

/// No cut lies before `n` where, and only where, none has been counted.
pub proof fn lemma_cuts_before_none(cuts: Set<int>, n: int)
    requires
        0 <= n,
    ensures
        cuts_before(cuts, n) == 0 <==> forall|k: int| 0 <= k < n ==> !cuts.contains(k),
    decreases n,
{
    if n > 0 {
        lemma_cuts_before_none(cuts, n - 1);
    }
}

/// A text that does not hold `sep` is split into one part, itself; one that holds it is
/// split into more.
pub proof fn lemma_split_without_sep(s: Seq<char>, sep: char)
    ensures
        split(s, sep).len() == 1 <==> !s.contains(sep),
        !s.contains(sep) ==> split(s, sep) == seq![s],
{
    let cuts = occurrences(s, sep);
    let n = s.len() as int;
    lemma_pieces_len(s, cuts, n);
    lemma_cuts_before_none(cuts, n);
    if s.contains(sep) {
        let i = choose|i: int| 0 <= i < s.len() && s[i] == sep;
        assert(cuts.contains(i));
    } else {
        lemma_join_split(s, sep);
    }
}

/// `s` split at every `sep`, as slices of `s`.
pub fn split_on<'a>(s: &'a str, sep: char) -> (parts: Vec<&'a str>)
    ensures
        texts(parts@) == split(s@, sep),
{
    let ghost cuts = occurrences(s@, sep);
    let mut parts: Vec<&'a str> = Vec::new();
    let (mut chars, end) = begin(s);
    let mut offset: usize = 0;
    let mut start: usize = 0;
    let ghost mut i: int = 0;
    while offset < end
        invariant
            0 <= i <= s@.len(),
            chars.remaining() == s@.skip(i),
            chars.obeys_prophetic_iter_laws(),
            offset == byte_offset(s@, i),
            end == byte_offset(s@, s@.len() as int),
            cuts == occurrences(s@, sep),
            start == byte_offset(s@, piece_start(cuts, i)),
            texts(parts@) == closed_pieces(s@, cuts, i),
        decreases end - offset,
    {
        proof {
            lemma_piece_start_bounds(cuts, i);
        }
        let (c, next) = read_char(&mut chars, offset, end, Ghost(s@), Ghost(i));
        if c == sep {
            let piece = slice_between(s, Ghost(piece_start(cuts, i)), Ghost(i), start, offset);
            parts.push(piece);
            start = next;
        }
        offset = next;
        proof {
            i = i + 1;
        }
    }
    proof {
        lemma_byte_offset_rises(s@, i, s@.len() as int);
        lemma_piece_start_bounds(cuts, i);
    }
    let piece = slice_between(s, Ghost(piece_start(cuts, i)), Ghost(i), start, offset);
    parts.push(piece);
    parts
}

/// The parts joined by commas.
pub fn join_commas(parts: &Vec<&str>) -> (joined: String)
    ensures
        joined@ == join(texts(parts@), ','),
{
    let ghost all = texts(parts@);
    let mut joined = String::new();
    let mut k: usize = 0;
    while k < parts.len()
        invariant
            k <= parts.len(),
            all == texts(parts@),
            joined@ == join(all.take(k as int), ','),
        decreases parts.len() - k,
    {
        if k > 0 {
            proof {
                reveal_strlit(",");
            }
            joined.append(",");
        }
        joined.append(parts[k]);
        proof {
            assert(all.take(k + 1).drop_last() == all.take(k as int));
        }
        k += 1;
    }
    assert(all.take(k as int) == all);
    joined
}

} // verus!
