use crate::scan::{begin, byte_offset, lemma_byte_offset_rises, read_char, slice_between};
use vstd::prelude::*;
use vstd::std_specs::iter::IteratorSpec;
use vstd::string::*;

verus! {

/// Whether `c` is white space: one of the code points that Unicode marks `White_Space`,
/// which are the space, the controls from tab to carriage return, next line, no-break
/// space, and the spaces and line and paragraph separators from U+1680 on.
pub open spec fn is_whitespace(c: char) -> bool {
    let u = c as u32;
    ||| 0x09 <= u <= 0x0D
    ||| u == 0x20
    ||| u == 0x85
    ||| u == 0xA0
    ||| u == 0x1680
    ||| 0x2000 <= u <= 0x200A
    ||| u == 0x2028
    ||| u == 0x2029
    ||| u == 0x202F
    ||| u == 0x205F
    ||| u == 0x3000
}

/// `s` without its leading white space.
pub open spec fn trim_start(s: Seq<char>) -> Seq<char>
    decreases s.len(),
{
    if s.len() > 0 && is_whitespace(s.first()) {
        trim_start(s.drop_first())
    } else {
        s
    }
}

/// `s` without its trailing white space.
pub open spec fn trim_end(s: Seq<char>) -> Seq<char>
    decreases s.len(),
{
    if s.len() > 0 && is_whitespace(s.last()) {
        trim_end(s.drop_last())
    } else {
        s
    }
}

/// `s` without its leading and trailing white space.
pub open spec fn trimmed(s: Seq<char>) -> Seq<char> {
    trim_end(trim_start(s))
}

/// Every character of `s` from position `from` up to, not including, `to` is white space.
pub open spec fn blank_between(s: Seq<char>, from: int, to: int) -> bool {
    forall|k: int| from <= k < to ==> is_whitespace(#[trigger] s[k])
}

/// White space up to the first character that is none is what `trim_start` takes off.
proof fn lemma_trim_start_skips(s: Seq<char>, a: int)
    requires
        0 <= a <= s.len(),
        blank_between(s, 0, a),
        a < s.len() ==> !is_whitespace(s[a]),
    ensures
        trim_start(s) == s.skip(a),
    decreases a,
{
    if a > 0 {
        lemma_trim_start_skips(s.drop_first(), a - 1);
    }
}

/// White space behind the last character that is none is what `trim_end` takes off.
proof fn lemma_trim_end_takes(s: Seq<char>, b: int)
    requires
        0 <= b <= s.len(),
        blank_between(s, b, s.len() as int),
        b > 0 ==> !is_whitespace(s[b - 1]),
    ensures
        trim_end(s) == s.take(b),
    decreases s.len() - b,
{
    if b < s.len() {
        lemma_trim_end_takes(s.drop_last(), b);
    }
}

/// Trimming keeps exactly the characters from the first to the last that is not white
/// space: where all before `a` and all from `b` on is white space, and the characters at
/// `a` and before `b` are not, `trimmed(s)` is `s` from `a` to `b`. Where `s` is blank
/// throughout, nothing is kept.
pub proof fn lemma_trimmed_span(s: Seq<char>, a: int, b: int)
    requires
        0 <= a <= b <= s.len(),
        blank_between(s, 0, a),
        blank_between(s, b, s.len() as int),
        a < b ==> !is_whitespace(s[a]) && !is_whitespace(s[b - 1]),
        a == b ==> blank_between(s, 0, s.len() as int),
    ensures
        trimmed(s) == s.subrange(a, b),
{
    if a == b {
        lemma_trim_start_skips(s, s.len() as int);
    } else {
        lemma_trim_start_skips(s, a);
        lemma_trim_end_takes(s.skip(a), b - a);
    }
}

/// Whether `c` is white space.
pub fn is_space(c: char) -> (r: bool)
    ensures
        r == is_whitespace(c),
{
    let u: u32 = c as u32;
    (0x09 <= u && u <= 0x0D) || u == 0x20 || u == 0x85 || u == 0xA0 || u == 0x1680 || (0x2000 <= u
        && u <= 0x200A) || u == 0x2028 || u == 0x2029 || u == 0x202F || u == 0x205F || u == 0x3000
}

/// The slice of `s` that is left when its leading and trailing white space is taken off.
pub fn trim<'a>(s: &'a str) -> (r: &'a str)
    ensures
        r@ == trimmed(s@),
{
    let (mut chars, end) = begin(s);
    let mut offset: usize = 0;
    let mut from: usize = 0;
    let mut to: usize = 0;
    let ghost mut i: int = 0;
    let ghost mut a: int = 0;
    let ghost mut b: int = 0;
    while offset < end
        invariant
            0 <= i <= s@.len(),
            chars.remaining() == s@.skip(i),
            chars.obeys_prophetic_iter_laws(),
            offset == byte_offset(s@, i),
            end == byte_offset(s@, s@.len() as int),
            0 <= a <= b <= i,
            from == byte_offset(s@, a),
            to == byte_offset(s@, b),
            a == b ==> a == 0 && blank_between(s@, 0, i),
            a < b ==> blank_between(s@, 0, a) && !is_whitespace(s@[a]) && !is_whitespace(s@[b - 1])
                && blank_between(s@, b, i),
        decreases end - offset,
    {
        proof {
            lemma_byte_offset_rises(s@, a, b);
        }
        let (c, next) = read_char(&mut chars, offset, end, Ghost(s@), Ghost(i));
        if !is_space(c) {
            if from == to {
                from = offset;
                proof {
                    a = i;
                }
            }
            to = next;
            proof {
                b = i + 1;
            }
        }
        offset = next;
        proof {
            i = i + 1;
        }
    }
    proof {
        lemma_byte_offset_rises(s@, i, s@.len() as int);
        lemma_trimmed_span(s@, a, b);
    }
    slice_between(s, Ghost(a), Ghost(b), from, to)
}

} // verus!
