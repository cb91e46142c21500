//! Whitespace-aware text operations on transcript strings.
use vstd::prelude::*;

verus! {

/// The Unicode `White_Space` characters.
pub open spec fn is_white_space(c: char) -> bool {
    let v = c as int;
    ||| 0x9 <= v <= 0xd
    ||| v == 0x20
    ||| v == 0x85
    ||| v == 0xa0
    ||| v == 0x1680
    ||| 0x2000 <= v <= 0x200a
    ||| v == 0x2028
    ||| v == 0x2029
    ||| v == 0x202f
    ||| v == 0x205f
    ||| v == 0x3000
}

/// `s` without its trailing white space.
pub open spec fn trim_end(s: Seq<char>) -> Seq<char>
    decreases s.len(),
{
    if s.len() > 0 && is_white_space(s.last()) {
        trim_end(s.drop_last())
    } else {
        s
    }
}

/// `s` without its leading white space.
pub open spec fn trim_start(s: Seq<char>) -> Seq<char>
    decreases s.len(),
{
    if s.len() > 0 && is_white_space(s.first()) {
        trim_start(s.drop_first())
    } else {
        s
    }
}

/// `s` without leading and trailing white space.
pub open spec fn trim(s: Seq<char>) -> Seq<char> {
    trim_start(trim_end(s))
}

/// The number of maximal runs of non-white-space characters in `s`.
pub open spec fn word_count_of(s: Seq<char>) -> nat
    decreases s.len(),
{
    if s.len() == 0 {
        0
    } else {
        word_count_of(s.drop_last()) + if !is_white_space(s.last()) && (s.len() == 1
            || is_white_space(s[s.len() - 2])) {
            1nat
        } else {
            0nat
        }
    }
}

/// The text, once trailing white space is dropped, ends with `.`, `!` or `?`.
pub open spec fn ends_thought_spec(s: Seq<char>) -> bool {
    let t = trim_end(s);
    t.len() > 0 && (t.last() == '.' || t.last() == '!' || t.last() == '?')
}

/// `parts` joined with single spaces.
pub open spec fn join_with_spaces(parts: Seq<Seq<char>>) -> Seq<char>
    decreases parts.len(),
{
    if parts.len() == 0 {
        Seq::empty()
    } else if parts.len() == 1 {
        parts[0]
    } else {
        join_with_spaces(parts.drop_last()) + seq![' '] + parts.last()
    }
}

/// What `trim_end` leaves is empty or ends in a non-white-space character.
proof fn lemma_trim_end_shape(s: Seq<char>)
    ensures
        trim_end(s).len() == 0 || !is_white_space(trim_end(s).last()),
    decreases s.len(),
{
    if s.len() > 0 && is_white_space(s.last()) {
        lemma_trim_end_shape(s.drop_last());
    }
}

/// What `trim_start` leaves is empty, or starts in a non-white-space
/// character and ends where `s` ends.
proof fn lemma_trim_start_shape(s: Seq<char>)
    ensures
        trim_start(s).len() == 0 || (!is_white_space(trim_start(s).first()) && trim_start(s).last()
            == s.last()),
    decreases s.len(),
{
    if s.len() > 0 && is_white_space(s.first()) {
        lemma_trim_start_shape(s.drop_first());
        if trim_start(s).len() > 0 {
            assert(s.drop_first().last() == s.last());
        }
    }
}

/// Trimming twice trims nothing more.
pub proof fn lemma_trim_idempotent(s: Seq<char>)
    ensures
        trim(trim(s)) == trim(s),
{
    let e = trim_end(s);
    let t = trim_start(e);
    lemma_trim_end_shape(s);
    lemma_trim_start_shape(e);
    assert(trim_end(t) == t);
    assert(trim_start(t) == t);
}

/// Whether the character has the Unicode `White_Space` property.
fn char_is_whitespace(c: char) -> (r: bool)
    ensures
        r == is_white_space(c),
{
    let v = c as u32;
    (0x9 <= v && v <= 0xd) || v == 0x20 || v == 0x85 || v == 0xa0 || v == 0x1680 || (0x2000 <= v
        && v <= 0x200a) || v == 0x2028 || v == 0x2029 || v == 0x202f || v == 0x205f || v == 0x3000
}

/// `String::push`: appends one character.
#[verifier::external_body]
pub(crate) fn push_char(s: &mut String, c: char)
    ensures
        final(s)@ == old(s)@.push(c),
{
    s.push(c)
}

/// The characters of a string, in order.
pub fn chars_of(s: &str) -> (v: Vec<char>)
    ensures
        v@ == s@,
{
    let mut v: Vec<char> = Vec::new();
    proof {
        broadcast use vstd::string::axiom_spec_iter;
    }
    for c in it: s.chars()
        invariant
            it.seq() == s@,
            v@ == it.seq().take(it.index() as int),
    {
        v.push(c);
    }
    v
}

/// The number of characters (not bytes) of a string.
pub fn char_count(s: &str) -> (r: usize)
    ensures
        r == s@.len(),
{
    chars_of(s).len()
}

/// Bounds `(a, b)` such that `chars[a..b]` is `chars` trimmed.
pub fn trim_bounds(chars: &Vec<char>) -> (r: (usize, usize))
    ensures
        r.0 <= r.1 <= chars@.len(),
        trim(chars@) == chars@.subrange(r.0 as int, r.1 as int),
{
    let ghost s = chars@;
    let mut b = chars.len();
    proof {
        assert(s.take(b as int) =~= s);
    }
    while b > 0 && char_is_whitespace(chars[b - 1])
        invariant
            s == chars@,
            b <= s.len(),
            trim_end(s) == trim_end(s.take(b as int)),
        decreases b,
    {
        proof {
            assert(s.take(b as int).drop_last() =~= s.take(b - 1));
        }
        b = b - 1;
    }
    proof {
        assert(trim_end(s.take(b as int)) == s.take(b as int));
        assert(s.take(b as int) =~= s.subrange(0, b as int));
    }
    let mut a: usize = 0;
    while a < b && char_is_whitespace(chars[a])
        invariant
            s == chars@,
            a <= b <= s.len(),
            trim(s) == trim_start(s.subrange(a as int, b as int)),
        decreases b - a,
    {
        proof {
            assert(s.subrange(a as int, b as int).drop_first() =~= s.subrange(a + 1, b as int));
        }
        a = a + 1;
    }
    (a, b)
}

/// The string contains nothing but white space (possibly nothing at all).
pub fn is_blank(s: &str) -> (r: bool)
    ensures
        r == (trim(s@).len() == 0),
{
    let chars = chars_of(s);
    let (a, b) = trim_bounds(&chars);
    a == b
}

/// A copy of the string without leading and trailing white space.
pub fn trimmed(s: &str) -> (r: String)
    ensures
        r@ == trim(s@),
{
    let chars = chars_of(s);
    let (a, b) = trim_bounds(&chars);
    let mut out = String::new();
    let mut i = a;
    while i < b
        invariant
            a <= i <= b <= chars@.len(),
            out@ == chars@.subrange(a as int, i as int),
        decreases b - i,
    {
        push_char(&mut out, chars[i]);
        proof {
            assert(chars@.subrange(a as int, i + 1) =~= chars@.subrange(a as int, i as int).push(
                chars@[i as int],
            ));
        }
        i = i + 1;
    }
    out
}

/// Whether the text, ignoring trailing white space, ends a sentence.
pub fn ends_thought(text: &str) -> (r: bool)
    ensures
        r == ends_thought_spec(text@),
{
    let chars = chars_of(text);
    let ghost s = chars@;
    let mut b = chars.len();
    proof {
        assert(s.take(b as int) =~= s);
    }
    while b > 0 && char_is_whitespace(chars[b - 1])
        invariant
            s == chars@,
            b <= s.len(),
            trim_end(s) == trim_end(s.take(b as int)),
        decreases b,
    {
        proof {
            assert(s.take(b as int).drop_last() =~= s.take(b - 1));
        }
        b = b - 1;
    }
    proof {
        assert(trim_end(s.take(b as int)) == s.take(b as int));
    }
    if b == 0 {
        return false;
    }
    let last = chars[b - 1];
    last == '.' || last == '!' || last == '?'
}

/// The number of white-space separated words of a string.
pub fn word_count(s: &str) -> (r: usize)
    ensures
        r == word_count_of(s@),
{
    let chars = chars_of(s);
    let ghost t = chars@;
    let n = chars.len();
    let mut count: usize = 0;
    let mut i: usize = 0;
    while i < n
        invariant
            t == chars@,
            n == t.len(),
            i <= n,
            count == word_count_of(t.take(i as int)),
            count <= i,
        decreases n - i,
    {
        let starts = !char_is_whitespace(chars[i]) && (i == 0 || char_is_whitespace(chars[i - 1]));
        proof {
            assert(t.take(i + 1).drop_last() =~= t.take(i as int));
            assert(t.take(i + 1).last() == t[i as int]);
            if i > 0 {
                assert(t.take(i + 1)[i - 1] == t[i - 1]);
            }
        }
        if starts {
            count = count + 1;
        }
        i = i + 1;
    }
    proof {
        assert(t.take(n as int) =~= t);
    }
    count
}

/// Append `part` to `out`, preceded by a space unless `out` is the start.
pub fn append_joined(out: &mut String, part: &Vec<char>, from: usize, to: usize, first: bool)
    requires
        from <= to <= part@.len(),
    ensures
        final(out)@ == if first {
            old(out)@ + part@.subrange(from as int, to as int)
        } else {
            old(out)@ + seq![' '] + part@.subrange(from as int, to as int)
        },
{
    let ghost start = if first {
        old(out)@
    } else {
        old(out)@ + seq![' ']
    };
    if !first {
        push_char(out, ' ');
    }
    proof {
        assert(out@ =~= start);
    }
    let mut i = from;
    while i < to
        invariant
            from <= i <= to <= part@.len(),
            out@ == start + part@.subrange(from as int, i as int),
        decreases to - i,
    {
        push_char(out, part[i]);
        proof {
            assert(part@.subrange(from as int, i + 1) =~= part@.subrange(from as int, i as int).push(
                part@[i as int],
            ));
            assert(start + part@.subrange(from as int, i + 1) =~= (start + part@.subrange(
                from as int,
                i as int,
            )).push(part@[i as int]));
        }
        i = i + 1;
    }
}

} // verus!
