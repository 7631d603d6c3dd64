//! Text primitives: byte lengths, runs of spaces, right padding and trimming.

use vstd::prelude::*;
use vstd::string::*;
use vstd::utf8::*;

verus! {

/// Length of `s` in bytes once encoded as UTF-8. Column widths are measured
/// in this unit.
pub open spec fn byte_len(s: Seq<char>) -> nat {
    encode_utf8(s).len()
}

/// A run of `n` spaces.
pub open spec fn spaces(n: nat) -> Seq<char> {
    Seq::new(n, |i: int| ' ')
}

/// `s` followed by as many spaces as it takes to reach `width` bytes; `s`
/// itself where it is already that long.
pub open spec fn padded(s: Seq<char>, width: nat) -> Seq<char> {
    if width <= byte_len(s) {
        s
    } else {
        s + spaces((width - byte_len(s)) as nat)
    }
}

/// The encoding of a concatenation is the concatenation of the encodings.
pub proof fn lemma_encode_concat(a: Seq<char>, b: Seq<char>)
    ensures
        encode_utf8(a + b) == encode_utf8(a) + encode_utf8(b),
    decreases a.len(),
{
    if a.len() == 0 {
        assert(a + b =~= b);
        assert(encode_utf8(a) + encode_utf8(b) =~= encode_utf8(b));
    } else {
        assert((a + b).drop_first() =~= a.drop_first() + b);
        lemma_encode_concat(a.drop_first(), b);
        assert(encode_utf8(a + b) =~= encode_utf8(a) + encode_utf8(b));
    }
}

/// Byte lengths add up under concatenation.
pub proof fn lemma_byte_len_concat(a: Seq<char>, b: Seq<char>)
    ensures
        byte_len(a + b) == byte_len(a) + byte_len(b),
{
    lemma_encode_concat(a, b);
}

/// A run of `n` spaces is `n` bytes long.
pub proof fn lemma_byte_len_spaces(n: nat)
    ensures
        byte_len(spaces(n)) == n,
{
    assert(is_ascii_chars(spaces(n)));
    is_ascii_chars_encode_utf8(spaces(n));
}

/// Text padded to a width it fits in is exactly that wide.
pub proof fn lemma_padded_len(s: Seq<char>, width: nat)
    requires
        byte_len(s) <= width,
    ensures
        byte_len(padded(s, width)) == width,
        padded(s, width) == s + spaces((width - byte_len(s)) as nat),
{
    let gap = (width - byte_len(s)) as nat;
    lemma_byte_len_concat(s, spaces(gap));
    lemma_byte_len_spaces(gap);
    if gap == 0 {
        assert(s + spaces(gap) =~= s);
    }
}

/// A single ASCII character is one byte long.
pub proof fn lemma_byte_len_ascii(c: char)
    requires
        c <= '\u{7f}',
    ensures
        byte_len(seq![c]) == 1,
{
    assert(is_ascii_chars(seq![c]));
    is_ascii_chars_encode_utf8(seq![c]);
}

/// Length of a string in bytes.
pub fn text_len(s: &str) -> (n: usize)
    ensures
        n == byte_len(s@),
{
    s.as_bytes().len()
}

/// Pads `s` on the right with spaces up to `len` bytes.
pub fn pad(s: &String, len: usize) -> (out: String)
    requires
        byte_len(s@) <= len,
    ensures
        out@ == padded(s@, len as nat),
{
    let to_add: usize = len - text_len(s.as_str());
    let mut out: String = s.clone();
    let mut i: usize = 0;
    while i < to_add
        invariant
            i <= to_add,
            out@ == s@ + spaces(i as nat),
        decreases to_add - i,
    {
        out.append(" ");
        proof {
            reveal_strlit(" ");
            assert(s@ + spaces(i as nat) + " "@ =~= s@ + spaces((i + 1) as nat));
        }
        i = i + 1;
    }
    proof {
        lemma_padded_len(s@, len as nat);
    }
    out
}

/// Whether `c` counts as white space: what `char::is_whitespace` answers,
/// the Unicode property `White_Space`.
pub uninterp spec fn is_white_space(c: char) -> bool;

/// `s` without the white space it begins with.
pub open spec fn trimmed_start(s: Seq<char>) -> Seq<char>
    decreases s.len(),
{
    if s.len() > 0 && is_white_space(s[0]) {
        trimmed_start(s.drop_first())
    } else {
        s
    }
}

/// `s` without the white space it ends with.
pub open spec fn trimmed_end(s: Seq<char>) -> Seq<char>
    decreases s.len(),
{
    if s.len() > 0 && is_white_space(s.last()) {
        trimmed_end(s.drop_last())
    } else {
        s
    }
}

/// `s` without the white space at either end.
pub open spec fn trimmed(s: Seq<char>) -> Seq<char> {
    trimmed_end(trimmed_start(s))
}

/// Calls `str::trim`, which returns the text between the leading and the
/// trailing white space, white space being what `char::is_whitespace`
/// accepts. The contract states exactly that over `is_white_space`, and that
/// what is returned has no white space left at either end.
#[verifier::external_body]
pub(crate) fn trim(s: &str) -> (out: &str)
    ensures
        out@ == trimmed(s@),
        out@.len() > 0 ==> !is_white_space(out@[0]) && !is_white_space(out@.last()),
{
    s.trim()
}

/// Text that neither begins nor ends with white space.
pub open spec fn is_trimmed(s: Seq<char>) -> bool {
    s.len() > 0 ==> !is_white_space(s[0]) && !is_white_space(s.last())
}

/// Trimming the end leaves the beginning as it was, unless nothing is left.
proof fn lemma_trimmed_end_keeps_start(s: Seq<char>)
    requires
        s.len() > 0,
        !is_white_space(s[0]),
    ensures
        trimmed_end(s).len() > 0,
        trimmed_end(s)[0] == s[0],
        !is_white_space(trimmed_end(s).last()),
    decreases s.len(),
{
    if is_white_space(s.last()) {
        assert(s.len() > 1);
        lemma_trimmed_end_keeps_start(s.drop_last());
    }
}

/// What is left after trimming the start is empty or begins with something
/// other than white space.
proof fn lemma_trimmed_start_head(s: Seq<char>)
    ensures
        trimmed_start(s).len() > 0 ==> !is_white_space(trimmed_start(s)[0]),
    decreases s.len(),
{
    if s.len() > 0 && is_white_space(s[0]) {
        lemma_trimmed_start_head(s.drop_first());
    }
}

/// Trimmed text has no white space at either end.
pub proof fn lemma_trimmed_is_trimmed(s: Seq<char>)
    ensures
        is_trimmed(trimmed(s)),
{
    let t = trimmed_start(s);
    lemma_trimmed_start_head(s);
    if t.len() > 0 {
        lemma_trimmed_end_keeps_start(t);
    }
}

/// Text without white space at either end is left alone by trimming.
pub proof fn lemma_trimmed_fixed(s: Seq<char>)
    requires
        is_trimmed(s),
    ensures
        trimmed(s) == s,
{
}

/// Trimming twice is trimming once.
pub proof fn lemma_trimmed_idempotent(s: Seq<char>)
    ensures
        trimmed(trimmed(s)) == trimmed(s),
{
    lemma_trimmed_is_trimmed(s);
    lemma_trimmed_fixed(trimmed(s));
}

/// The parts written one after the other with `separator` between each two.
pub open spec fn joined(parts: Seq<Seq<char>>, separator: Seq<char>) -> Seq<char>
    decreases parts.len(),
{
    if parts.len() == 0 {
        Seq::empty()
    } else if parts.len() == 1 {
        parts[0]
    } else {
        joined(parts.drop_last(), separator) + separator + parts.last()
    }
}

/// Joins the parts with `separator` between each two.
pub fn join(parts: &Vec<String>, separator: &str) -> (out: String)
    ensures
        out@ == joined(parts.deep_view(), separator@),
{
    let ghost model = parts.deep_view();
    let mut out: String = String::new();
    if parts.len() == 0 {
        return out;
    }
    out.append(parts[0].as_str());
    let mut i: usize = 1;
    proof {
        assert(model.take(1)[0] == parts[0]@);
        assert(out@ =~= parts[0]@);
    }
    while i < parts.len()
        invariant
            1 <= i <= parts.len(),
            model == parts.deep_view(),
            out@ == joined(model.take(i as int), separator@),
        decreases parts.len() - i,
    {
        out.append(separator);
        out.append(parts[i].as_str());
        proof {
            let upto = model.take(i + 1);
            assert(upto.drop_last() =~= model.take(i as int));
            assert(upto.last() == parts[i as int]@);
        }
        i = i + 1;
    }
    proof {
        assert(model.take(parts.len() as int) =~= model);
    }
    out
}

} // verus!
