//! Column layout of the report, as `format!` pads with a width: `{:<w}`
//! fills with spaces on the right, `{:>w}` on the left, counting characters,
//! and never cuts a longer text.

use vstd::prelude::*;

verus! {

/// `n` spaces.
pub open spec fn spaces(n: nat) -> Seq<char> {
    Seq::new(n, |i: int| ' ')
}

/// `s` padded on the right to at least `width` characters (`{:<width}`).
pub open spec fn left_aligned(s: Seq<char>, width: nat) -> Seq<char> {
    if s.len() < width {
        s + spaces((width - s.len()) as nat)
    } else {
        s
    }
}

/// `s` padded on the left to at least `width` characters (`{:>width}`).
pub open spec fn right_aligned(s: Seq<char>, width: nat) -> Seq<char> {
    if s.len() < width {
        spaces((width - s.len()) as nat) + s
    } else {
        s
    }
}

/// `s` written `count` times in a row (`str::repeat`).
pub open spec fn repeated(s: Seq<char>, count: nat) -> Seq<char>
    decreases count,
{
    if count == 0 {
        Seq::empty()
    } else {
        repeated(s, (count - 1) as nat) + s
    }
}

fn push_spaces(out: &mut String, n: usize)
    ensures
        final(out)@ == old(out)@ + spaces(n as nat),
{
    let mut i: usize = 0;
    while i < n
        invariant
            i <= n,
            out@ == old(out)@ + spaces(i as nat),
        decreases n - i,
    {
        proof {
            reveal_strlit(" ");
        }
        out.append(" ");
        assert(spaces(i as nat) + seq![' '] =~= spaces((i + 1) as nat));
        assert(old(out)@ + spaces(i as nat) + seq![' '] =~= old(out)@ + (spaces(i as nat) + seq![' ']));
        i = i + 1;
    }
}

/// `s` padded on the right with spaces to at least `width` characters.
pub fn pad_right(s: &str, width: usize) -> (r: String)
    ensures
        r@ == left_aligned(s@, width as nat),
        r@.len() == if s@.len() < width { width as nat } else { s@.len() },
        r@.subrange(0, s@.len() as int) == s@,
        forall|i: int| s@.len() <= i < r@.len() ==> #[trigger] r@[i] == ' ',
{
    proof {
        lemma_left_aligned_shape(s@, width as nat);
    }
    let len = s.unicode_len();
    let mut r = String::from_str(s);
    if len < width {
        push_spaces(&mut r, width - len);
    }
    r
}

/// `s` padded on the left with spaces to at least `width` characters.
pub fn pad_left(s: &str, width: usize) -> (r: String)
    ensures
        r@ == right_aligned(s@, width as nat),
        r@.len() == if s@.len() < width { width as nat } else { s@.len() },
        r@.subrange(r@.len() - s@.len(), r@.len() as int) == s@,
        forall|i: int| 0 <= i < r@.len() - s@.len() ==> #[trigger] r@[i] == ' ',
{
    proof {
        lemma_right_aligned_shape(s@, width as nat);
    }
    let len = s.unicode_len();
    let mut r = String::new();
    if len < width {
        push_spaces(&mut r, width - len);
    }
    r.append(s);
    assert(r@ =~= right_aligned(s@, width as nat));
    r
}

/// `s` written `count` times in a row.
pub fn repeat_text(s: &str, count: usize) -> (r: String)
    ensures
        r@ == repeated(s@, count as nat),
{
    let mut r = String::new();
    let mut i: usize = 0;
    while i < count
        invariant
            i <= count,
            r@ == repeated(s@, i as nat),
        decreases count - i,
    {
        r.append(s);
        i = i + 1;
    }
    r
}

/// Left alignment keeps the text at the start and fills with spaces up to
/// the width; a text at least as wide is kept as it is.
pub proof fn lemma_left_aligned_shape(s: Seq<char>, width: nat)
    ensures
        left_aligned(s, width).len() == if s.len() < width { width } else { s.len() },
        left_aligned(s, width).subrange(0, s.len() as int) == s,
        forall|i: int| s.len() <= i < left_aligned(s, width).len() ==> #[trigger] left_aligned(s, width)[i] == ' ',
{
    let r = left_aligned(s, width);
    assert(r.subrange(0, s.len() as int) =~= s);
}

/// Right alignment keeps the text at the end and fills with spaces before
/// it up to the width; a text at least as wide is kept as it is.
pub proof fn lemma_right_aligned_shape(s: Seq<char>, width: nat)
    ensures
        right_aligned(s, width).len() == if s.len() < width { width } else { s.len() },
        right_aligned(s, width).subrange(right_aligned(s, width).len() - s.len(), right_aligned(s, width).len() as int) == s,
        forall|i: int| 0 <= i < right_aligned(s, width).len() - s.len() ==> #[trigger] right_aligned(s, width)[i] == ' ',
{
    let r = right_aligned(s, width);
    assert(r.subrange(r.len() - s.len(), r.len() as int) =~= s);
}

} // verus!
