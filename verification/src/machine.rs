//! The machine description: byte counts in binary units, the replies of
//! `sysctl`, and the lines of the machine table.

use vstd::prelude::*;
use crate::decimal::{chars_of, decimal, digit_char, parse_u64, parse_u64_spec, push_decimal};
use crate::layout::{left_aligned, pad_right};
use crate::rounding::{one_decimal, one_decimal_text};

verus! {

broadcast use vstd::string::group_string_axioms;

/// `2^30` bytes.
pub const GIB: u64 = 1073741824;

/// `2^20` bytes.
pub const MIB: u64 = 1048576;

/// `2^10` bytes.
pub const KIB: u64 = 1024;

/// What `human_bytes` shows for the text `v`: a number of at least one KiB
/// in the largest binary unit it reaches (GiB with one decimal, MiB and KiB
/// truncated to whole units); any other text unchanged.
pub open spec fn human_bytes_text(v: Seq<char>) -> Seq<char> {
    match parse_u64_spec(v) {
        Some(b) => if b >= GIB {
            one_decimal(b as nat, GIB as nat) + seq![' ', 'G', 'i', 'B']
        } else if b >= MIB {
            decimal((b / MIB) as nat) + seq![' ', 'M', 'i', 'B']
        } else if b >= KIB {
            decimal((b / KIB) as nat) + seq![' ', 'K', 'i', 'B']
        } else {
            v
        },
        None => v,
    }
}

/// Shows a byte count reported by `sysctl` in a binary unit.
pub fn human_bytes(v: &str) -> (r: String)
    ensures
        r@ == human_bytes_text(v@),
{
    match parse_u64(v) {
        Some(b) => {
            if b >= GIB {
                let mut r = one_decimal_text(b, GIB);
                proof {
                    reveal_strlit(" GiB");
                }
                r.append(" GiB");
                r
            } else if b >= MIB {
                let mut r = String::new();
                push_decimal(&mut r, (b / MIB) as u128);
                proof {
                    reveal_strlit(" MiB");
                }
                r.append(" MiB");
                r
            } else if b >= KIB {
                let mut r = String::new();
                push_decimal(&mut r, (b / KIB) as u128);
                proof {
                    reveal_strlit(" KiB");
                }
                r.append(" KiB");
                r
            } else {
                v.to_string()
            }
        },
        None => v.to_string(),
    }
}


/// The characters with the Unicode `White_Space` property, which is what
/// `char::is_whitespace` tests.
pub open spec fn is_white_space(c: char) -> bool {
    ||| '\u{9}' <= c && c <= '\u{d}'
    ||| c == ' '
    ||| c == '\u{85}'
    ||| c == '\u{a0}'
    ||| c == '\u{1680}'
    ||| '\u{2000}' <= c && c <= '\u{200a}'
    ||| c == '\u{2028}'
    ||| c == '\u{2029}'
    ||| c == '\u{202f}'
    ||| c == '\u{205f}'
    ||| c == '\u{3000}'
}

/// Whether `c` is white space.
pub fn white_space(c: char) -> (b: bool)
    ensures
        b == is_white_space(c),
{
    ('\u{9}' <= c && c <= '\u{d}') || c == ' ' || c == '\u{85}' || c == '\u{a0}'
        || c == '\u{1680}' || ('\u{2000}' <= c && c <= '\u{200a}') || c == '\u{2028}'
        || c == '\u{2029}' || c == '\u{202f}' || c == '\u{205f}' || c == '\u{3000}'
}

/// `s` without its leading white space.
pub open spec fn trim_start(s: Seq<char>) -> Seq<char>
    decreases s.len(),
{
    if s.len() > 0 && is_white_space(s[0]) {
        trim_start(s.drop_first())
    } else {
        s
    }
}

/// `s` without its trailing white space.
pub open spec fn trim_end(s: Seq<char>) -> Seq<char>
    decreases s.len(),
{
    if s.len() > 0 && is_white_space(s.last()) {
        trim_end(s.drop_last())
    } else {
        s
    }
}

/// `s` without leading and trailing white space (`str::trim`).
pub open spec fn trimmed(s: Seq<char>) -> Seq<char> {
    trim_end(trim_start(s))
}

/// `s` without leading and trailing white space.
pub fn trim_text(s: &str) -> (r: String)
    ensures
        r@ == trimmed(s@),
{
    let cs = chars_of(s);
    let n = cs.len();
    let mut i: usize = 0;
    assert(cs@.subrange(0, n as int) =~= cs@);
    while i < n && white_space(cs[i])
        invariant
            i <= n == cs@.len(),
            cs@ == s@,
            trim_start(s@) == trim_start(cs@.subrange(i as int, n as int)),
        decreases n - i,
    {
        assert(cs@.subrange(i as int, n as int).drop_first() =~= cs@.subrange(i + 1, n as int));
        i = i + 1;
    }
    assert(trim_start(s@) == cs@.subrange(i as int, n as int));
    let mut j: usize = n;
    while j > i && white_space(cs[j - 1])
        invariant
            i <= j <= n == cs@.len(),
            cs@ == s@,
            trimmed(s@) == trim_end(cs@.subrange(i as int, j as int)),
        decreases j,
    {
        assert(cs@.subrange(i as int, j as int).drop_last() =~= cs@.subrange(i as int, j - 1));
        j = j - 1;
    }
    assert(trimmed(s@) == cs@.subrange(i as int, j as int));
    s.substring_char(i, j).to_string()
}

/// What a `sysctl -n` call yields: its trimmed output, provided the call
/// succeeded and that output is not empty.
pub fn sysctl_reply(succeeded: bool, output: &str) -> (r: Option<String>)
    ensures
        r is Some <==> succeeded && trimmed(output@).len() > 0,
        r matches Some(v) ==> v@ == trimmed(output@),
{
    let val = trim_text(output);
    if succeeded && val.as_str().unicode_len() > 0 {
        Some(val)
    } else {
        None
    }
}

/// The value shown for a `sysctl` reply: a byte count in a binary unit when
/// `as_bytes`, the reply itself otherwise.
pub open spec fn shown_value(value: Seq<char>, as_bytes: bool) -> Seq<char> {
    if as_bytes {
        human_bytes_text(value)
    } else {
        value
    }
}

/// One line of the machine table: the label in a column of 26 characters,
/// a space, and the value shown.
pub fn machine_info_line(label: &str, value: &str, as_bytes: bool) -> (r: String)
    ensures
        r@ == left_aligned(label@, 26) + seq![' '] + shown_value(value@, as_bytes),
        !as_bytes ==> r@ == left_aligned(label@, 26) + seq![' '] + value@,
        as_bytes ==> r@ == left_aligned(label@, 26) + seq![' '] + human_bytes_text(value@),
        r@.subrange(0, label@.len() as int) == label@,
        forall|i: int|
            label@.len() <= i <= (if label@.len() < 26 { 26 } else { label@.len() as int }) ==> #[trigger] r@[i] == ' ',
        !as_bytes ==> r@.subrange(
            (if label@.len() < 26 { 26 } else { label@.len() as int }) + 1,
            r@.len() as int,
        ) == value@,
{
    proof {
        crate::layout::lemma_left_aligned_shape(label@, 26);
    }
    let mut r = pad_right(label, 26);
    proof {
        reveal_strlit(" ");
    }
    r.append(" ");
    if as_bytes {
        let shown = human_bytes(value);
        r.append(shown.as_str());
    } else {
        r.append(value);
    }
    proof {
        let w: int = if label@.len() < 26 { 26 } else { label@.len() as int };
        let pre = left_aligned(label@, 26);
        assert(r@.subrange(0, label@.len() as int) =~= pre.subrange(0, label@.len() as int));
        assert forall|i: int| label@.len() <= i <= w implies #[trigger] r@[i] == ' ' by {
            if i < w {
                assert(r@[i] == pre[i]);
            }
        }
        if !as_bytes {
            assert(r@.subrange(w + 1, r@.len() as int) =~= value@);
        }
    }
    r
}


/// A byte count written as its decimal text is shown in the largest binary
/// unit that it reaches: unchanged below one KiB, in whole KiB below one MiB,
/// in whole MiB below one GiB, and in GiB with one decimal above, where the
/// decimal is the nearest tenth (exactly so below `2^53` bytes).
pub proof fn lemma_human_bytes_units(n: u64)
    ensures
        n < KIB ==> human_bytes_text(decimal(n as nat)) == decimal(n as nat),
        KIB <= n < MIB ==> human_bytes_text(decimal(n as nat)) == decimal((n / KIB) as nat)
            + seq![' ', 'K', 'i', 'B'],
        MIB <= n < GIB ==> human_bytes_text(decimal(n as nat)) == decimal((n / MIB) as nat)
            + seq![' ', 'M', 'i', 'B'],
        GIB <= n ==> human_bytes_text(decimal(n as nat)) == one_decimal(n as nat, GIB as nat)
            + seq![' ', 'G', 'i', 'B'],
        GIB <= n < 0x20_0000_0000_0000 ==> {
            let t = crate::rounding::tenths(n as nat, GIB as nat);
            &&& 2 * (10 * n - t * GIB) <= GIB
            &&& 2 * (t * GIB - 10 * n) <= GIB
        },
{
    crate::decimal::lemma_parse_decimal_roundtrip(n);
    crate::rounding::lemma_tenths_nearest(n as nat, GIB as nat);
}

/// The rank of the unit a count of at least one KiB is shown in: 0 for
/// KiB, 1 for MiB, 2 for GiB.
pub open spec fn unit_rank(n: nat) -> nat {
    if n >= GIB {
        2
    } else if n >= MIB {
        1
    } else {
        0
    }
}

/// The name of the unit of rank `r`, after a space.
pub open spec fn unit_suffix(r: nat) -> Seq<char> {
    if r == 2 {
        seq![' ', 'G', 'i', 'B']
    } else if r == 1 {
        seq![' ', 'M', 'i', 'B']
    } else {
        seq![' ', 'K', 'i', 'B']
    }
}

/// The number shown before the unit for a count of at least one KiB, in
/// tenths of that unit.
pub open spec fn shown_tenths(n: nat) -> nat {
    if n >= GIB {
        crate::rounding::tenths(n, GIB as nat)
    } else if n >= MIB {
        10 * (n / (MIB as nat))
    } else {
        10 * (n / (KIB as nat))
    }
}

/// Shown byte counts grow with the count: a larger count is never shown in
/// a smaller unit, and in the same unit never with a smaller number.
pub proof fn lemma_human_bytes_monotone(a: u64, b: u64)
    requires
        KIB <= a <= b,
    ensures
        unit_rank(a as nat) <= unit_rank(b as nat),
        unit_rank(a as nat) == unit_rank(b as nat) ==> shown_tenths(a as nat) <= shown_tenths(b as nat),
        unit_rank(a as nat) < 2 ==> human_bytes_text(decimal(a as nat)) == decimal(
            shown_tenths(a as nat) / 10,
        ) + unit_suffix(unit_rank(a as nat)),
        unit_rank(a as nat) == 2 ==> human_bytes_text(decimal(a as nat)) == decimal(
            shown_tenths(a as nat) / 10,
        ) + seq!['.', digit_char(shown_tenths(a as nat) % 10)] + unit_suffix(2),
{
    lemma_human_bytes_units(a);
    if unit_rank(a as nat) == unit_rank(b as nat) {
        if a >= GIB {
            crate::rounding::lemma_tenths_monotone(a as nat, b as nat, GIB as nat);
        } else if a >= MIB {
            vstd::arithmetic::div_mod::lemma_div_is_ordered(a as int, b as int, MIB as int);
        } else {
            vstd::arithmetic::div_mod::lemma_div_is_ordered(a as int, b as int, KIB as int);
        }
    }
    if unit_rank(a as nat) < 2 {
        assert(shown_tenths(a as nat) / 10 == if a >= MIB { a / MIB } else { a / KIB });
    }
}

} // verus!
