//! Field formatting for text output.
use crate::text::{append_chars, chars_of, string_from_chars};
use vstd::prelude::*;

verus! {

/// Bytes of one character in UTF-8.
pub open spec fn utf8_width(c: char) -> nat {
    let u = c as u32;
    if u < 0x80 {
        1
    } else if u < 0x800 {
        2
    } else if u < 0x10000 {
        3
    } else {
        4
    }
}

/// Bytes of a text in UTF-8 (what `str::len` counts).
pub open spec fn utf8_len(s: Seq<char>) -> nat
    decreases s.len(),
{
    if s.len() == 0 {
        0
    } else {
        utf8_len(s.drop_last()) + utf8_width(s.last())
    }
}

/// `value` in double quotes, right-aligned with spaces to `width`
/// characters when its UTF-8 length is below `width`.
pub open spec fn field_text(value: Seq<char>, width: nat) -> Seq<char> {
    let q = seq!['"'] + value + seq!['"'];
    if utf8_len(q) >= width {
        q
    } else {
        Seq::new((width - q.len()) as nat, |i: int| ' ') + q
    }
}

proof fn lemma_utf8_len_bounds(s: Seq<char>)
    ensures
        s.len() <= utf8_len(s) <= 4 * s.len(),
    decreases s.len(),
{
    if s.len() > 0 {
        lemma_utf8_len_bounds(s.drop_last());
    }
}

/// Formats a value as a quoted, right-aligned field: the value in double
/// quotes, padded on the left with spaces to `width` characters when the
/// quoted text is shorter (in bytes) than `width`.
pub fn format_field(value: &str, width: usize) -> (r: String)
    ensures
        r@ == field_text(value@, width as nat),
{
    let mut q: Vec<char> = Vec::new();
    q.push('"');
    let v = chars_of(value);
    append_chars(&mut q, &v);
    q.push('"');
    assert(q@ =~= seq!['"'] + value@ + seq!['"']);
    let mut total: u128 = 0;
    let mut k: usize = 0;
    assert(q@.subrange(0, 0) =~= Seq::<char>::empty());
    while k < q.len()
        invariant
            k <= q@.len(),
            total == utf8_len(q@.subrange(0, k as int)),
            total <= 4 * k,
        decreases q@.len() - k,
    {
        let u = q[k] as u32;
        let w: u128 = if u < 0x80 {
            1
        } else if u < 0x800 {
            2
        } else if u < 0x10000 {
            3
        } else {
            4
        };
        assert(q@.subrange(0, k + 1).drop_last() =~= q@.subrange(0, k as int));
        total = total + w;
        k += 1;
    }
    assert(q@.subrange(0, q@.len() as int) =~= q@);
    if total >= width as u128 {
        string_from_chars(q.as_slice())
    } else {
        proof {
            lemma_utf8_len_bounds(q@);
        }
        let pad = width - q.len();
        let mut out: Vec<char> = Vec::new();
        let mut i: usize = 0;
        while i < pad
            invariant
                i <= pad,
                out@ =~= Seq::new(i as nat, |x: int| ' '),
            decreases pad - i,
        {
            out.push(' ');
            i += 1;
        }
        append_chars(&mut out, &q);
        string_from_chars(out.as_slice())
    }
}

} // verus!
