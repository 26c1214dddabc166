use vstd::prelude::*;
use crate::text::{digit_char, hex_digit_char, dec_str, push_dec};

verus! {

// ---------------------------------------------------------------------------
// Canonical JSON fragments: escaped strings and byte arrays.  The canonical
// encoding used for hashing fixes field order, prints no whitespace, and
// prints every amount as a plain decimal integer.
// ---------------------------------------------------------------------------

/// JSON escape of one character inside a quoted string.
pub open spec fn esc_char(c: char) -> Seq<char> {
    if c == '"' {
        seq!['\\', '"']
    } else if c == '\\' {
        seq!['\\', '\\']
    } else if (c as u32) < 32 {
        seq!['\\', 'u', '0', '0', hex_digit_char((c as u32) as int / 16), hex_digit_char(
            (c as u32) as int % 16,
        )]
    } else {
        seq![c]
    }
}

/// JSON escape of a whole character sequence.
pub open spec fn esc_str(s: Seq<char>) -> Seq<char>
    decreases s.len(),
{
    if s.len() == 0 {
        Seq::empty()
    } else {
        esc_char(s[0]) + esc_str(s.skip(1))
    }
}

pub proof fn lemma_esc_str_push(s: Seq<char>, c: char)
    ensures
        esc_str(s.push(c)) == esc_str(s) + esc_char(c),
    decreases s.len(),
{
    if s.len() == 0 {
        reveal_with_fuel(esc_str, 3);
        assert(s.push(c).skip(1) =~= Seq::<char>::empty());
        assert(esc_str(s.push(c)) =~= esc_str(s) + esc_char(c));
    } else {
        assert(s.push(c).skip(1) =~= s.skip(1).push(c));
        lemma_esc_str_push(s.skip(1), c);
        assert(esc_str(s.push(c)) =~= esc_str(s) + esc_char(c));
    }
}

/// JSON rendering of a string: quoted and escaped.
pub open spec fn json_str(s: Seq<char>) -> Seq<char> {
    seq!['"'] + esc_str(s) + seq!['"']
}

fn push_esc_char_at(out: &mut String, v: &str, i: usize)
    requires
        i < v@.len(),
        i < usize::MAX,
    ensures
        final(out)@ == old(out)@ + esc_char(v@[i as int]),
{
    let c = v.get_char(i);
    if c == '"' {
        out.append("\\\"");
        proof {
            reveal_strlit("\\\"");
            assert(out@ =~= old(out)@ + esc_char(v@[i as int]));
        }
    } else if c == '\\' {
        out.append("\\\\");
        proof {
            reveal_strlit("\\\\");
            assert(out@ =~= old(out)@ + esc_char(v@[i as int]));
        }
    } else if (c as u32) < 32 {
        let code = (c as u32) as u8;
        out.append("\\u00");
        crate::text::push_hex_digit(out, code / 16);
        crate::text::push_hex_digit(out, code % 16);
        proof {
            reveal_strlit("\\u00");
            assert(out@ =~= old(out)@ + esc_char(v@[i as int]));
        }
    } else {
        let piece = v.substring_char(i, i + 1);
        out.append(piece);
        proof {
            assert(piece@ =~= seq![v@[i as int]]);
            assert(out@ =~= old(out)@ + esc_char(v@[i as int]));
        }
    }
}

/// Append the JSON rendering of the string `v` to `out`.
pub fn push_json_str(out: &mut String, v: &str)
    ensures
        final(out)@ == old(out)@ + json_str(v@),
{
    out.append("\"");
    proof {
        reveal_strlit("\"");
    }
    let ghost quoted = old(out)@ + seq!['"'];
    assert(out@ =~= quoted);
    let n = v.unicode_len();
    let mut i: usize = 0;
    while i < n
        invariant
            i <= n,
            n == v@.len(),
            out@ == quoted + esc_str(v@.take(i as int)),
        decreases n - i,
    {
        push_esc_char_at(out, v, i);
        proof {
            assert(v@.take(i + 1) =~= v@.take(i as int).push(v@[i as int]));
            lemma_esc_str_push(v@.take(i as int), v@[i as int]);
            assert(out@ =~= quoted + esc_str(v@.take(i + 1)));
        }
        i = i + 1;
    }
    out.append("\"");
    proof {
        reveal_strlit("\"");
        assert(v@.take(i as int) =~= v@);
        assert(out@ =~= old(out)@ + json_str(v@));
    }
}

// ---------------------------------------------------------------------------
// Byte sequences as JSON arrays of decimal numbers.
// ---------------------------------------------------------------------------

/// Comma-separated decimal renderings of the bytes.
pub open spec fn bytes_items(b: Seq<u8>) -> Seq<char>
    decreases b.len(),
{
    if b.len() == 0 {
        Seq::empty()
    } else if b.len() == 1 {
        dec_str(b[0] as int)
    } else {
        dec_str(b[0] as int) + seq![','] + bytes_items(b.skip(1))
    }
}

/// JSON rendering of a byte sequence as an array of numbers.
pub open spec fn bytes_json(b: Seq<u8>) -> Seq<char> {
    seq!['['] + bytes_items(b) + seq![']']
}

fn push_bytes_items(out: &mut String, b: &[u8])
    ensures
        final(out)@ == old(out)@ + bytes_items(b@),
{
    let n = b.len();
    if n == 0 {
        proof {
            assert(out@ =~= old(out)@ + bytes_items(b@));
        }
        return ;
    }
    let mut i: usize = 0;
    while i < n
        invariant
            i <= n,
            n == b@.len(),
            n > 0,
            out@ == old(out)@ + bytes_items(b@.take(i as int)) + (
            if 0 < i < n {
                seq![',']
            } else {
                Seq::<char>::empty()
            }),
        decreases n - i,
    {
        push_dec(out, b[i] as u64);
        if i + 1 < n {
            out.append(",");
            proof {
                reveal_strlit(",");
            }
        }
        proof {
            lemma_bytes_items_take(b@, i as int);
            assert(out@ =~= old(out)@ + bytes_items(b@.take(i + 1)) + (
            if i + 1 < n {
                seq![',']
            } else {
                Seq::<char>::empty()
            }));
        }
        i = i + 1;
    }
    proof {
        assert(b@.take(i as int) =~= b@);
    }
}

/// Appending one byte's digits extends the comma-separated item list.
proof fn lemma_bytes_items_take(b: Seq<u8>, i: int)
    requires
        0 <= i < b.len(),
    ensures
        i > 0 ==> bytes_items(b.take(i)) + seq![','] + dec_str(b[i] as int) == bytes_items(
            b.take(i + 1),
        ),
        i == 0 ==> bytes_items(b.take(1)) == dec_str(b[0] as int),
    decreases i,
{
    if i == 0 {
        assert(b.take(1).len() == 1);
        assert(b.take(1)[0] == b[0]);
    } else {
        lemma_bytes_items_take(b.skip(1), i - 1);
        assert(b.take(i).skip(1) =~= b.skip(1).take(i - 1));
        assert(b.take(i + 1).skip(1) =~= b.skip(1).take(i));
        assert(b.take(i)[0] == b[0]);
        assert(b.take(i + 1)[0] == b[0]);
        assert(b.skip(1)[i - 1] == b[i]);
        assert(bytes_items(b.take(i)) + seq![','] + dec_str(b[i] as int) =~= bytes_items(
            b.take(i + 1),
        ));
    }
}

/// Append the JSON rendering of the byte string `b` to `out`.
pub fn push_bytes_json(out: &mut String, b: &[u8])
    ensures
        final(out)@ == old(out)@ + bytes_json(b@),
{
    out.append("[");
    push_bytes_items(out, b);
    out.append("]");
    proof {
        reveal_strlit("[");
        reveal_strlit("]");
        assert(out@ =~= old(out)@ + bytes_json(b@));
    }
}

} // verus!
