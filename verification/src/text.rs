//! Small text tools: decimal numbers, joining and splitting, hexadecimal
//! dumps.

use vstd::prelude::*;
use vstd::string::{StrSliceExecFns, StringExecFns};
use vstd::utf8::{decode_utf8, valid_utf8};

verus! {

/// `String::push` of the standard library.
///
/// Trusted: the call appends `ch` to the end of the string and leaves the
/// characters before it as they were.
pub assume_specification[ String::push ](s: &mut String, ch: char)
    ensures
        final(s)@ == old(s)@.push(ch),
;

/// The decimal digits of `n`, most significant first.
pub open spec fn decimal(n: nat) -> Seq<char>
    decreases n,
{
    if n < 10 {
        seq![(0x30 + n) as char]
    } else {
        decimal(n / 10).push((0x30 + n % 10) as char)
    }
}

/// Appends the decimal digits of `n` to `text`.
pub fn push_number(text: &mut String, n: u64)
    ensures
        final(text)@ == old(text)@ + decimal(n as nat),
    decreases n,
{
    let ghost before = text@;
    if n >= 10 {
        push_number(text, n / 10);
    }
    let digit = (0x30 + (n % 10) as u8) as char;
    text.push(digit);
    proof {
        if n >= 10 {
            assert(text@ =~= before + decimal((n / 10) as nat).push(digit));
        } else {
            assert(text@ =~= before + seq![digit]);
        }
    }
}

/// The pieces of `parts`, with `sep` between each two neighbours.
pub open spec fn joined(parts: Seq<Seq<char>>, sep: Seq<char>) -> Seq<char>
    decreases parts.len(),
{
    if parts.len() == 0 {
        Seq::empty()
    } else if parts.len() == 1 {
        parts[0]
    } else {
        joined(parts.drop_last(), sep) + sep + parts.last()
    }
}

/// The views of a vector of strings.
pub open spec fn views(v: Seq<String>) -> Seq<Seq<char>> {
    Seq::new(v.len(), |i: int| v[i]@)
}

/// Joins the strings of `parts` from position `from` on, with `sep`
/// between each two neighbours.
pub fn join_from(parts: &Vec<String>, from: usize, sep: &str) -> (text: String)
    requires
        from <= parts@.len(),
    ensures
        text@ == joined(views(parts@).skip(from as int), sep@),
{
    let ghost all = views(parts@).skip(from as int);
    let mut text = String::new();
    let mut i: usize = from;
    proof {
        assert(all.take(0) =~= Seq::<Seq<char>>::empty());
    }
    while i < parts.len()
        invariant
            from <= i <= parts@.len(),
            all == views(parts@).skip(from as int),
            text@ == joined(all.take(i - from), sep@),
        decreases parts@.len() - i,
    {
        let ghost before = text@;
        if i > from {
            text.append(sep);
        }
        text.append(parts[i].as_str());
        proof {
            let grown = all.take(i - from + 1);
            assert(grown.drop_last() =~= all.take(i - from));
            assert(grown.last() == parts@[i as int]@);
            if i == from {
                assert(before =~= Seq::<char>::empty());
                assert(text@ =~= grown[0]);
            }
        }
        i += 1;
    }
    proof {
        assert(all.take(parts@.len() - from) =~= all);
    }
    text
}

/// The pieces into which the separator `sep` divides `s`: one more than
/// there are separators, and empty where two separators meet or one stands
/// at either end.
pub open spec fn split(s: Seq<char>, sep: char) -> Seq<Seq<char>>
    decreases s.len(),
{
    if s.len() == 0 {
        seq![Seq::empty()]
    } else if s.last() == sep {
        split(s.drop_last(), sep).push(Seq::empty())
    } else {
        split(s.drop_last(), sep).drop_last().push(split(s.drop_last(), sep).last().push(s.last()))
    }
}

/// Divides `s` at every `sep`.
pub fn split_at(s: &str, sep: char) -> (pieces: Vec<String>)
    ensures
        views(pieces@) == split(s@, sep),
{
    let len = s.unicode_len();
    let mut pieces: Vec<String> = Vec::new();
    let mut current = String::new();
    let mut i: usize = 0;
    proof {
        assert(s@.take(0) =~= Seq::<char>::empty());
        assert(views(pieces@).push(current@) =~= split(s@.take(0), sep));
    }
    while i < len
        invariant
            i <= len,
            len == s@.len(),
            views(pieces@).push(current@) == split(s@.take(i as int), sep),
        decreases len - i,
    {
        let c = s.get_char(i);
        let ghost done = split(s@.take(i as int), sep);
        let ghost before = views(pieces@);
        proof {
            assert(s@.take(i + 1).drop_last() =~= s@.take(i as int));
            assert(s@.take(i + 1).last() == c);
            assert(done.drop_last() =~= before);
            assert(done.last() == current@);
        }
        if c == sep {
            pieces.push(current);
            current = String::new();
            proof {
                assert(views(pieces@) =~= done);
            }
        } else {
            current.push(c);
            proof {
                assert(views(pieces@) =~= before);
            }
        }
        i += 1;
    }
    proof {
        assert(s@.take(len as int) =~= s@);
    }
    let ghost before = views(pieces@);
    pieces.push(current);
    proof {
        assert(views(pieces@) =~= before.push(current@));
    }
    pieces
}

/// Whether two strings hold the same characters.
pub fn same(a: &str, b: &str) -> (r: bool)
    ensures
        r == (a@ == b@),
{
    a.to_owned() == b.to_owned()
}

/// The lower-case hexadecimal digit for a value below 16.
pub open spec fn hex_digit(v: int) -> char {
    if v < 10 {
        (0x30 + v) as char
    } else {
        (0x61 + v - 10) as char
    }
}

/// The hexadecimal dump of `bytes`: two lower-case digits per byte, the
/// high nibble first.
pub open spec fn hex_text(bytes: Seq<u8>) -> Seq<char> {
    Seq::new(
        2 * bytes.len(),
        |k: int|
            if k % 2 == 0 {
                hex_digit(bytes[k / 2] as int / 16)
            } else {
                hex_digit(bytes[k / 2] as int % 16)
            },
    )
}

/// Calls `hex::encode` of the `hex` crate.
///
/// Trusted: the crate writes every byte as two digits taken from
/// `0123456789abcdef`, the digit for the high four bits first, and nothing
/// else.
#[verifier::external_body]
pub(crate) fn hex_encode(bytes: &Vec<u8>) -> (text: String)
    ensures
        text@ == hex_text(bytes@),
{
    hex::encode(bytes)
}

/// Calls `core::str::from_utf8` of the standard library.
///
/// Trusted: the call succeeds exactly on well-formed UTF-8, and the text
/// it then returns is the one those bytes encode.
#[verifier::external_body]
pub(crate) fn utf8_text(bytes: &[u8]) -> (r: Option<&str>)
    ensures
        r is Some <==> valid_utf8(bytes@),
        r is Some ==> r->0@ == decode_utf8(bytes@),
{
    core::str::from_utf8(bytes).ok()
}

/// How the contents of a file are shown: as the text they encode, or as a
/// hexadecimal dump when they are not well-formed UTF-8.
pub fn render(bytes: &Vec<u8>) -> (r: (String, bool))
    ensures
        r.1 == valid_utf8(bytes@),
        r.0@ == if valid_utf8(bytes@) {
            decode_utf8(bytes@)
        } else {
            hex_text(bytes@)
        },
{
    match utf8_text(bytes.as_slice()) {
        Some(text) => (text.to_owned(), true),
        None => (hex_encode(bytes), false),
    }
}

} // verus!
