//! Reading the block of 256 words that a drive identifies itself with.

use crate::bits::{be16_byte, u16_to_be};
use vstd::prelude::*;

verus! {

/// The characters that trimming removes: Unicode white space.
pub open spec fn is_blank(c: char) -> bool {
    let n = c as u32;
    ||| 0x09 <= n <= 0x0D
    ||| n == 0x20
    ||| n == 0x85
    ||| n == 0xA0
    ||| n == 0x1680
    ||| 0x2000 <= n <= 0x200A
    ||| n == 0x2028
    ||| n == 0x2029
    ||| n == 0x202F
    ||| n == 0x205F
    ||| n == 0x3000
}

/// Tells whether trimming removes `c`.
pub fn blank(c: char) -> (r: bool)
    ensures
        r == is_blank(c),
{
    let n = c as u32;
    (0x09 <= n && n <= 0x0D) || n == 0x20 || n == 0x85 || n == 0xA0 || n == 0x1680 || (0x2000 <= n && n <= 0x200A)
        || n == 0x2028 || n == 0x2029 || n == 0x202F || n == 0x205F || n == 0x3000
}

/// `s` without its leading blanks.
pub open spec fn trim_start(s: Seq<char>) -> Seq<char>
    decreases s.len(),
{
    if s.len() > 0 && is_blank(s[0]) {
        trim_start(s.drop_first())
    } else {
        s
    }
}

/// `s` without its trailing blanks.
pub open spec fn trim_end(s: Seq<char>) -> Seq<char>
    decreases s.len(),
{
    if s.len() > 0 && is_blank(s.last()) {
        trim_end(s.drop_last())
    } else {
        s
    }
}

/// `s` without blanks at either end.
pub open spec fn trimmed(s: Seq<char>) -> Seq<char> {
    trim_end(trim_start(s))
}

/// The text held in the words `lo..hi` of an identify block: two
/// characters per word, the high byte first.
pub open spec fn word_chars(words: Seq<u16>, lo: int, hi: int) -> Seq<char> {
    Seq::new(
        (2 * (hi - lo)) as nat,
        |k: int|
            if k % 2 == 0 {
                be16_byte(words[lo + k / 2], 0) as char
            } else {
                be16_byte(words[lo + k / 2], 1) as char
            },
    )
}

/// The serial number an identify block reports: words 10..20, trimmed.
pub open spec fn identify_serial(words: Seq<u16>) -> Seq<char> {
    trimmed(word_chars(words, 10, 20))
}

/// The model name an identify block reports: words 27..47, trimmed.
pub open spec fn identify_model(words: Seq<u16>) -> Seq<char> {
    trimmed(word_chars(words, 27, 47))
}

/// The number of sectors an identify block reports: word 61 over word 60.
pub open spec fn identify_sectors(words: Seq<u16>) -> u32 {
    (words[61] as u32) << 16 | (words[60] as u32)
}

/// Reads the trimmed text held in the words `lo..hi` of an identify block.
pub fn field_text(words: &[u16; 256], lo: usize, hi: usize) -> (text: String)
    requires
        lo <= hi <= 256,
    ensures
        text@ == trimmed(word_chars(words@, lo as int, hi as int)),
{
    let ghost all = word_chars(words@, lo as int, hi as int);
    let mut raw: Vec<char> = Vec::new();
    let mut i: usize = lo;
    while i < hi
        invariant
            lo <= i <= hi <= 256,
            raw@.len() == 2 * (i - lo),
            forall|k: int| 0 <= k < raw@.len() ==> raw@[k] == word_chars(words@, lo as int, hi as int)[k],
        decreases hi - i,
    {
        let pair = u16_to_be(words[i]);
        raw.push(pair[0] as char);
        raw.push(pair[1] as char);
        i += 1;
    }
    assert(raw@ =~= all);
    let mut start: usize = 0;
    proof {
        assert(all.skip(0) =~= all);
    }
    while start < raw.len() && blank(raw[start])
        invariant
            start <= raw@.len(),
            raw@ == all,
            trim_start(all) == trim_start(all.skip(start as int)),
        decreases raw@.len() - start,
    {
        proof {
            assert(all.skip(start as int).drop_first() =~= all.skip(start + 1));
        }
        start += 1;
    }
    let ghost front = all.skip(start as int);
    assert(trim_start(all) == front);
    let mut end: usize = raw.len();
    proof {
        assert(front.take(end - start) =~= front);
    }
    while end > start && blank(raw[end - 1])
        invariant
            start <= end <= raw@.len(),
            raw@ == all,
            front == all.skip(start as int),
            trim_end(front) == trim_end(front.take(end - start)),
        decreases end - start,
    {
        proof {
            assert(front.take(end - start).drop_last() =~= front.take(end - start - 1));
            assert(front.take(end - start).last() == raw@[end - 1]);
        }
        end -= 1;
    }
    let ghost kept = front.take(end - start);
    proof {
        if end > start {
            assert(kept.last() == raw@[end - 1]);
        }
        assert(trim_end(front) == kept);
    }
    let mut text = String::new();
    let mut k: usize = start;
    while k < end
        invariant
            start <= k <= end <= raw@.len(),
            raw@ == all,
            text@ == all.subrange(start as int, k as int),
        decreases end - k,
    {
        text.push(raw[k]);
        proof {
            assert(all.subrange(start as int, k as int).push(all[k as int]) =~= all.subrange(start as int, k + 1));
        }
        k += 1;
    }
    assert(all.subrange(start as int, end as int) =~= kept);
    text
}

/// The number of sectors an identify block reports.
pub fn sector_count(words: &[u16; 256]) -> (n: u32)
    ensures
        n == identify_sectors(words@),
{
    (words[61] as u32) << 16 | (words[60] as u32)
}

} // verus!
