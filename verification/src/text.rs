//! Text: decimal numbers, the components of a path, names read from raw bytes.

use vstd::prelude::*;
use vstd::utf8::{decode_utf8, valid_utf8};

verus! {

/// The decimal digit `d`.
pub open spec fn digit(d: nat) -> char {
    if d == 0 {
        '0'
    } else if d == 1 {
        '1'
    } else if d == 2 {
        '2'
    } else if d == 3 {
        '3'
    } else if d == 4 {
        '4'
    } else if d == 5 {
        '5'
    } else if d == 6 {
        '6'
    } else if d == 7 {
        '7'
    } else if d == 8 {
        '8'
    } else {
        '9'
    }
}

/// The decimal notation of a natural number.
pub open spec fn decimal(n: nat) -> Seq<char>
    decreases n,
{
    if n < 10 {
        seq![digit(n)]
    } else {
        decimal(n / 10).push(digit(n % 10))
    }
}

/// The decimal notation of an integer.
pub open spec fn signed_decimal(n: int) -> Seq<char> {
    if n < 0 {
        "-"@ + decimal((-n) as nat)
    } else {
        decimal(n as nat)
    }
}

fn digit_text(d: u32) -> (s: &'static str)
    requires
        d < 10,
    ensures
        s@ == seq![digit(d as nat)],
{
    proof {
        reveal_strlit("0");
        reveal_strlit("1");
        reveal_strlit("2");
        reveal_strlit("3");
        reveal_strlit("4");
        reveal_strlit("5");
        reveal_strlit("6");
        reveal_strlit("7");
        reveal_strlit("8");
        reveal_strlit("9");
    }
    let s = match d {
        0 => "0",
        1 => "1",
        2 => "2",
        3 => "3",
        4 => "4",
        5 => "5",
        6 => "6",
        7 => "7",
        8 => "8",
        _ => "9",
    };
    assert(s@ =~= seq![digit(d as nat)]);
    s
}

/// Writes `n` in decimal.
pub fn u32_text(n: u32) -> (s: String)
    ensures
        s@ == decimal(n as nat),
    decreases n,
{
    if n < 10 {
        digit_text(n).to_owned()
    } else {
        let mut s = u32_text(n / 10);
        s.append(digit_text(n % 10));
        assert(s@ =~= decimal((n / 10) as nat).push(digit((n % 10) as nat)));
        s
    }
}

/// Writes `n` in decimal.
pub fn i32_text(n: i32) -> (s: String)
    ensures
        s@ == signed_decimal(n as int),
{
    if n < 0 {
        let mut s = "-".to_owned();
        let magnitude: u32 = (-(n as i64)) as u32;
        let digits = u32_text(magnitude);
        s.append(digits.as_str());
        s
    } else {
        u32_text(n as u32)
    }
}

/// Two pieces of text one after the other.
pub fn joined(a: &str, b: &str) -> (s: String)
    ensures
        s@ == a@ + b@,
{
    let mut s = a.to_owned();
    s.append(b);
    s
}

/// Whether two pieces of text are the same.
pub fn same_text(a: &str, b: &str) -> (r: bool)
    ensures
        r == (a@ == b@),
{
    let x = a.to_owned();
    let y = b.to_owned();
    x == y
}

/// Where the component that reaches up to the end of `s` begins.
pub open spec fn tail_start(s: Seq<char>) -> int
    decreases s.len(),
{
    if s.len() == 0 || s.last() == '/' {
        s.len() as int
    } else {
        tail_start(s.drop_last())
    }
}

/// The non-empty pieces of `s` between its `/` characters, in order.
pub open spec fn components(s: Seq<char>) -> Seq<Seq<char>>
    decreases s.len(),
{
    if s.len() == 0 {
        Seq::empty()
    } else if s.last() == '/' {
        components(s.drop_last())
    } else {
        let start = tail_start(s);
        if 0 <= start < s.len() {
            components(s.take(start)).push(s.subrange(start, s.len() as int))
        } else {
            Seq::empty()
        }
    }
}

/// What each of the strings holds.
pub open spec fn texts(v: Seq<String>) -> Seq<Seq<char>> {
    v.map_values(|s: String| s@)
}

/// The last component lies inside the text.
proof fn lemma_tail_start_bounds(s: Seq<char>)
    ensures
        0 <= tail_start(s) <= s.len(),
        s.len() > 0 && s.last() != '/' ==> tail_start(s) < s.len(),
    decreases s.len(),
{
    if s.len() > 0 && s.last() != '/' {
        lemma_tail_start_bounds(s.drop_last());
    }
}

/// The components of `path`.
pub fn split_components(path: &str) -> (parts: Vec<String>)
    ensures
        texts(parts@) == components(path@),
{
    let n: usize = path.unicode_len();
    let mut parts: Vec<String> = Vec::new();
    let mut start: usize = 0;
    let mut i: usize = 0;
    let ghost p = path@;
    assert(texts(parts@) =~= Seq::<Seq<char>>::empty());
    while i < n
        invariant
            n == path@.len(),
            p == path@,
            0 <= start <= i <= n,
            start == tail_start(p.take(i as int)),
            texts(parts@) == components(p.take(start as int)),
        decreases n - i,
    {
        proof {
            assert(p.take(i + 1).drop_last() =~= p.take(i as int));
            lemma_tail_start_bounds(p.take(i as int));
        }
        if path.get_char(i) == '/' {
            if start < i {
                let part = path.substring_char(start, i).to_owned();
                let ghost before = parts@;
                parts.push(part);
                proof {
                    let seen = p.take(i as int);
                    assert(texts(parts@) =~= texts(before).push(part@));
                    assert(seen.last() != '/');
                    assert(seen.take(start as int) =~= p.take(start as int));
                    assert(seen.subrange(start as int, i as int) =~= p.subrange(
                        start as int,
                        i as int,
                    ));
                    assert(texts(parts@) == components(seen));
                }
            }
            start = i + 1;
        }
        i = i + 1;
    }
    assert(p.take(n as int) =~= p);
    if start < n {
        let part = path.substring_char(start, n).to_owned();
        let ghost before = parts@;
        parts.push(part);
        proof {
            assert(texts(parts@) =~= texts(before).push(part@));
        }
    }
    parts
}

/// What `String::from_utf8_lossy` makes of bytes that are not UTF-8.
pub uninterp spec fn utf8_lossy(bytes: Seq<u8>) -> Seq<char>;

/// The text that raw bytes stand for: their decoding where they are UTF-8, and otherwise the
/// decoding with replacement characters.
pub open spec fn lossy_text(bytes: Seq<u8>) -> Seq<char> {
    if valid_utf8(bytes) {
        decode_utf8(bytes)
    } else {
        utf8_lossy(bytes)
    }
}

/// Calls `String::from_utf8_lossy`, which returns the decoded text where the bytes are UTF-8.
/// Where they are not, it puts replacement characters in place of the parts that are not; that
/// text depends on the bytes alone and has the name `utf8_lossy`.
#[verifier::external_body]
pub(crate) fn text_from_bytes(bytes: &[u8]) -> (text: String)
    ensures
        text@ == (if valid_utf8(bytes@) {
            decode_utf8(bytes@)
        } else {
            utf8_lossy(bytes@)
        }),
{
    String::from_utf8_lossy(bytes).into_owned()
}

} // verus!
