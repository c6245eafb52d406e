//! The line formats of Jepsen logs, read character by character.
//!
//! A line is taken apart the way the logs' regular expressions describe
//! it: `\s` is Unicode's White_Space, `\d` Unicode's decimal digits, and a
//! number is read as Rust reads an integer from text, so a number written
//! with other decimal digits than ASCII ones, or too large for its type,
//! makes the line unreadable.
use crate::jepsen::{EtcdLogLine, KvLogLine};
use vstd::prelude::*;

verus! {

// ---------------------------------------------------------------------------
// Character classes
// ---------------------------------------------------------------------------

/// Unicode's White_Space property, the class that `\s` stands for.
pub open spec fn is_space(c: char) -> bool {
    let u = c as u32;
    (0x9u32 <= u && u <= 0xdu32) || u == 0x20u32 || u == 0x85u32 || u == 0xa0u32 || u == 0x1680u32
        || (0x2000u32 <= u && u <= 0x200au32) || u == 0x2028u32 || u == 0x2029u32 || u == 0x202fu32
        || u == 0x205fu32 || u == 0x3000u32
}

/// Whether `c` is White_Space.
pub fn space_char(c: char) -> (r: bool)
    ensures
        r == is_space(c),
{
    let u = c as u32;
    (0x9u32 <= u && u <= 0xdu32) || u == 0x20u32 || u == 0x85u32 || u == 0xa0u32 || u == 0x1680u32
        || (0x2000u32 <= u && u <= 0x200au32) || u == 0x2028u32 || u == 0x2029u32 || u == 0x202fu32
        || u == 0x205fu32 || u == 0x3000u32
}

/// Unicode's decimal digits (general category Nd, as of Unicode 16), the
/// class that `\d` stands for.
pub open spec fn is_decimal(c: char) -> bool {
    let u = c as u32;
    (0x30u32 <= u && u <= 0x39u32)
        || (0x660u32 <= u && u <= 0x669u32)
        || (0x6f0u32 <= u && u <= 0x6f9u32)
        || (0x7c0u32 <= u && u <= 0x7c9u32)
        || (0x966u32 <= u && u <= 0x96fu32)
        || (0x9e6u32 <= u && u <= 0x9efu32)
        || (0xa66u32 <= u && u <= 0xa6fu32)
        || (0xae6u32 <= u && u <= 0xaefu32)
        || (0xb66u32 <= u && u <= 0xb6fu32)
        || (0xbe6u32 <= u && u <= 0xbefu32)
        || (0xc66u32 <= u && u <= 0xc6fu32)
        || (0xce6u32 <= u && u <= 0xcefu32)
        || (0xd66u32 <= u && u <= 0xd6fu32)
        || (0xde6u32 <= u && u <= 0xdefu32)
        || (0xe50u32 <= u && u <= 0xe59u32)
        || (0xed0u32 <= u && u <= 0xed9u32)
        || (0xf20u32 <= u && u <= 0xf29u32)
        || (0x1040u32 <= u && u <= 0x1049u32)
        || (0x1090u32 <= u && u <= 0x1099u32)
        || (0x17e0u32 <= u && u <= 0x17e9u32)
        || (0x1810u32 <= u && u <= 0x1819u32)
        || (0x1946u32 <= u && u <= 0x194fu32)
        || (0x19d0u32 <= u && u <= 0x19d9u32)
        || (0x1a80u32 <= u && u <= 0x1a89u32)
        || (0x1a90u32 <= u && u <= 0x1a99u32)
        || (0x1b50u32 <= u && u <= 0x1b59u32)
        || (0x1bb0u32 <= u && u <= 0x1bb9u32)
        || (0x1c40u32 <= u && u <= 0x1c49u32)
        || (0x1c50u32 <= u && u <= 0x1c59u32)
        || (0xa620u32 <= u && u <= 0xa629u32)
        || (0xa8d0u32 <= u && u <= 0xa8d9u32)
        || (0xa900u32 <= u && u <= 0xa909u32)
        || (0xa9d0u32 <= u && u <= 0xa9d9u32)
        || (0xa9f0u32 <= u && u <= 0xa9f9u32)
        || (0xaa50u32 <= u && u <= 0xaa59u32)
        || (0xabf0u32 <= u && u <= 0xabf9u32)
        || (0xff10u32 <= u && u <= 0xff19u32)
        || (0x104a0u32 <= u && u <= 0x104a9u32)
        || (0x10d30u32 <= u && u <= 0x10d39u32)
        || (0x10d40u32 <= u && u <= 0x10d49u32)
        || (0x11066u32 <= u && u <= 0x1106fu32)
        || (0x110f0u32 <= u && u <= 0x110f9u32)
        || (0x11136u32 <= u && u <= 0x1113fu32)
        || (0x111d0u32 <= u && u <= 0x111d9u32)
        || (0x112f0u32 <= u && u <= 0x112f9u32)
        || (0x11450u32 <= u && u <= 0x11459u32)
        || (0x114d0u32 <= u && u <= 0x114d9u32)
        || (0x11650u32 <= u && u <= 0x11659u32)
        || (0x116c0u32 <= u && u <= 0x116c9u32)
        || (0x116d0u32 <= u && u <= 0x116e3u32)
        || (0x11730u32 <= u && u <= 0x11739u32)
        || (0x118e0u32 <= u && u <= 0x118e9u32)
        || (0x11950u32 <= u && u <= 0x11959u32)
        || (0x11bf0u32 <= u && u <= 0x11bf9u32)
        || (0x11c50u32 <= u && u <= 0x11c59u32)
        || (0x11d50u32 <= u && u <= 0x11d59u32)
        || (0x11da0u32 <= u && u <= 0x11da9u32)
        || (0x11f50u32 <= u && u <= 0x11f59u32)
        || (0x16130u32 <= u && u <= 0x16139u32)
        || (0x16a60u32 <= u && u <= 0x16a69u32)
        || (0x16ac0u32 <= u && u <= 0x16ac9u32)
        || (0x16b50u32 <= u && u <= 0x16b59u32)
        || (0x16d70u32 <= u && u <= 0x16d79u32)
        || (0x1ccf0u32 <= u && u <= 0x1ccf9u32)
        || (0x1d7ceu32 <= u && u <= 0x1d7ffu32)
        || (0x1e140u32 <= u && u <= 0x1e149u32)
        || (0x1e2f0u32 <= u && u <= 0x1e2f9u32)
        || (0x1e4f0u32 <= u && u <= 0x1e4f9u32)
        || (0x1e5f1u32 <= u && u <= 0x1e5fau32)
        || (0x1e950u32 <= u && u <= 0x1e959u32)
        || (0x1fbf0u32 <= u && u <= 0x1fbf9u32)
}

/// Whether `c` is a decimal digit.
pub fn decimal_char(c: char) -> (r: bool)
    ensures
        r == is_decimal(c),
{
    let u = c as u32;
    (0x30u32 <= u && u <= 0x39u32)
        || (0x660u32 <= u && u <= 0x669u32)
        || (0x6f0u32 <= u && u <= 0x6f9u32)
        || (0x7c0u32 <= u && u <= 0x7c9u32)
        || (0x966u32 <= u && u <= 0x96fu32)
        || (0x9e6u32 <= u && u <= 0x9efu32)
        || (0xa66u32 <= u && u <= 0xa6fu32)
        || (0xae6u32 <= u && u <= 0xaefu32)
        || (0xb66u32 <= u && u <= 0xb6fu32)
        || (0xbe6u32 <= u && u <= 0xbefu32)
        || (0xc66u32 <= u && u <= 0xc6fu32)
        || (0xce6u32 <= u && u <= 0xcefu32)
        || (0xd66u32 <= u && u <= 0xd6fu32)
        || (0xde6u32 <= u && u <= 0xdefu32)
        || (0xe50u32 <= u && u <= 0xe59u32)
        || (0xed0u32 <= u && u <= 0xed9u32)
        || (0xf20u32 <= u && u <= 0xf29u32)
        || (0x1040u32 <= u && u <= 0x1049u32)
        || (0x1090u32 <= u && u <= 0x1099u32)
        || (0x17e0u32 <= u && u <= 0x17e9u32)
        || (0x1810u32 <= u && u <= 0x1819u32)
        || (0x1946u32 <= u && u <= 0x194fu32)
        || (0x19d0u32 <= u && u <= 0x19d9u32)
        || (0x1a80u32 <= u && u <= 0x1a89u32)
        || (0x1a90u32 <= u && u <= 0x1a99u32)
        || (0x1b50u32 <= u && u <= 0x1b59u32)
        || (0x1bb0u32 <= u && u <= 0x1bb9u32)
        || (0x1c40u32 <= u && u <= 0x1c49u32)
        || (0x1c50u32 <= u && u <= 0x1c59u32)
        || (0xa620u32 <= u && u <= 0xa629u32)
        || (0xa8d0u32 <= u && u <= 0xa8d9u32)
        || (0xa900u32 <= u && u <= 0xa909u32)
        || (0xa9d0u32 <= u && u <= 0xa9d9u32)
        || (0xa9f0u32 <= u && u <= 0xa9f9u32)
        || (0xaa50u32 <= u && u <= 0xaa59u32)
        || (0xabf0u32 <= u && u <= 0xabf9u32)
        || (0xff10u32 <= u && u <= 0xff19u32)
        || (0x104a0u32 <= u && u <= 0x104a9u32)
        || (0x10d30u32 <= u && u <= 0x10d39u32)
        || (0x10d40u32 <= u && u <= 0x10d49u32)
        || (0x11066u32 <= u && u <= 0x1106fu32)
        || (0x110f0u32 <= u && u <= 0x110f9u32)
        || (0x11136u32 <= u && u <= 0x1113fu32)
        || (0x111d0u32 <= u && u <= 0x111d9u32)
        || (0x112f0u32 <= u && u <= 0x112f9u32)
        || (0x11450u32 <= u && u <= 0x11459u32)
        || (0x114d0u32 <= u && u <= 0x114d9u32)
        || (0x11650u32 <= u && u <= 0x11659u32)
        || (0x116c0u32 <= u && u <= 0x116c9u32)
        || (0x116d0u32 <= u && u <= 0x116e3u32)
        || (0x11730u32 <= u && u <= 0x11739u32)
        || (0x118e0u32 <= u && u <= 0x118e9u32)
        || (0x11950u32 <= u && u <= 0x11959u32)
        || (0x11bf0u32 <= u && u <= 0x11bf9u32)
        || (0x11c50u32 <= u && u <= 0x11c59u32)
        || (0x11d50u32 <= u && u <= 0x11d59u32)
        || (0x11da0u32 <= u && u <= 0x11da9u32)
        || (0x11f50u32 <= u && u <= 0x11f59u32)
        || (0x16130u32 <= u && u <= 0x16139u32)
        || (0x16a60u32 <= u && u <= 0x16a69u32)
        || (0x16ac0u32 <= u && u <= 0x16ac9u32)
        || (0x16b50u32 <= u && u <= 0x16b59u32)
        || (0x16d70u32 <= u && u <= 0x16d79u32)
        || (0x1ccf0u32 <= u && u <= 0x1ccf9u32)
        || (0x1d7ceu32 <= u && u <= 0x1d7ffu32)
        || (0x1e140u32 <= u && u <= 0x1e149u32)
        || (0x1e2f0u32 <= u && u <= 0x1e2f9u32)
        || (0x1e4f0u32 <= u && u <= 0x1e4f9u32)
        || (0x1e5f1u32 <= u && u <= 0x1e5fau32)
        || (0x1e950u32 <= u && u <= 0x1e959u32)
        || (0x1fbf0u32 <= u && u <= 0x1fbf9u32)
}

/// An ASCII digit.
pub open spec fn is_ascii_digit(c: char) -> bool {
    '0' <= c && c <= '9'
}

// ---------------------------------------------------------------------------
// Words
// ---------------------------------------------------------------------------

/// The characters of `s`.
pub fn chars_of(s: &str) -> (r: Vec<char>)
    ensures
        r@ == s@,
{
    let mut out: Vec<char> = Vec::new();
    for c in it: s.chars()
        invariant
            it.seq() == s@,
            out@ == s@.take(it.index() as int),
    {
        out.push(c);
        proof {
            assert(out@ =~= s@.take(it.index() + 1));
        }
    }
    proof {
        assert(out@ =~= s@);
    }
    out
}

/// The words of `s`: its maximal runs of characters that are not
/// White_Space, in order.
pub open spec fn words(s: Seq<char>) -> Seq<Seq<char>>
    decreases s.len(),
{
    if s.len() == 0 {
        Seq::empty()
    } else {
        let w = words(s.drop_last());
        let c = s.last();
        if is_space(c) {
            w
        } else if s.len() >= 2 && !is_space(s[s.len() - 2]) {
            w.update(w.len() - 1, w.last().push(c))
        } else {
            w.push(seq![c])
        }
    }
}

/// A text that ends in a character that is not White_Space has words.
proof fn lemma_words_nonempty(s: Seq<char>)
    requires
        s.len() > 0,
        !is_space(s.last()),
    ensures
        words(s).len() > 0,
    decreases s.len(),
{
    if s.len() >= 2 && !is_space(s[s.len() - 2]) {
        lemma_words_nonempty(s.drop_last());
    }
}

/// No White_Space before the first character and after the last.
pub open spec fn trimmed(s: Seq<char>) -> bool {
    s.len() > 0 && !is_space(s[0]) && !is_space(s.last())
}

/// The view of each of a list of character vectors.
pub open spec fn char_views(v: Seq<Vec<char>>) -> Seq<Seq<char>> {
    v.map_values(|w: Vec<char>| w@)
}

/// The words of `s`.
pub fn split_words(s: &Vec<char>) -> (r: Vec<Vec<char>>)
    ensures
        char_views(r@) == words(s@),
{
    let mut out: Vec<Vec<char>> = Vec::new();
    let mut i: usize = 0;
    while i < s.len()
        invariant
            i <= s@.len(),
            char_views(out@) == words(s@.take(i as int)),
        decreases s@.len() - i,
    {
        let c = s[i];
        let ghost before = out@;
        proof {
            assert(s@.take(i + 1).drop_last() =~= s@.take(i as int));
        }
        if space_char(c) {
        } else if i > 0 && !space_char(s[i - 1]) {
            proof {
                assert(s@.take(i as int).last() == s@[i - 1]);
                lemma_words_nonempty(s@.take(i as int));
            }
            let last = out.len() - 1;
            let mut w: Vec<char> = Vec::new();
            out.set_and_swap(last, &mut w);
            w.push(c);
            out.set(last, w);
            proof {
                assert(char_views(out@) =~= char_views(before).update(
                    last as int,
                    char_views(before)[last as int].push(c),
                ));
            }
        } else {
            let mut w: Vec<char> = Vec::new();
            w.push(c);
            out.push(w);
            proof {
                assert(char_views(out@) =~= char_views(before).push(seq![c]));
            }
        }
        i = i + 1;
    }
    proof {
        assert(s@.take(s@.len() as int) =~= s@);
    }
    out
}

/// Whether `a` and `b` hold the same characters.
pub fn same_chars(a: &Vec<char>, b: &Vec<char>) -> (r: bool)
    ensures
        r == (a@ == b@),
{
    if a.len() != b.len() {
        return false;
    }
    let mut i: usize = 0;
    while i < a.len()
        invariant
            i <= a@.len(),
            a@.len() == b@.len(),
            forall|j: int| 0 <= j < i ==> a@[j] == b@[j],
        decreases a@.len() - i,
    {
        if a[i] != b[i] {
            return false;
        }
        i = i + 1;
    }
    proof {
        assert(a@ =~= b@);
    }
    true
}

// ---------------------------------------------------------------------------
// Numbers
// ---------------------------------------------------------------------------

/// One decimal digit at least, and nothing else: what `\d+` matches.
pub open spec fn all_decimal(w: Seq<char>) -> bool {
    w.len() > 0 && forall|i: int| 0 <= i < w.len() ==> is_decimal(#[trigger] w[i])
}

/// Only ASCII digits.
pub open spec fn all_ascii_digits(w: Seq<char>) -> bool {
    forall|i: int| 0 <= i < w.len() ==> is_ascii_digit(#[trigger] w[i])
}

/// The value of a run of ASCII digits.
pub open spec fn digits_value(w: Seq<char>) -> int
    decreases w.len(),
{
    if w.len() == 0 {
        0
    } else {
        digits_value(w.drop_last()) * 10 + (w.last() as int - '0' as int)
    }
}

/// What Rust's `parse` reads from a run of decimal digits as an integer
/// type whose largest value is `max`: the value, when every digit is ASCII
/// and the value fits; nothing otherwise.
pub open spec fn number(w: Seq<char>, max: int) -> Option<int> {
    if w.len() > 0 && all_ascii_digits(w) && digits_value(w) <= max {
        Some(digits_value(w))
    } else {
        None
    }
}

/// The value of ASCII digits is never negative, and no prefix of them is
/// worth more than all of them.
proof fn lemma_digits_value_grows(w: Seq<char>, j: int)
    requires
        all_ascii_digits(w),
        0 <= j <= w.len(),
    ensures
        0 <= digits_value(w.take(j)) <= digits_value(w),
    decreases w.len(),
{
    if w.len() > 0 {
        let d = w.drop_last();
        assert(all_ascii_digits(d)) by {
            assert forall|i: int| 0 <= i < d.len() implies is_ascii_digit(#[trigger] d[i]) by {
                assert(d[i] == w[i]);
            }
        }
        assert(is_ascii_digit(w[w.len() - 1]));
        if j < w.len() {
            assert(d.take(j) =~= w.take(j));
            lemma_digits_value_grows(d, j);
        } else {
            assert(w.take(j) =~= w);
            lemma_digits_value_grows(d, d.len() as int);
            assert(d.take(d.len() as int) =~= d);
        }
    } else {
        assert(w.take(j) =~= w);
    }
}

/// Whether `w` is one decimal digit or more, and nothing else.
pub fn decimal_run(w: &Vec<char>) -> (r: bool)
    ensures
        r == all_decimal(w@),
{
    if w.len() == 0 {
        return false;
    }
    let mut i: usize = 0;
    while i < w.len()
        invariant
            i <= w@.len(),
            forall|j: int| 0 <= j < i ==> is_decimal(#[trigger] w@[j]),
        decreases w@.len() - i,
    {
        if !decimal_char(w[i]) {
            return false;
        }
        i = i + 1;
    }
    true
}

/// Read the digits of `w` as a number no larger than `max`, as Rust's
/// `parse` does.
pub fn parse_number(w: &Vec<char>, max: u32) -> (r: Option<u32>)
    ensures
        r is Some <==> number(w@, max as int) is Some,
        r matches Some(x) ==> number(w@, max as int) == Some(x as int),
{
    if w.len() == 0 {
        return None;
    }
    let mut v: u64 = 0;
    let mut i: usize = 0;
    while i < w.len()
        invariant
            0 < w@.len(),
            i <= w@.len(),
            all_ascii_digits(w@.take(i as int)),
            v == digits_value(w@.take(i as int)),
            v <= max,
        decreases w@.len() - i,
    {
        let c = w[i];
        if !('0' <= c && c <= '9') {
            return None;
        }
        let d = (c as u32 - '0' as u32) as u64;
        let next = v * 10 + d;
        proof {
            assert(w@.take(i + 1).drop_last() =~= w@.take(i as int));
            assert(all_ascii_digits(w@.take(i + 1))) by {
                assert forall|j: int| 0 <= j < i + 1 implies is_ascii_digit(#[trigger] w@.take(i + 1)[j]) by {
                    if j < i {
                        assert(w@.take(i + 1)[j] == w@.take(i as int)[j]);
                    }
                }
            }
        }
        if next > max as u64 {
            proof {
                if all_ascii_digits(w@) {
                    lemma_digits_value_grows(w@, i + 1);
                }
            }
            return None;
        }
        v = next;
        i = i + 1;
    }
    proof {
        assert(w@.take(w@.len() as int) =~= w@);
    }
    Some(v as u32)
}

// ---------------------------------------------------------------------------
// Lines of an etcd log
// ---------------------------------------------------------------------------

/// The word `INFO`.
pub open spec fn word_info() -> Seq<char> {
    seq!['I', 'N', 'F', 'O']
}

fn chars_info() -> (r: Vec<char>)
    ensures
        r@ == word_info(),
{
    vec!['I', 'N', 'F', 'O']
}

/// The word `jepsen.util`.
pub open spec fn word_jepsen_util() -> Seq<char> {
    seq!['j', 'e', 'p', 's', 'e', 'n', '.', 'u', 't', 'i', 'l']
}

fn chars_jepsen_util() -> (r: Vec<char>)
    ensures
        r@ == word_jepsen_util(),
{
    vec!['j', 'e', 'p', 's', 'e', 'n', '.', 'u', 't', 'i', 'l']
}

/// The word `-`.
pub open spec fn word_dash() -> Seq<char> {
    seq!['-']
}

fn chars_dash() -> (r: Vec<char>)
    ensures
        r@ == word_dash(),
{
    vec!['-']
}

/// The word `:invoke`.
pub open spec fn word_invoke() -> Seq<char> {
    seq![':', 'i', 'n', 'v', 'o', 'k', 'e']
}

fn chars_invoke() -> (r: Vec<char>)
    ensures
        r@ == word_invoke(),
{
    vec![':', 'i', 'n', 'v', 'o', 'k', 'e']
}

/// The word `:ok`.
pub open spec fn word_ok() -> Seq<char> {
    seq![':', 'o', 'k']
}

fn chars_ok() -> (r: Vec<char>)
    ensures
        r@ == word_ok(),
{
    vec![':', 'o', 'k']
}

/// The word `:fail`.
pub open spec fn word_fail() -> Seq<char> {
    seq![':', 'f', 'a', 'i', 'l']
}

fn chars_fail() -> (r: Vec<char>)
    ensures
        r@ == word_fail(),
{
    vec![':', 'f', 'a', 'i', 'l']
}

/// The word `:read`.
pub open spec fn word_read() -> Seq<char> {
    seq![':', 'r', 'e', 'a', 'd']
}

fn chars_read() -> (r: Vec<char>)
    ensures
        r@ == word_read(),
{
    vec![':', 'r', 'e', 'a', 'd']
}

/// The word `:write`.
pub open spec fn word_write() -> Seq<char> {
    seq![':', 'w', 'r', 'i', 't', 'e']
}

fn chars_write() -> (r: Vec<char>)
    ensures
        r@ == word_write(),
{
    vec![':', 'w', 'r', 'i', 't', 'e']
}

/// The word `:cas`.
pub open spec fn word_cas() -> Seq<char> {
    seq![':', 'c', 'a', 's']
}

fn chars_cas() -> (r: Vec<char>)
    ensures
        r@ == word_cas(),
{
    vec![':', 'c', 'a', 's']
}

/// The word `nil`.
pub open spec fn word_nil() -> Seq<char> {
    seq!['n', 'i', 'l']
}

fn chars_nil() -> (r: Vec<char>)
    ensures
        r@ == word_nil(),
{
    vec!['n', 'i', 'l']
}

/// The word `:timed-out`.
pub open spec fn word_timed_out() -> Seq<char> {
    seq![':', 't', 'i', 'm', 'e', 'd', '-', 'o', 'u', 't']
}

fn chars_timed_out() -> (r: Vec<char>)
    ensures
        r@ == word_timed_out(),
{
    vec![':', 't', 'i', 'm', 'e', 'd', '-', 'o', 'u', 't']
}

/// What reading one line gives.
#[derive(Clone, Debug)]
pub enum LineRead<T> {
    /// The line is one of the log's kinds of line.
    Line(T),
    /// The line is of no kind that the log's patterns describe.
    Skipped,
    /// The line has the shape of a kind of line, but a number in it cannot
    /// be read: its digits are not all ASCII, or it is too large.
    Unreadable,
}

/// `[` then one decimal digit or more.
pub open spec fn opens_bracket(w: Seq<char>) -> bool {
    w.len() >= 2 && w[0] == '[' && all_decimal(w.drop_first())
}

/// One decimal digit or more, then `]`.
pub open spec fn closes_bracket(w: Seq<char>) -> bool {
    w.len() >= 2 && w.last() == ']' && all_decimal(w.drop_last())
}

/// A number that must fit a `u32`.
pub open spec fn u32_number(w: Seq<char>) -> Option<int> {
    number(w, u32::MAX as int)
}

/// A number that must fit an `i32`.
pub open spec fn i32_number(w: Seq<char>) -> Option<int> {
    number(w, i32::MAX as int)
}

/// A line of an etcd log, as the patterns
/// `^INFO\s+jepsen\.util\s+-\s+(\d+)\s+` followed by
/// `:invoke\s+:read\s+nil$`, `:invoke\s+:write\s+(\d+)$`,
/// `:invoke\s+:cas\s+\[(\d+)\s+(\d+)\]$`, `:ok\s+:read\s+(nil|\d+)$`,
/// `:ok\s+:write\s+(\d+)$`, `:(ok|fail)\s+:cas\s+\[(\d+)\s+(\d+)\]$` or
/// `:fail\s+:read\s+:timed-out$` read it: the process number, and the
/// values that the kind of line carries.
pub open spec fn etcd_line(s: Seq<char>) -> LineRead<EtcdLogLine> {
    let w = words(s);
    if !trimmed(s) || !(w.len() == 7 || w.len() == 8) || w[0] != word_info() || w[1]
        != word_jepsen_util() || w[2] != word_dash() || !all_decimal(w[3]) {
        LineRead::Skipped
    } else {
        let p = u32_number(w[3]);
        let kind = w[4];
        let f = w[5];
        if w.len() == 7 && kind == word_invoke() && f == word_read() && w[6] == word_nil() {
            match p {
                Some(pr) => LineRead::Line(EtcdLogLine::InvokeRead { process: pr as u32 }),
                None => LineRead::Unreadable,
            }
        } else if w.len() == 7 && kind == word_invoke() && f == word_write() && all_decimal(w[6]) {
            match (p, i32_number(w[6])) {
                (Some(pr), Some(v)) => LineRead::Line(
                    EtcdLogLine::InvokeWrite { process: pr as u32, value: v as i32 },
                ),
                _ => LineRead::Unreadable,
            }
        } else if w.len() == 8 && kind == word_invoke() && f == word_cas() && opens_bracket(w[6])
            && closes_bracket(w[7]) {
            match (p, i32_number(w[6].drop_first()), i32_number(w[7].drop_last())) {
                (Some(pr), Some(a), Some(b)) => LineRead::Line(
                    EtcdLogLine::InvokeCas { process: pr as u32, from: a as i32, to: b as i32 },
                ),
                _ => LineRead::Unreadable,
            }
        } else if w.len() == 7 && kind == word_ok() && f == word_read() && w[6] == word_nil() {
            match p {
                Some(pr) => LineRead::Line(EtcdLogLine::ReturnRead { process: pr as u32, value: None }),
                None => LineRead::Unreadable,
            }
        } else if w.len() == 7 && kind == word_ok() && f == word_read() && all_decimal(w[6]) {
            match (p, i32_number(w[6])) {
                (Some(pr), Some(v)) => LineRead::Line(
                    EtcdLogLine::ReturnRead { process: pr as u32, value: Some(v as i32) },
                ),
                _ => LineRead::Unreadable,
            }
        } else if w.len() == 7 && kind == word_ok() && f == word_write() && all_decimal(w[6]) {
            match p {
                Some(pr) => LineRead::Line(EtcdLogLine::ReturnWrite { process: pr as u32 }),
                None => LineRead::Unreadable,
            }
        } else if w.len() == 8 && (kind == word_ok() || kind == word_fail()) && f == word_cas()
            && opens_bracket(w[6]) && closes_bracket(w[7]) {
            match p {
                Some(pr) => LineRead::Line(
                    EtcdLogLine::ReturnCas { process: pr as u32, ok: kind == word_ok() },
                ),
                None => LineRead::Unreadable,
            }
        } else if w.len() == 7 && kind == word_fail() && f == word_read() && w[6] == word_timed_out() {
            match p {
                Some(pr) => LineRead::Line(EtcdLogLine::TimeoutRead { process: pr as u32 }),
                None => LineRead::Unreadable,
            }
        } else {
            LineRead::Skipped
        }
    }
}

/// The characters of `w` from `from` up to `to`.
fn chars_between(w: &Vec<char>, from: usize, to: usize) -> (r: Vec<char>)
    requires
        from <= to <= w@.len(),
    ensures
        r@ == w@.subrange(from as int, to as int),
{
    let mut out: Vec<char> = Vec::new();
    let mut i: usize = from;
    while i < to
        invariant
            from <= i <= to,
            to <= w@.len(),
            out@ == w@.subrange(from as int, i as int),
        decreases to - i,
    {
        out.push(w[i]);
        i = i + 1;
        proof {
            assert(out@ =~= w@.subrange(from as int, i as int));
        }
    }
    out
}

/// Read the digits of `w` as a `u32`.
fn parse_u32(w: &Vec<char>) -> (r: Option<u32>)
    ensures
        r is Some <==> u32_number(w@) is Some,
        r matches Some(x) ==> u32_number(w@) == Some(x as int),
{
    parse_number(w, u32::MAX)
}

/// Read the digits of `w` as an `i32`.
fn parse_i32(w: &Vec<char>) -> (r: Option<i32>)
    ensures
        r is Some <==> i32_number(w@) is Some,
        r matches Some(x) ==> i32_number(w@) == Some(x as int),
{
    match parse_number(w, 0x7fff_ffffu32) {
        Some(v) => {
            proof {
                assert(v <= 0x7fff_ffffu32);
            }
            Some(v as i32)
        },
        None => None,
    }
}

/// Whether `w` is `[` then one decimal digit or more.
fn opens_bracket_chars(w: &Vec<char>) -> (r: bool)
    ensures
        r == opens_bracket(w@),
{
    if w.len() < 2 || w[0] != '[' {
        return false;
    }
    let rest = chars_between(w, 1, w.len());
    proof {
        assert(rest@ =~= w@.drop_first());
    }
    decimal_run(&rest)
}

/// Whether `w` is one decimal digit or more, then `]`.
fn closes_bracket_chars(w: &Vec<char>) -> (r: bool)
    ensures
        r == closes_bracket(w@),
{
    if w.len() < 2 || w[w.len() - 1] != ']' {
        return false;
    }
    let rest = chars_between(w, 0, w.len() - 1);
    proof {
        assert(rest@ =~= w@.drop_last());
    }
    decimal_run(&rest)
}

/// Read one line of an etcd log.
pub fn read_etcd_line(line: &str) -> (r: LineRead<EtcdLogLine>)
    ensures
        r == etcd_line(line@),
{
    let s = chars_of(line);
    let n = s.len();
    if n == 0 || space_char(s[0]) || space_char(s[n - 1]) {
        return LineRead::Skipped;
    }
    let w = split_words(&s);
    let ghost ws = words(s@);
    proof {
        assert(char_views(w@) == ws);
        assert(w@.len() == ws.len());
        assert forall|k: int| 0 <= k < w@.len() implies (#[trigger] w@[k])@ == ws[k] by {
            assert(char_views(w@)[k] == w@[k]@);
        }
    }
    let len = w.len();
    if !(len == 7 || len == 8) || !same_chars(&w[0], &chars_info()) || !same_chars(
        &w[1],
        &chars_jepsen_util(),
    ) || !same_chars(&w[2], &chars_dash()) || !decimal_run(&w[3]) {
        return LineRead::Skipped;
    }
    let p = parse_u32(&w[3]);
    let invoke = same_chars(&w[4], &chars_invoke());
    let ok = same_chars(&w[4], &chars_ok());
    let fail = same_chars(&w[4], &chars_fail());
    let read = same_chars(&w[5], &chars_read());
    let write = same_chars(&w[5], &chars_write());
    let cas = same_chars(&w[5], &chars_cas());
    let nil = same_chars(&w[6], &chars_nil());
    if len == 7 && invoke && read && nil {
        match p {
            Some(pr) => LineRead::Line(EtcdLogLine::InvokeRead { process: pr }),
            None => LineRead::Unreadable,
        }
    } else if len == 7 && invoke && write && decimal_run(&w[6]) {
        match (p, parse_i32(&w[6])) {
            (Some(pr), Some(v)) => LineRead::Line(EtcdLogLine::InvokeWrite { process: pr, value: v }),
            _ => LineRead::Unreadable,
        }
    } else if len == 8 && invoke && cas && opens_bracket_chars(&w[6]) && closes_bracket_chars(&w[7]) {
        let a = chars_between(&w[6], 1, w[6].len());
        let b = chars_between(&w[7], 0, w[7].len() - 1);
        proof {
            assert(a@ =~= ws[6].drop_first());
            assert(b@ =~= ws[7].drop_last());
        }
        match (p, parse_i32(&a), parse_i32(&b)) {
            (Some(pr), Some(x), Some(y)) => LineRead::Line(
                EtcdLogLine::InvokeCas { process: pr, from: x, to: y },
            ),
            _ => LineRead::Unreadable,
        }
    } else if len == 7 && ok && read && nil {
        match p {
            Some(pr) => LineRead::Line(EtcdLogLine::ReturnRead { process: pr, value: None }),
            None => LineRead::Unreadable,
        }
    } else if len == 7 && ok && read && decimal_run(&w[6]) {
        match (p, parse_i32(&w[6])) {
            (Some(pr), Some(v)) => LineRead::Line(
                EtcdLogLine::ReturnRead { process: pr, value: Some(v) },
            ),
            _ => LineRead::Unreadable,
        }
    } else if len == 7 && ok && write && decimal_run(&w[6]) {
        match p {
            Some(pr) => LineRead::Line(EtcdLogLine::ReturnWrite { process: pr }),
            None => LineRead::Unreadable,
        }
    } else if len == 8 && (ok || fail) && cas && opens_bracket_chars(&w[6]) && closes_bracket_chars(
        &w[7],
    ) {
        match p {
            Some(pr) => LineRead::Line(EtcdLogLine::ReturnCas { process: pr, ok }),
            None => LineRead::Unreadable,
        }
    } else if len == 7 && fail && read && same_chars(&w[6], &chars_timed_out()) {
        match p {
            Some(pr) => LineRead::Line(EtcdLogLine::TimeoutRead { process: pr }),
            None => LineRead::Unreadable,
        }
    } else {
        LineRead::Skipped
    }
}

// ---------------------------------------------------------------------------
// Whole logs
// ---------------------------------------------------------------------------

/// The text of each line.
pub open spec fn line_views(lines: Seq<String>) -> Seq<Seq<char>> {
    lines.map_values(|l: String| l@)
}

/// Every line read with `read`: the lines of the log's kinds, in order, or
/// nothing when some line is unreadable.
pub open spec fn read_all<T>(lines: Seq<Seq<char>>, read: spec_fn(Seq<char>) -> LineRead<T>) -> Option<
    Seq<T>,
>
    decreases lines.len(),
{
    if lines.len() == 0 {
        Some(Seq::empty())
    } else {
        match read_all(lines.drop_last(), read) {
            None => None,
            Some(prev) => match read(lines.last()) {
                LineRead::Line(x) => Some(prev.push(x)),
                LineRead::Skipped => Some(prev),
                LineRead::Unreadable => None,
            },
        }
    }
}

/// Once a line is unreadable, so is the log.
proof fn lemma_read_all_fails<T>(lines: Seq<Seq<char>>, read: spec_fn(Seq<char>) -> LineRead<T>, i: int)
    requires
        0 <= i <= lines.len(),
        read_all(lines.take(i), read) is None,
    ensures
        read_all(lines, read) is None,
    decreases lines.len() - i,
{
    if i < lines.len() {
        assert(lines.take(i + 1).drop_last() =~= lines.take(i));
        lemma_read_all_fails(lines, read, i + 1);
    } else {
        assert(lines.take(i) =~= lines);
    }
}

/// The reader of etcd lines.
pub open spec fn etcd_reader() -> spec_fn(Seq<char>) -> LineRead<EtcdLogLine> {
    |s: Seq<char>| etcd_line(s)
}

/// Read every line of an etcd log: the lines of the log's kinds, in
/// order, or `None` when some line is unreadable.
pub fn read_etcd_log(lines: &Vec<String>) -> (r: Option<Vec<EtcdLogLine>>)
    ensures
        match read_all(line_views(lines@), etcd_reader()) {
            Some(ls) => r matches Some(v) && v@ == ls,
            None => r is None,
        },
{
    let ghost all = line_views(lines@);
    let mut out: Vec<EtcdLogLine> = Vec::new();
    let mut i: usize = 0;
    proof {
        assert(all.take(0) =~= Seq::<Seq<char>>::empty());
    }
    while i < lines.len()
        invariant
            i <= lines@.len(),
            all == line_views(lines@),
            read_all(all.take(i as int), etcd_reader()) == Some(out@),
        decreases lines@.len() - i,
    {
        let line = read_etcd_line(lines[i].as_str());
        proof {
            assert(all.take(i + 1).drop_last() =~= all.take(i as int));
            assert(all.take(i + 1).last() == lines@[i as int]@);
        }
        match line {
            LineRead::Line(x) => {
                out.push(x);
            },
            LineRead::Skipped => {},
            LineRead::Unreadable => {
                proof {
                    lemma_read_all_fails(all, etcd_reader(), i + 1);
                }
                return None;
            },
        }
        i = i + 1;
    }
    proof {
        assert(all.take(lines@.len() as int) =~= all);
    }
    Some(out)
}

// ---------------------------------------------------------------------------
// Lines of a key-value log
// ---------------------------------------------------------------------------

/// The text `{:process `.
pub open spec fn text_open() -> Seq<char> {
    seq!['{', ':', 'p', 'r', 'o', 'c', 'e', 's', 's', ' ']
}

fn chars_open() -> (r: Vec<char>)
    ensures
        r@ == text_open(),
{
    vec!['{', ':', 'p', 'r', 'o', 'c', 'e', 's', 's', ' ']
}

/// The text `, :type :invoke, :f :get, :key "`.
pub open spec fn text_mid_invoke_get() -> Seq<char> {
    seq![',', ' ', ':', 't', 'y', 'p', 'e', ' ', ':', 'i', 'n', 'v', 'o', 'k', 'e', ',', ' ', ':', 'f', ' ', ':', 'g', 'e', 't', ',', ' ', ':', 'k', 'e', 'y', ' ', '"']
}

fn chars_mid_invoke_get() -> (r: Vec<char>)
    ensures
        r@ == text_mid_invoke_get(),
{
    vec![',', ' ', ':', 't', 'y', 'p', 'e', ' ', ':', 'i', 'n', 'v', 'o', 'k', 'e', ',', ' ', ':', 'f', ' ', ':', 'g', 'e', 't', ',', ' ', ':', 'k', 'e', 'y', ' ', '"']
}

/// The text `, :type :invoke, :f :put, :key "`.
pub open spec fn text_mid_invoke_put() -> Seq<char> {
    seq![',', ' ', ':', 't', 'y', 'p', 'e', ' ', ':', 'i', 'n', 'v', 'o', 'k', 'e', ',', ' ', ':', 'f', ' ', ':', 'p', 'u', 't', ',', ' ', ':', 'k', 'e', 'y', ' ', '"']
}

fn chars_mid_invoke_put() -> (r: Vec<char>)
    ensures
        r@ == text_mid_invoke_put(),
{
    vec![',', ' ', ':', 't', 'y', 'p', 'e', ' ', ':', 'i', 'n', 'v', 'o', 'k', 'e', ',', ' ', ':', 'f', ' ', ':', 'p', 'u', 't', ',', ' ', ':', 'k', 'e', 'y', ' ', '"']
}

/// The text `, :type :invoke, :f :append, :key "`.
pub open spec fn text_mid_invoke_append() -> Seq<char> {
    seq![',', ' ', ':', 't', 'y', 'p', 'e', ' ', ':', 'i', 'n', 'v', 'o', 'k', 'e', ',', ' ', ':', 'f', ' ', ':', 'a', 'p', 'p', 'e', 'n', 'd', ',', ' ', ':', 'k', 'e', 'y', ' ', '"']
}

fn chars_mid_invoke_append() -> (r: Vec<char>)
    ensures
        r@ == text_mid_invoke_append(),
{
    vec![',', ' ', ':', 't', 'y', 'p', 'e', ' ', ':', 'i', 'n', 'v', 'o', 'k', 'e', ',', ' ', ':', 'f', ' ', ':', 'a', 'p', 'p', 'e', 'n', 'd', ',', ' ', ':', 'k', 'e', 'y', ' ', '"']
}

/// The text `, :type :ok, :f :get, :key "`.
pub open spec fn text_mid_ok_get() -> Seq<char> {
    seq![',', ' ', ':', 't', 'y', 'p', 'e', ' ', ':', 'o', 'k', ',', ' ', ':', 'f', ' ', ':', 'g', 'e', 't', ',', ' ', ':', 'k', 'e', 'y', ' ', '"']
}

fn chars_mid_ok_get() -> (r: Vec<char>)
    ensures
        r@ == text_mid_ok_get(),
{
    vec![',', ' ', ':', 't', 'y', 'p', 'e', ' ', ':', 'o', 'k', ',', ' ', ':', 'f', ' ', ':', 'g', 'e', 't', ',', ' ', ':', 'k', 'e', 'y', ' ', '"']
}

/// The text `, :type :ok, :f :put, :key "`.
pub open spec fn text_mid_ok_put() -> Seq<char> {
    seq![',', ' ', ':', 't', 'y', 'p', 'e', ' ', ':', 'o', 'k', ',', ' ', ':', 'f', ' ', ':', 'p', 'u', 't', ',', ' ', ':', 'k', 'e', 'y', ' ', '"']
}

fn chars_mid_ok_put() -> (r: Vec<char>)
    ensures
        r@ == text_mid_ok_put(),
{
    vec![',', ' ', ':', 't', 'y', 'p', 'e', ' ', ':', 'o', 'k', ',', ' ', ':', 'f', ' ', ':', 'p', 'u', 't', ',', ' ', ':', 'k', 'e', 'y', ' ', '"']
}

/// The text `, :type :ok, :f :append, :key "`.
pub open spec fn text_mid_ok_append() -> Seq<char> {
    seq![',', ' ', ':', 't', 'y', 'p', 'e', ' ', ':', 'o', 'k', ',', ' ', ':', 'f', ' ', ':', 'a', 'p', 'p', 'e', 'n', 'd', ',', ' ', ':', 'k', 'e', 'y', ' ', '"']
}

fn chars_mid_ok_append() -> (r: Vec<char>)
    ensures
        r@ == text_mid_ok_append(),
{
    vec![',', ' ', ':', 't', 'y', 'p', 'e', ' ', ':', 'o', 'k', ',', ' ', ':', 'f', ' ', ':', 'a', 'p', 'p', 'e', 'n', 'd', ',', ' ', ':', 'k', 'e', 'y', ' ', '"']
}

/// The text `", :value nil}`.
pub open spec fn text_nil_end() -> Seq<char> {
    seq!['"', ',', ' ', ':', 'v', 'a', 'l', 'u', 'e', ' ', 'n', 'i', 'l', '}']
}

fn chars_nil_end() -> (r: Vec<char>)
    ensures
        r@ == text_nil_end(),
{
    vec!['"', ',', ' ', ':', 'v', 'a', 'l', 'u', 'e', ' ', 'n', 'i', 'l', '}']
}

/// The text `", :value "`.
pub open spec fn text_value_sep() -> Seq<char> {
    seq!['"', ',', ' ', ':', 'v', 'a', 'l', 'u', 'e', ' ', '"']
}

fn chars_value_sep() -> (r: Vec<char>)
    ensures
        r@ == text_value_sep(),
{
    vec!['"', ',', ' ', ':', 'v', 'a', 'l', 'u', 'e', ' ', '"']
}

/// The text `"}`.
pub open spec fn text_close() -> Seq<char> {
    seq!['"', '}']
}

fn chars_close() -> (r: Vec<char>)
    ensures
        r@ == text_close(),
{
    vec!['"', '}']
}

/// `lit` stands in `s` from position `at`.
pub open spec fn starts_at(s: Seq<char>, at: int, lit: Seq<char>) -> bool {
    0 <= at && at + lit.len() <= s.len() && s.subrange(at, at + lit.len()) == lit
}

/// The last position from `from` to `to` where `lit` stands in `s`.
pub open spec fn last_at(s: Seq<char>, lit: Seq<char>, from: int, to: int) -> Option<int>
    decreases to + 1 - from,
{
    if to < from {
        None
    } else if starts_at(s, to, lit) {
        Some(to)
    } else {
        last_at(s, lit, from, to - 1)
    }
}

/// The first position from `from` on that holds a line feed, or the end of
/// `s`: as far as `.` reaches.
pub open spec fn reach(s: Seq<char>, from: int) -> int
    decreases s.len() - from,
{
    if from < 0 || from >= s.len() || s[from] == '\n' {
        from
    } else {
        reach(s, from + 1)
    }
}

/// How many decimal digits follow one another in `s` from `from` on.
pub open spec fn decimal_run_len(s: Seq<char>, from: int) -> int
    decreases s.len() - from,
{
    if 0 <= from < s.len() && is_decimal(s[from]) {
        1 + decimal_run_len(s, from + 1)
    } else {
        0
    }
}

/// Where a key-value pattern matches `s` from position `a`, when it does:
/// the span of the process number, of the key, and of the value.  The
/// pattern is `\{:process (\d+)` followed by `mid`, a key `(.*)`, then
/// either `", :value nil\}` (`nil_tail`) or `", :value "(.*)"\}`; each
/// `.*` takes as much as it can while the rest still matches.
pub open spec fn kv_span_at(s: Seq<char>, a: int, mid: Seq<char>, nil_tail: bool) -> Option<
    (int, int, int, int, int, int),
> {
    let b = a + 10;
    let c = b + decimal_run_len(s, b);
    let k0 = c + mid.len();
    if !starts_at(s, a, text_open()) || c == b || !starts_at(s, c, mid) {
        None
    } else {
        let end = reach(s, k0);
        if nil_tail {
            match last_at(s, text_nil_end(), k0, end - 14) {
                Some(e) => Some((b, c, k0, e, e, e)),
                None => None,
            }
        } else {
            match last_at(s, text_close(), k0 + 11, end - 2) {
                None => None,
                Some(lc) => match last_at(s, text_value_sep(), k0, lc - 11) {
                    None => None,
                    Some(e1) => Some((b, c, k0, e1, e1 + 11, lc)),
                },
            }
        }
    }
}

/// The leftmost match of a key-value pattern in `s` from position `a` on.
pub open spec fn kv_span_from(s: Seq<char>, a: int, mid: Seq<char>, nil_tail: bool) -> Option<
    (int, int, int, int, int, int),
>
    decreases s.len() + 1 - a,
{
    if a < 0 || a > s.len() {
        None
    } else {
        match kv_span_at(s, a, mid, nil_tail) {
            Some(sp) => Some(sp),
            None => kv_span_from(s, a + 1, mid, nil_tail),
        }
    }
}

/// Whether `lit` stands in `s` from position `at`.
fn starts_at_chars(s: &Vec<char>, at: usize, lit: &Vec<char>) -> (r: bool)
    ensures
        r == starts_at(s@, at as int, lit@),
{
    let n = s.len();
    if at > n || lit.len() > n - at {
        return false;
    }
    let mut i: usize = 0;
    while i < lit.len()
        invariant
            i <= lit@.len(),
            n == s@.len(),
            at + lit@.len() <= s@.len(),
            forall|j: int| 0 <= j < i ==> s@[at + j] == lit@[j],
        decreases lit@.len() - i,
    {
        if s[at + i] != lit[i] {
            proof {
                assert(s@.subrange(at as int, at + lit@.len())[i as int] != lit@[i as int]);
            }
            return false;
        }
        i = i + 1;
    }
    proof {
        assert(s@.subrange(at as int, at + lit@.len()) =~= lit@);
    }
    true
}

/// The last position below `upto` and from `from` on where `lit` stands.
fn last_at_chars(s: &Vec<char>, lit: &Vec<char>, from: usize, upto: usize) -> (r: Option<usize>)
    ensures
        match last_at(s@, lit@, from as int, upto - 1) {
            Some(e) => r == Some(e as usize),
            None => r is None,
        },
{
    let mut k: usize = upto;
    while k > from
        invariant
            from <= upto ==> from <= k,
            k <= upto,
            from > upto ==> k == upto,
            last_at(s@, lit@, from as int, upto - 1) == last_at(s@, lit@, from as int, k - 1),
        decreases k,
    {
        if starts_at_chars(s, k - 1, lit) {
            return Some(k - 1);
        }
        k = k - 1;
    }
    None
}

/// The first position from `from` on that holds a line feed, or the end.
fn reach_chars(s: &Vec<char>, from: usize) -> (r: usize)
    ensures
        r as int == reach(s@, from as int),
{
    let mut i: usize = from;
    while i < s.len() && s[i] != '\n'
        invariant
            from <= i,
            i <= s@.len() || i == from,
            reach(s@, from as int) == reach(s@, i as int),
        decreases s@.len() - i,
    {
        i = i + 1;
    }
    i
}

/// How many decimal digits follow one another from `from` on.
fn decimal_run_len_chars(s: &Vec<char>, from: usize) -> (r: usize)
    ensures
        r as int == decimal_run_len(s@, from as int),
        from + r <= s@.len() || r == 0,
{
    let mut i: usize = from;
    while i < s.len() && decimal_char(s[i])
        invariant
            from <= i,
            i <= s@.len() || i == from,
            decimal_run_len(s@, from as int) == (i - from) + decimal_run_len(s@, i as int),
        decreases s@.len() - i,
    {
        i = i + 1;
    }
    i - from
}

/// A position found by `last_at` lies in its range, and `lit` stands there.
proof fn lemma_last_at_found(s: Seq<char>, lit: Seq<char>, from: int, to: int)
    ensures
        last_at(s, lit, from, to) matches Some(e) ==> from <= e <= to && starts_at(s, e, lit),
    decreases to + 1 - from,
{
    if to >= from && !starts_at(s, to, lit) {
        lemma_last_at_found(s, lit, from, to - 1);
    }
}

/// `.` reaches no further than the end of `s`, and no nearer than where
/// it starts.
proof fn lemma_reach_bounds(s: Seq<char>, from: int)
    requires
        0 <= from <= s.len(),
    ensures
        from <= reach(s, from) <= s.len(),
    decreases s.len() - from,
{
    if from < s.len() && s[from] != '\n' {
        lemma_reach_bounds(s, from + 1);
    }
}

/// Where a key-value pattern matches from position `a`, when it does.
fn kv_span_at_chars(s: &Vec<char>, a: usize, mid: &Vec<char>, nil_tail: bool) -> (r: Option<
    (usize, usize, usize, usize, usize, usize),
>)
    ensures
        match kv_span_at(s@, a as int, mid@, nil_tail) {
            Some(sp) => r == Some(
                (
                    sp.0 as usize,
                    sp.1 as usize,
                    sp.2 as usize,
                    sp.3 as usize,
                    sp.4 as usize,
                    sp.5 as usize,
                ),
            ),
            None => r is None,
        },
{
    let len = s.len();
    if !starts_at_chars(s, a, &chars_open()) {
        return None;
    }
    proof {
        assert(text_open().len() == 10);
    }
    let b = a + 10;
    let n = decimal_run_len_chars(s, b);
    if n == 0 {
        return None;
    }
    let c = b + n;
    if !starts_at_chars(s, c, mid) {
        return None;
    }
    let k0 = c + mid.len();
    let end = reach_chars(s, k0);
    proof {
        lemma_reach_bounds(s@, k0 as int);
    }
    if nil_tail {
        let upto: usize = if end >= 14 {
            end - 13
        } else {
            0
        };
        let found = last_at_chars(s, &chars_nil_end(), k0, upto);
        proof {
            lemma_last_at_found(s@, text_nil_end(), k0 as int, end - 14);
            if end < 14 {
                assert(last_at(s@, text_nil_end(), k0 as int, upto - 1) is None);
                assert(last_at(s@, text_nil_end(), k0 as int, end - 14) is None);
            }
        }
        match found {
            Some(e) => Some((b, c, k0, e, e, e)),
            None => None,
        }
    } else {
        if end - k0 < 13 {
            proof {
                assert(last_at(s@, text_close(), k0 + 11, end - 2) is None);
            }
            return None;
        }
        let found_close = last_at_chars(s, &chars_close(), k0 + 11, end - 1);
        proof {
            lemma_last_at_found(s@, text_close(), k0 + 11, end - 2);
        }
        match found_close {
            None => None,
            Some(lc) => {
                let found_sep = last_at_chars(s, &chars_value_sep(), k0, lc - 10);
                proof {
                    lemma_last_at_found(s@, text_value_sep(), k0 as int, lc - 11);
                }
                match found_sep {
                    Some(e1) => Some((b, c, k0, e1, e1 + 11, lc)),
                    None => None,
                }
            },
        }
    }
}

/// The leftmost match of a key-value pattern in `s`, when there is one.
fn kv_span_chars(s: &Vec<char>, mid: &Vec<char>, nil_tail: bool) -> (r: Option<
    (usize, usize, usize, usize, usize, usize),
>)
    ensures
        match kv_span_from(s@, 0, mid@, nil_tail) {
            Some(sp) => r == Some(
                (
                    sp.0 as usize,
                    sp.1 as usize,
                    sp.2 as usize,
                    sp.3 as usize,
                    sp.4 as usize,
                    sp.5 as usize,
                ),
            ),
            None => r is None,
        },
{
    let n = s.len();
    let mut a: usize = 0;
    while a < n
        invariant
            a <= n,
            n == s@.len(),
            kv_span_from(s@, 0, mid@, nil_tail) == kv_span_from(s@, a as int, mid@, nil_tail),
        decreases n - a,
    {
        match kv_span_at_chars(s, a, mid, nil_tail) {
            Some(sp) => {
                return Some(sp);
            },
            None => {},
        }
        a = a + 1;
    }
    proof {
        assert(!starts_at(s@, n as int, text_open()));
        assert(kv_span_from(s@, n + 1, mid@, nil_tail) is None);
    }
    None
}

/// A line of a key-value log, its texts taken as characters.
#[allow(inconsistent_fields)]
pub enum KvLineView {
    InvokeRead { process: u32, key: Seq<char> },
    InvokeWrite { process: u32, key: Seq<char>, value: Seq<char> },
    InvokeAppend { process: u32, key: Seq<char>, value: Seq<char> },
    ReturnRead { process: u32, value: Seq<char> },
    ReturnWrite { process: u32 },
    ReturnAppend { process: u32 },
}

/// The texts of a key-value line as characters.
pub open spec fn kv_line_view(l: KvLogLine) -> KvLineView {
    match l {
        KvLogLine::InvokeRead { process, key } => KvLineView::InvokeRead { process, key: key@ },
        KvLogLine::InvokeWrite { process, key, value } => KvLineView::InvokeWrite {
            process,
            key: key@,
            value: value@,
        },
        KvLogLine::InvokeAppend { process, key, value } => KvLineView::InvokeAppend {
            process,
            key: key@,
            value: value@,
        },
        KvLogLine::ReturnRead { process, value } => KvLineView::ReturnRead { process, value: value@ },
        KvLogLine::ReturnWrite { process } => KvLineView::ReturnWrite { process },
        KvLogLine::ReturnAppend { process } => KvLineView::ReturnAppend { process },
    }
}

/// What reading a key-value line gave, its texts taken as characters.
pub open spec fn kv_read_view(r: LineRead<KvLogLine>) -> LineRead<KvLineView> {
    match r {
        LineRead::Line(l) => LineRead::Line(kv_line_view(l)),
        LineRead::Skipped => LineRead::Skipped,
        LineRead::Unreadable => LineRead::Unreadable,
    }
}

/// A line of a key-value log, as the patterns
/// `\{:process (\d+), :type :invoke, :f :get, :key "(.*)", :value nil\}`,
/// `\{:process (\d+), :type :invoke, :f :put, :key "(.*)", :value "(.*)"\}`,
/// `\{:process (\d+), :type :invoke, :f :append, :key "(.*)", :value "(.*)"\}`,
/// `\{:process (\d+), :type :ok, :f :get, :key ".*", :value "(.*)"\}`,
/// `\{:process (\d+), :type :ok, :f :put, :key ".*", :value ".*"\}` and
/// `\{:process (\d+), :type :ok, :f :append, :key ".*", :value ".*"\}`,
/// tried in this order, read it: anywhere in the line, at the leftmost
/// place where the first pattern that matches does.
pub open spec fn kv_line(s: Seq<char>) -> LineRead<KvLineView> {
    match kv_span_from(s, 0, text_mid_invoke_get(), true) {
        Some(sp) => match u32_number(s.subrange(sp.0, sp.1)) {
            Some(p) => LineRead::Line(
                KvLineView::InvokeRead { process: p as u32, key: s.subrange(sp.2, sp.3) },
            ),
            None => LineRead::Unreadable,
        },
        None => match kv_span_from(s, 0, text_mid_invoke_put(), false) {
            Some(sp) => match u32_number(s.subrange(sp.0, sp.1)) {
                Some(p) => LineRead::Line(
                    KvLineView::InvokeWrite {
                        process: p as u32,
                        key: s.subrange(sp.2, sp.3),
                        value: s.subrange(sp.4, sp.5),
                    },
                ),
                None => LineRead::Unreadable,
            },
            None => match kv_span_from(s, 0, text_mid_invoke_append(), false) {
                Some(sp) => match u32_number(s.subrange(sp.0, sp.1)) {
                    Some(p) => LineRead::Line(
                        KvLineView::InvokeAppend {
                            process: p as u32,
                            key: s.subrange(sp.2, sp.3),
                            value: s.subrange(sp.4, sp.5),
                        },
                    ),
                    None => LineRead::Unreadable,
                },
                None => match kv_span_from(s, 0, text_mid_ok_get(), false) {
                    Some(sp) => match u32_number(s.subrange(sp.0, sp.1)) {
                        Some(p) => LineRead::Line(
                            KvLineView::ReturnRead { process: p as u32, value: s.subrange(sp.4, sp.5) },
                        ),
                        None => LineRead::Unreadable,
                    },
                    None => match kv_span_from(s, 0, text_mid_ok_put(), false) {
                        Some(sp) => match u32_number(s.subrange(sp.0, sp.1)) {
                            Some(p) => LineRead::Line(KvLineView::ReturnWrite { process: p as u32 }),
                            None => LineRead::Unreadable,
                        },
                        None => match kv_span_from(s, 0, text_mid_ok_append(), false) {
                            Some(sp) => match u32_number(s.subrange(sp.0, sp.1)) {
                                Some(p) => LineRead::Line(KvLineView::ReturnAppend { process: p as u32 }),
                                None => LineRead::Unreadable,
                            },
                            None => LineRead::Skipped,
                        },
                    },
                },
            },
        },
    }
}

/// A run of digits has no negative length.
proof fn lemma_decimal_run_len_nonneg(s: Seq<char>, from: int)
    ensures
        decimal_run_len(s, from) >= 0,
    decreases s.len() - from,
{
    if 0 <= from < s.len() && is_decimal(s[from]) {
        lemma_decimal_run_len_nonneg(s, from + 1);
    }
}

/// The spans of a match lie in order within `s`.
proof fn lemma_kv_span_bounds(s: Seq<char>, a: int, mid: Seq<char>, nil_tail: bool)
    ensures
        kv_span_from(s, a, mid, nil_tail) matches Some(sp) ==> 0 <= sp.0 <= sp.1 <= sp.2 <= sp.3 <= sp.4
            <= sp.5 <= s.len(),
    decreases s.len() + 1 - a,
{
    if 0 <= a <= s.len() {
        match kv_span_at(s, a, mid, nil_tail) {
            Some(sp) => {
                let b = a + 10;
                let c = b + decimal_run_len(s, b);
                let k0 = c + mid.len();
                lemma_decimal_run_len_nonneg(s, b);
                assert(text_open().len() == 10);
                let end = reach(s, k0);
                lemma_reach_bounds(s, k0);
                if nil_tail {
                    assert(text_nil_end().len() == 14);
                    lemma_last_at_found(s, text_nil_end(), k0, end - 14);
                } else {
                    assert(text_close().len() == 2);
                    assert(text_value_sep().len() == 11);
                    lemma_last_at_found(s, text_close(), k0 + 11, end - 2);
                    let lc = last_at(s, text_close(), k0 + 11, end - 2)->0;
                    lemma_last_at_found(s, text_value_sep(), k0, lc - 11);
                }
            },
            None => {
                lemma_kv_span_bounds(s, a + 1, mid, nil_tail);
            },
        }
    }
}

/// The text of `line` from character `from` up to character `to`.
fn text_between(line: &str, from: usize, to: usize) -> (r: String)
    requires
        from <= to <= line@.len(),
    ensures
        r@ == line@.subrange(from as int, to as int),
{
    line.substring_char(from, to).to_owned()
}

/// The process number that stands from `from` up to `to`.
fn process_between(s: &Vec<char>, from: usize, to: usize) -> (r: Option<u32>)
    requires
        from <= to <= s@.len(),
    ensures
        r is Some <==> u32_number(s@.subrange(from as int, to as int)) is Some,
        r matches Some(x) ==> u32_number(s@.subrange(from as int, to as int)) == Some(x as int),
{
    let d = chars_between(s, from, to);
    parse_u32(&d)
}

/// Read one line of a key-value log.
pub fn read_kv_line(line: &str) -> (r: LineRead<KvLogLine>)
    ensures
        kv_read_view(r) == kv_line(line@),
{
    let s = chars_of(line);
    proof {
        lemma_kv_span_bounds(s@, 0, text_mid_invoke_get(), true);
        lemma_kv_span_bounds(s@, 0, text_mid_invoke_put(), false);
        lemma_kv_span_bounds(s@, 0, text_mid_invoke_append(), false);
        lemma_kv_span_bounds(s@, 0, text_mid_ok_get(), false);
        lemma_kv_span_bounds(s@, 0, text_mid_ok_put(), false);
        lemma_kv_span_bounds(s@, 0, text_mid_ok_append(), false);
    }
    if let Some(sp) = kv_span_chars(&s, &chars_mid_invoke_get(), true) {
        return match process_between(&s, sp.0, sp.1) {
            Some(p) => LineRead::Line(KvLogLine::InvokeRead { process: p, key: text_between(line, sp.2, sp.3) }),
            None => LineRead::Unreadable,
        };
    }
    if let Some(sp) = kv_span_chars(&s, &chars_mid_invoke_put(), false) {
        return match process_between(&s, sp.0, sp.1) {
            Some(p) => LineRead::Line(
                KvLogLine::InvokeWrite {
                    process: p,
                    key: text_between(line, sp.2, sp.3),
                    value: text_between(line, sp.4, sp.5),
                },
            ),
            None => LineRead::Unreadable,
        };
    }
    if let Some(sp) = kv_span_chars(&s, &chars_mid_invoke_append(), false) {
        return match process_between(&s, sp.0, sp.1) {
            Some(p) => LineRead::Line(
                KvLogLine::InvokeAppend {
                    process: p,
                    key: text_between(line, sp.2, sp.3),
                    value: text_between(line, sp.4, sp.5),
                },
            ),
            None => LineRead::Unreadable,
        };
    }
    if let Some(sp) = kv_span_chars(&s, &chars_mid_ok_get(), false) {
        return match process_between(&s, sp.0, sp.1) {
            Some(p) => LineRead::Line(KvLogLine::ReturnRead { process: p, value: text_between(line, sp.4, sp.5) }),
            None => LineRead::Unreadable,
        };
    }
    if let Some(sp) = kv_span_chars(&s, &chars_mid_ok_put(), false) {
        return match process_between(&s, sp.0, sp.1) {
            Some(p) => LineRead::Line(KvLogLine::ReturnWrite { process: p }),
            None => LineRead::Unreadable,
        };
    }
    if let Some(sp) = kv_span_chars(&s, &chars_mid_ok_append(), false) {
        return match process_between(&s, sp.0, sp.1) {
            Some(p) => LineRead::Line(KvLogLine::ReturnAppend { process: p }),
            None => LineRead::Unreadable,
        };
    }
    LineRead::Skipped
}

/// The reader of key-value lines.
pub open spec fn kv_reader() -> spec_fn(Seq<char>) -> LineRead<KvLineView> {
    |s: Seq<char>| kv_line(s)
}

/// Read every line of a key-value log: the lines of the log's kinds, in
/// order, or `None` when some line is unreadable.
pub fn read_kv_log(lines: &Vec<String>) -> (r: Option<Vec<KvLogLine>>)
    ensures
        match read_all(line_views(lines@), kv_reader()) {
            Some(ls) => r matches Some(v) && v@.map_values(|l: KvLogLine| kv_line_view(l)) == ls,
            None => r is None,
        },
{
    let ghost all = line_views(lines@);
    let mut out: Vec<KvLogLine> = Vec::new();
    let mut i: usize = 0;
    proof {
        assert(all.take(0) =~= Seq::<Seq<char>>::empty());
        assert(out@.map_values(|l: KvLogLine| kv_line_view(l)) =~= Seq::<KvLineView>::empty());
    }
    while i < lines.len()
        invariant
            i <= lines@.len(),
            all == line_views(lines@),
            read_all(all.take(i as int), kv_reader()) == Some(out@.map_values(|l: KvLogLine| kv_line_view(l))),
        decreases lines@.len() - i,
    {
        let line = read_kv_line(lines[i].as_str());
        proof {
            assert(all.take(i + 1).drop_last() =~= all.take(i as int));
            assert(all.take(i + 1).last() == lines@[i as int]@);
        }
        let ghost before = out@;
        match line {
            LineRead::Line(x) => {
                out.push(x);
                proof {
                    assert(out@.map_values(|l: KvLogLine| kv_line_view(l)) =~= before.map_values(
                        |l: KvLogLine| kv_line_view(l),
                    ).push(kv_line_view(x)));
                }
            },
            LineRead::Skipped => {},
            LineRead::Unreadable => {
                proof {
                    lemma_read_all_fails(all, kv_reader(), i + 1);
                }
                return None;
            },
        }
        i = i + 1;
    }
    proof {
        assert(all.take(lines@.len() as int) =~= all);
    }
    Some(out)
}

} // verus!
