//! The segment directory: how the files of a store are named, and which of
//! the files of a directory are segments, in which order.
//!
//! A segment file is named `segment-` followed by its sequence number in
//! decimal, filled up with zeros on the left to six digits: `segment-000000`,
//! `segment-000007`, `segment-1234567`.

use vstd::prelude::*;
use vstd::string::*;
use crate::index::bytes_eq;

verus! {

/// One file of a directory: its name and what it holds.
#[derive(Debug, PartialEq, Eq)]
pub struct DirFile {
    pub name: String,
    pub data: Vec<u8>,
}

/// Digits that a segment's name has at least.
pub const NAME_DIGITS: usize = 6;

/// The largest number of digits that a sequence number takes.
pub const MAX_DIGITS: usize = 10;

/// What every segment's name starts with.
pub open spec fn segment_prefix() -> Seq<char> {
    seq!['s', 'e', 'g', 'm', 'e', 'n', 't', '-']
}

/// Ten to the power `k`, for the powers that a sequence number reaches.
pub open spec fn pow10(k: int) -> int {
    if k <= 0 {
        1
    } else if k == 1 {
        10
    } else if k == 2 {
        100
    } else if k == 3 {
        1_000
    } else if k == 4 {
        10_000
    } else if k == 5 {
        100_000
    } else if k == 6 {
        1_000_000
    } else if k == 7 {
        10_000_000
    } else if k == 8 {
        100_000_000
    } else if k == 9 {
        1_000_000_000
    } else {
        10_000_000_000
    }
}

/// The character for a digit.
pub open spec fn digit_char(d: int) -> char {
    (48 + d) as char
}

/// The decimal digit of `n` that counts `pow10(k)`.
pub open spec fn digit_at(n: u32, k: int) -> int {
    (n as int / pow10(k)) % 10
}

/// How many digits the name of segment `num` has: those of the number, and
/// at least six.
pub open spec fn name_width(num: u32) -> int {
    if num >= 1_000_000_000 {
        10
    } else if num >= 100_000_000 {
        9
    } else if num >= 10_000_000 {
        8
    } else if num >= 1_000_000 {
        7
    } else {
        6
    }
}

/// The digits of a segment's name, the most significant first.
pub open spec fn name_digits(num: u32) -> Seq<char> {
    Seq::new(
        name_width(num) as nat,
        |i: int| digit_char(digit_at(num, name_width(num) - 1 - i)),
    )
}

/// The name of the file of segment `num`.
pub open spec fn segment_name(num: u32) -> Seq<char> {
    segment_prefix() + name_digits(num)
}

/// Whether the file at place `j` of a listing is the segment `num`, and no
/// file before it has the same name.
pub open spec fn is_segment_file(files: Seq<DirFile>, j: int, num: u32) -> bool {
    &&& 0 <= j < files.len()
    &&& files[j].name@ == segment_name(num)
    &&& forall|e: int| 0 <= e < j ==> files[e].name@ != segment_name(num)
}

/// Whether the file at place `j` of a listing has the name of segment `num`.
pub open spec fn names_segment(files: Seq<DirFile>, j: int, num: u32) -> bool {
    0 <= j < files.len() && files[j].name@ == segment_name(num)
}

/// Whether a list of segments holds the segment `num`.
pub open spec fn lists_segment(list: Seq<(usize, u32)>, num: u32) -> bool {
    exists|a: int| 0 <= a < list.len() && (#[trigger] list[a]).1 == num
}

/// Whether `list` is the list of the segments among the first `upto` files:
/// each segment once, with the place of the first file of its name, in the
/// order of the sequence numbers.
pub open spec fn lists_segments_upto(
    files: Seq<DirFile>,
    list: Seq<(usize, u32)>,
    upto: int,
) -> bool {
    &&& forall|a: int, b: int| 0 <= a < b < list.len() ==> (#[trigger] list[a]).1 < (#[trigger] list[b]).1
    &&& forall|a: int|
        0 <= a < list.len() ==> (#[trigger] list[a]).0 < upto && is_segment_file(
            files,
            list[a].0 as int,
            list[a].1,
        )
    &&& forall|j: int, num: u32|
        0 <= j < upto && #[trigger] names_segment(files, j, num) ==> lists_segment(list, num)
}

/// Whether `list` is the list of the segments of a directory.
pub open spec fn lists_segments(files: Seq<DirFile>, list: Seq<(usize, u32)>) -> bool {
    lists_segments_upto(files, list, files.len() as int)
}

/// Different segments have different names.
pub proof fn lemma_segment_name_injective(a: u32, b: u32)
    requires
        segment_name(a) == segment_name(b),
    ensures
        a == b,
{
    let na = segment_name(a);
    let nb = segment_name(b);
    assert(na.len() == 8 + name_width(a));
    assert(nb.len() == 8 + name_width(b));
    let w = name_width(a);
    assert(w == name_width(b));
    assert forall|k: int| 0 <= k < w implies #[trigger] digit_at(a, k) == digit_at(b, k) by {
        let i = w - 1 - k;
        assert(na[8 + i] == name_digits(a)[i]);
        assert(nb[8 + i] == name_digits(b)[i]);
        assert(digit_char(digit_at(a, k)) == digit_char(digit_at(b, k)));
    }
    lemma_same_digits(a, b, w, w);
    lemma_digits_value(a, w, w);
    lemma_digits_value(b, w, w);
}

/// The number that the first `count` of the `w` digits of `n` spell.
pub open spec fn digits_value(n: u32, w: int, count: int) -> int
    decreases count,
{
    if count <= 0 {
        0
    } else {
        digits_value(n, w, count - 1) * 10 + digit_at(n, w - count)
    }
}

/// Numbers with the same digits spell the same.
proof fn lemma_same_digits(a: u32, b: u32, w: int, count: int)
    requires
        0 <= count <= w,
        forall|k: int| 0 <= k < w ==> #[trigger] digit_at(a, k) == digit_at(b, k),
    ensures
        digits_value(a, w, count) == digits_value(b, w, count),
    decreases count,
{
    if count > 0 {
        lemma_same_digits(a, b, w, count - 1);
        assert(digit_at(a, w - count) == digit_at(b, w - count));
    }
}

/// The first `count` digits of `n` spell `n` without its last `w - count`
/// digits.
pub proof fn lemma_digits_value(n: u32, w: int, count: int)
    requires
        6 <= w <= 10,
        0 <= count <= w,
        n < pow10(w),
    ensures
        digits_value(n, w, count) == n as int / pow10(w - count),
    decreases count,
{
    if count > 0 {
        lemma_digits_value(n, w, count - 1);
        let p = pow10(w - count);
        assert(pow10(w - count + 1) == p * 10);
        let x = n as int / p;
        assert(n as int / (p * 10) == x / 10) by (nonlinear_arith)
            requires
                p > 0,
                x == n as int / p,
        ;
        assert(digit_at(n, w - count) == x % 10);
        assert((x / 10) * 10 + x % 10 == x);
    } else {
        let p = pow10(w);
        assert(n as int / p == 0) by (nonlinear_arith)
            requires
                0 <= n < p,
        ;
    }
}

/// A segment's name is made of plain characters only.
pub proof fn lemma_segment_name_ascii(num: u32)
    ensures
        vstd::utf8::is_ascii_chars(segment_name(num)),
        14 <= segment_name(num).len() <= 18,
{
    let name = segment_name(num);
    assert forall|i: int| 0 <= i < name.len() implies '\0' <= #[trigger] name[i] <= '\u{7f}' by {
        if i >= 8 {
            assert(name[i] == name_digits(num)[i - 8]);
        }
    }
}

/// Ten to the power `k`.
fn power_of_ten(k: usize) -> (p: u32)
    requires
        k <= 9,
    ensures
        p == pow10(k as int),
{
    if k == 0 {
        1
    } else if k == 1 {
        10
    } else if k == 2 {
        100
    } else if k == 3 {
        1_000
    } else if k == 4 {
        10_000
    } else if k == 5 {
        100_000
    } else if k == 6 {
        1_000_000
    } else if k == 7 {
        10_000_000
    } else if k == 8 {
        100_000_000
    } else {
        1_000_000_000
    }
}

/// The text of one digit.
fn digit_text(d: u32) -> (text: &'static str)
    requires
        d < 10,
    ensures
        text@ == seq![digit_char(d as int)],
{
    proof {
        reveal_strlit("0");
        reveal_strlit("1");
        reveal_strlit("2");
        reveal_strlit("3");
        reveal_strlit("4");
        reveal_strlit("5");
        reveal_strlit("6");
        reveal_strlit("7");
        reveal_strlit("8");
        reveal_strlit("9");
    }
    let text: &'static str = if d == 0 {
        "0"
    } else if d == 1 {
        "1"
    } else if d == 2 {
        "2"
    } else if d == 3 {
        "3"
    } else if d == 4 {
        "4"
    } else if d == 5 {
        "5"
    } else if d == 6 {
        "6"
    } else if d == 7 {
        "7"
    } else if d == 8 {
        "8"
    } else {
        "9"
    };
    assert(text@ =~= seq![digit_char(d as int)]);
    text
}

/// The name of the file of segment `num`.
pub fn get_segment_name(num: u32) -> (name: String)
    ensures
        name@ == segment_name(num),
{
    let width: usize = if num >= 1_000_000_000 {
        10
    } else if num >= 100_000_000 {
        9
    } else if num >= 10_000_000 {
        8
    } else if num >= 1_000_000 {
        7
    } else {
        6
    };
    proof {
        reveal_strlit("segment-");
    }
    let mut name: String = String::from_str("segment-");
    assert(name@ =~= segment_prefix());
    let mut i: usize = 0;
    while i < width
        invariant
            i <= width,
            width == name_width(num),
            name@ == segment_prefix() + name_digits(num).subrange(0, i as int),
        decreases width - i,
    {
        let p: u32 = power_of_ten(width - 1 - i);
        let d: u32 = (num / p) % 10;
        assert(d == digit_at(num, width - 1 - i));
        name.append(digit_text(d));
        assert(name_digits(num).subrange(0, i + 1) =~= name_digits(num).subrange(0, i as int)
            + seq![digit_char(d as int)]);
        i = i + 1;
    }
    assert(name_digits(num).subrange(0, width as int) =~= name_digits(num));
    name
}

/// The sequence number that a file's name stands for, if it is the name of a
/// segment.
pub fn get_segment_number(name: &str) -> (num: Option<u32>)
    ensures
        match num {
            Some(n) => name@ == segment_name(n),
            None => forall|n: u32| name@ != #[trigger] segment_name(n),
        },
{
    broadcast use vstd::string::is_ascii_spec_bytes;

    if !name.is_ascii() {
        assert forall|n: u32| name@ != #[trigger] segment_name(n) by {
            lemma_segment_name_ascii(n);
        }
        return None;
    }
    let bytes: &[u8] = name.as_bytes();
    let len: usize = bytes.len();
    assert(len == name@.len());
    if len < 8 + NAME_DIGITS || len > 8 + MAX_DIGITS {
        assert forall|n: u32| name@ != #[trigger] segment_name(n) by {
            lemma_segment_name_ascii(n);
        }
        return None;
    }
    let ghost w: int = len - 8;
    let mut value: u64 = 0;
    let mut i: usize = 8;
    while i < len
        invariant
            8 <= i <= len,
            len == name@.len(),
            w == len - 8,
            6 <= w <= 10,
            vstd::string::is_ascii(name),
            bytes@ == name.spec_bytes(),
            value < pow10(i - 8),
            forall|n: u32|
                name@ == #[trigger] segment_name(n) ==> value == digits_value(n, w, i - 8),
        decreases len - i,
    {
        let b: u8 = bytes[i];
        assert(b == name@[i as int] as u8);
        if b < 48 || b > 57 {
            assert forall|n: u32| name@ != #[trigger] segment_name(n) by {
                if name@ == segment_name(n) {
                    assert(name@[i as int] == name_digits(n)[i - 8]);
                }
            }
            return None;
        }
        let ghost before = value;
        value = value * 10 + (b - 48) as u64;
        assert forall|n: u32| name@ == #[trigger] segment_name(n) implies value == digits_value(
            n,
            w,
            i - 8 + 1,
        ) by {
            assert(name@[i as int] == name_digits(n)[i - 8]);
            assert(name_width(n) == w);
            assert(b - 48 == digit_at(n, w - (i - 8 + 1)));
        }
        assert(pow10(i - 8 + 1) == 10 * pow10(i - 8));
        i = i + 1;
    }
    if value > u32::MAX as u64 {
        assert forall|n: u32| name@ != #[trigger] segment_name(n) by {
            if name@ == segment_name(n) {
                lemma_digits_value(n, w, w);
            }
        }
        return None;
    }
    let candidate: u32 = value as u32;
    let spelled: String = get_segment_name(candidate);
    proof {
        lemma_segment_name_ascii(candidate);
    }
    let spelled_text: &str = spelled.as_str();
    assert(spelled_text@ == spelled@);
    assert(vstd::string::is_ascii(spelled_text));
    if bytes_eq(bytes, spelled_text.as_bytes()) {
        assert(name@ =~= spelled@) by {
            assert(name@.len() == spelled@.len());
            assert forall|k: int| 0 <= k < name@.len() implies name@[k] == spelled@[k] by {
                assert(name.spec_bytes()[k] == name@[k] as u8);
                assert(spelled_text.spec_bytes()[k] == spelled@[k] as u8);
            }
        }
        Some(candidate)
    } else {
        assert forall|n: u32| name@ != #[trigger] segment_name(n) by {
            if name@ == segment_name(n) {
                lemma_digits_value(n, w, w);
                assert(n == candidate);
            }
        }
        None
    }
}

/// Lists the segments of a directory: for each one the place of its file
/// and its sequence number, in the order of the sequence numbers. Files
/// with other names are passed over, and of two files with one name the
/// first counts.
pub fn get_filesystem_segments(files: &[DirFile]) -> (list: Vec<(usize, u32)>)
    ensures
        lists_segments(files@, list@),
{
    let mut list: Vec<(usize, u32)> = Vec::new();
    let mut j: usize = 0;
    while j < files.len()
        invariant
            j <= files@.len(),
            lists_segments_upto(files@, list@, j as int),
        decreases files@.len() - j,
    {
        let ghost before = list@;
        match get_segment_number(files[j].name.as_str()) {
            Some(num) => {
                let mut a: usize = 0;
                while a < list.len() && list[a].1 < num
                    invariant
                        a <= list@.len(),
                        forall|b: int| 0 <= b < a ==> (#[trigger] list@[b]).1 < num,
                    decreases list@.len() - a,
                {
                    a = a + 1;
                }
                if a < list.len() && list[a].1 == num {
                    assert(lists_segment(list@, num));
                    assert forall|e: int, n: u32|
                        0 <= e < j + 1 && #[trigger] names_segment(files@, e, n) implies lists_segment(
                        list@,
                        n,
                    ) by {
                        if e == j {
                            lemma_segment_name_injective(n, num);
                        }
                    }
                } else {
                    assert(!lists_segment(before, num)) by {
                        if lists_segment(before, num) {
                            let b = choose|b: int| 0 <= b < before.len() && (#[trigger] before[b]).1 == num;
                            if b < a {
                            } else if b > a {
                                assert(before[a as int].1 < before[b].1);
                            }
                        }
                    }
                    assert forall|e: int| 0 <= e < j implies files@[e].name@ != segment_name(num) by {
                        if files@[e].name@ == segment_name(num) {
                            assert(names_segment(files@, e, num));
                        }
                    }
                    list.insert(a, (j, num));
                    assert forall|x: int, y: int| 0 <= x < y < list@.len() implies (#[trigger] list@[x]).1 < (
                    #[trigger] list@[y]).1 by {
                        let x0 = if x < a { x } else { x - 1 };
                        let y0 = if y < a { y } else { y - 1 };
                        if x != a && y != a {
                            assert(before[x0].1 < before[y0].1);
                        } else if x == a {
                            assert(before[y0].1 >= num);
                            assert(before[y0].1 != num) by {
                                if before[y0].1 == num {
                                    assert(lists_segment(before, num));
                                }
                            }
                        } else {
                            assert(before[x0].1 < num);
                        }
                    }
                    assert forall|x: int| 0 <= x < list@.len() implies (#[trigger] list@[x]).0 < j + 1
                        && is_segment_file(files@, list@[x].0 as int, list@[x].1) by {
                        let x0 = if x < a { x } else { x - 1 };
                        if x != a {
                            assert(list@[x] == before[x0]);
                        }
                    }
                    assert forall|e: int, n: u32|
                        0 <= e < j + 1 && #[trigger] names_segment(files@, e, n) implies lists_segment(
                        list@,
                        n,
                    ) by {
                        if e == j {
                            lemma_segment_name_injective(n, num);
                            assert(list@[a as int].1 == num);
                        } else {
                            assert(lists_segment(before, n));
                            let b = choose|b: int| 0 <= b < before.len() && (#[trigger] before[b]).1 == n;
                            let b1 = if b < a { b } else { b + 1 };
                            assert(list@[b1] == before[b]);
                        }
                    }
                }
            },
            None => {
                assert forall|e: int, n: u32|
                    0 <= e < j + 1 && #[trigger] names_segment(files@, e, n) implies lists_segment(
                    list@,
                    n,
                ) by {
                    if e == j {
                        assert(files@[e].name@ != segment_name(n));
                    }
                }
            },
        }
        j = j + 1;
    }
    list
}

} // verus!
