use crate::storage::bucket::Bucket;
use vstd::prelude::*;

verus! {

/// `String::push` appends the character to the end of the text.
pub assume_specification[ String::push ](text: &mut String, ch: char)
    ensures
        final(text)@ == old(text)@.push(ch),
;

/// `String::push_str` appends the slice to the end of the text.
pub assume_specification[ String::push_str ](text: &mut String, tail: &str)
    ensures
        final(text)@ == old(text)@ + tail@,
;

/// The character of a decimal digit.
pub open spec fn digit_char(digit: int) -> char {
    (48 + digit) as char
}

/// Whether a character is a decimal digit.
pub open spec fn is_digit(c: char) -> bool {
    '0' <= c <= '9'
}

/// A natural number in decimal, without leading zeros.
pub open spec fn decimal_nat(n: nat) -> Seq<char>
    decreases n,
{
    if n < 10 {
        seq![digit_char(n as int)]
    } else {
        decimal_nat(n / 10).push(digit_char((n % 10) as int))
    }
}

/// An integer in decimal: a minus sign before a negative one, no sign else.
pub open spec fn decimal(v: int) -> Seq<char> {
    if v < 0 {
        seq!['-'] + decimal_nat((-v) as nat)
    } else {
        decimal_nat(v as nat)
    }
}

/// Whether every character is a decimal digit.
pub open spec fn all_digits(s: Seq<char>) -> bool {
    forall|i: int| 0 <= i < s.len() ==> is_digit(#[trigger] s[i])
}

/// The number that a run of digits spells out.
pub open spec fn digits_value(s: Seq<char>) -> int
    decreases s.len(),
{
    if s.len() == 0 {
        0
    } else {
        10 * digits_value(s.drop_last()) + (s.last() as int - 48)
    }
}

/// The digits of a name, behind its sign if it has one.
pub open spec fn unsigned_part(s: Seq<char>) -> Seq<char> {
    if s.len() > 0 && (s[0] == '-' || s[0] == '+') {
        s.drop_first()
    } else {
        s
    }
}

/// The bucket start that a file name spells out: an optional sign and then
/// one or more decimal digits, of a value that a timestamp can hold. Any other
/// name spells out none.
pub open spec fn parse_decimal(s: Seq<char>) -> Option<i64> {
    let body = unsigned_part(s);
    let value = if s.len() > 0 && s[0] == '-' {
        -digits_value(body)
    } else {
        digits_value(body)
    };
    if body.len() > 0 && all_digits(body) && i64::MIN <= value <= i64::MAX {
        Some(value as i64)
    } else {
        None
    }
}

/// The bucket start that the name of a page file gives: the start that the
/// name spells out, where the name is the one that is given to the file of
/// that start. Any other name is not the name of a page file.
pub open spec fn page_start(name: Seq<char>) -> Option<i64> {
    match parse_decimal(name) {
        Some(start) => if decimal(start as int) == name {
            Some(start)
        } else {
            None
        },
        None => None,
    }
}

/// Where a page file lies: its directory, a slash, and its name.
pub open spec fn joined(dir: Seq<char>, name: Seq<char>) -> Seq<char> {
    dir + seq!['/'] + name
}

/// A number's decimal form is made of digits that spell it out.
pub proof fn lemma_decimal_nat(n: nat)
    ensures
        decimal_nat(n).len() > 0,
        all_digits(decimal_nat(n)),
        digits_value(decimal_nat(n)) == n,
    decreases n,
{
    if n < 10 {
        let s = decimal_nat(n);
        assert(s.drop_last() =~= Seq::<char>::empty());
        assert(digits_value(s.drop_last()) == 0);
    } else {
        lemma_decimal_nat(n / 10);
        let front = decimal_nat(n / 10);
        let s = decimal_nat(n);
        assert(s.drop_last() =~= front);
        assert forall|i: int| 0 <= i < s.len() implies is_digit(#[trigger] s[i]) by {
            if i < front.len() {
                assert(s[i] == front[i]);
            }
        }
    }
}

/// A page file's name names its bucket: the decimal form of a start is read
/// back as that start.
pub proof fn lemma_name_round_trip(start: i64)
    ensures
        parse_decimal(decimal(start as int)) == Some(start),
{
    if start < 0 {
        let digits = decimal_nat((-start) as nat);
        lemma_decimal_nat((-start) as nat);
        let s = decimal(start as int);
        assert(s[0] == '-');
        assert(s.drop_first() =~= digits);
    } else {
        lemma_decimal_nat(start as nat);
        let s = decimal(start as int);
        assert(is_digit(s[0]));
    }
}

/// Two buckets that start apart have files of different names.
pub proof fn lemma_names_differ(first: i64, second: i64)
    ensures
        decimal(first as int) == decimal(second as int) ==> first == second,
{
    lemma_name_round_trip(first);
    lemma_name_round_trip(second);
}

/// Two files of different names in one directory lie at different paths.
pub proof fn lemma_paths_differ(dir: Seq<char>, first: Seq<char>, second: Seq<char>)
    ensures
        joined(dir, first) == joined(dir, second) ==> first == second,
{
    if joined(dir, first) == joined(dir, second) {
        let at = dir.len() + 1;
        assert(joined(dir, first).subrange(at as int, joined(dir, first).len() as int) =~= first);
        assert(joined(dir, second).subrange(at as int, joined(dir, second).len() as int)
            =~= second);
    }
}

/// The digits read so far never spell out more than all of them do.
pub proof fn lemma_prefix_value(s: Seq<char>, k: int)
    requires
        all_digits(s),
        0 <= k <= s.len(),
    ensures
        0 <= digits_value(s.take(k)) <= digits_value(s),
    decreases s.len() - k,
{
    lemma_value_nonnegative(s.take(k));
    if k < s.len() {
        lemma_prefix_value(s, k + 1);
        assert(s.take(k + 1).drop_last() =~= s.take(k));
        assert(is_digit(s[k]));
        assert(s.take(k + 1).last() == s[k]);
    } else {
        assert(s.take(k) =~= s);
    }
}

/// A run of digits spells out no negative number.
pub proof fn lemma_value_nonnegative(s: Seq<char>)
    requires
        all_digits(s),
    ensures
        digits_value(s) >= 0,
    decreases s.len(),
{
    if s.len() > 0 {
        assert(is_digit(s.last()));
        lemma_value_nonnegative(s.drop_last());
    }
}

/// Appends the decimal form of a number to a text.
pub fn push_decimal(text: &mut String, number: u64)
    ensures
        final(text)@ == old(text)@ + decimal_nat(number as nat),
{
    let mut digits: Vec<u8> = Vec::new();
    let mut rest: u64 = number;
    loop
        invariant_except_break
            decimal_nat(number as nat) == decimal_nat(rest as nat) + turned(digits@),
            forall|i: int| 0 <= i < digits@.len() ==> digits@[i] < 10,
        ensures
            decimal_nat(number as nat) == turned(digits@),
            forall|i: int| 0 <= i < digits@.len() ==> digits@[i] < 10,
        decreases rest,
    {
        let ghost before = digits@;
        if rest < 10 {
            digits.push(rest as u8);
            assert(turned(digits@) =~= decimal_nat(rest as nat) + turned(before));
            break ;
        }
        digits.push((rest % 10) as u8);
        assert(turned(digits@) =~= seq![digit_char((rest % 10) as int)] + turned(before));
        assert(decimal_nat(rest as nat) + turned(before) =~= decimal_nat((rest / 10) as nat)
            + turned(digits@));
        rest = rest / 10;
    }
    let ghost front = text@;
    let mut left: usize = digits.len();
    while left > 0
        invariant
            left <= digits@.len(),
            forall|i: int| 0 <= i < digits@.len() ==> digits@[i] < 10,
            text@ == front + turned(digits@).take(digits@.len() - left),
        decreases left,
    {
        left -= 1;
        text.push((48 + digits[left]) as char);
        assert(text@ =~= front + turned(digits@).take(digits@.len() - left)) by {
            let k = digits@.len() - left;
            assert(turned(digits@).take(k) =~= turned(digits@).take(k - 1).push(
                turned(digits@)[k - 1],
            ));
        }
    }
    assert(turned(digits@).take(digits@.len() as int) =~= turned(digits@));
}

/// The name of the page file of the bucket that starts at `start`.
pub fn file_name(start: i64) -> (name: String)
    ensures
        name@ == decimal(start as int),
{
    let mut name = String::new();
    if start < 0 {
        name.push('-');
        push_decimal(&mut name, ((-(start + 1)) as u64) + 1);
    } else {
        push_decimal(&mut name, start as u64);
    }
    assert(name@ =~= decimal(start as int));
    name
}

/// Digits that were collected lowest first, as text: highest first.
pub open spec fn turned(digits: Seq<u8>) -> Seq<char> {
    Seq::new(digits.len(), |i: int| digit_char(digits[digits.len() - 1 - i] as int))
}

/// The bucket start that a directory entry's name spells out, if it is the
/// name of a page file.
pub fn parse_file_name(name: &str) -> (start: Option<i64>)
    ensures
        start == parse_decimal(name@),
{
    if !name.is_ascii() {
        proof {
            lemma_not_ascii(name@);
        }
        return None;
    }
    proof {
        vstd::string::is_ascii_spec_bytes(name);
    }
    let bytes = name.as_bytes();
    let len = bytes.len();
    if len == 0 {
        return None;
    }
    let negative = bytes[0] == 45;
    let first: usize = if negative || bytes[0] == 43 {
        1
    } else {
        0
    };
    let ghost body = unsigned_part(name@);
    assert(body.len() == len - first);
    assert(forall|i: int| 0 <= i < body.len() ==> body[i] == name@[i + first]);
    if first == len {
        return None;
    }
    let limit: u64 = if negative {
        0x8000_0000_0000_0000
    } else {
        0x7fff_ffff_ffff_ffff
    };
    let mut value: u64 = 0;
    let mut i: usize = first;
    while i < len
        invariant
            first <= i <= len,
            len == bytes@.len(),
            len == name@.len(),
            body.len() == len - first,
            forall|k: int| 0 <= k < body.len() ==> body[k] == name@[k + first],
            body == unsigned_part(name@),
            negative == (name@[0] == '-'),
            forall|k: int| 0 <= k < len ==> bytes@[k] == name@[k] as u8,
            vstd::utf8::is_ascii_chars(name@),
            all_digits(body.take(i - first)),
            value == digits_value(body.take(i - first)),
            value <= limit,
            limit == if negative {
                0x8000_0000_0000_0000u64
            } else {
                0x7fff_ffff_ffff_ffffu64
            },
        decreases len - i,
    {
        let byte = bytes[i];
        let ghost seen = body.take(i - first);
        let ghost more = body.take(i - first + 1);
        proof {
            assert(more.drop_last() =~= seen);
            assert(more.last() == body[i - first]);
            assert(body[i - first] == name@[i as int]);
        }
        if byte < 48 || byte > 57 {
            assert(!is_digit(body[i - first]));
            return None;
        }
        let digit = (byte - 48) as u64;
        assert(all_digits(more)) by {
            assert forall|k: int| 0 <= k < more.len() implies is_digit(#[trigger] more[k]) by {
                if k < seen.len() {
                    assert(more[k] == seen[k]);
                }
            }
        }
        if value > (limit - digit) / 10 {
            proof {
                assert(digits_value(more) > limit);
                if all_digits(body) {
                    lemma_prefix_value(body, i - first + 1);
                }
            }
            return None;
        }
        value = value * 10 + digit;
        i += 1;
    }
    assert(body.take(len - first) =~= body);
    if negative {
        if value == 0x8000_0000_0000_0000 {
            Some(i64::MIN)
        } else {
            Some(-(value as i64))
        }
    } else {
        Some(value as i64)
    }
}

/// The bucket start of a directory entry, if the entry is a page file: its
/// name is the decimal form of the start, as `file_name` prints it.
pub fn page_of_name(name: &String) -> (start: Option<i64>)
    ensures
        start == page_start(name@),
{
    match parse_file_name(name.as_str()) {
        Some(start) => {
            let printed = file_name(start);
            if printed == *name {
                Some(start)
            } else {
                None
            }
        },
        None => None,
    }
}

/// A text with a character outside ASCII is no page file's name.
pub proof fn lemma_not_ascii(s: Seq<char>)
    requires
        !vstd::utf8::is_ascii_chars(s),
    ensures
        parse_decimal(s) is None,
{
    let i = choose|i: int| 0 <= i < s.len() && !('\0' <= #[trigger] s[i] <= '\u{7f}');
    let body = unsigned_part(s);
    if body.len() > 0 && all_digits(body) {
        if s[0] == '-' || s[0] == '+' {
            assert(i > 0);
            assert(body[i - 1] == s[i]);
            assert(is_digit(body[i - 1]));
        } else {
            assert(is_digit(body[i]));
        }
    }
}

/// The path of a file in a directory.
pub fn join_path(dir: &str, name: &str) -> (path: String)
    ensures
        path@ == joined(dir@, name@),
{
    let mut path = String::new();
    path.push_str(dir);
    path.push('/');
    path.push_str(name);
    assert(path@ =~= joined(dir@, name@));
    path
}

/// One page file: where it lies and which bucket it holds.
#[derive(Debug)]
pub struct FileHandle {
    pub path: String,
    pub bucket: Bucket,
}

/// A file handle as a value.
pub struct FileView {
    pub path: Seq<char>,
    pub bucket: Bucket,
}

impl View for FileHandle {
    type V = FileView;

    open spec fn view(&self) -> FileView {
        FileView { path: self.path@, bucket: self.bucket }
    }
}

impl FileHandle {
    /// The handle of the file at `path` that holds `bucket`.
    pub fn new(path: String, bucket: Bucket) -> (handle: FileHandle)
        ensures
            handle@ == (FileView { path: path@, bucket }),
    {
        FileHandle { path, bucket }
    }

    /// A second handle on the same file.
    pub fn share(&self) -> (handle: FileHandle)
        ensures
            handle@ == self@,
    {
        FileHandle { path: self.path.clone(), bucket: self.bucket }
    }
}

} // verus!
