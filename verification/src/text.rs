//! Text as it comes from the environment and from the kernel: trimming, numbers, fields.

use vstd::prelude::*;

verus! {

/// Whether `c` has the Unicode property White_Space.
pub open spec fn is_space(c: char) -> bool {
    ||| 0x09 <= c as u32 <= 0x0D
    ||| c as u32 == 0x20
    ||| c as u32 == 0x85
    ||| c as u32 == 0xA0
    ||| c as u32 == 0x1680
    ||| 0x2000 <= c as u32 <= 0x200A
    ||| 0x2028 <= c as u32 <= 0x2029
    ||| c as u32 == 0x202F
    ||| c as u32 == 0x205F
    ||| c as u32 == 0x3000
}

/// The characters that count as white space are these, and no others.
pub proof fn law_white_space(c: char)
    ensures
        is_space(c) <==> seq![
            0x09u32,
            0x0A,
            0x0B,
            0x0C,
            0x0D,
            0x20,
            0x85,
            0xA0,
            0x1680,
            0x2000,
            0x2001,
            0x2002,
            0x2003,
            0x2004,
            0x2005,
            0x2006,
            0x2007,
            0x2008,
            0x2009,
            0x200A,
            0x2028,
            0x2029,
            0x202F,
            0x205F,
            0x3000,
        ].contains(c as u32),
{
    let all = seq![
        0x09u32,
        0x0A,
        0x0B,
        0x0C,
        0x0D,
        0x20,
        0x85,
        0xA0,
        0x1680,
        0x2000,
        0x2001,
        0x2002,
        0x2003,
        0x2004,
        0x2005,
        0x2006,
        0x2007,
        0x2008,
        0x2009,
        0x200A,
        0x2028,
        0x2029,
        0x202F,
        0x205F,
        0x3000,
    ];
    let n = c as u32;
    if is_space(c) {
        let i: int = if n <= 0x0D {
            n - 0x09
        } else if n == 0x20 {
            5
        } else if n == 0x85 {
            6
        } else if n == 0xA0 {
            7
        } else if n == 0x1680 {
            8
        } else if n <= 0x200A {
            9 + (n - 0x2000)
        } else if n <= 0x2029 {
            20 + (n - 0x2028)
        } else if n == 0x202F {
            22
        } else if n == 0x205F {
            23
        } else {
            24
        };
        assert(all[i] == n);
    }
}

/// `s` without the white space that it begins with.
pub open spec fn trimmed_start(s: Seq<char>) -> Seq<char>
    decreases s.len(),
{
    if s.len() > 0 && is_space(s[0]) {
        trimmed_start(s.skip(1))
    } else {
        s
    }
}

/// `s` without the white space that it ends with.
pub open spec fn trimmed_end(s: Seq<char>) -> Seq<char>
    decreases s.len(),
{
    if s.len() > 0 && is_space(s.last()) {
        trimmed_end(s.drop_last())
    } else {
        s
    }
}

/// `s` without the white space at either end.
pub open spec fn trimmed(s: Seq<char>) -> Seq<char> {
    trimmed_end(trimmed_start(s))
}

/// An ASCII capital as a small letter; any other character as it is.
pub open spec fn lower(c: char) -> char {
    if 'A' <= c <= 'Z' {
        (c as u32 + 32) as char
    } else {
        c
    }
}

/// `s` with its ASCII capitals as small letters.
pub open spec fn lowered(s: Seq<char>) -> Seq<char> {
    s.map_values(|c: char| lower(c))
}

/// Whether `s` is a number in decimal digits, of which there is at least one.
pub open spec fn is_decimal(s: Seq<char>) -> bool {
    s.len() > 0 && forall|i: int| 0 <= i < s.len() ==> '0' <= #[trigger] s[i] <= '9'
}

/// The number that some decimal digits stand for.
pub open spec fn decimal(s: Seq<char>) -> nat
    decreases s.len(),
{
    if s.len() == 0 {
        0
    } else {
        (decimal(s.drop_last()) * 10 + (s.last() as u32 - '0' as u32)) as nat
    }
}

/// The number from 0 to `max` that `s` stands for: digits, with a `+` before them or not.
pub open spec fn unsigned(s: Seq<char>, max: nat) -> Option<nat> {
    let digits = if s.len() > 0 && s[0] == '+' {
        s.skip(1)
    } else {
        s
    };
    if is_decimal(digits) && decimal(digits) <= max {
        Some(decimal(digits))
    } else {
        None
    }
}

/// The 32-bit number that `s` stands for: digits, with a sign before them or not.
pub open spec fn signed32(s: Seq<char>) -> Option<int> {
    if s.len() > 0 && s[0] == '-' {
        let digits = s.skip(1);
        if is_decimal(digits) && decimal(digits) <= 0x8000_0000 {
            Some(-decimal(digits))
        } else {
            None
        }
    } else {
        match unsigned(s, 0x7FFF_FFFF) {
            Some(n) => Some(n as int),
            None => None,
        }
    }
}

/// The characters of `s`.
pub fn chars_of(s: &str) -> (chars: Vec<char>)
    ensures
        chars@ == s@,
{
    let mut chars: Vec<char> = Vec::new();
    for c in it: s.chars()
        invariant
            it.seq() == s@,
            chars@ == s@.take(it.index() as int),
    {
        chars.push(c);
        assert(s@.take(it.index() + 1) =~= s@.take(it.index() as int).push(s@[it.index() as int]));
    }
    assert(s@.take(s@.len() as int) =~= s@);
    chars
}

fn is_white_space(c: char) -> (space: bool)
    ensures
        space == is_space(c),
{
    let n: u32 = c as u32;
    (0x09 <= n && n <= 0x0D) || n == 0x20 || n == 0x85 || n == 0xA0 || n == 0x1680 || (0x2000 <= n
        && n <= 0x200A) || n == 0x2028 || n == 0x2029 || n == 0x202F || n == 0x205F || n == 0x3000
}

/// Takes the white space off both ends.
pub fn trim(s: &str) -> (t: String)
    ensures
        t@ == trimmed(s@),
{
    let chars = chars_of(s);
    let mut from: usize = 0;
    assert(s@.skip(0) =~= s@);
    while from < chars.len() && is_white_space(chars[from])
        invariant
            chars@ == s@,
            from <= chars@.len(),
            trimmed_start(s@) == trimmed_start(s@.skip(from as int)),
        decreases chars@.len() - from,
    {
        assert(s@.skip(from as int).skip(1) =~= s@.skip(from + 1));
        from += 1;
    }
    let ghost rest = s@.skip(from as int);
    assert(trimmed_start(s@) == rest);
    let mut to: usize = chars.len();
    assert(s@.subrange(from as int, to as int) =~= rest);
    while to > from && is_white_space(chars[to - 1])
        invariant
            chars@ == s@,
            from <= to <= chars@.len(),
            trimmed_end(rest) == trimmed_end(s@.subrange(from as int, to as int)),
        decreases to - from,
    {
        assert(s@.subrange(from as int, to as int).drop_last() =~= s@.subrange(
            from as int,
            to - 1,
        ));
        to -= 1;
    }
    s.substring_char(from, to).to_owned()
}

/// More digits make no smaller number.
proof fn lemma_decimal_grows(s: Seq<char>, i: int)
    requires
        is_decimal(s),
        0 <= i <= s.len(),
    ensures
        decimal(s.take(i)) <= decimal(s),
    decreases s.len() - i,
{
    if i == s.len() {
        assert(s.take(i) =~= s);
    } else {
        lemma_decimal_grows(s, i + 1);
        assert(s.take(i + 1).drop_last() =~= s.take(i));
        assert('0' <= s[i] <= '9');
    }
}

/// Reads the digits of `chars` from place `from` on as a number up to `max`.
fn parse_digits(chars: &Vec<char>, from: usize, max: u64) -> (n: Option<u64>)
    requires
        from <= chars@.len(),
    ensures
        match n {
            Some(v) => is_decimal(chars@.skip(from as int)) && v == decimal(
                chars@.skip(from as int),
            ) && v <= max,
            None => !(is_decimal(chars@.skip(from as int)) && decimal(chars@.skip(from as int))
                <= max),
        },
{
    let ghost digits = chars@.skip(from as int);
    if from >= chars.len() {
        return None;
    }
    let mut value: u64 = 0;
    let mut i: usize = from;
    assert(digits.take(0) =~= Seq::empty());
    while i < chars.len()
        invariant
            digits == chars@.skip(from as int),
            from <= i <= chars@.len(),
            from < chars@.len(),
            value <= max,
            value == decimal(digits.take(i - from)),
            forall|j: int| 0 <= j < i - from ==> '0' <= #[trigger] digits[j] <= '9',
        decreases chars@.len() - i,
    {
        let c = chars[i];
        assert(digits[i - from] == c);
        if c < '0' || '9' < c {
            return None;
        }
        let digit: u64 = (c as u32 - '0' as u32) as u64;
        proof {
            assert(digits.take(i - from + 1).drop_last() =~= digits.take(i - from));
            assert(decimal(digits.take(i - from + 1)) == value * 10 + digit);
            if is_decimal(digits) {
                lemma_decimal_grows(digits, i - from + 1);
            }
        }
        if value > (u64::MAX - digit) / 10 || value * 10 + digit > max {
            return None;
        }
        value = value * 10 + digit;
        i += 1;
    }
    assert(digits.take(chars@.len() - from) =~= digits);
    Some(value)
}

fn parse_up_to(chars: &Vec<char>, max: u64) -> (n: Option<u64>)
    ensures
        match n {
            Some(v) => unsigned(chars@, max as nat) == Some(v as nat) && v <= max,
            None => unsigned(chars@, max as nat) is None,
        },
{
    if chars.len() > 0 && chars[0] == '+' {
        parse_digits(chars, 1, max)
    } else {
        assert(chars@.skip(0) =~= chars@);
        parse_digits(chars, 0, max)
    }
}

/// Reads a `u64`.
pub fn parse_u64(s: &str) -> (n: Option<u64>)
    ensures
        match n {
            Some(v) => unsigned(s@, u64::MAX as nat) == Some(v as nat),
            None => unsigned(s@, u64::MAX as nat) is None,
        },
{
    parse_up_to(&chars_of(s), u64::MAX)
}

/// Reads a `usize`.
pub fn parse_usize(s: &str) -> (n: Option<usize>)
    ensures
        match n {
            Some(v) => unsigned(s@, usize::MAX as nat) == Some(v as nat),
            None => unsigned(s@, usize::MAX as nat) is None,
        },
{
    match parse_up_to(&chars_of(s), usize::MAX as u64) {
        Some(v) => Some(v as usize),
        None => None,
    }
}

/// Reads an `i32`.
pub fn parse_i32(s: &str) -> (n: Option<i32>)
    ensures
        match n {
            Some(v) => signed32(s@) == Some(v as int),
            None => signed32(s@) is None,
        },
{
    let chars = chars_of(s);
    if chars.len() > 0 && chars[0] == '-' {
        match parse_digits(&chars, 1, 0x8000_0000) {
            Some(v) => Some((-(v as i64)) as i32),
            None => None,
        }
    } else {
        match parse_up_to(&chars, 0x7FFF_FFFF) {
            Some(v) => Some(v as i32),
            None => None,
        }
    }
}

/// The value of a variable that may be unset, or hold something else than a number.
pub fn env_u64(value: Option<&str>, default: u64) -> (n: u64)
    ensures
        n == (match value {
            Some(s) => match unsigned(s@, u64::MAX as nat) {
                Some(v) => v,
                None => default as nat,
            },
            None => default as nat,
        }),
{
    match value {
        Some(s) => match parse_u64(s) {
            Some(v) => v,
            None => default,
        },
        None => default,
    }
}

/// The value of a variable that may be unset, or hold something else than a number.
pub fn env_usize(value: Option<&str>, default: usize) -> (n: usize)
    ensures
        n == (match value {
            Some(s) => match unsigned(s@, usize::MAX as nat) {
                Some(v) => v,
                None => default as nat,
            },
            None => default as nat,
        }),
{
    match value {
        Some(s) => match parse_usize(s) {
            Some(v) => v,
            None => default,
        },
        None => default,
    }
}

/// What a file holds, trimmed: nothing where it could not be read, or holds only white space.
pub fn read_trimmed(contents: Option<&str>) -> (text: Option<String>)
    ensures
        match text {
            Some(t) => contents is Some && t@ == trimmed(contents->Some_0@) && t@.len() > 0,
            None => contents is None || trimmed(contents->Some_0@).len() == 0,
        },
{
    match contents {
        Some(s) => {
            let t = trim(s);
            if t.as_str().unicode_len() == 0 {
                None
            } else {
                Some(t)
            }
        },
        None => None,
    }
}

/// Whether `s` begins with `prefix`.
pub open spec fn begins_with(s: Seq<char>, prefix: Seq<char>) -> bool {
    prefix.len() <= s.len() && s.take(prefix.len() as int) == prefix
}

/// Where the first line of `s` ends: at its newline, or at the end of `s`.
pub open spec fn line_end(s: Seq<char>) -> int
    decreases s.len(),
{
    if s.len() == 0 || s[0] == '\n' {
        0
    } else {
        1 + line_end(s.skip(1))
    }
}

/// What follows `name` on the first line of `s` that begins with it, trimmed.
pub open spec fn field(s: Seq<char>, name: Seq<char>) -> Option<Seq<char>>
    decreases s.len(),
{
    let end = line_end(s);
    let line = s.take(end);
    if begins_with(line, name) {
        Some(trimmed(line.skip(name.len() as int)))
    } else if 0 <= end < s.len() {
        field(s.skip(end + 1), name)
    } else {
        None
    }
}

/// The end of a line, stated without recursion.
proof fn lemma_line_end(s: Seq<char>)
    ensures
        0 <= line_end(s) <= s.len(),
        line_end(s) < s.len() ==> s[line_end(s)] == '\n',
        forall|i: int| 0 <= i < line_end(s) ==> s[i] != '\n',
    decreases s.len(),
{
    if s.len() > 0 && s[0] != '\n' {
        let rest = s.skip(1);
        lemma_line_end(rest);
        assert forall|i: int| 0 <= i < line_end(s) implies s[i] != '\n' by {
            if i > 0 {
                assert(rest[i - 1] == s[i]);
            }
        }
    }
}

/// Whether the characters from `from` to `to` begin with `prefix`.
fn range_begins_with(chars: &Vec<char>, from: usize, to: usize, prefix: &Vec<char>) -> (yes: bool)
    requires
        from <= to <= chars@.len(),
    ensures
        yes == begins_with(chars@.subrange(from as int, to as int), prefix@),
{
    let ghost part = chars@.subrange(from as int, to as int);
    if prefix.len() > to - from {
        return false;
    }
    let mut i: usize = 0;
    while i < prefix.len()
        invariant
            part == chars@.subrange(from as int, to as int),
            from <= to <= chars@.len(),
            i <= prefix@.len() <= to - from,
            forall|j: int| 0 <= j < i ==> part[j] == prefix@[j],
        decreases prefix@.len() - i,
    {
        if chars[from + i] != prefix[i] {
            assert(part.take(prefix@.len() as int)[i as int] != prefix@[i as int]);
            return false;
        }
        i += 1;
    }
    assert(part.take(prefix@.len() as int) =~= prefix@);
    true
}

/// Whether `s` begins with `prefix`.
pub fn starts_with(s: &str, prefix: &str) -> (yes: bool)
    ensures
        yes == begins_with(s@, prefix@),
{
    let chars = chars_of(s);
    assert(chars@.subrange(0, chars@.len() as int) =~= s@);
    range_begins_with(&chars, 0, chars.len(), &chars_of(prefix))
}

/// Finds the first line that begins with `name`, and takes the trimmed rest of it.
pub fn find_field(s: &str, name: &str) -> (value: Option<String>)
    ensures
        match value {
            Some(v) => field(s@, name@) == Some(v@),
            None => field(s@, name@) is None,
        },
{
    let chars = chars_of(s);
    let wanted = chars_of(name);
    let mut from: usize = 0;
    assert(s@.skip(0) =~= s@);
    loop
        invariant
            chars@ == s@,
            wanted@ == name@,
            from <= chars@.len(),
            field(s@, name@) == field(s@.skip(from as int), name@),
        decreases chars@.len() - from,
    {
        let ghost rest = s@.skip(from as int);
        proof {
            lemma_line_end(rest);
        }
        let mut to: usize = from;
        while to < chars.len() && chars[to] != '\n'
            invariant
                chars@ == s@,
                rest == s@.skip(from as int),
                from <= to <= chars@.len(),
                to - from <= line_end(rest) <= rest.len(),
                line_end(rest) < rest.len() ==> rest[line_end(rest)] == '\n',
            decreases chars@.len() - to,
        {
            assert(rest[to - from] == chars@[to as int]);
            to += 1;
        }
        assert(to < chars@.len() ==> rest[to - from] == chars@[to as int]);
        assert(to - from == line_end(rest));
        assert(s@.subrange(from as int, to as int) =~= rest.take(line_end(rest)));
        if range_begins_with(&chars, from, to, &wanted) {
            let value = s.substring_char(from + wanted.len(), to);
            assert(value@ =~= rest.take(line_end(rest)).skip(name@.len() as int));
            return Some(trim(value));
        }
        if to >= chars.len() {
            return None;
        }
        assert(rest.skip(line_end(rest) + 1) =~= s@.skip(to + 1));
        from = to + 1;
    }
}

/// The CPUs that a process may run on, by the text of its status file.
pub fn current_cpus_allowed(status: Option<&str>) -> (cpus: Option<String>)
    ensures
        match cpus {
            Some(c) => status is Some && field(status->Some_0@, "Cpus_allowed_list:"@) == Some(c@),
            None => status is None || field(status->Some_0@, "Cpus_allowed_list:"@) is None,
        },
{
    match status {
        Some(s) => find_field(s, "Cpus_allowed_list:"),
        None => None,
    }
}

proof fn lemma_trimmed_start(s: Seq<char>) -> (i: int)
    ensures
        0 <= i <= s.len(),
        trimmed_start(s) == s.skip(i),
        forall|k: int| 0 <= k < i ==> is_space(#[trigger] s[k]),
        i < s.len() ==> !is_space(s[i]),
    decreases s.len(),
{
    if s.len() > 0 && is_space(s[0]) {
        let rest = s.skip(1);
        let i = lemma_trimmed_start(rest);
        assert(rest.skip(i) =~= s.skip(i + 1));
        assert forall|k: int| 0 <= k < i + 1 implies is_space(#[trigger] s[k]) by {
            if k > 0 {
                assert(rest[k - 1] == s[k]);
            }
        }
        i + 1
    } else {
        assert(s.skip(0) =~= s);
        0
    }
}

proof fn lemma_trimmed_end(s: Seq<char>) -> (j: int)
    ensures
        0 <= j <= s.len(),
        trimmed_end(s) == s.take(j),
        forall|k: int| j <= k < s.len() ==> is_space(#[trigger] s[k]),
        j > 0 ==> !is_space(s[j - 1]),
    decreases s.len(),
{
    if s.len() > 0 && is_space(s.last()) {
        let rest = s.drop_last();
        let j = lemma_trimmed_end(rest);
        assert(rest.take(j) =~= s.take(j));
        assert forall|k: int| j <= k < s.len() implies is_space(#[trigger] s[k]) by {
            if k < rest.len() {
                assert(rest[k] == s[k]);
            }
        }
        j
    } else {
        assert(s.take(s.len() as int) =~= s);
        s.len() as int
    }
}

/// Trimming takes white space off both ends, all of it, and nothing else: what is left stands in
/// the text from `i` to `j`, neither begins nor ends with white space, and is all that is not white
/// space with what stands between.
pub proof fn law_trimming_takes_white_space_off(s: Seq<char>) -> (ends: (int, int))
    ensures
        0 <= ends.0 <= ends.1 <= s.len(),
        trimmed(s) == s.subrange(ends.0, ends.1),
        forall|k: int|
            0 <= k < s.len() && !(ends.0 <= k < ends.1) ==> is_space(#[trigger] s[k]),
        ends.0 < ends.1 ==> !is_space(s[ends.0]) && !is_space(s[ends.1 - 1]),
{
    let i = lemma_trimmed_start(s);
    let rest = s.skip(i);
    let j = lemma_trimmed_end(rest);
    assert(rest.take(j) =~= s.subrange(i, i + j));
    assert forall|k: int| 0 <= k < s.len() && !(i <= k < i + j) implies is_space(
        #[trigger] s[k],
    ) by {
        if k >= i {
            assert(rest[k - i] == s[k]);
        }
    }
    if j > 0 {
        assert(rest[0] == s[i]);
        assert(rest[j - 1] == s[i + j - 1]);
    }
    (i, i + j)
}

/// A digit stands for its number, and digits before others count ten times as much for each of
/// them.
pub proof fn law_digits_have_their_places(a: Seq<char>, b: Seq<char>, c: char)
    requires
        '0' <= c <= '9',
    ensures
        decimal(Seq::empty()) == 0,
        decimal(seq![c]) == c as u32 - 48,
        decimal(a + seq![c]) == 10 * decimal(a) + (c as u32 - 48),
        is_decimal(b) ==> decimal(a + b) == decimal(a) * vstd::arithmetic::power::pow(10, b.len())
            + decimal(b),
    decreases b.len(),
{
    assert(seq![c].drop_last() =~= Seq::<char>::empty());
    assert((a + seq![c]).drop_last() =~= a);
    reveal(vstd::arithmetic::power::pow);
    if is_decimal(b) {
        let rest = b.drop_last();
        let p = vstd::arithmetic::power::pow(10, rest.len());
        assert((a + b).drop_last() =~= a + rest);
        assert('0' <= b[b.len() - 1] <= '9');
        if rest.len() == 0 {
            assert(a + rest =~= a);
            assert(vstd::arithmetic::power::pow(10, 0) == 1);
            assert(vstd::arithmetic::power::pow(10, 1) == 10);
        } else {
            assert forall|i: int| 0 <= i < rest.len() implies '0' <= #[trigger] rest[i] <= '9' by {
                assert(rest[i] == b[i]);
            }
            law_digits_have_their_places(a, rest, c);
        }
        assert(vstd::arithmetic::power::pow(10, b.len()) == 10 * p);
        assert((decimal(a) * p + decimal(rest)) * 10 == decimal(a) * (10 * p) + decimal(rest) * 10)
            by (nonlinear_arith);
    }
}

/// A number is one or more digits, with a plus sign before them or not, and no more than the limit:
/// such a text reads as what its digits stand for, and any other as none.
pub proof fn law_unsigned_reads_digits(s: Seq<char>, digits: Seq<char>, max: nat)
    ensures
        ({
            let numeric = digits.len() > 0 && forall|i: int|
                0 <= i < digits.len() ==> '0' <= #[trigger] digits[i] <= '9';
            &&& (s == digits || s == seq!['+'] + digits) && numeric ==> unsigned(s, max) == (
            if decimal(digits) <= max {
                Some(decimal(digits))
            } else {
                None
            })
            &&& s == seq!['+'] + digits && !numeric ==> unsigned(s, max) is None
            &&& s == digits && !numeric && (s.len() > 0 ==> s[0] != '+') ==> unsigned(s, max)
                is None
        }),
{
    if s == seq!['+'] + digits {
        assert(s.skip(1) =~= digits);
        assert(s[0] == '+');
    } else if s == digits && digits.len() > 0 && '0' <= digits[0] <= '9' {
        assert(s[0] != '+');
    }
    if s == digits && s == seq!['+'] + digits {
        assert(s.len() == digits.len() + 1);
    }
}

/// A signed number of 32 bits is one without a minus sign, up to the highest; or a minus sign and
/// digits, down to the lowest.
pub proof fn law_signed_reads_a_sign(s: Seq<char>, digits: Seq<char>)
    ensures
        s.len() == 0 || s[0] != '-' ==> signed32(s) == (match unsigned(s, 0x7FFF_FFFF) {
            Some(n) => Some(n as int),
            None => None,
        }),
        s == seq!['-'] + digits ==> ({
            let numeric = digits.len() > 0 && forall|i: int|
                0 <= i < digits.len() ==> '0' <= #[trigger] digits[i] <= '9';
            signed32(s) == (if numeric && decimal(digits) <= 0x8000_0000 {
                Some(-decimal(digits))
            } else {
                None
            })
        }),
{
    if s == seq!['-'] + digits {
        assert(s.skip(1) =~= digits);
        assert(s[0] == '-');
    }
}

/// Capitals from A to Z become small letters; all other characters stay.
pub proof fn law_lowering(s: Seq<char>, i: int)
    requires
        0 <= i < s.len(),
    ensures
        lowered(s).len() == s.len(),
        65 <= s[i] as u32 <= 90 ==> lowered(s)[i] as u32 == s[i] as u32 + 32,
        !(65 <= s[i] as u32 <= 90) ==> lowered(s)[i] == s[i],
{
}

/// A text begins with another exactly where it is that one with something, or nothing, behind it.
pub proof fn law_prefix(s: Seq<char>, prefix: Seq<char>, rest: Seq<char>)
    ensures
        s == prefix + rest ==> begins_with(s, prefix),
        begins_with(s, prefix) ==> s == prefix + s.skip(prefix.len() as int),
{
    if s == prefix + rest {
        assert(s.take(prefix.len() as int) =~= prefix);
    }
    if begins_with(s, prefix) {
        assert(s =~= s.take(prefix.len() as int) + s.skip(prefix.len() as int));
    }
}

/// Whether a line of `s` stands from place `p` to place `e`.
pub open spec fn is_line(s: Seq<char>, p: int, e: int) -> bool {
    &&& 0 <= p <= e <= s.len()
    &&& p == 0 || s[p - 1] == '\n'
    &&& e == s.len() || s[e] == '\n'
    &&& forall|i: int| p <= i < e ==> #[trigger] s[i] != '\n'
}

/// A field is found on the first line that begins with its name: its value is the rest of that
/// line, trimmed. Where no line does, there is none.
pub proof fn law_field_is_on_the_first_such_line(s: Seq<char>, name: Seq<char>, p: int, e: int)
    ensures
        is_line(s, p, e) && begins_with(s.subrange(p, e), name) && (forall|q: int, f: int|
            q < p && #[trigger] is_line(s, q, f) ==> !begins_with(s.subrange(q, f), name))
            ==> field(s, name) == Some(trimmed(s.subrange(p + name.len(), e))),
        (forall|q: int, f: int| #[trigger]
            is_line(s, q, f) ==> !begins_with(s.subrange(q, f), name)) ==> field(s, name) is None,
    decreases s.len(),
{
    lemma_line_end(s);
    let end = line_end(s);
    let line = s.take(end);
    assert(s.subrange(0, end) =~= line);
    assert(is_line(s, 0, end));
    if end < s.len() {
        let rest = s.skip(end + 1);
        law_field_is_on_the_first_such_line(rest, name, p - end - 1, e - end - 1);
        assert forall|q: int, f: int| #[trigger] is_line(rest, q, f) implies is_line(
            s,
            q + end + 1,
            f + end + 1,
        ) && s.subrange(q + end + 1, f + end + 1) == rest.subrange(q, f) by {
            assert(s.subrange(q + end + 1, f + end + 1) =~= rest.subrange(q, f));
            assert forall|i: int| q + end + 1 <= i < f + end + 1 implies #[trigger] s[i]
                != '\n' by {
                assert(rest[i - end - 1] == s[i]);
            }
            if q > 0 {
                assert(rest[q - 1] == s[q + end]);
            }
            if f < rest.len() {
                assert(rest[f] == s[f + end + 1]);
            }
        }
        if is_line(s, p, e) && p > 0 {
            if p <= end {
                assert(s[p - 1] == '\n');
            }
            assert forall|i: int| p - end - 1 <= i < e - end - 1 implies #[trigger] rest[i]
                != '\n' by {
                assert(rest[i] == s[i + end + 1]);
            }
            assert(is_line(rest, p - end - 1, e - end - 1));
            if begins_with(s.subrange(p, e), name) {
                assert(rest.subrange(p - end - 1 + name.len(), e - end - 1) =~= s.subrange(
                    p + name.len(),
                    e,
                ));
            }
        }
    }
    if is_line(s, p, e) && p == 0 {
        if e < end {
            assert(s[e] == '\n');
        }
        if end < e {
            assert(s[end] == '\n');
        }
        assert(e == end);
        if begins_with(line, name) {
            assert(line.skip(name.len() as int) =~= s.subrange(name.len() as int, e));
        }
    }
    if end == s.len() && is_line(s, p, e) && p > 0 {
        assert(s[p - 1] == '\n');
    }
}

} // verus!
