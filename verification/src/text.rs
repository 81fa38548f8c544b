//! Characters, digits, and the search for one text in another.
use vstd::prelude::*;
use vstd::string::*;

verus! {

/// `String::push` puts one character at the end.
pub assume_specification[ String::push ](s: &mut String, c: char)
    ensures
        final(s)@ == old(s)@.push(c),
;

pub open spec fn is_digit(c: char) -> bool {
    '0' <= c && c <= '9'
}

/// The number that a digit stands for.
pub open spec fn digit_value(c: char) -> nat {
    (c as int - '0' as int) as nat
}

/// The digit that stands for a number below ten.
pub open spec fn digit_char(d: nat) -> char {
    (d + '0' as int) as char
}

/// A number in decimal digits, without leading zeros.
pub open spec fn decimal(n: nat) -> Seq<char>
    decreases n,
{
    if n < 10 {
        seq![digit_char(n)]
    } else {
        decimal(n / 10).push(digit_char(n % 10))
    }
}

/// The number that a row of digits stands for.
pub open spec fn number(s: Seq<char>) -> nat
    decreases s.len(),
{
    if s.len() == 0 {
        0
    } else {
        10 * number(s.drop_last()) + digit_value(s.last())
    }
}

/// Where the digits end that start at `i`.
pub open spec fn digit_run(s: Seq<char>, i: int) -> int
    decreases s.len() - i,
{
    if 0 <= i < s.len() && is_digit(s[i]) {
        digit_run(s, i + 1)
    } else {
        i
    }
}

/// A run of digits ends where it starts or later, and not behind the end.
pub proof fn lemma_digit_run(s: Seq<char>, i: int)
    requires
        0 <= i <= s.len(),
    ensures
        i <= digit_run(s, i) <= s.len(),
        i < s.len() && is_digit(s[i]) ==> i < digit_run(s, i),
    decreases s.len() - i,
{
    if i < s.len() && is_digit(s[i]) {
        lemma_digit_run(s, i + 1);
    }
}

/// `part` stands in `s` at `i`.
pub open spec fn occurs_at(s: Seq<char>, part: Seq<char>, i: int) -> bool {
    0 <= i <= s.len() - part.len() && s.subrange(i, i + part.len()) == part
}

/// Where `part` first stands in `s`, looking from `i` on.
pub open spec fn find_from(s: Seq<char>, part: Seq<char>, i: int) -> Option<int>
    decreases s.len() + 1 - i,
{
    if i < 0 || i > s.len() {
        None
    } else if occurs_at(s, part, i) {
        Some(i)
    } else {
        find_from(s, part, i + 1)
    }
}

/// Where `part` first stands in `s`.
pub open spec fn find(s: Seq<char>, part: Seq<char>) -> Option<int> {
    find_from(s, part, 0)
}

/// What stands somewhere is found, there or before.
pub proof fn lemma_found(s: Seq<char>, part: Seq<char>, from: int, i: int)
    requires
        0 <= from <= i,
        occurs_at(s, part, i),
    ensures
        find_from(s, part, from) is Some,
    decreases i - from,
{
    if !occurs_at(s, part, from) {
        lemma_found(s, part, from + 1, i);
    }
}

/// What a text is put together with is found in it.
pub proof fn lemma_part_found(a: Seq<char>, part: Seq<char>, b: Seq<char>)
    ensures
        find(a + part + b, part) is Some,
{
    let s = a + part + b;
    assert(s.subrange(a.len() as int, (a.len() + part.len()) as int) =~= part);
    lemma_found(s, part, 0, a.len() as int);
}

/// The characters that Unicode lists under `White_Space`.
pub open spec fn is_white_space(c: char) -> bool {
    let n = c as u32;
    ||| 0x9 <= n <= 0xD
    ||| n == 0x20
    ||| n == 0x85
    ||| n == 0xA0
    ||| n == 0x1680
    ||| 0x2000 <= n <= 0x200A
    ||| n == 0x2028
    ||| n == 0x2029
    ||| n == 0x202F
    ||| n == 0x205F
    ||| n == 0x3000
}

/// The text without the white space that it starts with.
pub open spec fn trimmed_start(s: Seq<char>) -> Seq<char>
    decreases s.len(),
{
    if s.len() > 0 && is_white_space(s[0]) {
        trimmed_start(s.drop_first())
    } else {
        s
    }
}

/// The text without the white space that it ends with.
pub open spec fn trimmed_end(s: Seq<char>) -> Seq<char>
    decreases s.len(),
{
    if s.len() > 0 && is_white_space(s.last()) {
        trimmed_end(s.drop_last())
    } else {
        s
    }
}

/// The text without the white space around it.
pub open spec fn trimmed(s: Seq<char>) -> Seq<char> {
    trimmed_end(trimmed_start(s))
}

/// A letter from A to Z in lower case; any other character as it is.
pub open spec fn lower(c: char) -> char {
    if 'A' <= c && c <= 'Z' {
        (c as int + 32) as char
    } else {
        c
    }
}

/// The text with `lower` applied to each character.
pub open spec fn lowered(s: Seq<char>) -> Seq<char> {
    s.map_values(|c: char| lower(c))
}

/// The characters of a text.
pub fn chars_of(s: &str) -> (v: Vec<char>)
    ensures
        v@ == s@,
{
    let mut v: Vec<char> = Vec::new();
    for c in it: s.chars()
        invariant
            v@ == s@.take(it.index() as int),
            it.seq() == s@,
    {
        v.push(c);
        proof {
            assert(s@.take(it.index() as int).push(c) =~= s@.take(it.index() + 1));
        }
    }
    proof {
        assert(s@.take(s@.len() as int) =~= s@);
    }
    v
}

/// The text that characters make.
pub fn string_of(v: &Vec<char>) -> (s: String)
    ensures
        s@ == v@,
{
    let mut s = String::new();
    let mut i: usize = 0;
    while i < v.len()
        invariant
            i <= v@.len(),
            s@ == v@.take(i as int),
        decreases v@.len() - i,
    {
        s.push(v[i]);
        i = i + 1;
        proof {
            assert(v@.take(i as int) =~= v@.take(i - 1).push(v@[i - 1]));
        }
    }
    proof {
        assert(v@.take(v@.len() as int) =~= v@);
    }
    s
}

/// The characters from `from` up to `to`.
pub fn part_of(v: &Vec<char>, from: usize, to: usize) -> (r: Vec<char>)
    requires
        from <= to <= v@.len(),
    ensures
        r@ == v@.subrange(from as int, to as int),
{
    let mut r: Vec<char> = Vec::new();
    let mut i: usize = from;
    while i < to
        invariant
            from <= i <= to <= v@.len(),
            r@ == v@.subrange(from as int, i as int),
        decreases to - i,
    {
        r.push(v[i]);
        i = i + 1;
        proof {
            assert(v@.subrange(from as int, i as int) =~= v@.subrange(from as int, i - 1).push(
                v@[i - 1],
            ));
        }
    }
    r
}

/// Whether a character is a digit.
pub fn digit(c: char) -> (r: bool)
    ensures
        r == is_digit(c),
{
    '0' <= c && c <= '9'
}

/// Where the digits end that start at `i`.
pub fn skip_digits(v: &Vec<char>, i: usize) -> (j: usize)
    requires
        i <= v@.len(),
    ensures
        j == digit_run(v@, i as int),
        i <= j <= v@.len(),
        forall|k: int| i <= k < j ==> is_digit(v@[k]),
        j < v@.len() ==> !is_digit(v@[j as int]),
{
    let mut j: usize = i;
    while j < v.len() && digit(v[j])
        invariant
            i <= j <= v@.len(),
            forall|k: int| i <= k < j ==> is_digit(v@[k]),
            digit_run(v@, i as int) == digit_run(v@, j as int),
        decreases v@.len() - j,
    {
        j = j + 1;
    }
    j
}

/// Whether `part` stands in `v` at `i`.
pub fn stands_at(v: &Vec<char>, part: &Vec<char>, i: usize) -> (r: bool)
    requires
        i <= v@.len(),
    ensures
        r == occurs_at(v@, part@, i as int),
{
    let n: usize = v.len();
    if part.len() > n - i {
        return false;
    }
    let mut k: usize = 0;
    while k < part.len()
        invariant
            k <= part@.len() <= n - i,
            i <= n == v@.len(),
            forall|j: int| 0 <= j < k ==> v@[i + j] == part@[j],
        decreases part@.len() - k,
    {
        if v[i + k] != part[k] {
            proof {
                assert(v@.subrange(i as int, i + part@.len())[k as int] != part@[k as int]);
            }
            return false;
        }
        k = k + 1;
    }
    proof {
        assert(v@.subrange(i as int, i + part@.len()) =~= part@);
    }
    true
}

/// Where `part` first stands in `v`.
pub fn find_part(v: &Vec<char>, part: &Vec<char>) -> (r: Option<usize>)
    ensures
        match r {
            Some(i) => find(v@, part@) == Some(i as int) && occurs_at(v@, part@, i as int),
            None => find(v@, part@) is None,
        },
{
    let mut i: usize = 0;
    loop
        invariant
            i <= v@.len(),
            find(v@, part@) == find_from(v@, part@, i as int),
        decreases v@.len() - i,
    {
        if stands_at(v, part, i) {
            return Some(i);
        }
        if i == v.len() {
            proof {
                assert(find_from(v@, part@, i + 1) is None);
            }
            return None;
        }
        i = i + 1;
    }
}

/// Whether `part` stands anywhere in `text`.
pub fn contains(text: &str, part: &str) -> (r: bool)
    ensures
        r == find(text@, part@) is Some,
{
    match find_part(&chars_of(text), &chars_of(part)) {
        Some(_) => true,
        None => false,
    }
}

/// The number that the digits from `from` up to `to` stand for, if it fits.
pub fn number_of(v: &Vec<char>, from: usize, to: usize) -> (r: Option<u64>)
    requires
        from <= to <= v@.len(),
        forall|k: int| from <= k < to ==> is_digit(v@[k]),
    ensures
        ({
            let n = number(v@.subrange(from as int, to as int));
            r == if n <= u64::MAX { Some(n as u64) } else { None }
        }),
{
    let mut n: u64 = 0;
    let mut i: usize = from;
    proof {
        assert(v@.subrange(from as int, from as int).len() == 0);
    }
    while i < to
        invariant
            from <= i <= to <= v@.len(),
            forall|k: int| from <= k < to ==> is_digit(v@[k]),
            n == number(v@.subrange(from as int, i as int)),
        decreases to - i,
    {
        proof {
            let s = v@.subrange(from as int, i + 1);
            assert(s.drop_last() =~= v@.subrange(from as int, i as int));
            assert(s.last() == v@[i as int]);
        }
        let d: u64 = v[i] as u64 - '0' as u64;
        if n > (u64::MAX - d) / 10 {
            proof {
                lemma_number_grows(v@.subrange(from as int, to as int), i + 1 - from);
                assert(v@.subrange(from as int, to as int).take(i + 1 - from) =~= v@.subrange(
                    from as int,
                    i + 1,
                ));
            }
            return None;
        }
        n = 10 * n + d;
        i = i + 1;
    }
    Some(n)
}

/// More digits make no smaller number.
pub proof fn lemma_number_grows(s: Seq<char>, n: int)
    requires
        0 <= n <= s.len(),
    ensures
        number(s.take(n)) <= number(s),
    decreases s.len(),
{
    if n < s.len() {
        lemma_number_grows(s.drop_last(), n);
        assert(s.drop_last().take(n) =~= s.take(n));
    } else {
        assert(s.take(n) =~= s);
    }
}

/// Puts a number at the end of a text.
pub fn push_decimal(s: &mut String, n: u64)
    ensures
        final(s)@ == old(s)@ + decimal(n as nat),
    decreases n,
{
    let ghost before = s@;
    if n >= 10 {
        push_decimal(s, n / 10);
    }
    let c: char = (48 + (n % 10) as u8) as char;
    s.push(c);
    proof {
        assert(s@ =~= before + decimal(n as nat));
    }
}

/// Whether a character is white space.
pub fn white_space(c: char) -> (r: bool)
    ensures
        r == is_white_space(c),
{
    let n: u32 = c as u32;
    (0x9 <= n && n <= 0xD) || n == 0x20 || n == 0x85 || n == 0xA0 || n == 0x1680 || (0x2000 <= n
        && n <= 0x200A) || n == 0x2028 || n == 0x2029 || n == 0x202F || n == 0x205F || n == 0x3000
}

/// The characters without the white space that they start with.
pub fn trim_start(v: &Vec<char>) -> (r: Vec<char>)
    ensures
        r@ == trimmed_start(v@),
{
    let mut i: usize = 0;
    proof {
        assert(v@.skip(0) =~= v@);
    }
    while i < v.len() && white_space(v[i])
        invariant
            i <= v@.len(),
            trimmed_start(v@) == trimmed_start(v@.skip(i as int)),
        decreases v@.len() - i,
    {
        proof {
            assert(v@.skip(i as int).drop_first() =~= v@.skip(i + 1));
        }
        i = i + 1;
    }
    proof {
        assert(v@.skip(i as int) =~= v@.subrange(i as int, v@.len() as int));
    }
    part_of(v, i, v.len())
}

/// The characters without the white space around them.
pub fn trim(v: &Vec<char>) -> (r: Vec<char>)
    ensures
        r@ == trimmed(v@),
{
    let w = trim_start(v);
    let mut n: usize = w.len();
    proof {
        assert(w@.take(n as int) =~= w@);
    }
    while n > 0 && white_space(w[n - 1])
        invariant
            n <= w@.len(),
            trimmed_end(w@) == trimmed_end(w@.take(n as int)),
        decreases n,
    {
        proof {
            assert(w@.take(n as int).drop_last() =~= w@.take(n - 1));
        }
        n = n - 1;
    }
    proof {
        assert(w@.take(n as int) =~= w@.subrange(0, n as int));
    }
    part_of(&w, 0, n)
}

/// The characters with the letters from A to Z in lower case.
pub fn lower_case(v: &Vec<char>) -> (r: Vec<char>)
    ensures
        r@ == lowered(v@),
{
    let mut r: Vec<char> = Vec::new();
    let mut i: usize = 0;
    while i < v.len()
        invariant
            i <= v@.len(),
            r@ == lowered(v@.take(i as int)),
        decreases v@.len() - i,
    {
        let c = v[i];
        let l: char = if 'A' <= c && c <= 'Z' { (c as u8 + 32) as char } else { c };
        r.push(l);
        i = i + 1;
        proof {
            assert(lowered(v@.take(i as int)) =~= lowered(v@.take(i - 1)).push(lower(c)));
        }
    }
    proof {
        assert(v@.take(v@.len() as int) =~= v@);
    }
    r
}

/// Whether the characters are those of a text.
pub fn is_text(v: &Vec<char>, s: &str) -> (r: bool)
    ensures
        r == (v@ == s@),
{
    let w = chars_of(s);
    if v.len() != w.len() {
        return false;
    }
    let r = stands_at(v, &w, 0);
    proof {
        assert(v@.subrange(0, v@.len() as int) =~= v@);
    }
    r
}

} // verus!
