//! Reading the small texts that the kernel serves: words, lines and decimal numbers.
use vstd::prelude::*;
use vstd::std_specs::iter::IteratorSpec;

verus! {

/// `c` has the Unicode property `White_Space`.
pub open spec fn is_white(c: char) -> bool {
    let n = c as u32;
    ||| 0x09 <= n <= 0x0d
    ||| n == 0x20
    ||| n == 0x85
    ||| n == 0xa0
    ||| n == 0x1680
    ||| 0x2000 <= n <= 0x200a
    ||| n == 0x2028
    ||| n == 0x2029
    ||| n == 0x202f
    ||| n == 0x205f
    ||| n == 0x3000
}

/// `c` is a blank, a tab, a line feed, a form feed or a carriage return.
pub open spec fn is_ascii_white(c: char) -> bool {
    let n = c as u32;
    n == 0x20 || n == 0x09 || n == 0x0a || n == 0x0c || n == 0x0d
}

/// Number of characters at the front of `s` for which `p` holds.
pub open spec fn run_len(s: Seq<char>, p: spec_fn(char) -> bool) -> nat
    decreases s.len(),
{
    if s.len() > 0 && p(s[0]) {
        1 + run_len(s.drop_first(), p)
    } else {
        0
    }
}

/// `s` without the white space at its front.
pub open spec fn trim_start(s: Seq<char>) -> Seq<char> {
    s.skip(run_len(s, |c: char| is_white(c)) as int)
}

/// `s` without the white space at either end.
pub open spec fn trimmed(s: Seq<char>) -> Seq<char> {
    trim_start(trim_start(s).reverse()).reverse()
}

/// Length of the word at the front of `s`.
pub open spec fn word_len(s: Seq<char>) -> nat {
    run_len(s, |c: char| !is_white(c))
}

/// The run at the front of `s` ends at the first character that `p` does not hold of.
pub proof fn lemma_run_len(s: Seq<char>, p: spec_fn(char) -> bool)
    ensures
        run_len(s, p) <= s.len(),
        forall|i: int| 0 <= i < run_len(s, p) ==> p(#[trigger] s[i]),
        run_len(s, p) < s.len() ==> !p(s[run_len(s, p) as int]),
    decreases s.len(),
{
    if s.len() > 0 && p(s[0]) {
        let rest = s.drop_first();
        lemma_run_len(rest, p);
        assert forall|i: int| 0 <= i < run_len(s, p) implies p(#[trigger] s[i]) by {
            if i > 0 {
                assert(s[i] == rest[i - 1]);
            }
        }
    }
}

proof fn lemma_run_len_is(s: Seq<char>, p: spec_fn(char) -> bool, n: int)
    requires
        0 <= n <= s.len(),
        forall|i: int| 0 <= i < n ==> p(#[trigger] s[i]),
        n < s.len() ==> !p(s[n]),
    ensures
        run_len(s, p) == n,
{
    lemma_run_len(s, p);
    if run_len(s, p) < n {
        assert(p(s[run_len(s, p) as int]));
    }
}

/// The words of `s`: its longest runs without white space.
pub open spec fn words(s: Seq<char>) -> Seq<Seq<char>>
    decreases s.len(),
{
    let rest = trim_start(s);
    if rest.len() == 0 {
        Seq::empty()
    } else {
        let n = word_len(rest);
        proof {
            lemma_run_len(s, |c: char| is_white(c));
            lemma_run_len(rest, |c: char| !is_white(c));
        }
        if n == 0 {
            Seq::empty()
        } else {
            seq![rest.take(n as int)] + words(rest.skip(n as int))
        }
    }
}

/// Index of the first line feed in `s`, its length where it has none.
pub open spec fn line_len(s: Seq<char>) -> nat {
    run_len(s, |c: char| c != '\n')
}

/// `line` without a carriage return at its end.
pub open spec fn without_return(line: Seq<char>) -> Seq<char> {
    if line.len() > 0 && line.last() == '\r' {
        line.drop_last()
    } else {
        line
    }
}

/// The lines of `s`. A line ends at a line feed, and a carriage return before that is not
/// part of it. What follows the last line feed is a line unless it is empty.
pub open spec fn lines(s: Seq<char>) -> Seq<Seq<char>>
    decreases s.len(),
{
    let n = line_len(s);
    if s.len() == 0 {
        Seq::empty()
    } else if n >= s.len() {
        seq![s]
    } else {
        seq![without_return(s.take(n as int))] + lines(s.skip(n as int + 1))
    }
}

/// `c` is one of the ten digits.
pub open spec fn is_digit(c: char) -> bool {
    0x30 <= c as u32 <= 0x39
}

/// The number that the digits `s` stand for.
pub open spec fn decimal(s: Seq<char>) -> nat
    decreases s.len(),
{
    if s.len() == 0 {
        0
    } else {
        (decimal(s.drop_last()) * 10 + (s.last() as u32 - 0x30)) as nat
    }
}

/// `s` without a plus sign at its front.
pub open spec fn unsigned_part(s: Seq<char>) -> Seq<char> {
    if s.len() > 0 && s[0] == '+' {
        s.skip(1)
    } else {
        s
    }
}

/// The number that `s` stands for: some digits, after a plus sign or none. A number above
/// `max` is none.
pub open spec fn number(s: Seq<char>, max: nat) -> Option<nat> {
    let digits = unsigned_part(s);
    if digits.len() > 0 && (forall|i: int| 0 <= i < digits.len() ==> is_digit(#[trigger] digits[i]))
        && decimal(digits) <= max {
        Some(decimal(digits))
    } else {
        None
    }
}

/// The characters of `s`.
pub fn chars_of(s: &str) -> (chars: Vec<char>)
    ensures
        chars@ == s@,
{
    let mut chars: Vec<char> = Vec::new();
    proof {
        vstd::string::axiom_spec_iter(s);
    }
    for c in it: s.chars()
        invariant
            it.seq() == s@,
            chars@ == s@.take(it.index() as int),
    {
        chars.push(c);
    }
    assert(s@.take(s@.len() as int) =~= s@);
    chars
}

fn white(c: char) -> (b: bool)
    ensures
        b == is_white(c),
{
    let n = c as u32;
    (0x09 <= n && n <= 0x0d) || n == 0x20 || n == 0x85 || n == 0xa0 || n == 0x1680 || (0x2000 <= n
        && n <= 0x200a) || n == 0x2028 || n == 0x2029 || n == 0x202f || n == 0x205f || n == 0x3000
}

pub fn ascii_white(c: char) -> (b: bool)
    ensures
        b == is_ascii_white(c),
{
    let n = c as u32;
    n == 0x20 || n == 0x09 || n == 0x0a || n == 0x0c || n == 0x0d
}

/// The part of `s` from `from` up to `to`.
pub fn part(s: &Vec<char>, from: usize, to: usize) -> (res: Vec<char>)
    requires
        from <= to <= s@.len(),
    ensures
        res@ == s@.subrange(from as int, to as int),
{
    let mut res: Vec<char> = Vec::new();
    for i in from..to
        invariant
            from <= to <= s@.len(),
            res@ == s@.subrange(from as int, i as int),
    {
        res.push(s[i]);
        assert(s@.subrange(from as int, i + 1) =~= s@.subrange(from as int, i as int).push(
            s@[i as int],
        ));
    }
    res
}

/// The words of `s`.
pub fn split_whitespace(s: &Vec<char>) -> (res: Vec<Vec<char>>)
    ensures
        res@.len() == words(s@).len(),
        forall|i: int| 0 <= i < res@.len() ==> (#[trigger] res@[i])@ == words(s@)[i],
{
    let mut res: Vec<Vec<char>> = Vec::new();
    let mut i: usize = 0;
    let ghost mut found: Seq<Seq<char>> = Seq::empty();
    assert(s@.skip(0) =~= s@);
    assert(found + words(s@) =~= words(s@));
    while i < s.len()
        invariant
            i <= s@.len(),
            found + words(s@.skip(i as int)) == words(s@),
            res@.len() == found.len(),
            forall|k: int| 0 <= k < res@.len() ==> (#[trigger] res@[k])@ == found[k],
        decreases s@.len() - i,
    {
        let ghost here = s@.skip(i as int);
        let start = i;
        while i < s.len() && white(s[i])
            invariant
                start <= i <= s@.len(),
                forall|k: int| start <= k < i ==> is_white(#[trigger] s@[k]),
            decreases s@.len() - i,
        {
            i = i + 1;
        }
        proof {
            let p = |c: char| is_white(c);
            assert forall|k: int| 0 <= k < i - start implies p(#[trigger] here[k]) by {
                assert(here[k] == s@[start + k]);
            }
            if i < s@.len() {
                assert(here[i - start] == s@[i as int]);
            }
            lemma_run_len_is(here, p, i - start);
            assert(trim_start(here) =~= s@.skip(i as int));
        }
        let first = i;
        while i < s.len() && !white(s[i])
            invariant
                first <= i <= s@.len(),
                forall|k: int| first <= k < i ==> !is_white(#[trigger] s@[k]),
            decreases s@.len() - i,
        {
            i = i + 1;
        }
        proof {
            let rest = s@.skip(first as int);
            let p = |c: char| !is_white(c);
            assert forall|k: int| 0 <= k < i - first implies p(#[trigger] rest[k]) by {
                assert(rest[k] == s@[first + k]);
            }
            if i < s@.len() {
                assert(rest[i - first] == s@[i as int]);
            }
            lemma_run_len_is(rest, p, i - first);
            assert(rest.skip(i - first) =~= s@.skip(i as int));
            assert(rest.take(i - first) =~= s@.subrange(first as int, i as int));
        }
        if i > first {
            let word = part(s, first, i);
            let ghost rest = s@.skip(first as int);
            res.push(word);
            proof {
                let before = found;
                found = before.push(word@);
                assert(words(here) == seq![word@] + words(s@.skip(i as int)));
                assert(found + words(s@.skip(i as int)) =~= before + words(here));
            }
        } else {
            assert(s@.skip(first as int).len() == 0);
            assert(words(here) =~= Seq::empty());
            assert(words(s@.skip(i as int)) =~= Seq::empty());
        }
    }
    assert(s@.skip(i as int).len() == 0);
    assert(trim_start(s@.skip(i as int)).len() == 0) by {
        lemma_run_len(s@.skip(i as int), |c: char| is_white(c));
    }
    assert(found =~= words(s@));
    res
}

proof fn lemma_decimal_grows(s: Seq<char>, n: int)
    requires
        0 <= n <= s.len(),
        forall|i: int| 0 <= i < s.len() ==> is_digit(#[trigger] s[i]),
    ensures
        decimal(s.take(n)) <= decimal(s),
    decreases s.len(),
{
    if n < s.len() {
        lemma_decimal_grows(s.drop_last(), n);
        assert(s.drop_last().take(n) =~= s.take(n));
    } else {
        assert(s.take(n) =~= s);
    }
}

/// The number that `s` stands for.
pub fn parse_u64(s: &Vec<char>) -> (n: Option<u64>)
    ensures
        match n {
            Some(v) => number(s@, u64::MAX as nat) == Some(v as nat),
            None => number(s@, u64::MAX as nat) is None,
        },
{
    let start: usize = if s.len() > 0 && s[0] == '+' {
        1
    } else {
        0
    };
    let ghost digits = unsigned_part(s@);
    assert(digits =~= s@.skip(start as int));
    if start == s.len() {
        return None;
    }
    let mut value: u64 = 0;
    for i in start..s.len()
        invariant
            start <= s@.len(),
            digits == unsigned_part(s@),
            digits == s@.skip(start as int),
            forall|k: int| 0 <= k < i - start ==> is_digit(#[trigger] digits[k]),
            value == decimal(digits.take(i - start)),
    {
        let c = s[i] as u32;
        assert(digits[i - start] == s@[i as int]);
        if c < 0x30 || c > 0x39 {
            return None;
        }
        let ghost now = digits.take(i - start + 1);
        assert(now.drop_last() =~= digits.take(i - start));
        assert(decimal(now) == value * 10 + (c - 0x30));
        let digit = (c - 0x30) as u64;
        if value > u64::MAX / 10 || value * 10 > u64::MAX - digit {
            proof {
                if forall|k: int| 0 <= k < digits.len() ==> is_digit(#[trigger] digits[k]) {
                    lemma_decimal_grows(digits, i - start + 1);
                }
            }
            return None;
        }
        value = value * 10 + digit;
    }
    assert(digits.take(digits.len() as int) =~= digits);
    Some(value)
}

/// The number that `s` stands for.
pub fn parse_u32(s: &Vec<char>) -> (n: Option<u32>)
    ensures
        match n {
            Some(v) => number(s@, u32::MAX as nat) == Some(v as nat),
            None => number(s@, u32::MAX as nat) is None,
        },
{
    match parse_u64(s) {
        Some(v) => {
            if v <= u32::MAX as u64 {
                Some(v as u32)
            } else {
                None
            }
        },
        None => None,
    }
}

/// `pattern` stands in `s` at `at`.
pub open spec fn stands_at(s: Seq<char>, pattern: Seq<char>, at: int) -> bool {
    0 <= at <= s.len() - pattern.len() && s.subrange(at, at + pattern.len()) == pattern
}

/// Where `pattern` stands in `s` at `at`, it stands at the front of what starts there.
pub proof fn lemma_stands_at_skip(s: Seq<char>, pattern: Seq<char>, at: int)
    requires
        0 <= at <= s.len(),
    ensures
        stands_at(s.skip(at), pattern, 0) == stands_at(s, pattern, at),
{
    if at + pattern.len() <= s.len() {
        assert(s.skip(at).subrange(0, pattern.len() as int) =~= s.subrange(
            at,
            at + pattern.len(),
        ));
    }
}

/// `pattern` stands somewhere in `s`.
pub open spec fn holds(s: Seq<char>, pattern: Seq<char>) -> bool {
    exists|at: int| stands_at(s, pattern, at)
}

/// `pattern` stands in `s` at `at`.
pub fn is_at(s: &Vec<char>, pattern: &Vec<char>, at: usize) -> (b: bool)
    requires
        at <= s@.len(),
    ensures
        b == stands_at(s@, pattern@, at as int),
{
    if pattern.len() > s.len() - at {
        return false;
    }
    for i in 0..pattern.len()
        invariant
            at + pattern.len() <= s.len(),
            forall|k: int| 0 <= k < i ==> s@[at + k] == #[trigger] pattern@[k],
    {
        if s[at + i] != pattern[i] {
            assert(s@.subrange(at as int, at + pattern@.len())[i as int] == s@[at + i]);
            return false;
        }
    }
    assert(s@.subrange(at as int, at + pattern@.len()) =~= pattern@);
    true
}

/// `pattern` stands somewhere in `s`.
pub fn contains(s: &Vec<char>, pattern: &Vec<char>) -> (b: bool)
    ensures
        b == holds(s@, pattern@),
{
    let mut at: usize = 0;
    while at < s.len()
        invariant
            at <= s@.len(),
            forall|k: int| 0 <= k < at ==> !stands_at(s@, pattern@, k),
        decreases s@.len() - at,
    {
        if is_at(s, pattern, at) {
            return true;
        }
        at = at + 1;
    }
    if is_at(s, pattern, at) {
        return true;
    }
    false
}

/// Where the line that starts at `from` ends.
fn line_end(s: &Vec<char>, from: usize) -> (end: usize)
    requires
        from <= s@.len(),
    ensures
        from <= end <= s@.len(),
        end - from == line_len(s@.skip(from as int)),
{
    let mut i: usize = from;
    while i < s.len() && s[i] != '\n'
        invariant
            from <= i <= s@.len(),
            forall|k: int| from <= k < i ==> #[trigger] s@[k] != '\n',
        decreases s@.len() - i,
    {
        i = i + 1;
    }
    proof {
        let rest = s@.skip(from as int);
        let p = |c: char| c != '\n';
        assert forall|k: int| 0 <= k < i - from implies p(#[trigger] rest[k]) by {
            assert(rest[k] == s@[from + k]);
        }
        if i < s@.len() {
            assert(rest[i - from] == s@[i as int]);
        }
        lemma_run_len_is(rest, p, i - from);
    }
    i
}

/// The lines of `s`.
pub fn split_lines(s: &Vec<char>) -> (res: Vec<Vec<char>>)
    ensures
        res@.len() == lines(s@).len(),
        forall|i: int| 0 <= i < res@.len() ==> (#[trigger] res@[i])@ == lines(s@)[i],
{
    let mut res: Vec<Vec<char>> = Vec::new();
    let mut i: usize = 0;
    let ghost mut found: Seq<Seq<char>> = Seq::empty();
    assert(s@.skip(0) =~= s@);
    assert(found + lines(s@) =~= lines(s@));
    while i < s.len()
        invariant
            i <= s@.len(),
            found + lines(s@.skip(i as int)) == lines(s@),
            res@.len() == found.len(),
            forall|k: int| 0 <= k < res@.len() ==> (#[trigger] res@[k])@ == found[k],
        decreases s@.len() - i,
    {
        let ghost here = s@.skip(i as int);
        let ghost before = found;
        let end = line_end(s, i);
        if end == s.len() {
            let line = part(s, i, end);
            res.push(line);
            proof {
                assert(line@ =~= here);
                found = before.push(line@);
                assert(s@.skip(s@.len() as int) =~= Seq::empty());
                assert(found + lines(s@.skip(s@.len() as int)) =~= before + lines(here));
            }
            i = end;
        } else {
            let mut stop: usize = end;
            if end > i && s[end - 1] == '\r' {
                stop = end - 1;
            }
            let line = part(s, i, stop);
            res.push(line);
            proof {
                let whole = here.take(end - i);
                if end > i {
                    assert(whole.last() == s@[end - 1]);
                }
                assert(line@ =~= without_return(whole));
                found = before.push(line@);
                assert(here.skip(end - i + 1) =~= s@.skip(end + 1));
                assert(found + lines(s@.skip(end + 1)) =~= before + lines(here));
            }
            i = end + 1;
        }
    }
    assert(lines(s@.skip(i as int)) =~= Seq::empty());
    assert(found =~= lines(s@));
    res
}

/// `s` without the white space at either end.
pub fn trim(s: &Vec<char>) -> (res: Vec<char>)
    ensures
        res@ == trimmed(s@),
{
    let mut from: usize = 0;
    while from < s.len() && white(s[from])
        invariant
            from <= s@.len(),
            forall|k: int| 0 <= k < from ==> is_white(#[trigger] s@[k]),
        decreases s@.len() - from,
    {
        from = from + 1;
    }
    let ghost p = |c: char| is_white(c);
    proof {
        lemma_run_len_is(s@, p, from as int);
    }
    let ghost rest = s@.skip(from as int);
    let mut to: usize = s.len();
    while to > from && white(s[to - 1])
        invariant
            from <= to <= s@.len(),
            forall|k: int| to <= k < s@.len() ==> is_white(#[trigger] s@[k]),
        decreases to,
    {
        to = to - 1;
    }
    proof {
        let back = rest.reverse();
        let n = s@.len() - to;
        assert forall|k: int| 0 <= k < n implies p(#[trigger] back[k]) by {
            assert(back[k] == s@[s@.len() - 1 - k]);
        }
        if n < back.len() {
            assert(back[n] == s@[to - 1]);
        }
        lemma_run_len_is(back, p, n);
        assert(back.skip(n).reverse() =~= s@.subrange(from as int, to as int));
    }
    part(s, from, to)
}

/// The digit `d` as a character.
pub open spec fn digit_char(d: nat) -> char {
    (0x30 + d) as char
}

/// `n` written out in decimal digits.
pub open spec fn digits_of(n: nat) -> Seq<char>
    decreases n,
{
    if n < 10 {
        seq![digit_char(n)]
    } else {
        digits_of(n / 10).push(digit_char(n % 10))
    }
}

/// What a number is written out in are digits, some at least, and they stand for it.
pub proof fn lemma_digits(n: nat)
    ensures
        digits_of(n).len() > 0,
        forall|i: int| 0 <= i < digits_of(n).len() ==> is_digit(#[trigger] digits_of(n)[i]),
        decimal(digits_of(n)) == n,
    decreases n,
{
    if n < 10 {
        assert(digits_of(n).drop_last() =~= Seq::empty());
        assert(decimal(Seq::empty()) == 0);
    } else {
        lemma_digits(n / 10);
        assert(digits_of(n).drop_last() =~= digits_of(n / 10));
        assert forall|i: int| 0 <= i < digits_of(n).len() implies is_digit(
            #[trigger] digits_of(n)[i],
        ) by {
            if i < digits_of(n / 10).len() {
                assert(digits_of(n)[i] == digits_of(n / 10)[i]);
            }
        }
    }
}

/// A number that was written out in digits is read back, with a plus sign in front or
/// without, unless it is too large.
pub proof fn law_number_round_trip(n: nat, max: nat)
    ensures
        number(digits_of(n), max) == (if n <= max {
            Some(n)
        } else {
            None
        }),
        number(seq!['+'] + digits_of(n), max) == number(digits_of(n), max),
{
    lemma_digits(n);
    let s = digits_of(n);
    assert(is_digit(s[0]));
    assert((seq!['+'] + s).skip(1) =~= s);
}

/// Zeros in front of a number change nothing.
pub proof fn law_leading_zero(s: Seq<char>, max: nat)
    requires
        s.len() > 0,
        s[0] != '+',
    ensures
        number(seq!['0'] + s, max) == number(s, max),
{
    let longer = seq!['0'] + s;
    lemma_leading_zero(s);
    if forall|i: int| 0 <= i < longer.len() ==> is_digit(#[trigger] longer[i]) {
        assert forall|i: int| 0 <= i < s.len() implies is_digit(#[trigger] s[i]) by {
            assert(longer[i + 1] == s[i]);
        }
    }
}

proof fn lemma_leading_zero(s: Seq<char>)
    ensures
        decimal(seq!['0'] + s) == decimal(s),
    decreases s.len(),
{
    let longer = seq!['0'] + s;
    if s.len() > 0 {
        lemma_leading_zero(s.drop_last());
        assert(longer.drop_last() =~= seq!['0'] + s.drop_last());
        assert(longer.last() == s.last());
    } else {
        assert(longer.drop_last() =~= Seq::empty());
        assert(decimal(Seq::empty()) == 0);
    }
}

/// A text that holds anything but digits behind a plus sign or none stands for no number,
/// and neither does one without digits.
pub proof fn law_no_number(s: Seq<char>, max: nat, i: int)
    requires
        0 <= i < s.len(),
        (s[i] as u32) < 0x30 || (s[i] as u32) > 0x39,
        i > 0 || s[0] != '+' || s.len() == 1,
    ensures
        number(s, max) is None,
        number(Seq::empty(), max) is None,
{
    if s[0] == '+' {
        if s.len() > 1 {
            assert(s.skip(1)[i - 1] == s[i]);
        }
    } else {
        assert(!is_digit(unsigned_part(s)[i]));
    }
}

/// White space is what Unicode calls so. Of the characters of ASCII these are the blank and
/// those from the tab to the carriage return, and all but the vertical tab are white space
/// by the narrower rule as well.
pub proof fn law_white_space(c: char)
    ensures
        is_ascii_white(c) ==> is_white(c),
        (c as u32) < 0x80 ==> (is_white(c) <==> c == ' ' || 0x09 <= c as u32 <= 0x0d),
        is_white(c) && (c as u32) < 0x80 && !is_ascii_white(c) ==> c as u32 == 0x0b,
        0x80 <= c as u32 ==> (is_white(c) <==> (c as u32 == 0x85 || c as u32 == 0xa0 || c as u32
            == 0x1680 || 0x2000 <= c as u32 <= 0x200a || 0x2028 <= c as u32 <= 0x2029 || c as u32
            == 0x202f || c as u32 == 0x205f || c as u32 == 0x3000)),
{
}

/// The words of a text are read off from its front: white space is passed over, and a word
/// goes on until white space follows or the text ends.
pub proof fn law_words(w: Seq<char>, c: char, s: Seq<char>)
    requires
        w.len() > 0,
        forall|i: int| 0 <= i < w.len() ==> !is_white(#[trigger] w[i]),
        is_white(c),
    ensures
        words(Seq::empty()) == Seq::<Seq<char>>::empty(),
        words(seq![c] + s) == words(s),
        words(w) == seq![w],
        words(w + seq![c] + s) == seq![w] + words(seq![c] + s),
{
    let white = |c: char| is_white(c);
    let dark = |c: char| !is_white(c);
    let e = Seq::<char>::empty();
    lemma_run_len_is(e, white, 0);
    assert(trim_start(e).len() == 0);
    assert(words(e) == Seq::<Seq<char>>::empty());
    let blank = seq![c] + s;
    assert(blank.drop_first() =~= s);
    assert(run_len(blank, white) == 1 + run_len(s, white));
    lemma_run_len(s, white);
    assert(trim_start(blank) =~= trim_start(s));
    assert(words(blank) == words(s));
    lemma_run_len_is(w, white, 0);
    assert(trim_start(w) =~= w);
    lemma_run_len_is(w, dark, w.len() as int);
    assert(w.take(w.len() as int) =~= w);
    assert(w.skip(w.len() as int) =~= e);
    assert(words(w) == seq![w] + words(e));
    assert(words(w) =~= seq![w]);
    let all = w + seq![c] + s;
    assert(all[0] == w[0]);
    lemma_run_len_is(all, white, 0);
    assert(trim_start(all) =~= all);
    assert(all[w.len() as int] == c);
    assert forall|i: int| 0 <= i < w.len() implies dark(#[trigger] all[i]) by {
        assert(all[i] == w[i]);
    }
    lemma_run_len_is(all, dark, w.len() as int);
    assert(all.take(w.len() as int) =~= w);
    assert(all.skip(w.len() as int) =~= blank);
}

/// The lines of a text are read off from its front: a line goes on until a line feed follows
/// or the text ends, and a carriage return before the line feed is not part of it.
pub proof fn law_lines(l: Seq<char>, s: Seq<char>)
    requires
        forall|i: int| 0 <= i < l.len() ==> #[trigger] l[i] != '\n',
    ensures
        lines(Seq::empty()) == Seq::<Seq<char>>::empty(),
        l.len() > 0 ==> lines(l) == seq![l],
        l.len() == 0 || l[l.len() - 1] != '\r' ==> lines(l + seq!['\n'] + s) == seq![l] + lines(s),
        lines(l + seq!['\r', '\n'] + s) == seq![l] + lines(s),
{
    let within = |c: char| c != '\n';
    lemma_run_len_is(l, within, l.len() as int);
    let all = l + seq!['\n'] + s;
    assert(all[l.len() as int] == '\n');
    assert forall|i: int| 0 <= i < l.len() implies within(#[trigger] all[i]) by {
        assert(all[i] == l[i]);
    }
    lemma_run_len_is(all, within, l.len() as int);
    assert(all.take(l.len() as int) =~= l);
    assert(all.skip(l.len() as int + 1) =~= s);
    let n = l.len() as int + 1;
    let more = l + seq!['\r', '\n'] + s;
    assert(more[n] == '\n');
    assert forall|i: int| 0 <= i < n implies within(#[trigger] more[i]) by {
        if i < l.len() {
            assert(more[i] == l[i]);
        }
    }
    lemma_run_len_is(more, within, n);
    assert(more.take(n) =~= l.push('\r'));
    assert(l.push('\r').drop_last() =~= l);
    assert(more.skip(n + 1) =~= s);
}

/// White space at both ends is cut off, and nothing else.
pub proof fn law_trimmed(front: Seq<char>, s: Seq<char>, back: Seq<char>)
    requires
        forall|i: int| 0 <= i < front.len() ==> is_white(#[trigger] front[i]),
        forall|i: int| 0 <= i < back.len() ==> is_white(#[trigger] back[i]),
        s.len() > 0 ==> !is_white(s[0]) && !is_white(s[s.len() - 1]),
    ensures
        trimmed(front + s + back) == s,
{
    let white = |c: char| is_white(c);
    let all = front + s + back;
    if s.len() == 0 {
        assert forall|i: int| 0 <= i < all.len() implies white(#[trigger] all[i]) by {
            if i < front.len() {
                assert(all[i] == front[i]);
            } else {
                assert(all[i] == back[i - front.len()]);
            }
        }
        lemma_run_len_is(all, white, all.len() as int);
        assert(trim_start(all) =~= Seq::empty());
        assert(trim_start(all).reverse() =~= Seq::empty());
        lemma_run_len_is(Seq::empty(), white, 0);
        assert(trimmed(all) =~= s);
    } else {
        assert forall|i: int| 0 <= i < front.len() implies white(#[trigger] all[i]) by {
            assert(all[i] == front[i]);
        }
        assert(all[front.len() as int] == s[0]);
        lemma_run_len_is(all, white, front.len() as int);
        let rest = trim_start(all);
        assert(rest =~= s + back);
        let turned = rest.reverse();
        assert forall|i: int| 0 <= i < back.len() implies white(#[trigger] turned[i]) by {
            assert(turned[i] == back[back.len() - 1 - i]);
        }
        assert(turned[back.len() as int] == s[s.len() - 1]);
        lemma_run_len_is(turned, white, back.len() as int);
        assert(trim_start(turned) =~= s.reverse());
        assert(s.reverse().reverse() =~= s);
    }
}

/// A text holds a pattern where it is made of something, the pattern and something more, and
/// only there.
pub proof fn law_holds(s: Seq<char>, pattern: Seq<char>, front: Seq<char>, back: Seq<char>)
    ensures
        holds(front + pattern + back, pattern),
        holds(s, pattern) ==> exists|a: Seq<char>, b: Seq<char>|
            s == #[trigger] ((a + pattern) + b),
{
    let all = front + pattern + back;
    let at = front.len() as int;
    assert(all.subrange(at, at + pattern.len()) =~= pattern);
    assert(stands_at(all, pattern, at));
    if holds(s, pattern) {
        let at = choose|at: int| #[trigger] stands_at(s, pattern, at);
        let a = s.take(at);
        let b = s.skip(at + pattern.len());
        assert(s =~= (a + pattern) + b);
    }
}

} // verus!
