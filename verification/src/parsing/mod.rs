//! Pulling numbers and words out of text.
//!
//! The text is cut at every delimiter; what stands between delimiters is a
//! word, and the words that read as a value are the result.

use std::str::FromStr;
use vstd::prelude::*;

verus! {

/// The words of `chars[..n]`, where `flags` marks the delimiters: the
/// finished words, and the word that is still open at position `n`.
pub open spec fn scan(chars: Seq<char>, flags: Seq<bool>, n: nat) -> (Seq<Seq<char>>, Seq<char>)
    decreases n,
{
    if n == 0 {
        (Seq::empty(), Seq::empty())
    } else {
        let before = scan(chars, flags, (n - 1) as nat);
        if flags[n - 1] {
            if before.1.len() > 0 {
                (before.0.push(before.1), Seq::empty())
            } else {
                (before.0, Seq::empty())
            }
        } else {
            (before.0, before.1.push(chars[n - 1]))
        }
    }
}

/// The words of `chars`: the longest runs of characters that `flags` does
/// not mark as delimiters, from left to right.
pub open spec fn words_of(chars: Seq<char>, flags: Seq<bool>) -> Seq<Seq<char>> {
    let end = scan(chars, flags, chars.len());
    if end.1.len() > 0 {
        end.0.push(end.1)
    } else {
        end.0
    }
}

/// The words of `chars` where `delimiter` says which characters separate.
pub open spec fn words_by(chars: Seq<char>, delimiter: spec_fn(char) -> bool) -> Seq<Seq<char>> {
    words_of(chars, chars.map_values(delimiter))
}

/// The words as sequences of characters.
pub open spec fn views(words: Seq<Vec<char>>) -> Seq<Seq<char>> {
    Seq::new(words.len(), |i: int| words[i]@)
}

/// A decimal digit.
pub open spec fn is_digit(c: char) -> bool {
    '0' <= c <= '9'
}

/// An upper-case letter of the Latin alphabet.
pub open spec fn is_capital(c: char) -> bool {
    'A' <= c <= 'Z'
}

/// What a digit counts.
pub open spec fn digit_value(c: char) -> nat {
    (c as int - '0' as int) as nat
}

/// Every character is a digit.
pub open spec fn all_digits(s: Seq<char>) -> bool {
    forall|i: int| 0 <= i < s.len() ==> is_digit(#[trigger] s[i])
}

/// The number that a run of digits writes in base ten.
pub open spec fn decimal(s: Seq<char>) -> nat
    decreases s.len(),
{
    if s.len() == 0 {
        0
    } else {
        10 * decimal(s.drop_last()) + digit_value(s.last())
    }
}

/// The number that a word writes: digits, at least one, after an optional
/// sign.
pub open spec fn number(word: Seq<char>) -> Option<int> {
    if word.len() > 0 && (word[0] == '-' || word[0] == '+') {
        if word.len() > 1 && all_digits(word.skip(1)) {
            if word[0] == '-' {
                Some(-(decimal(word.skip(1)) as int))
            } else {
                Some(decimal(word.skip(1)) as int)
            }
        } else {
            None
        }
    } else if word.len() > 0 && all_digits(word) {
        Some(decimal(word) as int)
    } else {
        None
    }
}

/// The numbers among the words that fit the range from `low` to `high`.
pub open spec fn numbers_within(words: Seq<Seq<char>>, low: int, high: int) -> Seq<int>
    decreases words.len(),
{
    if words.len() == 0 {
        Seq::empty()
    } else {
        let before = numbers_within(words.drop_last(), low, high);
        match number(words.last()) {
            Some(v) => if low <= v <= high {
                before.push(v)
            } else {
                before
            },
            None => before,
        }
    }
}

/// The values that are there, in their order.
pub open spec fn present<T>(items: Seq<Option<T>>) -> Seq<T>
    decreases items.len(),
{
    if items.len() == 0 {
        Seq::empty()
    } else {
        match items.last() {
            Some(v) => present(items.drop_last()).push(v),
            None => present(items.drop_last()),
        }
    }
}

/// `flags` holds, for each character, an answer of `is_delimiter` to it.
pub open spec fn marked_by<F: Fn(char) -> bool>(is_delimiter: F, chars: Seq<char>, flags: Seq<bool>) -> bool {
    &&& flags.len() == chars.len()
    &&& forall|i: int| 0 <= i < chars.len() ==> call_ensures(is_delimiter, (chars[i],), #[trigger] flags[i])
}

/// `values` are the words that read as a value, where `parsed` holds for
/// each word what reading it gave.
pub open spec fn read_from<T>(words: Seq<Seq<char>>, parsed: Seq<Option<T>>, values: Seq<T>) -> bool {
    parsed.len() == words.len() && values == present(parsed)
}

/// Separates the integers: anything but a digit or a minus sign.
pub open spec fn between_ints(c: char) -> bool {
    !is_digit(c) && c != '-'
}

/// Separates the unsigned integers: anything but a digit.
pub open spec fn between_uints(c: char) -> bool {
    !is_digit(c)
}

/// Separates the runs of capitals: anything but a capital.
pub open spec fn between_capitals(c: char) -> bool {
    !is_capital(c)
}

fn separates_ints(c: char) -> (b: bool)
    ensures
        b == between_ints(c),
{
    !('0' <= c && c <= '9') && c != '-'
}

fn separates_uints(c: char) -> (b: bool)
    ensures
        b == between_uints(c),
{
    !('0' <= c && c <= '9')
}

fn separates_capitals(c: char) -> (b: bool)
    ensures
        b == between_capitals(c),
{
    !('A' <= c && c <= 'Z')
}

/// Reads a word as a value of `T`.
///
/// Calls `str::parse`, which hands the word to `T::from_str`. What comes
/// back is up to that implementation, so nothing is claimed of it.
#[verifier::external_body]
fn parse_word<T: FromStr>(word: &str) -> (value: Option<T>) {
    word.parse().ok()
}

/// Appends a character to a string, with `String::push`.
#[verifier::external_body]
fn push_char(text: &mut String, c: char)
    ensures
        final(text)@ == old(text)@.push(c),
{
    text.push(c);
}

// The string of the given characters.
fn string_of(chars: &Vec<char>) -> (s: String)
    ensures
        s@ == chars@,
{
    let mut s = String::new();
    let mut i: usize = 0;
    while i < chars.len()
        invariant
            i <= chars@.len(),
            s@ == chars@.take(i as int),
        decreases chars@.len() - i,
    {
        push_char(&mut s, chars[i]);
        i += 1;
        proof {
            assert(chars@.take(i as int) =~= chars@.take(i - 1).push(chars@[i - 1]));
        }
    }
    proof {
        assert(chars@.take(i as int) =~= chars@);
    }
    s
}

/// Cuts `input` at the characters that `is_delimiter` accepts and gives the
/// words between them.
pub fn split_words(input: &str, is_delimiter: impl Fn(char) -> bool) -> (r: (
    Vec<Vec<char>>,
    Ghost<Seq<bool>>,
))
    requires
        forall|c: char| call_requires(is_delimiter, (c,)),
    ensures
        marked_by(is_delimiter, input@, r.1@),
        views(r.0@) == words_of(input@, r.1@),
{
    let mut words: Vec<Vec<char>> = Vec::new();
    let mut current: Vec<char> = Vec::new();
    let ghost mut flags: Seq<bool> = Seq::empty();
    for c in iter: input.chars()
        invariant
            iter.seq() == input@,
            forall|c: char| call_requires(is_delimiter, (c,)),
            flags.len() == iter.index(),
            forall|i: int|
                0 <= i < iter.index() ==> call_ensures(is_delimiter, (input@[i],), #[trigger] flags[i]),
            views(words@) == scan(input@, flags, iter.index() as nat).0,
            current@ == scan(input@, flags, iter.index() as nat).1,
    {
        let cut = is_delimiter(c);
        let ghost before = flags;
        proof {
            flags = flags.push(cut);
            lemma_scan_prefix(input@, before, flags, iter.index() as nat);
        }
        if cut {
            if current.len() > 0 {
                let ghost done = views(words@);
                words.push(current);
                current = Vec::new();
                proof {
                    assert(views(words@) =~= done.push(scan(input@, before, iter.index() as nat).1));
                }
            }
        } else {
            current.push(c);
        }
    }
    proof {
        assert(flags.len() == input@.len());
    }
    if current.len() > 0 {
        let ghost done = views(words@);
        let ghost last = current@;
        words.push(current);
        proof {
            assert(views(words@) =~= done.push(last));
        }
    }
    (words, Ghost(flags))
}

/// What was scanned does not depend on the flags that follow.
pub proof fn lemma_scan_prefix(chars: Seq<char>, short: Seq<bool>, long: Seq<bool>, n: nat)
    requires
        n <= short.len() <= long.len(),
        forall|i: int| 0 <= i < short.len() ==> short[i] == long[i],
    ensures
        scan(chars, short, n) == scan(chars, long, n),
    decreases n,
{
    if n > 0 {
        lemma_scan_prefix(chars, short, long, (n - 1) as nat);
    }
}

/// The values that are there, in their order.
pub fn keep_parsed<T>(parsed: Vec<Option<T>>) -> (r: Vec<T>)
    ensures
        r@ == present(parsed@),
{
    let mut parsed = parsed;
    let ghost all = parsed@;
    let mut reversed: Vec<T> = Vec::new();
    // Taken from the back, so that no value has to be copied.
    while parsed.len() > 0
        invariant
            parsed@.len() <= all.len(),
            parsed@ == all.take(parsed@.len() as int),
            present(all) == present(parsed@) + reversed@.reverse(),
        decreases parsed@.len(),
    {
        let ghost rest = parsed@;
        let last = parsed.pop().unwrap();
        proof {
            assert(parsed@ == rest.drop_last());
            assert(parsed@ =~= all.take(parsed@.len() as int));
        }
        match last {
            Some(v) => {
                let ghost seen = reversed@;
                reversed.push(v);
                proof {
                    assert(reversed@.reverse() =~= seq![v] + seen.reverse());
                    assert(present(rest) == present(parsed@).push(v));
                    assert(present(all) =~= present(parsed@) + reversed@.reverse());
                }
            },
            None => {},
        }
    }
    proof {
        assert(present(parsed@) =~= Seq::<T>::empty());
        assert(present(all) =~= reversed@.reverse());
    }
    let mut r: Vec<T> = Vec::new();
    while reversed.len() > 0
        invariant
            r@ + reversed@.reverse() == present(all),
        decreases reversed@.len(),
    {
        let ghost rest = reversed@;
        let ghost got = r@;
        let v = reversed.pop().unwrap();
        r.push(v);
        proof {
            assert(rest.reverse() =~= seq![v] + reversed@.reverse());
            assert(r@ + reversed@.reverse() =~= got + rest.reverse());
        }
    }
    proof {
        assert(reversed@.reverse() =~= Seq::<T>::empty());
        assert(r@ =~= r@ + reversed@.reverse());
    }
    r
}

/// The values of type `T` that the words of `input` read as, where
/// `is_delimiter` says which characters separate words. A word that does
/// not read as a value is passed over.
pub fn parse_values<T: FromStr>(input: &str, is_delimiter: impl Fn(char) -> bool) -> (r: Vec<T>)
    requires
        forall|c: char| call_requires(is_delimiter, (c,)),
    ensures
        exists|flags: Seq<bool>, parsed: Seq<Option<T>>|
            marked_by(is_delimiter, input@, flags) && #[trigger] read_from(
                words_of(input@, flags),
                parsed,
                r@,
            ),
{
    let (words, Ghost(flags)) = split_words(input, is_delimiter);
    let mut parsed: Vec<Option<T>> = Vec::new();
    let mut i: usize = 0;
    while i < words.len()
        invariant
            i <= words.len(),
            parsed@.len() == i,
        decreases words.len() - i,
    {
        let word = string_of(&words[i]);
        parsed.push(parse_word::<T>(word.as_str()));
        i += 1;
    }
    let ghost all = parsed@;
    let r = keep_parsed(parsed);
    proof {
        assert(views(words@).len() == words@.len());
        assert(all.len() == words_of(input@, flags).len());
        assert(read_from(words_of(input@, flags), all, r@));
    }
    r
}

/// The strings as sequences of characters.
pub open spec fn texts(strings: Seq<String>) -> Seq<Seq<char>> {
    Seq::new(strings.len(), |i: int| strings[i]@)
}

/// The numbers as integers.
pub open spec fn signed(numbers: Seq<i64>) -> Seq<int> {
    Seq::new(numbers.len(), |i: int| numbers[i] as int)
}

/// The numbers as integers.
pub open spec fn unsigned(numbers: Seq<u64>) -> Seq<int> {
    Seq::new(numbers.len(), |i: int| numbers[i] as int)
}

/// A run of digits writes at least what any of its beginnings writes.
pub proof fn lemma_decimal_grows(s: Seq<char>, k: int)
    requires
        0 <= k <= s.len(),
        all_digits(s),
    ensures
        decimal(s.take(k)) <= decimal(s),
    decreases s.len() - k,
{
    if k < s.len() {
        let longer = s.take(k + 1);
        assert(longer.drop_last() =~= s.take(k));
        assert(is_digit(s[k]));
        assert(longer.last() == s[k]);
        lemma_decimal_grows(s, k + 1);
    } else {
        assert(s.take(k) =~= s);
    }
}

// What a digit counts.
fn digit_of(c: char) -> (d: u64)
    requires
        is_digit(c),
    ensures
        d == digit_value(c),
        d <= 9,
{
    (c as u32 - '0' as u32) as u64
}

// The number that the digits from `start` on write, if they are digits
// throughout and the number fits.
fn read_magnitude(word: &Vec<char>, start: usize) -> (r: Option<u64>)
    requires
        start <= word@.len(),
    ensures
        match r {
            Some(m) => all_digits(word@.skip(start as int)) && decimal(word@.skip(start as int)) == m,
            None => !all_digits(word@.skip(start as int)) || decimal(word@.skip(start as int))
                > u64::MAX,
        },
{
    let ghost digits = word@.skip(start as int);
    let mut acc: u64 = 0;
    let mut i: usize = start;
    while i < word.len()
        invariant
            start <= i <= word@.len(),
            digits == word@.skip(start as int),
            all_digits(digits.take(i - start)),
            acc == decimal(digits.take(i - start)),
        decreases word@.len() - i,
    {
        let c = word[i];
        let ghost seen = digits.take(i - start);
        let ghost next = digits.take(i - start + 1);
        proof {
            assert(digits[i - start] == c);
            assert(next.drop_last() =~= seen);
            assert(next.last() == c);
        }
        if !('0' <= c && c <= '9') {
            return None;
        }
        let d = digit_of(c);
        if acc > (u64::MAX - d) / 10 {
            proof {
                assert(decimal(next) > u64::MAX);
                if all_digits(digits) {
                    lemma_decimal_grows(digits, i - start + 1);
                }
            }
            return None;
        }
        acc = acc * 10 + d;
        i += 1;
        proof {
            assert forall|j: int| 0 <= j < next.len() implies is_digit(#[trigger] next[j]) by {
                if j < seen.len() {
                    assert(next[j] == seen[j]);
                }
            }
        }
    }
    proof {
        assert(digits.take(i - start) =~= digits);
    }
    Some(acc)
}

// The signed 64-bit number that the word writes, if it writes one.
fn read_int(word: &Vec<char>) -> (r: Option<i64>)
    ensures
        match r {
            Some(v) => number(word@) == Some(v as int),
            None => number(word@) matches Some(v) ==> !(i64::MIN <= v <= i64::MAX),
        },
{
    if word.len() == 0 {
        return None;
    }
    let first = word[0];
    if first == '-' || first == '+' {
        if word.len() == 1 {
            return None;
        }
        match read_magnitude(word, 1) {
            Some(m) => {
                if first == '+' {
                    if m <= 0x7fff_ffff_ffff_ffff {
                        Some(m as i64)
                    } else {
                        None
                    }
                } else if m <= 0x7fff_ffff_ffff_ffff {
                    Some(-(m as i64))
                } else if m == 0x8000_0000_0000_0000 {
                    Some(i64::MIN)
                } else {
                    None
                }
            },
            None => None,
        }
    } else {
        proof {
            assert(word@.skip(0) =~= word@);
        }
        match read_magnitude(word, 0) {
            Some(m) => if m <= 0x7fff_ffff_ffff_ffff {
                Some(m as i64)
            } else {
                None
            },
            None => None,
        }
    }
}

// The unsigned 64-bit number that the word writes, if it writes one.
fn read_uint(word: &Vec<char>) -> (r: Option<u64>)
    ensures
        match r {
            Some(v) => number(word@) == Some(v as int),
            None => number(word@) matches Some(v) ==> !(0 <= v <= u64::MAX),
        },
{
    if word.len() == 0 {
        return None;
    }
    let first = word[0];
    if first == '-' {
        if word.len() == 1 {
            return None;
        }
        // Below zero there is only zero itself.
        match read_magnitude(word, 1) {
            Some(m) => if m == 0 {
                Some(0)
            } else {
                None
            },
            None => None,
        }
    } else if first == '+' {
        if word.len() == 1 {
            return None;
        }
        read_magnitude(word, 1)
    } else {
        proof {
            assert(word@.skip(0) =~= word@);
        }
        read_magnitude(word, 0)
    }
}

/// The signed integers written in `input`, which is cut at everything but
/// digits and minus signs. What does not read as a 64-bit integer is
/// passed over.
pub fn parse_ints(input: &str) -> (r: Vec<i64>)
    ensures
        signed(r@) == numbers_within(
            words_by(input@, |c: char| between_ints(c)),
            i64::MIN as int,
            i64::MAX as int,
        ),
{
    let (words, Ghost(flags)) = split_words(input, separates_ints);
    proof {
        assert(flags =~= input@.map_values(|c: char| between_ints(c)));
    }
    let ghost all = views(words@);
    let mut r: Vec<i64> = Vec::new();
    let mut i: usize = 0;
    while i < words.len()
        invariant
            i <= words.len(),
            all == views(words@),
            signed(r@) == numbers_within(all.take(i as int), i64::MIN as int, i64::MAX as int),
        decreases words.len() - i,
    {
        let ghost before = signed(r@);
        proof {
            assert(all.take(i + 1).drop_last() =~= all.take(i as int));
            assert(all.take(i + 1).last() == words@[i as int]@);
        }
        match read_int(&words[i]) {
            Some(v) => {
                r.push(v);
                proof {
                    assert(signed(r@) =~= before.push(v as int));
                }
            },
            None => {},
        }
        i += 1;
    }
    proof {
        assert(all.take(i as int) =~= all);
    }
    r
}

/// The unsigned integers written in `input`, which is cut at everything
/// but digits. What does not fit 64 bits is passed over.
pub fn parse_uints(input: &str) -> (r: Vec<u64>)
    ensures
        unsigned(r@) == numbers_within(
            words_by(input@, |c: char| between_uints(c)),
            0,
            u64::MAX as int,
        ),
{
    let (words, Ghost(flags)) = split_words(input, separates_uints);
    proof {
        assert(flags =~= input@.map_values(|c: char| between_uints(c)));
    }
    let ghost all = views(words@);
    let mut r: Vec<u64> = Vec::new();
    let mut i: usize = 0;
    while i < words.len()
        invariant
            i <= words.len(),
            all == views(words@),
            unsigned(r@) == numbers_within(all.take(i as int), 0, u64::MAX as int),
        decreases words.len() - i,
    {
        let ghost before = unsigned(r@);
        proof {
            assert(all.take(i + 1).drop_last() =~= all.take(i as int));
            assert(all.take(i + 1).last() == words@[i as int]@);
        }
        match read_uint(&words[i]) {
            Some(v) => {
                r.push(v);
                proof {
                    assert(unsigned(r@) =~= before.push(v as int));
                }
            },
            None => {},
        }
        i += 1;
    }
    proof {
        assert(all.take(i as int) =~= all);
    }
    r
}

/// The runs of capital letters in `input`.
pub fn parse_capitals(input: &str) -> (r: Vec<String>)
    ensures
        texts(r@) == words_by(input@, |c: char| between_capitals(c)),
{
    let (words, Ghost(flags)) = split_words(input, separates_capitals);
    proof {
        assert(flags =~= input@.map_values(|c: char| between_capitals(c)));
    }
    let mut r: Vec<String> = Vec::new();
    let mut i: usize = 0;
    while i < words.len()
        invariant
            i <= words.len(),
            r@.len() == i,
            forall|j: int| 0 <= j < i ==> (#[trigger] r@[j])@ == words@[j]@,
        decreases words.len() - i,
    {
        r.push(string_of(&words[i]));
        i += 1;
    }
    proof {
        assert(texts(r@) =~= views(words@));
    }
    r
}

} // verus!
