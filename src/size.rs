//! Size strings: a decimal number followed by a unit word, with or without a
//! space in between.
use vstd::prelude::*;

verus! {

/// What went wrong with the numeric part of a size string.
#[derive(Debug, Clone, Copy, PartialEq, Eq, Structural)]
pub enum NumberError {
    /// The numeric part is empty.
    Empty,
    /// The numeric part is not a decimal number.
    Invalid,
}

/// Why a size string was rejected.
#[derive(Debug, Clone, Copy, PartialEq, Eq, Structural)]
pub enum Error {
    /// The unit word is not one of b, kb, mb, gb, tb (or their long forms).
    InvalidMultiplier,
    /// The numeric part is not a non-negative decimal number.
    InvalidSize(NumberError),
    /// The numeric part of a compact size string holds two periods.
    DoublePeriod,
    /// The size string is empty.
    MissingValue,
}

/// A unit of size; each is 1024 times the one below it.
#[derive(Debug, Clone, Copy, PartialEq, Eq, Structural)]
pub enum Multiplier {
    Byte,
    Kilobyte,
    Megabyte,
    Gigabyte,
    Terabyte,
}

/// `1024` raised to the power `k`.
pub open spec fn pow1024(k: nat) -> nat
    decreases k,
{
    if k == 0 {
        1
    } else {
        1024 * pow1024((k - 1) as nat)
    }
}

/// The unit that a lower-case unit word names, if any.
pub open spec fn unit_of_token(t: Seq<char>) -> Option<Multiplier> {
    if t == seq!['b'] || t == seq!['b', 'y', 't', 'e'] || t == seq!['b', 'y', 't', 'e', 's'] {
        Some(Multiplier::Byte)
    } else if t == seq!['k'] || t == seq!['k', 'b'] || t == seq![
        'k',
        'i',
        'l',
        'o',
        'b',
        'y',
        't',
        'e',
    ] || t == seq!['k', 'i', 'l', 'o', 'b', 'y', 't', 'e', 's'] {
        Some(Multiplier::Kilobyte)
    } else if t == seq!['m'] || t == seq!['m', 'b'] || t == seq![
        'm',
        'e',
        'g',
        'a',
        'b',
        'y',
        't',
        'e',
    ] || t == seq!['m', 'e', 'g', 'a', 'b', 'y', 't', 'e', 's'] {
        Some(Multiplier::Megabyte)
    } else if t == seq!['g'] || t == seq!['g', 'b'] || t == seq![
        'g',
        'i',
        'g',
        'a',
        'b',
        'y',
        't',
        'e',
    ] || t == seq!['g', 'i', 'g', 'a', 'b', 'y', 't', 'e', 's'] {
        Some(Multiplier::Gigabyte)
    } else if t == seq!['t'] || t == seq!['t', 'b'] || t == seq![
        't',
        'e',
        'r',
        'a',
        'b',
        'y',
        't',
        'e',
    ] || t == seq!['t', 'e', 'r', 'a', 'b', 'y', 't', 'e', 's'] {
        Some(Multiplier::Terabyte)
    } else {
        None
    }
}

/// What `str::to_lowercase` makes of a string.
pub uninterp spec fn lower_of(s: Seq<char>) -> Seq<char>;

/// Every character of `s` is ASCII.
pub open spec fn all_ascii(s: Seq<char>) -> bool {
    forall|i: int| 0 <= i < s.len() ==> (#[trigger] s[i]) as u32 <= 127
}

/// The code of an ASCII character after mapping `A`..`Z` to `a`..`z`.
pub open spec fn ascii_lower_code(c: char) -> u32 {
    if 65 <= c as u32 <= 90 {
        (c as u32 + 32) as u32
    } else {
        c as u32
    }
}

/// `s` with `A`..`Z` mapped to `a`..`z` and every other character kept.
pub open spec fn ascii_lower(s: Seq<char>) -> Seq<char> {
    Seq::new(s.len(), |i: int| (ascii_lower_code(s[i]) as char))
}

/// The unit word `u` in lower case: as `str::to_lowercase` makes it, or by
/// the ASCII rule where `ascii` is set.
pub open spec fn lowered(u: Seq<char>, ascii: bool) -> Seq<char> {
    if ascii {
        ascii_lower(u)
    } else {
        lower_of(u)
    }
}

/// Relies on `str::to_lowercase`: the lower-case form depends on the
/// characters alone, and on ASCII text it maps `A`..`Z` to `a`..`z` and keeps
/// every other character.
#[verifier::external_body]
fn lowercase(s: &str) -> (r: String)
    ensures
        r@ == lower_of(s@),
        all_ascii(s@) ==> r@.len() == s@.len() && forall|i: int|
            0 <= i < s@.len() ==> (#[trigger] r@[i]) as u32 == ascii_lower_code(s@[i]),
{
    s.to_lowercase()
}

/// The characters of `s`, in order.
fn chars_of(s: &str) -> (r: Vec<char>)
    ensures
        r@ == s@,
{
    let n = s.unicode_len();
    let mut r: Vec<char> = Vec::new();
    let mut i: usize = 0;
    while i < n
        invariant
            n == s@.len(),
            i <= n,
            r@ == s@.take(i as int),
        decreases n - i,
    {
        r.push(s.get_char(i));
        i = i + 1;
        assert(r@ =~= s@.take(i as int));
    }
    assert(r@ =~= s@);
    r
}

/// `v` is the lower-case word `t` with any of its letters in upper case.
pub open spec fn case_variant(v: Seq<char>, t: Seq<char>) -> bool {
    &&& v.len() == t.len()
    &&& forall|i: int|
        0 <= i < v.len() ==> (#[trigger] v[i] == t[i] || (v[i] as u32 + 32 == t[i] as u32 && 97
            <= t[i] as u32 <= 122))
}

/// The unit words are written in lower-case letters.
proof fn lemma_unit_words_lower_case(t: Seq<char>)
    requires
        unit_of_token(t) is Some,
    ensures
        forall|i: int| 0 <= i < t.len() ==> 97 <= (#[trigger] t[i]) as u32 <= 122,
{
    lemma_unit_by_shape(t);
}

/// Any spelling of a unit word with some of its letters in upper case lowers
/// to the word itself, so it names the same unit.
pub proof fn lemma_case_variant_lowers(v: Seq<char>, t: Seq<char>)
    requires
        case_variant(v, t),
        unit_of_token(t) is Some,
    ensures
        all_ascii(v),
        ascii_lower(v) == t,
        unit_of_token(ascii_lower(v)) == unit_of_token(t),
{
    lemma_unit_words_lower_case(t);
    assert forall|i: int| 0 <= i < t.len() implies ascii_lower(v)[i] == t[i] by {
        assert(ascii_lower_code(v[i]) == t[i] as u32);
        vstd::utf8::char_u32_cast(t[i], t[i] as u32);
    }
    assert(ascii_lower(v) =~= t);
}

/// Each unit is 1024 times the one below it, starting from one byte.
pub proof fn lemma_unit_sizes()
    ensures
        Multiplier::Byte.spec_bytes() == 1,
        Multiplier::Kilobyte.spec_bytes() == 1024 * Multiplier::Byte.spec_bytes(),
        Multiplier::Megabyte.spec_bytes() == 1024 * Multiplier::Kilobyte.spec_bytes(),
        Multiplier::Gigabyte.spec_bytes() == 1024 * Multiplier::Megabyte.spec_bytes(),
        Multiplier::Terabyte.spec_bytes() == 1024 * Multiplier::Gigabyte.spec_bytes(),
        Multiplier::Terabyte.spec_bytes() == 1099511627776,
{
    reveal_with_fuel(pow1024, 5);
}

/// The unit named by a lower-case word, read by its length and letters.
spec fn unit_by_shape(t: Seq<char>) -> Option<Multiplier> {
    let n = t.len();
    if n == 1 {
        letter_unit(t[0])
    } else if n == 2 {
        if t[1] == 'b' && t[0] != 'b' {
            letter_unit(t[0])
        } else {
            None
        }
    } else if n == 4 || n == 5 {
        if t[0] == 'b' && t[1] == 'y' && t[2] == 't' && t[3] == 'e' && (n == 4 || t[4] == 's') {
            Some(Multiplier::Byte)
        } else {
            None
        }
    } else if n == 8 || n == 9 {
        if t[4] == 'b' && t[5] == 'y' && t[6] == 't' && t[7] == 'e' && (n == 8 || t[8] == 's') {
            if t[0] == 'k' && t[1] == 'i' && t[2] == 'l' && t[3] == 'o' {
                Some(Multiplier::Kilobyte)
            } else if t[0] == 'm' && t[1] == 'e' && t[2] == 'g' && t[3] == 'a' {
                Some(Multiplier::Megabyte)
            } else if t[0] == 'g' && t[1] == 'i' && t[2] == 'g' && t[3] == 'a' {
                Some(Multiplier::Gigabyte)
            } else if t[0] == 't' && t[1] == 'e' && t[2] == 'r' && t[3] == 'a' {
                Some(Multiplier::Terabyte)
            } else {
                None
            }
        } else {
            None
        }
    } else {
        None
    }
}

/// The unit named by a single lower-case letter.
spec fn letter_unit(c: char) -> Option<Multiplier> {
    if c == 'b' {
        Some(Multiplier::Byte)
    } else if c == 'k' {
        Some(Multiplier::Kilobyte)
    } else if c == 'm' {
        Some(Multiplier::Megabyte)
    } else if c == 'g' {
        Some(Multiplier::Gigabyte)
    } else if c == 't' {
        Some(Multiplier::Terabyte)
    } else {
        None
    }
}

/// The table of unit words agrees with reading a word by its length and
/// letters.
proof fn lemma_unit_by_shape(t: Seq<char>)
    ensures
        unit_of_token(t) == unit_by_shape(t),
{
    let n = t.len();
    assert(seq!['b'].len() == 1 && seq!['b'][0] == 'b');
    assert(seq!['k'].len() == 1 && seq!['k'][0] == 'k');
    assert(seq!['m'].len() == 1 && seq!['m'][0] == 'm');
    assert(seq!['g'].len() == 1 && seq!['g'][0] == 'g');
    assert(seq!['t'].len() == 1 && seq!['t'][0] == 't');
    if n == 1 {
        assert(t =~= seq![t[0]]);
    } else if n == 2 {
        assert(t =~= seq![t[0], t[1]]);
    } else if n == 4 {
        assert(t =~= seq![t[0], t[1], t[2], t[3]]);
    } else if n == 5 {
        assert(t =~= seq![t[0], t[1], t[2], t[3], t[4]]);
    } else if n == 8 {
        assert(t =~= seq![t[0], t[1], t[2], t[3], t[4], t[5], t[6], t[7]]);
    } else if n == 9 {
        assert(t =~= seq![t[0], t[1], t[2], t[3], t[4], t[5], t[6], t[7], t[8]]);
    }
}

/// The unit named by a lower-case word given as characters.
fn unit_of_chars(t: &Vec<char>) -> (r: Option<Multiplier>)
    ensures
        r == unit_of_token(t@),
{
    proof {
        lemma_unit_by_shape(t@);
    }
    let n = t.len();
    if n == 1 {
        unit_of_letter(t[0])
    } else if n == 2 {
        if t[1] == 'b' && t[0] != 'b' {
            unit_of_letter(t[0])
        } else {
            None
        }
    } else if n == 4 || n == 5 {
        if t[0] == 'b' && t[1] == 'y' && t[2] == 't' && t[3] == 'e' && (n == 4 || t[4] == 's') {
            Some(Multiplier::Byte)
        } else {
            None
        }
    } else if n == 8 || n == 9 {
        if t[4] == 'b' && t[5] == 'y' && t[6] == 't' && t[7] == 'e' && (n == 8 || t[8] == 's') {
            if t[0] == 'k' && t[1] == 'i' && t[2] == 'l' && t[3] == 'o' {
                Some(Multiplier::Kilobyte)
            } else if t[0] == 'm' && t[1] == 'e' && t[2] == 'g' && t[3] == 'a' {
                Some(Multiplier::Megabyte)
            } else if t[0] == 'g' && t[1] == 'i' && t[2] == 'g' && t[3] == 'a' {
                Some(Multiplier::Gigabyte)
            } else if t[0] == 't' && t[1] == 'e' && t[2] == 'r' && t[3] == 'a' {
                Some(Multiplier::Terabyte)
            } else {
                None
            }
        } else {
            None
        }
    } else {
        None
    }
}

/// The unit named by a single lower-case letter.
fn unit_of_letter(c: char) -> (r: Option<Multiplier>)
    ensures
        r == letter_unit(c),
{
    match c {
        'b' => Some(Multiplier::Byte),
        'k' => Some(Multiplier::Kilobyte),
        'm' => Some(Multiplier::Megabyte),
        'g' => Some(Multiplier::Gigabyte),
        't' => Some(Multiplier::Terabyte),
        _ => None,
    }
}

impl Multiplier {
    /// The power of 1024 that this unit stands for.
    pub open spec fn exponent(self) -> nat {
        match self {
            Multiplier::Byte => 0,
            Multiplier::Kilobyte => 1,
            Multiplier::Megabyte => 2,
            Multiplier::Gigabyte => 3,
            Multiplier::Terabyte => 4,
        }
    }

    /// The number of bytes in one of this unit.
    pub open spec fn spec_bytes(self) -> nat {
        pow1024(self.exponent())
    }

    /// The number of bytes in one of this unit.
    pub fn to_bytes(self) -> (r: u64)
        ensures
            r == self.spec_bytes(),
    {
        reveal_with_fuel(pow1024, 5);
        match self {
            Multiplier::Byte => 1,
            Multiplier::Kilobyte => 1024,
            Multiplier::Megabyte => 1048576,
            Multiplier::Gigabyte => 1073741824,
            Multiplier::Terabyte => 1099511627776,
        }
    }

    /// Reads a unit word, ignoring case. Every unit word, with any of its
    /// letters in upper case, gives the unit that the word names.
    pub fn parse(s: &str) -> (r: Result<Multiplier, Error>)
        ensures
            r == match unit_of_token(lower_of(s@)) {
                Some(m) => Ok(m),
                None => Err(Error::InvalidMultiplier),
            },
            all_ascii(s@) ==> r == match unit_of_token(ascii_lower(s@)) {
                Some(m) => Ok(m),
                None => Err(Error::InvalidMultiplier),
            },
            forall|t: Seq<char>|
                case_variant(s@, t) && #[trigger] unit_of_token(t) is Some ==> r == Ok::<
                    Multiplier,
                    Error,
                >(unit_of_token(t)->0),
    {
        let lower = lowercase(s);
        proof {
            if all_ascii(s@) {
                assert forall|i: int| 0 <= i < s@.len() implies lower@[i] == ascii_lower(s@)[i] by {
                    vstd::utf8::char_u32_cast(lower@[i], lower@[i] as u32);
                }
                assert(lower@ =~= ascii_lower(s@));
            }
            assert forall|t: Seq<char>|
                case_variant(s@, t) && #[trigger] unit_of_token(t) is Some implies lower@ == t by {
                lemma_unit_words_lower_case(t);
                assert(all_ascii(s@));
                assert forall|i: int| 0 <= i < t.len() implies lower@[i] == t[i] by {
                    assert(s@[i] == t[i] || s@[i] as u32 + 32 == t[i] as u32);
                    assert(lower@[i] as u32 == t[i] as u32);
                    vstd::utf8::char_u32_cast(lower@[i], lower@[i] as u32);
                    vstd::utf8::char_u32_cast(t[i], t[i] as u32);
                }
                assert(lower@ =~= t);
            }
        }
        Multiplier::from_lowercase(lower.as_str())
    }

    /// Reads a unit word that is already in lower case.
    pub fn from_lowercase(word: &str) -> (r: Result<Multiplier, Error>)
        ensures
            r == match unit_of_token(word@) {
                Some(m) => Ok(m),
                None => Err(Error::InvalidMultiplier),
            },
    {
        let t = chars_of(word);
        match unit_of_chars(&t) {
            Some(m) => Ok(m),
            None => Err(Error::InvalidMultiplier),
        }
    }
}

/// `c` is one of `0`..`9`.
pub open spec fn is_digit(c: char) -> bool {
    '0' <= c && c <= '9'
}

/// Every character of `s` is a decimal digit.
pub open spec fn all_digits(s: Seq<char>) -> bool {
    forall|i: int| 0 <= i < s.len() ==> is_digit(#[trigger] s[i])
}

/// The value of one decimal digit.
pub open spec fn digit_value(c: char) -> nat {
    (c as u32 - '0' as u32) as nat
}

/// The value of a string of decimal digits, most significant first.
pub open spec fn digits_value(s: Seq<char>) -> nat
    decreases s.len(),
{
    if s.len() == 0 {
        0
    } else {
        10 * digits_value(s.drop_last()) + digit_value(s.last())
    }
}

/// `10` raised to the power `k`.
pub open spec fn pow10(k: nat) -> nat
    decreases k,
{
    if k == 0 {
        1
    } else {
        10 * pow10((k - 1) as nat)
    }
}

/// `i` is the first place in `s` whose character meets `f`, or the length of
/// `s` where none does.
pub open spec fn is_first(s: Seq<char>, i: int, f: spec_fn(char) -> bool) -> bool {
    &&& 0 <= i <= s.len()
    &&& forall|j: int| 0 <= j < i ==> !f(#[trigger] s[j])
    &&& i < s.len() ==> f(s[i])
}

/// The first place in `s` whose character meets `f`, or the length of `s`.
pub open spec fn first_index(s: Seq<char>, f: spec_fn(char) -> bool) -> int {
    choose|i: int| is_first(s, i, f)
}

/// The character is a space.
pub open spec fn space() -> spec_fn(char) -> bool {
    |c: char| c == ' '
}

/// The character is not a decimal digit.
pub open spec fn non_digit() -> spec_fn(char) -> bool {
    |c: char| !is_digit(c)
}

/// The character can not stand in a number: neither a digit nor a period.
pub open spec fn non_numeric() -> spec_fn(char) -> bool {
    |c: char| !is_digit(c) && c != '.'
}

proof fn lemma_first_exists_from(s: Seq<char>, f: spec_fn(char) -> bool, k: int)
    requires
        0 <= k <= s.len(),
        forall|j: int| 0 <= j < k ==> !f(#[trigger] s[j]),
    ensures
        is_first(s, first_index(s, f), f),
    decreases s.len() - k,
{
    if k == s.len() || f(s[k]) {
        assert(is_first(s, k, f));
    } else {
        lemma_first_exists_from(s, f, k + 1);
    }
}

proof fn lemma_first_index(s: Seq<char>, i: int, f: spec_fn(char) -> bool)
    requires
        is_first(s, i, f),
    ensures
        first_index(s, f) == i,
{
    let k = first_index(s, f);
    assert(is_first(s, k, f));
    if k < i {
        assert(!f(s[k]));
    } else if i < k {
        assert(!f(s[i]));
    }
}

/// The digits before and after the point of a non-negative decimal number
/// written as an optional `+`, digits, and an optional `.` followed by digits,
/// with at least one digit in all.
pub open spec fn parse_mantissa(s: Seq<char>) -> Result<(Seq<char>, Seq<char>), NumberError> {
    if s.len() == 0 {
        Err(NumberError::Empty)
    } else {
        let body = if s[0] == '+' {
            s.skip(1)
        } else {
            s
        };
        let w = first_index(body, non_digit());
        let rest = body.skip(w);
        if rest.len() == 0 && w > 0 {
            Ok((body, Seq::empty()))
        } else if rest.len() > 0 && rest[0] == '.' && all_digits(rest.skip(1)) && (w > 0
            || rest.len() > 1) {
            Ok((body.take(w), rest.skip(1)))
        } else {
            Err(NumberError::Invalid)
        }
    }
}

/// The characters of `v` from `lo` up to `hi`.
fn copy_range(v: &Vec<char>, lo: usize, hi: usize) -> (r: Vec<char>)
    requires
        lo <= hi <= v@.len(),
    ensures
        r@ == v@.subrange(lo as int, hi as int),
{
    let mut r: Vec<char> = Vec::new();
    let mut i: usize = lo;
    while i < hi
        invariant
            lo <= i <= hi <= v@.len(),
            r@ == v@.subrange(lo as int, i as int),
        decreases hi - i,
    {
        r.push(v[i]);
        i = i + 1;
        assert(r@ =~= v@.subrange(lo as int, i as int));
    }
    r
}

/// `c` is one of `0`..`9`.
fn digit(c: char) -> (r: bool)
    ensures
        r == is_digit(c),
{
    '0' <= c && c <= '9'
}

/// Reads the digits and point that stand in `cs` from `lo` up to `hi`.
fn read_mantissa(cs: &Vec<char>, lo: usize, hi: usize) -> (r: Result<
    (Vec<char>, Vec<char>),
    NumberError,
>)
    requires
        lo <= hi <= cs@.len(),
    ensures
        match (r, parse_mantissa(cs@.subrange(lo as int, hi as int))) {
            (Ok((w, f)), Ok((sw, sf))) => w@ == sw && f@ == sf && all_digits(w@) && all_digits(
                f@,
            ),
            (Err(e), Err(se)) => e == se,
            _ => false,
        },
{
    let ghost s = cs@.subrange(lo as int, hi as int);
    if lo == hi {
        return Err(NumberError::Empty);
    }
    let mut start: usize = lo;
    if cs[lo] == '+' {
        start = lo + 1;
    }
    let ghost body = cs@.subrange(start as int, hi as int);
    assert(body =~= if s[0] == '+' { s.skip(1) } else { s });
    let mut i: usize = start;
    while i < hi && digit(cs[i])
        invariant
            start <= i <= hi <= cs@.len(),
            body == cs@.subrange(start as int, hi as int),
            forall|j: int| 0 <= j < i - start ==> !non_digit()(#[trigger] body[j]),
        decreases hi - i,
    {
        i = i + 1;
    }
    let ghost w = i - start;
    proof {
        lemma_first_index(body, w, non_digit());
    }
    let ghost rest = body.skip(w);
    assert(rest =~= cs@.subrange(i as int, hi as int));
    if i == hi {
        if i > start {
            let whole = copy_range(cs, start, i);
            assert(whole@ =~= body);
            return Ok((whole, Vec::new()));
        } else {
            return Err(NumberError::Invalid);
        }
    }
    if cs[i] != '.' {
        return Err(NumberError::Invalid);
    }
    let mut j: usize = i + 1;
    while j < hi && digit(cs[j])
        invariant
            i < j <= hi <= cs@.len(),
            forall|k: int| i < k < j ==> is_digit(#[trigger] cs@[k]),
        decreases hi - j,
    {
        j = j + 1;
    }
    if j < hi {
        assert(!is_digit(rest.skip(1)[j - i - 1]));
        return Err(NumberError::Invalid);
    }
    if i == start && hi == i + 1 {
        return Err(NumberError::Invalid);
    }
    let whole = copy_range(cs, start, i);
    let frac = copy_range(cs, i + 1, hi);
    assert(body.take(w) =~= whole@);
    assert(rest.skip(1) =~= frac@);
    Ok((whole, frac))
}

/// Exponents are held within this size. Beyond it, any number written with
/// fewer digits than this stands for `u64::MAX` bytes or for none either way.
pub const EXP_LIMIT: u64 = 4611686018427387904;

/// The character marks an exponent.
pub open spec fn exp_mark() -> spec_fn(char) -> bool {
    |c: char| c == 'e' || c == 'E'
}

/// The value of the exponent written after the `e`: an optional sign, then
/// digits; held within `EXP_LIMIT` either way.
pub open spec fn parse_exponent(t: Seq<char>) -> Option<int> {
    let signed = t.len() > 0 && (t[0] == '+' || t[0] == '-');
    let ds = if signed {
        t.skip(1)
    } else {
        t
    };
    if ds.len() > 0 && all_digits(ds) {
        let x = if digits_value(ds) > EXP_LIMIT {
            EXP_LIMIT as int
        } else {
            digits_value(ds) as int
        };
        Some(
            if signed && t[0] == '-' {
                -x
            } else {
                x
            },
        )
    } else {
        None
    }
}

/// A non-negative decimal number with an optional exponent: the digits before
/// and after the point, and the power of ten that scales them.
pub open spec fn parse_decimal(s: Seq<char>) -> Result<(Seq<char>, Seq<char>, int), NumberError> {
    if s.len() == 0 {
        Err(NumberError::Empty)
    } else {
        let k = first_index(s, exp_mark());
        match parse_mantissa(s.take(k)) {
            Err(_) => Err(NumberError::Invalid),
            Ok((w, f)) => if k == s.len() {
                Ok((w, f, 0))
            } else {
                match parse_exponent(s.skip(k + 1)) {
                    Some(x) => Ok((w, f, x)),
                    None => Err(NumberError::Invalid),
                }
            },
        }
    }
}

/// Reads the exponent that stands in `cs` from `lo` up to `hi`.
fn read_exponent(cs: &Vec<char>, lo: usize, hi: usize) -> (r: Option<i128>)
    requires
        lo <= hi <= cs@.len(),
    ensures
        match (r, parse_exponent(cs@.subrange(lo as int, hi as int))) {
            (Some(x), Some(sx)) => x == sx,
            (None, None) => true,
            _ => false,
        },
{
    let ghost t = cs@.subrange(lo as int, hi as int);
    let mut start: usize = lo;
    let mut negative = false;
    if lo < hi && (cs[lo] == '+' || cs[lo] == '-') {
        negative = cs[lo] == '-';
        start = lo + 1;
    }
    let ghost ds = cs@.subrange(start as int, hi as int);
    assert(ds =~= if t.len() > 0 && (t[0] == '+' || t[0] == '-') { t.skip(1) } else { t });
    if start == hi {
        return None;
    }
    let mut x: u128 = 0;
    let mut big = false;
    let mut j: usize = start;
    while j < hi
        invariant
            start <= j <= hi <= cs@.len(),
            ds == cs@.subrange(start as int, hi as int),
            t == cs@.subrange(lo as int, hi as int),
            ds == if t.len() > 0 && (t[0] == '+' || t[0] == '-') {
                t.skip(1)
            } else {
                t
            },
            negative == (t.len() > 0 && t[0] == '-'),
            forall|k: int| 0 <= k < j - start ==> is_digit(#[trigger] ds[k]),
            !big ==> x == digits_value(ds.take(j - start)) && x <= EXP_LIMIT,
            big ==> digits_value(ds.take(j - start)) > EXP_LIMIT,
        decreases hi - j,
    {
        let c = cs[j];
        if !digit(c) {
            assert(ds[j - start] == c);
            assert(!all_digits(ds));
            return None;
        }
        let d = digit_value_of(c);
        proof {
            assert(ds.take(j - start + 1).drop_last() =~= ds.take(j - start));
        }
        if !big {
            let next = x * 10 + d as u128;
            if next > EXP_LIMIT as u128 {
                big = true;
            } else {
                x = next;
            }
        }
        j = j + 1;
    }
    assert(ds.take(hi - start) =~= ds);
    let v: i128 = if big {
        EXP_LIMIT as i128
    } else {
        x as i128
    };
    if negative {
        Some(-v)
    } else {
        Some(v)
    }
}

/// Reads the decimal number that stands in `cs` from `lo` up to `hi`.
fn read_decimal(cs: &Vec<char>, lo: usize, hi: usize) -> (r: Result<
    (Vec<char>, Vec<char>, i128),
    NumberError,
>)
    requires
        lo <= hi <= cs@.len(),
    ensures
        match (r, parse_decimal(cs@.subrange(lo as int, hi as int))) {
            (Ok((w, f, x)), Ok((sw, sf, sx))) => w@ == sw && f@ == sf && x == sx && all_digits(w@)
                && all_digits(f@) && -EXP_LIMIT <= x <= EXP_LIMIT,
            (Err(e), Err(se)) => e == se,
            _ => false,
        },
{
    let ghost s = cs@.subrange(lo as int, hi as int);
    if lo == hi {
        return Err(NumberError::Empty);
    }
    let mut k: usize = lo;
    while k < hi && cs[k] != 'e' && cs[k] != 'E'
        invariant
            lo <= k <= hi <= cs@.len(),
            s == cs@.subrange(lo as int, hi as int),
            forall|j: int| 0 <= j < k - lo ==> !exp_mark()(#[trigger] s[j]),
        decreases hi - k,
    {
        k = k + 1;
    }
    proof {
        lemma_first_index(s, k - lo, exp_mark());
        assert(s.take(k - lo) =~= cs@.subrange(lo as int, k as int));
    }
    let (whole, frac) = match read_mantissa(cs, lo, k) {
        Ok(p) => p,
        Err(_) => {
            return Err(NumberError::Invalid);
        },
    };
    if k == hi {
        return Ok((whole, frac, 0));
    }
    assert(s.skip(k - lo + 1) =~= cs@.subrange(k + 1, hi as int));
    match read_exponent(cs, k + 1, hi) {
        Some(x) => Ok((whole, frac, x)),
        None => Err(NumberError::Invalid),
    }
}

/// What a size string says: the number `digits * 10^exponent`, and its unit.
pub struct SizeView {
    pub digits: Seq<char>,
    pub exponent: int,
    pub multiplier: Multiplier,
}

/// A parsed size: a non-negative decimal number of some unit.
#[derive(Debug)]
pub struct Size {
    digits: Vec<char>,
    exponent: i128,
    multiplier: Multiplier,
}

impl View for Size {
    type V = SizeView;

    closed spec fn view(&self) -> SizeView {
        SizeView { digits: self.digits@, exponent: self.exponent as int, multiplier: self.multiplier }
    }
}

/// `x`, or `u64::MAX` where `x` is larger.
pub open spec fn clamp_u64(x: int) -> nat {
    if x > u64::MAX {
        u64::MAX as nat
    } else if x < 0 {
        0
    } else {
        x as nat
    }
}

/// The number of whole bytes that `v` stands for: its number times the size
/// of its unit, with any fraction of a byte dropped, and at most `u64::MAX`.
pub open spec fn size_bytes(v: SizeView) -> nat {
    let nf: int = (digits_value(v.digits) * v.multiplier.spec_bytes()) as int;
    clamp_u64(
        if v.exponent >= 0 {
            nf * (pow10(v.exponent as nat) as int)
        } else {
            (nf as int) / (pow10((-v.exponent) as nat) as int)
        },
    )
}

/// Digits written after others shift those by the length of the second part.
proof fn lemma_digits_value_concat(a: Seq<char>, b: Seq<char>)
    ensures
        digits_value(a + b) == digits_value(a) * pow10(b.len()) + digits_value(b),
    decreases b.len(),
{
    if b.len() == 0 {
        assert(a + b =~= a);
        assert(pow10(0) == 1);
        assert(digits_value(b) == 0);
        assert(digits_value(a) * 1 == digits_value(a));
    } else {
        lemma_digits_value_concat(a, b.drop_last());
        assert((a + b).drop_last() =~= a + b.drop_last());
        assert((a + b).last() == b.last());
        let x = digits_value(a);
        let p = pow10(b.drop_last().len());
        let y = digits_value(b.drop_last());
        assert(pow10(b.len()) == 10 * p);
        assert(digits_value(b) == 10 * y + digit_value(b.last()));
        assert(digits_value(a + b) == 10 * (x * p + y) + digit_value(b.last()));
        assert(10 * (x * p + y) == x * (10 * p) + 10 * y) by (nonlinear_arith);
    }
}

proof fn lemma_pow10_add(a: nat, b: nat)
    ensures
        pow10(a + b) == pow10(a) * pow10(b),
    decreases b,
{
    if b > 0 {
        lemma_pow10_add(a, (b - 1) as nat);
        assert(pow10(a + b) == 10 * pow10((a + b - 1) as nat));
        let x = pow10(a);
        let y = pow10((b - 1) as nat);
        assert(pow10(b) == 10 * y);
        assert(10 * (x * y) == x * (10 * y)) by (nonlinear_arith);
    } else {
        assert(pow10(0) == 1);
        assert(a + b == a);
        assert(pow10(a) * 1 == pow10(a));
    }
}

proof fn lemma_pow10_positive(k: nat)
    ensures
        pow10(k) > 0,
    decreases k,
{
    if k > 0 {
        lemma_pow10_positive((k - 1) as nat);
    }
}

/// A string of digits is worth less than ten to the power of its length.
proof fn lemma_digits_value_bound(s: Seq<char>)
    requires
        all_digits(s),
    ensures
        digits_value(s) < pow10(s.len()),
    decreases s.len(),
{
    if s.len() > 0 {
        let t = s.drop_last();
        assert(all_digits(t)) by {
            assert forall|i: int| 0 <= i < t.len() implies is_digit(#[trigger] t[i]) by {
                assert(is_digit(s[i]));
            }
        }
        lemma_digits_value_bound(t);
        assert(is_digit(s[s.len() - 1]));
    }
}

/// The leading digit of a string is worth itself times ten to the power of
/// the digits after it.
proof fn lemma_digits_value_front(s: Seq<char>)
    requires
        s.len() > 0,
    ensures
        digits_value(s) == digit_value(s[0]) * pow10((s.len() - 1) as nat) + digits_value(
            s.skip(1),
        ),
    decreases s.len(),
{
    if s.len() == 1 {
        assert(s.drop_last().len() == 0);
        assert(s.skip(1).len() == 0);
        assert(digits_value(s.drop_last()) == 0);
        assert(digits_value(s.skip(1)) == 0);
        assert(pow10(0) == 1);
        assert(s.last() == s[0]);
        assert(digit_value(s[0]) * pow10(0) == digit_value(s[0]));
    } else {
        let t = s.drop_last();
        lemma_digits_value_front(t);
        assert(s.skip(1).drop_last() =~= t.skip(1));
        assert(t[0] == s[0]);
        assert(s.skip(1).last() == s.last());
        let d = digit_value(s[0]);
        let p = pow10((s.len() - 2) as nat);
        let x = digits_value(t.skip(1));
        assert(pow10((s.len() - 1) as nat) == 10 * p);
        assert(digits_value(s.skip(1)) == 10 * x + digit_value(s.last()));
        assert(digits_value(s) == 10 * (d * p + x) + digit_value(s.last()));
        assert(10 * (d * p + x) == d * (10 * p) + 10 * x) by (nonlinear_arith);
        assert(d * (10 * p) == d * pow10((s.len() - 1) as nat));
    }
}

/// Dropping the fraction of `(d * p + x) * f / (10 * p)` one digit at a time.
proof fn lemma_fraction_step(d: nat, x: nat, f: nat, p: nat)
    requires
        p > 0,
    ensures
        ((d * p + x) * f) / (p * 10) == (f * d + (x * f) / p) / 10,
{
    let a = (d * p + x) * f;
    assert((d * p + x) * f == (f * d) * p + x * f) by (nonlinear_arith);
    vstd::arithmetic::div_mod::lemma_div_denominator(a as int, p as int, 10);
    vstd::arithmetic::div_mod::lemma_hoist_over_denominator((x * f) as int, (f * d) as int, p);
}

/// The value of a decimal digit.
fn digit_value_of(c: char) -> (r: u64)
    requires
        is_digit(c),
    ensures
        r == digit_value(c),
        r <= 9,
{
    (c as u32 - '0' as u32) as u64
}

/// Two places of `s` hold a period.
pub open spec fn two_periods(s: Seq<char>) -> bool {
    exists|i: int, j: int| 0 <= i < j < s.len() && s[i] == '.' && s[j] == '.'
}

/// The size that a string denotes, or the error it is rejected with.
///
/// With a space, the text before the first space is the number and the text
/// after it the unit word. Without one, the number runs up to the first
/// character that is neither a digit nor a period, and the unit word is the
/// rest; two periods in that run are an error of their own.
pub open spec fn parse_size(s: Seq<char>) -> Result<SizeView, Error> {
    parse_size_by(s, false)
}

/// `parse_size`, with the unit word lowered as `lowered` says.
pub open spec fn parse_size_by(s: Seq<char>, ascii: bool) -> Result<SizeView, Error> {
    if s.len() == 0 {
        Err(Error::MissingValue)
    } else {
        let sp = first_index(s, space());
        let b = first_index(s, non_numeric());
        let num = if sp < s.len() {
            s.take(sp)
        } else {
            s.take(b)
        };
        let unit = if sp < s.len() {
            s.skip(sp + 1)
        } else {
            s.skip(b)
        };
        if sp == s.len() && two_periods(num) {
            Err(Error::DoublePeriod)
        } else {
            match parse_decimal(num) {
                Err(e) => Err(Error::InvalidSize(e)),
                Ok((whole, frac, x)) => match unit_of_token(lowered(unit, ascii)) {
                    Some(m) => Ok(
                        SizeView { digits: whole + frac, exponent: x - frac.len(), multiplier: m },
                    ),
                    None => Err(Error::InvalidMultiplier),
                },
            }
        }
    }
}

/// `d` read as a number with its last `d.len() - split` digits after the
/// point, times `f`, with the fraction dropped and at most `u64::MAX`.
fn scaled_floor(d: &Vec<char>, split: usize, f: u64) -> (r: u64)
    requires
        all_digits(d@),
        split <= d@.len(),
        1 <= f <= 1099511627776,
    ensures
        r == clamp_u64(digits_value(d@) * f / (pow10((d@.len() - split) as nat) as int)),
{
    let ghost fr = d@.subrange(split as int, d@.len() as int);
    let ghost wh = d@.subrange(0, split as int);
    proof {
        assert(all_digits(fr)) by {
            assert forall|k: int| 0 <= k < fr.len() implies is_digit(#[trigger] fr[k]) by {
                assert(is_digit(d@[split + k]));
            }
        }
        assert(all_digits(wh)) by {
            assert forall|k: int| 0 <= k < wh.len() implies is_digit(#[trigger] wh[k]) by {
                assert(is_digit(d@[k]));
            }
        }
        assert(d@ =~= wh + fr);
        lemma_digits_value_concat(wh, fr);
    }
    let n = d.len() - split;
    let mut q: u64 = 0;
    let mut i: usize = n;
    proof {
        assert(fr.skip(n as int).len() == 0);
    }
    while i > 0
        invariant
            i <= n == fr.len(),
            fr == d@.subrange(split as int, d@.len() as int),
            n == d@.len() - split,
            split <= d@.len() <= usize::MAX,
            all_digits(d@),
            all_digits(fr),
            1 <= f <= 1099511627776,
            q == (digits_value(fr.skip(i as int)) * f) as nat / pow10((n - i) as nat),
            q < f,
        decreases i,
    {
        i = i - 1;
        let dg = digit_value_of(d[split + i]);
        let ghost t = fr.skip(i as int);
        let ghost p = pow10((n - i - 1) as nat);
        proof {
            assert(t.skip(1) =~= fr.skip(i + 1));
            assert(t[0] == fr[i as int]);
            lemma_digits_value_front(t);
            lemma_pow10_positive((n - i - 1) as nat);
            lemma_fraction_step(dg as nat, digits_value(t.skip(1)), f as nat, p);
            assert(all_digits(t)) by {
                assert forall|k: int| 0 <= k < t.len() implies is_digit(#[trigger] t[k]) by {
                    assert(is_digit(fr[i + k]));
                }
            }
            lemma_digits_value_bound(t);
            assert(pow10((n - i) as nat) == p * 10);
            assert(digits_value(t) * f < (p * 10) * f) by (nonlinear_arith)
                requires
                    digits_value(t) < p * 10,
                    f >= 1,
            ;
            vstd::arithmetic::div_mod::lemma_multiply_divide_lt(
                (digits_value(t) * f) as int,
                (p * 10) as int,
                f as int,
            );
            assert(f * dg <= 9 * f) by (nonlinear_arith)
                requires
                    dg <= 9,
            ;
        }
        q = (f * dg + q) / 10;
    }
    let m = split;
    let mut w: u128 = 0;
    let mut big = false;
    let mut j: usize = 0;
    while j < m
        invariant
            j <= m == wh.len(),
            wh == d@.subrange(0, split as int),
            split <= d@.len(),
            all_digits(d@),
            all_digits(wh),
            !big ==> w == digits_value(wh.take(j as int)) && w <= u64::MAX,
            big ==> digits_value(wh.take(j as int)) > u64::MAX,
        decreases m - j,
    {
        let dg = digit_value_of(d[j]);
        proof {
            assert(wh.take(j + 1).drop_last() =~= wh.take(j as int));
        }
        if !big {
            let next = w * 10 + dg as u128;
            if next > u64::MAX as u128 {
                big = true;
            } else {
                w = next;
            }
        }
        j = j + 1;
    }
    proof {
        assert(wh.take(m as int) =~= wh);
        assert(fr.skip(0) =~= fr);
        let s = pow10(n as nat);
        let wv = digits_value(wh);
        let fv = digits_value(fr);
        lemma_pow10_positive(n as nat);
        assert((wv * s + fv) * f == fv * f + (wv * f) * s) by (nonlinear_arith);
        vstd::arithmetic::div_mod::lemma_hoist_over_denominator(
            (fv * f) as int,
            (wv * f) as int,
            s,
        );
        assert(wv * f >= wv) by (nonlinear_arith)
            requires
                f >= 1,
        ;
    }
    if big {
        return u64::MAX;
    }
    assert(q < f);
    assert(w * (f as u128) <= 18446744073709551615u128 * 1099511627776u128) by (nonlinear_arith)
        requires
            w <= 18446744073709551615u128,
            f <= 1099511627776,
    ;
    let total: u128 = w * (f as u128) + q as u128;
    if total > u64::MAX as u128 {
        u64::MAX
    } else {
        total as u64
    }
}

impl Size {
    #[verifier::type_invariant]
    spec fn digits_only(&self) -> bool {
        &&& all_digits(self.digits@)
        &&& -100000000000000000000000 < self.exponent < 100000000000000000000000
    }

    /// The number of bytes this size stands for, as `size_bytes` says.
    pub fn to_bytes(&self) -> (r: u64)
        ensures
            r == size_bytes(self@),
    {
        proof {
            use_type_invariant(self);
            reveal_with_fuel(pow1024, 5);
        }
        let f = self.multiplier.to_bytes();
        assert(1 <= f <= 1099511627776);
        let len = self.digits.len();
        let e = self.exponent;
        let ghost nf: nat = digits_value(self.digits@) * (f as nat);
        if e >= 0 {
            let t0 = scaled_floor(&self.digits, len, f);
            assert(t0 == clamp_u64(nf as int)) by {
                assert(pow10(0) == 1);
                assert(len - len == 0);
                assert((nf as int) / 1 == nf);
            }
            if t0 == 0 {
                assert(nf * pow10(e as nat) == 0) by (nonlinear_arith)
                    requires
                        nf == 0,
                ;
                return 0;
            }
            if e >= 20 {
                proof {
                    lemma_pow10_add(20, (e - 20) as nat);
                    lemma_pow10_positive((e - 20) as nat);
                    reveal_with_fuel(pow10, 21);
                    assert(pow10(20) == 100000000000000000000nat);
                    assert(nf * pow10(e as nat) > u64::MAX) by (nonlinear_arith)
                        requires
                            nf >= 1,
                            pow10(e as nat) == 100000000000000000000nat * pow10((e - 20) as nat),
                            pow10((e - 20) as nat) >= 1,
                    ;
                }
                return u64::MAX;
            }
            let mut t: u64 = t0;
            let mut j: i128 = 0;
            while j < e
                invariant
                    0 <= j <= e < 20,
                    t == clamp_u64((nf * pow10(j as nat)) as int),
                decreases e - j,
            {
                let next: u128 = t as u128 * 10;
                proof {
                    assert(pow10((j + 1) as nat) == 10 * pow10(j as nat));
                    assert(nf * pow10((j + 1) as nat) == 10 * (nf * pow10(j as nat)))
                        by (nonlinear_arith)
                        requires
                            pow10((j + 1) as nat) == 10 * pow10(j as nat),
                    ;
                }
                if next > u64::MAX as u128 {
                    t = u64::MAX;
                } else {
                    t = next as u64;
                }
                j = j + 1;
            }
            t
        } else {
            let m: i128 = -e;
            if m <= len as i128 {
                scaled_floor(&self.digits, (len as i128 - m) as usize, f)
            } else if m - len as i128 >= 14 {
                proof {
                    let pl = pow10(len as nat);
                    lemma_digits_value_bound(self.digits@);
                    lemma_pow10_add(len as nat, 13);
                    lemma_pow10_add((len + 13) as nat, (m - len - 13) as nat);
                    lemma_pow10_positive((m - len - 13) as nat);
                    reveal_with_fuel(pow10, 14);
                    assert(pow10(13) == 10000000000000nat);
                    assert(nf < pow10(m as nat)) by (nonlinear_arith)
                        requires
                            nf == digits_value(self.digits@) * f,
                            digits_value(self.digits@) < pl,
                            f <= 1099511627776,
                            pow10((len + 13) as nat) == pl * 10000000000000nat,
                            pow10(m as nat) == pow10((len + 13) as nat) * pow10(
                                (m - len - 13) as nat,
                            ),
                            pow10((m - len - 13) as nat) >= 1,
                    ;
                    vstd::arithmetic::div_mod::lemma_basic_div(nf as int, pow10(m as nat) as int);
                }
                0
            } else {
                let mut q = scaled_floor(&self.digits, 0, f);
                proof {
                    lemma_digits_value_bound(self.digits@);
                    lemma_pow10_positive(len as nat);
                    assert(nf < pow10(len as nat) * f) by (nonlinear_arith)
                        requires
                            nf == digits_value(self.digits@) * f,
                            digits_value(self.digits@) < pow10(len as nat),
                            f >= 1,
                    ;
                    vstd::arithmetic::div_mod::lemma_multiply_divide_lt(
                        nf as int,
                        pow10(len as nat) as int,
                        f as int,
                    );
                }
                let k: i128 = m - len as i128;
                let mut j: i128 = 0;
                while j < k
                    invariant
                        0 <= j <= k,
                        k == m - len,
                        q == nf / pow10((len + j) as nat),
                    decreases k - j,
                {
                    proof {
                        lemma_pow10_positive((len + j) as nat);
                        assert(pow10((len + j + 1) as nat) == pow10((len + j) as nat) * 10);
                        vstd::arithmetic::div_mod::lemma_div_denominator(
                            nf as int,
                            pow10((len + j) as nat) as int,
                            10,
                        );
                    }
                    q = q / 10;
                    j = j + 1;
                }
                q
            }
        }
    }

    /// Reads a size string such as `10gb`, `1.5 MB` or `512b`, as
    /// `parse_size` says. The number is an optional `+`, digits, an optional
    /// point with more digits, and an optional exponent (`e` or `E`, an
    /// optional sign, digits). A `-` sign on the number, `inf` or `nan` make
    /// it an invalid size.
    pub fn parse(s: &str) -> (r: Result<Size, Error>)
        ensures
            parse_outcome(r, s@),
            all_ascii(s@) ==> parse_outcome_by(r, s@, true),
    {
        let cs = chars_of(s);
        let n = cs.len();
        if n == 0 {
            return Err(Error::MissingValue);
        }
        let mut sp: usize = 0;
        while sp < n && cs[sp] != ' '
            invariant
                n == cs@.len(),
                cs@ == s@,
                sp <= n,
                forall|j: int| 0 <= j < sp ==> !space()(#[trigger] s@[j]),
            decreases n - sp,
        {
            sp = sp + 1;
        }
        proof {
            lemma_first_index(s@, sp as int, space());
        }
        let mut b: usize = sp;
        let unit_start: usize;
        if sp < n {
            unit_start = sp + 1;
        } else {
            let mut has_period = false;
            let ghost mut period: int = 0;
            b = 0;
            while b < n
                invariant
                    n == cs@.len(),
                    cs@ == s@,
                    b <= n,
                    sp == n,
                    first_index(s@, space()) == n,
                    forall|j: int| 0 <= j < b ==> !non_numeric()(#[trigger] s@[j]),
                    has_period ==> 0 <= period < b && s@[period] == '.',
                    forall|j: int|
                        0 <= j < b && #[trigger] s@[j] == '.' ==> has_period && j == period,
                ensures
                    n == cs@.len(),
                    cs@ == s@,
                    b <= n,
                    sp == n,
                    first_index(s@, space()) == n,
                    forall|j: int| 0 <= j < b ==> !non_numeric()(#[trigger] s@[j]),
                    b < n ==> non_numeric()(s@[b as int]),
                    forall|j: int|
                        0 <= j < b && #[trigger] s@[j] == '.' ==> has_period && j == period,
                decreases n - b,
            {
                let c = cs[b];
                if digit(c) {
                    b = b + 1;
                } else if c == '.' {
                    if has_period {
                        proof {
                            lemma_first_exists_from(s@, non_numeric(), b + 1);
                            let e = first_index(s@, non_numeric());
                            assert(!non_numeric()(s@[b as int]));
                            if e <= b {
                                assert(!non_numeric()(s@[e]));
                            }
                            let num = s@.take(e);
                            assert(0 <= period < b < num.len() && num[period] == '.' && num[b as int]
                                == '.');
                            assert(two_periods(num));
                        }
                        return Err(Error::DoublePeriod);
                    }
                    has_period = true;
                    proof {
                        period = b as int;
                    }
                    b = b + 1;
                } else {
                    break;
                }
            }
            proof {
                lemma_first_index(s@, b as int, non_numeric());
                let num = s@.take(b as int);
                assert forall|i: int, j: int|
                    0 <= i < j < num.len() && num[i] == '.' implies num[j] != '.' by {
                    assert(s@[i] == '.');
                }
                assert(!two_periods(num));
            }
            unit_start = b;
        }
        assert(cs@.subrange(0, b as int) =~= s@.take(b as int));
        let (whole, frac, x) = match read_decimal(&cs, 0, b) {
            Ok(p) => p,
            Err(e) => {
                return Err(Error::InvalidSize(e));
            },
        };
        let unit = s.substring_char(unit_start, n);
        proof {
            if all_ascii(s@) {
                assert forall|i: int| 0 <= i < unit@.len() implies (#[trigger] unit@[i]) as u32
                    <= 127 by {
                    assert(unit@[i] == s@[unit_start + i]);
                }
            }
        }
        assert(unit@ =~= s@.skip(unit_start as int));
        match Multiplier::parse(unit) {
            Ok(m) => {
                let flen = frac.len();
                let mut digits = whole;
                let mut rest = frac;
                digits.append(&mut rest);
                Ok(Size { digits, exponent: x - flen as i128, multiplier: m })
            },
            Err(e) => Err(e),
        }
    }
}

/// What `Size::parse` returns for the characters `s`.
pub open spec fn parse_outcome(r: Result<Size, Error>, s: Seq<char>) -> bool {
    parse_outcome_by(r, s, false)
}

/// `r` is what `parse_size_by(s, ascii)` says.
pub open spec fn parse_outcome_by(r: Result<Size, Error>, s: Seq<char>, ascii: bool) -> bool {
    match (r, parse_size_by(s, ascii)) {
        (Ok(z), Ok(v)) => z@ == v,
        (Err(e), Err(se)) => e == se,
        _ => false,
    }
}

/// Reading the same string twice gives equal sizes, or the same error.
pub proof fn lemma_parse_idempotent(s: Seq<char>, a: Result<Size, Error>, b: Result<Size, Error>)
    requires
        parse_outcome(a, s),
        parse_outcome(b, s),
    ensures
        a is Ok <==> b is Ok,
        a is Ok ==> a->Ok_0@ == b->Ok_0@,
        a is Err ==> a == b,
{
}

/// The numbers of `a` and `b` are equal.
pub open spec fn same_value(a: SizeView, b: SizeView) -> bool {
    if a.exponent >= b.exponent {
        digits_value(a.digits) * pow10((a.exponent - b.exponent) as nat) == digits_value(b.digits)
    } else {
        digits_value(b.digits) * pow10((b.exponent - a.exponent) as nat) == digits_value(a.digits)
    }
}

/// `k` zero digits.
pub open spec fn zeros(k: nat) -> Seq<char> {
    Seq::new(k, |i: int| '0')
}

/// The string has no leading zero.
pub open spec fn no_leading_zero(s: Seq<char>) -> bool {
    s.len() == 0 || s[0] != '0'
}

proof fn lemma_zeros_value(k: nat)
    ensures
        digits_value(zeros(k)) == 0,
    decreases k,
{
    if k > 0 {
        assert(zeros(k).drop_last() =~= zeros((k - 1) as nat));
        lemma_zeros_value((k - 1) as nat);
    }
}

/// Leading zeros add nothing.
proof fn lemma_strip_zeros(s: Seq<char>, i: int)
    requires
        0 <= i <= s.len(),
        forall|k: int| 0 <= k < i ==> s[k] == '0',
    ensures
        digits_value(s) == digits_value(s.skip(i)),
    decreases i,
{
    if i > 0 {
        lemma_digits_value_front(s);
        assert(digit_value(s[0]) == 0);
        assert(0 * pow10((s.len() - 1) as nat) == 0);
        assert(s.skip(1).skip(i - 1) =~= s.skip(i));
        assert forall|k: int| 0 <= k < i - 1 implies s.skip(1)[k] == '0' by {
            assert(s.skip(1)[k] == s[k + 1]);
        }
        lemma_strip_zeros(s.skip(1), i - 1);
    } else {
        assert(s.skip(0) =~= s);
    }
}

/// A string of digits with a leading digit other than zero is worth at least one.
proof fn lemma_positive_value(s: Seq<char>)
    requires
        all_digits(s),
        s.len() > 0,
        s[0] != '0',
    ensures
        digits_value(s) >= 1,
{
    lemma_digits_value_front(s);
    lemma_pow10_positive((s.len() - 1) as nat);
    assert(is_digit(s[0]));
    let d = digit_value(s[0]);
    assert(d >= 1);
    assert(d * pow10((s.len() - 1) as nat) >= 1) by (nonlinear_arith)
        requires
            d >= 1,
            pow10((s.len() - 1) as nat) >= 1,
    ;
}

/// Without leading zeros, equal values are written with the same digits.
proof fn lemma_digits_injective(p: Seq<char>, q: Seq<char>)
    requires
        all_digits(p),
        all_digits(q),
        no_leading_zero(p),
        no_leading_zero(q),
        digits_value(p) == digits_value(q),
    ensures
        p == q,
    decreases p.len() + q.len(),
{
    if p.len() == 0 || q.len() == 0 {
        if p.len() > 0 {
            lemma_positive_value(p);
        }
        if q.len() > 0 {
            lemma_positive_value(q);
        }
        assert(p =~= q);
    } else {
        let p1 = p.drop_last();
        let q1 = q.drop_last();
        let a = digit_value(p.last());
        let b = digit_value(q.last());
        assert(is_digit(p.last()) && is_digit(q.last()));
        assert(a < 10 && b < 10);
        vstd::arithmetic::div_mod::lemma_fundamental_div_mod_converse(
            digits_value(p) as int,
            10,
            digits_value(p1) as int,
            a as int,
        );
        vstd::arithmetic::div_mod::lemma_fundamental_div_mod_converse(
            digits_value(q) as int,
            10,
            digits_value(q1) as int,
            b as int,
        );
        assert(all_digits(p1)) by {
            assert forall|k: int| 0 <= k < p1.len() implies is_digit(#[trigger] p1[k]) by {
                assert(is_digit(p[k]));
            }
        }
        assert(all_digits(q1)) by {
            assert forall|k: int| 0 <= k < q1.len() implies is_digit(#[trigger] q1[k]) by {
                assert(is_digit(q[k]));
            }
        }
        lemma_digits_injective(p1, q1);
        assert(p.last() as u32 == q.last() as u32);
        vstd::utf8::char_u32_cast(p.last(), p.last() as u32);
        vstd::utf8::char_u32_cast(q.last(), q.last() as u32);
        assert(p =~= p1.push(p.last()));
        assert(q =~= q1.push(q.last()));
    }
}

/// The number of leading zeros of `v`.
fn leading_zeros(v: &Vec<char>) -> (r: usize)
    ensures
        r <= v@.len(),
        forall|k: int| 0 <= k < r ==> v@[k] == '0',
        no_leading_zero(v@.skip(r as int)),
{
    let mut i: usize = 0;
    while i < v.len() && v[i] == '0'
        invariant
            i <= v@.len(),
            forall|k: int| 0 <= k < i ==> v@[k] == '0',
        decreases v@.len() - i,
    {
        i = i + 1;
    }
    i
}

/// `a * 10^(ea - eb)` and `b` are the same number.
fn same_number(a: &Vec<char>, ea: i128, b: &Vec<char>, eb: i128) -> (r: bool)
    requires
        all_digits(a@),
        all_digits(b@),
        eb <= ea,
        ea - eb < 1000000000000000000000000000,
    ensures
        r == (digits_value(a@) * pow10((ea - eb) as nat) == digits_value(b@)),
{
    let ia = leading_zeros(a);
    let ib = leading_zeros(b);
    let la = a.len() - ia;
    let lb = b.len() - ib;
    let d: i128 = ea - eb;
    let ghost sa = a@.skip(ia as int);
    let ghost sb = b@.skip(ib as int);
    let ghost c = sa + zeros(d as nat);
    proof {
        lemma_strip_zeros(a@, ia as int);
        lemma_strip_zeros(b@, ib as int);
        lemma_digits_value_concat(sa, zeros(d as nat));
        lemma_zeros_value(d as nat);
        assert(all_digits(sb)) by {
            assert forall|k: int| 0 <= k < sb.len() implies is_digit(#[trigger] sb[k]) by {
                assert(is_digit(b@[ib + k]));
            }
        }
        assert(all_digits(c)) by {
            assert forall|k: int| 0 <= k < c.len() implies is_digit(#[trigger] c[k]) by {
                if k < sa.len() {
                    assert(is_digit(a@[ia + k]));
                }
            }
        }
        if la > 0 {
            assert(c[0] == sa[0]);
        }
        if digits_value(c) == digits_value(sb) && la > 0 {
            lemma_digits_injective(c, sb);
        }
    }
    if la == 0 {
        proof {
            assert(digits_value(sa) == 0);
            assert(0 * pow10(d as nat) == 0);
            if lb > 0 {
                lemma_positive_value(sb);
            }
        }
        return lb == 0;
    }
    if lb as i128 != la as i128 + d {
        return false;
    }
    let mut k: usize = 0;
    while k < lb
        invariant
            k <= lb == sb.len(),
            la == sa.len(),
            c.len() == lb,
            c == sa + zeros(d as nat),
            sa == a@.skip(ia as int),
            sb == b@.skip(ib as int),
            ia + la == a@.len(),
            ib + lb == b@.len(),
            a@.len() <= usize::MAX,
            b@.len() <= usize::MAX,
            d >= 0,
            d == ea - eb,
            digits_value(a@) * pow10(d as nat) == digits_value(c),
            digits_value(b@) == digits_value(sb),
            digits_value(c) == digits_value(sb) ==> c == sb,
            forall|j: int| 0 <= j < k ==> c[j] == sb[j],
        decreases lb - k,
    {
        let x = b[ib + k];
        if k < la {
            if x != a[ia + k] {
                assert(c[k as int] != sb[k as int]);
                assert(c != sb);
                return false;
            }
        } else if x != '0' {
            assert(c[k as int] != sb[k as int]);
            assert(c != sb);
            return false;
        }
        k = k + 1;
    }
    assert(c =~= sb);
    true
}

impl PartialEq for Size {
    fn eq(&self, other: &Size) -> bool {
        proof {
            use_type_invariant(self);
            use_type_invariant(other);
        }
        self.multiplier == other.multiplier && if self.exponent >= other.exponent {
            same_number(&self.digits, self.exponent, &other.digits, other.exponent)
        } else {
            same_number(&other.digits, other.exponent, &self.digits, self.exponent)
        }
    }
}

impl vstd::std_specs::cmp::PartialEqSpecImpl for Size {
    open spec fn obeys_eq_spec() -> bool {
        true
    }

    open spec fn eq_spec(&self, other: &Size) -> bool {
        self@.multiplier == other@.multiplier && same_value(self@, other@)
    }
}

impl Clone for Size {
    fn clone(&self) -> (r: Size)
        ensures
            r@ == self@,
    {
        proof {
            use_type_invariant(self);
        }
        let digits = copy_range(&self.digits, 0, self.digits.len());
        assert(digits@ =~= self.digits@);
        Size { digits, exponent: self.exponent, multiplier: self.multiplier }
    }
}

impl std::str::FromStr for Size {
    type Err = Error;

    fn from_str(s: &str) -> (r: Result<Size, Error>)
        ensures
            parse_outcome(r, s@),
            all_ascii(s@) ==> parse_outcome_by(r, s@, true),
    {
        Size::parse(s)
    }
}

impl std::str::FromStr for Multiplier {
    type Err = Error;

    fn from_str(s: &str) -> (r: Result<Multiplier, Error>)
        ensures
            r == match unit_of_token(lower_of(s@)) {
                Some(m) => Ok(m),
                None => Err(Error::InvalidMultiplier),
            },
            all_ascii(s@) ==> r == match unit_of_token(ascii_lower(s@)) {
                Some(m) => Ok(m),
                None => Err(Error::InvalidMultiplier),
            },
    {
        Multiplier::parse(s)
    }
}

} // verus!
