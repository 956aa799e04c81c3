//! Command-line values and the parsers for sizes and page sizes.
use vstd::arithmetic::power2::*;
use vstd::prelude::*;
use vstd::string::*;

verus! {

pub open spec fn is_digit(c: char) -> bool {
    '0' <= c && c <= '9'
}

pub open spec fn all_digits(s: Seq<char>) -> bool {
    forall|i: int| 0 <= i < s.len() ==> is_digit(#[trigger] s[i])
}

pub open spec fn digit_value(c: char) -> nat {
    (c as u32 - '0' as u32) as nat
}

/// The number that a run of decimal digits denotes, most significant first.
pub open spec fn digits_value(s: Seq<char>) -> nat
    decreases s.len(),
{
    if s.len() == 0 {
        0
    } else {
        digits_value(s.drop_last()) * 10 + digit_value(s.last())
    }
}

/// Length of the leading run of decimal digits of `s`.
pub open spec fn digit_run_len(s: Seq<char>) -> nat
    decreases s.len(),
{
    if s.len() > 0 && is_digit(s[0]) {
        1 + digit_run_len(s.skip(1))
    } else {
        0
    }
}

/// The byte multiplier of a binary size prefix, if `p` is one.
pub open spec fn prefix_multiplier(p: Seq<char>) -> Option<nat> {
    if p == seq!['k'] {
        Some(1024)
    } else if p == seq!['M'] {
        Some(1024 * 1024)
    } else if p == seq!['G'] {
        Some(1024 * 1024 * 1024)
    } else if p == seq!['T'] {
        Some(1024 * 1024 * 1024 * 1024)
    } else {
        None
    }
}


/// The number before the prefix, times the prefix's multiplier (one when
/// there is no prefix), where the literal has a valid prefix or none.
pub open spec fn size_value(s: Seq<char>) -> nat {
    let k = digit_run_len(s) as int;
    let suffix = s.skip(k);
    let mult: nat = if suffix.len() == 0 {
        1
    } else {
        match prefix_multiplier(suffix) {
            Some(m) => m,
            None => 0,
        }
    };
    digits_value(s.take(k)) * mult
}

/// Why a size literal was refused.
#[derive(Debug)]
pub enum ParseSizeError {
    /// The digit run is empty, or the size does not fit in `usize`.
    InvalidNumber,
    /// What follows the digits is not one of `k`, `M`, `G`, `T`.
    InvalidPrefix(String),
}

proof fn lemma_digit_run_len(s: Seq<char>, i: int)
    requires
        0 <= i <= s.len(),
        forall|j: int| 0 <= j < i ==> is_digit(#[trigger] s[j]),
        i == s.len() || !is_digit(s[i]),
    ensures
        digit_run_len(s) == i,
    decreases i,
{
    if i > 0 {
        lemma_digit_run_len(s.skip(1), i - 1);
    }
}

proof fn lemma_digits_value_prefix(s: Seq<char>, j: int)
    requires
        0 <= j <= s.len(),
    ensures
        digits_value(s.take(j)) <= digits_value(s),
    decreases s.len(),
{
    if j == s.len() {
        assert(s.take(j) =~= s);
    } else {
        lemma_digits_value_prefix(s.drop_last(), j);
        assert(s.drop_last().take(j) =~= s.take(j));
    }
}

proof fn lemma_digit_run_len_bound(s: Seq<char>)
    ensures
        digit_run_len(s) <= s.len(),
        all_digits(s.take(digit_run_len(s) as int)),
        digit_run_len(s) < s.len() ==> !is_digit(s[digit_run_len(s) as int]),
    decreases s.len(),
{
    if s.len() > 0 && is_digit(s[0]) {
        let t = s.skip(1);
        lemma_digit_run_len_bound(t);
        let k = digit_run_len(t) as int;
        assert forall|i: int| 0 <= i < k + 1 implies is_digit(#[trigger] s.take(k + 1)[i]) by {
            if i > 0 {
                assert(s.take(k + 1)[i] == t.take(k)[i - 1]);
            }
        }
    }
}

/// Length of the leading run of decimal digits of `arg`.
fn leading_digits(arg: &str) -> (k: usize)
    ensures
        k == digit_run_len(arg@),
{
    let len = arg.unicode_len();
    let mut k: usize = 0;
    while k < len && is_digit_char(arg.get_char(k))
        invariant
            len == arg@.len(),
            k <= len,
            forall|j: int| 0 <= j < k ==> is_digit(#[trigger] arg@[j]),
        decreases len - k,
    {
        k = k + 1;
    }
    proof {
        lemma_digit_run_len(arg@, k as int);
    }
    k
}

fn is_digit_char(c: char) -> (r: bool)
    ensures
        r == is_digit(c),
{
    '0' <= c && c <= '9'
}

/// The number that the digits `arg[from..to]` denote, or `None` where it
/// exceeds `usize::MAX` or the run is empty.
fn parse_digits(arg: &str, from: usize, to: usize) -> (r: Option<usize>)
    requires
        from <= to <= arg@.len(),
        all_digits(arg@.subrange(from as int, to as int)),
    ensures
        match r {
            Some(v) => from < to && v == digits_value(arg@.subrange(from as int, to as int)),
            None => from == to || digits_value(arg@.subrange(from as int, to as int)) > usize::MAX,
        },
{
    if from == to {
        return None;
    }
    let ghost s = arg@.subrange(from as int, to as int);
    let mut v: usize = 0;
    let mut i: usize = from;
    while i < to
        invariant
            from <= i <= to <= arg@.len(),
            s == arg@.subrange(from as int, to as int),
            all_digits(s),
            v == digits_value(s.take(i - from)),
        decreases to - i,
    {
        let c = arg.get_char(i);
        proof {
            assert(c == s[i - from]);
            assert(s.take(i - from + 1).drop_last() =~= s.take(i - from));
        }
        let d = (c as u32 - '0' as u32) as usize;
        let next = match v.checked_mul(10) {
            Some(t) => t.checked_add(d),
            None => None,
        };
        match next {
            Some(n) => {
                v = n;
            },
            None => {
                proof {
                    lemma_digits_value_prefix(s, i - from + 1);
                }
                return None;
            },
        }
        i = i + 1;
    }
    proof {
        assert(s.take(to - from) =~= s);
    }
    Some(v)
}


/// Parses a size literal: decimal digits, then optionally one binary prefix
/// `k`, `M`, `G` or `T` (1024 to the first to fourth power).
pub fn parse_size(arg: &str) -> (r: Result<usize, ParseSizeError>)
    ensures
        ({
            let k = digit_run_len(arg@) as int;
            let suffix = arg@.skip(k);
            let valid_prefix = suffix.len() == 0 || prefix_multiplier(suffix) is Some;
            match r {
                Err(ParseSizeError::InvalidPrefix(p)) => !valid_prefix && p@ == suffix,
                Err(ParseSizeError::InvalidNumber) => valid_prefix && (k == 0 || size_value(arg@)
                    > usize::MAX),
                Ok(v) => valid_prefix && k > 0 && v == size_value(arg@),
            }
        }),
{
    let len = arg.unicode_len();
    let k = leading_digits(arg);
    proof {
        lemma_digit_run_len_bound(arg@);
    }
    let ghost suffix = arg@.skip(k as int);
    let mut mult: u128 = 1;
    if k < len {
        let prefix = arg.substring_char(k, len);
        assert(prefix@ =~= suffix);
        let mut known = false;
        if len - k == 1 {
            let c = arg.get_char(k);
            assert(suffix =~= seq![c]);
            if c == 'k' {
                mult = 1024;
                known = true;
            } else if c == 'M' {
                mult = 1024 * 1024;
                known = true;
            } else if c == 'G' {
                mult = 1024 * 1024 * 1024;
                known = true;
            } else if c == 'T' {
                mult = 1024 * 1024 * 1024 * 1024;
                known = true;
            }
        }
        if !known {
            assert(seq!['k'][0] == 'k' && seq!['M'][0] == 'M' && seq!['G'][0] == 'G'
                && seq!['T'][0] == 'T');
            assert(seq!['k'].len() == 1 && seq!['M'].len() == 1 && seq!['G'].len() == 1
                && seq!['T'].len() == 1);
            return Err(ParseSizeError::InvalidPrefix(String::from_str(prefix)));
        }
    }
    proof {
        assert(seq!['k'][0] == 'k' && seq!['M'][0] == 'M' && seq!['G'][0] == 'G'
            && seq!['T'][0] == 'T');
        assert(mult as nat == if suffix.len() == 0 {
            1
        } else {
            prefix_multiplier(suffix)->Some_0
        });
        assert(arg@.subrange(0, k as int) =~= arg@.take(k as int));
    }
    match parse_digits(arg, 0, k) {
        None => {
            proof {
                let d = digits_value(arg@.take(k as int));
                assert(d * mult >= d) by (nonlinear_arith)
                    requires
                        mult >= 1,
                ;
            }
            Err(ParseSizeError::InvalidNumber)
        },
        Some(v) => {
            assert(mult <= 1024 * 1024 * 1024 * 1024);
            assert((v as u128) * mult <= 0xffff_ffff_ffff_ffffu128 * (1024 * 1024 * 1024 * 1024))
                by (nonlinear_arith)
                requires
                    v <= 0xffff_ffff_ffff_ffffu128,
                    mult <= 1024 * 1024 * 1024 * 1024,
            ;
            let total = (v as u128) * mult;
            if total > usize::MAX as u128 {
                Err(ParseSizeError::InvalidNumber)
            } else {
                Ok(total as usize)
            }
        },
    }
}


/// `n` is 2 raised to some natural power (so it is positive).
pub open spec fn is_power_of_two(n: int) -> bool {
    exists|e: nat| pow2(e) == n
}

/// The digits of a page-size literal: all of it, but for one leading `+`.
pub open spec fn unsigned_digits(s: Seq<char>) -> Seq<char> {
    if s.len() > 0 && s[0] == '+' {
        s.skip(1)
    } else {
        s
    }
}

/// Why a page-size literal was refused.
#[derive(Debug)]
pub enum ParsePageSizeError {
    /// The literal is not a decimal number that fits in `usize`.
    InvalidNumber,
    /// The number is zero or not a power of two.
    NotPowerOfTwo,
}

fn check_power_of_two(n: usize) -> (r: bool)
    ensures
        r == is_power_of_two(n as int),
{
    if n == 0 {
        proof {
            assert forall|e: nat| pow2(e) != 0 by {
                lemma_pow2_pos(e);
            }
        }
        return false;
    }
    let mut p: usize = 1;
    let ghost mut k: nat = 0;
    proof {
        lemma_pow2(0);
        vstd::arithmetic::power::lemma_pow0(2);
    }
    while p < n && p <= usize::MAX / 2
        invariant
            0 < n,
            0 < p,
            p <= usize::MAX,
            p == pow2(k),
            forall|j: nat| j < k ==> #[trigger] pow2(j) < n,
        decreases usize::MAX - p,
    {
        proof {
            lemma_pow2_unfold(k + 1);
        }
        p = p * 2;
        proof {
            k = k + 1;
        }
    }
    proof {
        if p == n {
            assert(pow2(k) == n);
        } else {
            lemma_pow2_unfold(k + 1);
            assert forall|e: nat| pow2(e) != n by {
                if e > k {
                    lemma_pow2_strictly_increases(k, e);
                    if e > k + 1 {
                        lemma_pow2_strictly_increases(k + 1, e);
                    }
                }
            }
        }
    }
    p == n
}

/// Parses a page size: a decimal number (one leading `+` allowed) that is a
/// positive power of two.
pub fn parse_page_size(arg: &str) -> (r: Result<usize, ParsePageSizeError>)
    ensures
        ({
            let d = unsigned_digits(arg@);
            let number = d.len() > 0 && all_digits(d) && digits_value(d) <= usize::MAX;
            match r {
                Err(ParsePageSizeError::InvalidNumber) => !number,
                Err(ParsePageSizeError::NotPowerOfTwo) => number && !is_power_of_two(
                    digits_value(d) as int,
                ),
                Ok(v) => number && is_power_of_two(v as int) && v == digits_value(d),
            }
        }),
{
    let len = arg.unicode_len();
    let mut from: usize = 0;
    if len > 0 && arg.get_char(0) == '+' {
        from = 1;
    }
    let ghost d = unsigned_digits(arg@);
    assert(d =~= arg@.subrange(from as int, len as int));
    let mut i: usize = from;
    while i < len
        invariant
            from <= i <= len,
            len == arg@.len(),
            d == arg@.subrange(from as int, len as int),
            d == unsigned_digits(arg@),
            forall|j: int| from <= j < i ==> is_digit(#[trigger] arg@[j]),
        decreases len - i,
    {
        let c = arg.get_char(i);
        if !is_digit_char(c) {
            assert(d[i - from] == arg@[i as int]);
            assert(!all_digits(d));
            return Err(ParsePageSizeError::InvalidNumber);
        }
        i = i + 1;
    }
    assert(all_digits(d)) by {
        assert forall|j: int| 0 <= j < d.len() implies is_digit(#[trigger] d[j]) by {
            assert(d[j] == arg@[j + from]);
        }
    }
    match parse_digits(arg, from, len) {
        None => Err(ParsePageSizeError::InvalidNumber),
        Some(v) => {
            if check_power_of_two(v) {
                Ok(v)
            } else {
                Err(ParsePageSizeError::NotPowerOfTwo)
            }
        },
    }
}


/// The page size used when the operating system reports none.
pub const DEFAULT_PAGE_SIZE: usize = 4096;

/// What the operator asked for on the command line.
#[derive(Debug)]
pub struct Opt {
    /// How many bytes of memory to allocate.
    pub size: usize,
    /// The page size to use, where the operator set one: it controls the
    /// alignment of the region and the stride of the touch loop.
    pub page_size: Option<usize>,
    /// Skip locking the region into main memory.
    pub no_mlock: bool,
    /// Skip filling the region with random data.
    pub no_fill: bool,
    /// Milliseconds between two rounds of the touch loop; no loop if absent.
    pub poll_interval: Option<u64>,
}

/// The page size in force: the one requested, else the one the system
/// reports (when it reports a positive one), else the default.
pub open spec fn chosen_page_size(requested: Option<usize>, reported: Option<usize>) -> usize {
    match requested {
        Some(p) => p,
        None => match reported {
            Some(p) if p > 0 => p,
            _ => DEFAULT_PAGE_SIZE,
        },
    }
}

impl Opt {
    /// The page size in force, given what the system reports.
    pub fn effective_page_size(&self, reported: Option<usize>) -> (r: usize)
        ensures
            r == chosen_page_size(self.page_size, reported),
            self.page_size is None ==> r > 0,
    {
        match self.page_size {
            Some(p) => p,
            None => match reported {
                Some(p) if p > 0 => p,
                _ => DEFAULT_PAGE_SIZE,
            },
        }
    }
}

pub open spec fn size_error_text(e: ParseSizeError) -> Seq<char> {
    match e {
        ParseSizeError::InvalidNumber => "Invalid size number"@,
        ParseSizeError::InvalidPrefix(p) => "Invalid size prefix '"@ + p@ + "'"@,
    }
}

impl ParseSizeError {
    /// A line for the operator that says what was wrong.
    pub fn message(&self) -> (r: String)
        ensures
            r@ == size_error_text(*self),
    {
        match self {
            ParseSizeError::InvalidNumber => String::from_str("Invalid size number"),
            ParseSizeError::InvalidPrefix(p) => {
                let mut m = String::from_str("Invalid size prefix '");
                m.append(p.as_str());
                m.append("'");
                m
            },
        }
    }
}

pub open spec fn page_size_error_text(e: ParsePageSizeError) -> Seq<char> {
    match e {
        ParsePageSizeError::InvalidNumber => "Invalid page size number"@,
        ParsePageSizeError::NotPowerOfTwo => "Page size must be a power of two"@,
    }
}

impl ParsePageSizeError {
    /// A line for the operator that says what was wrong.
    pub fn message(&self) -> (r: String)
        ensures
            r@ == page_size_error_text(*self),
    {
        match self {
            ParsePageSizeError::InvalidNumber => String::from_str("Invalid page size number"),
            ParsePageSizeError::NotPowerOfTwo => String::from_str(
                "Page size must be a power of two",
            ),
        }
    }
}


/// A size literal made of a non-empty run of digits `d` and then nothing or
/// one of the prefixes `k`, `M`, `G`, `T` has the value of `d` times the
/// prefix's multiplier (one without a prefix): `parse_size` returns that value
/// wherever it fits in `usize`, and `InvalidNumber` elsewhere.
pub proof fn lemma_size_literal(d: Seq<char>, p: Seq<char>)
    requires
        d.len() > 0,
        all_digits(d),
        p.len() == 0 || prefix_multiplier(p) is Some,
    ensures
        digit_run_len(d + p) == d.len(),
        (d + p).skip(d.len() as int) == p,
        size_value(d + p) == digits_value(d) * (if p.len() == 0 {
            1
        } else {
            prefix_multiplier(p)->Some_0
        }),
{
    let s = d + p;
    if p.len() > 0 {
        assert(seq!['k'][0] == 'k' && seq!['M'][0] == 'M' && seq!['G'][0] == 'G'
            && seq!['T'][0] == 'T');
        assert(!is_digit(s[d.len() as int]));
    }
    assert forall|j: int| 0 <= j < d.len() implies is_digit(#[trigger] s[j]) by {
        assert(s[j] == d[j]);
    }
    lemma_digit_run_len(s, d.len() as int);
    assert(s.skip(d.len() as int) =~= p);
    assert(s.take(d.len() as int) =~= d);
}

pub open spec fn digit_char(v: nat) -> char {
    if v == 0 {
        '0'
    } else if v == 1 {
        '1'
    } else if v == 2 {
        '2'
    } else if v == 3 {
        '3'
    } else if v == 4 {
        '4'
    } else if v == 5 {
        '5'
    } else if v == 6 {
        '6'
    } else if v == 7 {
        '7'
    } else if v == 8 {
        '8'
    } else {
        '9'
    }
}

/// The decimal numeral of `n`, without leading zeros.
pub open spec fn decimal(n: nat) -> Seq<char>
    decreases n,
{
    if n < 10 {
        seq![digit_char(n)]
    } else {
        decimal(n / 10).push(digit_char(n % 10))
    }
}

proof fn lemma_digit_char(v: nat)
    requires
        v < 10,
    ensures
        is_digit(digit_char(v)),
        digit_value(digit_char(v)) == v,
{
}

proof fn lemma_decimal(n: nat)
    ensures
        decimal(n).len() > 0,
        all_digits(decimal(n)),
        digits_value(decimal(n)) == n,
    decreases n,
{
    if n < 10 {
        let s = decimal(n);
        lemma_digit_char(n);
        assert(s.drop_last() =~= Seq::<char>::empty());
        assert(digits_value(s.drop_last()) == 0);
        assert(s.last() == digit_char(n));
    } else {
        lemma_decimal(n / 10);
        lemma_digit_char(n % 10);
        let s = decimal(n);
        assert(s.drop_last() =~= decimal(n / 10));
        assert(s.last() == digit_char(n % 10));
        assert(digits_value(s) == digits_value(decimal(n / 10)) * 10 + n % 10);
        assert forall|j: int| 0 <= j < s.len() implies is_digit(#[trigger] s[j]) by {
            if j < s.len() - 1 {
                assert(s[j] == decimal(n / 10)[j]);
            }
        }
    }
}

/// For every natural number `n` the decimal numeral of `n` is a valid
/// number for `parse_page_size`, which therefore succeeds on it exactly when
/// `n` is a positive power of two that fits in `usize`, and then returns `n`.
pub proof fn lemma_page_size_numeral(n: nat)
    ensures
        unsigned_digits(decimal(n)) == decimal(n),
        decimal(n).len() > 0,
        all_digits(decimal(n)),
        digits_value(decimal(n)) == n,
        is_power_of_two(n as int) ==> n > 0,
{
    lemma_decimal(n);
    assert(is_digit(decimal(n)[0]));
    if is_power_of_two(n as int) {
        let e = choose|e: nat| pow2(e) == n;
        lemma_pow2_pos(e);
    }
}

} // verus!
