//! Numbers written in digits.
use crate::bytes::from;
use crate::git::error::GitError;
use vstd::prelude::*;

verus! {

/// What a number type must be able to do to be read from digits.
pub trait MinNumTraits: Sized + Copy {
    spec fn val(self) -> int;

    spec fn lo() -> int;

    spec fn hi() -> int;

    proof fn lemma_in_range(self)
        ensures
            Self::lo() <= 0 <= Self::hi(),
            Self::lo() <= self.val() <= Self::hi(),
    ;

    fn zero() -> (r: Self)
        ensures
            r.val() == 0,
    ;

    fn from_u32(n: u32) -> (r: Option<Self>)
        ensures
            r is Some <==> n <= Self::hi(),
            r matches Some(x) ==> x.val() == n,
    ;

    fn checked_mul(self, rhs: Self) -> (r: Option<Self>)
        ensures
            r is Some <==> Self::lo() <= self.val() * rhs.val() <= Self::hi(),
            r matches Some(x) ==> x.val() == self.val() * rhs.val(),
    ;

    fn checked_add(self, rhs: Self) -> (r: Option<Self>)
        ensures
            r is Some <==> Self::lo() <= self.val() + rhs.val() <= Self::hi(),
            r matches Some(x) ==> x.val() == self.val() + rhs.val(),
    ;

    fn checked_sub(self, rhs: Self) -> (r: Option<Self>)
        ensures
            r is Some <==> Self::lo() <= self.val() - rhs.val() <= Self::hi(),
            r matches Some(x) ==> x.val() == self.val() - rhs.val(),
    ;
}

impl MinNumTraits for i32 {
    open spec fn val(self) -> int {
        self as int
    }

    open spec fn lo() -> int {
        i32::MIN as int
    }

    open spec fn hi() -> int {
        i32::MAX as int
    }

    proof fn lemma_in_range(self) {
    }

    fn zero() -> (r: Self) {
        0
    }

    fn from_u32(n: u32) -> (r: Option<Self>) {
        if n <= i32::MAX as u32 {
            Some(n as i32)
        } else {
            None
        }
    }

    fn checked_mul(self, rhs: Self) -> (r: Option<Self>) {
        i32::checked_mul(self, rhs)
    }

    fn checked_add(self, rhs: Self) -> (r: Option<Self>) {
        i32::checked_add(self, rhs)
    }

    fn checked_sub(self, rhs: Self) -> (r: Option<Self>) {
        i32::checked_sub(self, rhs)
    }
}

impl MinNumTraits for i64 {
    open spec fn val(self) -> int {
        self as int
    }

    open spec fn lo() -> int {
        i64::MIN as int
    }

    open spec fn hi() -> int {
        i64::MAX as int
    }

    proof fn lemma_in_range(self) {
    }

    fn zero() -> (r: Self) {
        0
    }

    fn from_u32(n: u32) -> (r: Option<Self>) {
        Some(n as i64)
    }

    fn checked_mul(self, rhs: Self) -> (r: Option<Self>) {
        i64::checked_mul(self, rhs)
    }

    fn checked_add(self, rhs: Self) -> (r: Option<Self>) {
        i64::checked_add(self, rhs)
    }

    fn checked_sub(self, rhs: Self) -> (r: Option<Self>) {
        i64::checked_sub(self, rhs)
    }
}

impl MinNumTraits for u64 {
    open spec fn val(self) -> int {
        self as int
    }

    open spec fn lo() -> int {
        0
    }

    open spec fn hi() -> int {
        u64::MAX as int
    }

    proof fn lemma_in_range(self) {
    }

    fn zero() -> (r: Self) {
        0
    }

    fn from_u32(n: u32) -> (r: Option<Self>) {
        Some(n as u64)
    }

    fn checked_mul(self, rhs: Self) -> (r: Option<Self>) {
        u64::checked_mul(self, rhs)
    }

    fn checked_add(self, rhs: Self) -> (r: Option<Self>) {
        u64::checked_add(self, rhs)
    }

    fn checked_sub(self, rhs: Self) -> (r: Option<Self>) {
        u64::checked_sub(self, rhs)
    }
}

impl MinNumTraits for u8 {
    open spec fn val(self) -> int {
        self as int
    }

    open spec fn lo() -> int {
        0
    }

    open spec fn hi() -> int {
        u8::MAX as int
    }

    proof fn lemma_in_range(self) {
    }

    fn zero() -> (r: Self) {
        0
    }

    fn from_u32(n: u32) -> (r: Option<Self>) {
        if n <= u8::MAX as u32 {
            Some(n as u8)
        } else {
            None
        }
    }

    fn checked_mul(self, rhs: Self) -> (r: Option<Self>) {
        u8::checked_mul(self, rhs)
    }

    fn checked_add(self, rhs: Self) -> (r: Option<Self>) {
        u8::checked_add(self, rhs)
    }

    fn checked_sub(self, rhs: Self) -> (r: Option<Self>) {
        u8::checked_sub(self, rhs)
    }
}

impl MinNumTraits for usize {
    open spec fn val(self) -> int {
        self as int
    }

    open spec fn lo() -> int {
        0
    }

    open spec fn hi() -> int {
        usize::MAX as int
    }

    proof fn lemma_in_range(self) {
    }

    fn zero() -> (r: Self) {
        0
    }

    fn from_u32(n: u32) -> (r: Option<Self>) {
        Some(n as usize)
    }

    fn checked_mul(self, rhs: Self) -> (r: Option<Self>) {
        usize::checked_mul(self, rhs)
    }

    fn checked_add(self, rhs: Self) -> (r: Option<Self>) {
        usize::checked_add(self, rhs)
    }

    fn checked_sub(self, rhs: Self) -> (r: Option<Self>) {
        usize::checked_sub(self, rhs)
    }
}

/// The digit that `c` is, letters of either case being 10 and up.
pub open spec fn digit_value(c: u8) -> int {
    if 0x30 <= c <= 0x39 {
        c - 0x30
    } else if 0x41 <= c <= 0x5a {
        c - 0x41 + 10
    } else if 0x61 <= c <= 0x7a {
        c - 0x61 + 10
    } else {
        36
    }
}

/// Every byte of `s` is a digit of the base `radix`.
pub open spec fn all_digits(s: Seq<u8>, radix: int) -> bool {
    forall|i: int| 0 <= i < s.len() ==> digit_value(#[trigger] s[i]) < radix
}

/// The number that the digits of `s` write.
pub open spec fn digits_value(s: Seq<u8>, radix: int) -> int
    decreases s.len(),
{
    if s.len() == 0 {
        0
    } else {
        digits_value(s.drop_last(), radix) * radix + digit_value(s.last())
    }
}

/// The number that `s` writes without a sign, where it is no more than `hi`.
pub open spec fn unsigned_number(s: Seq<u8>, radix: int, hi: int) -> Option<int> {
    if s.len() > 0 && all_digits(s, radix) && digits_value(s, radix) <= hi {
        Some(digits_value(s, radix))
    } else {
        None
    }
}

/// The number that `s` writes, with or without a sign, where it is from `lo` to `hi`.
pub open spec fn signed_number(s: Seq<u8>, radix: int, lo: int, hi: int) -> Option<int> {
    if s.len() > 0 && s[0] == '+' as u8 {
        unsigned_number(from(s, 1), radix, hi)
    } else if s.len() > 0 && s[0] == '-' as u8 {
        match unsigned_number(from(s, 1), radix, -lo) {
            Some(n) => Some(-n),
            None => None,
        }
    } else {
        unsigned_number(s, radix, hi)
    }
}

/// The digit that `c` is in the base `radix`.
fn to_digit(c: u8, radix: u32) -> (r: Option<u32>)
    requires
        2 <= radix <= 36,
    ensures
        r is Some <==> digit_value(c) < radix,
        r matches Some(d) ==> d == digit_value(c),
{
    let d: u32 = if 0x30 <= c && c <= 0x39 {
        (c - 0x30) as u32
    } else if 0x41 <= c && c <= 0x5a {
        (c - 0x41) as u32 + 10
    } else if 0x61 <= c && c <= 0x7a {
        (c - 0x61) as u32 + 10
    } else {
        36
    };
    if d < radix {
        Some(d)
    } else {
        None
    }
}

pub proof fn lemma_digits_grow(s: Seq<u8>, n: int, radix: int)
    requires
        0 <= n <= s.len(),
        radix >= 1,
    ensures
        0 <= digits_value(s.take(n), radix) <= digits_value(s, radix),
    decreases s.len(),
{
    if n == s.len() {
        assert(s.take(n) =~= s);
        lemma_digits_not_negative(s, radix);
    } else {
        lemma_digits_grow(s.drop_last(), n, radix);
        assert(s.drop_last().take(n) =~= s.take(n));
        let v = digits_value(s.drop_last(), radix);
        assert(v * radix >= v) by (nonlinear_arith)
            requires
                v >= 0,
                radix >= 1,
        ;
    }
}

proof fn lemma_digits_not_negative(s: Seq<u8>, radix: int)
    requires
        radix >= 1,
    ensures
        0 <= digits_value(s, radix),
    decreases s.len(),
{
    if s.len() > 0 {
        lemma_digits_not_negative(s.drop_last(), radix);
        let v = digits_value(s.drop_last(), radix);
        assert(v * radix >= 0) by (nonlinear_arith)
            requires
                v >= 0,
                radix >= 1,
        ;
    }
}

/// Reads a number without a sign, written in the base `radix`.
pub fn to_unsigned_with_radix<I: MinNumTraits>(bytes: &[u8], radix: u32) -> (r: Result<I, GitError>)
    requires
        2 <= radix <= 36,
        radix <= I::hi(),
    ensures
        r matches Ok(x) ==> unsigned_number(bytes@, radix as int, I::hi()) == Some(x.val()),
        r matches Err(e) ==> e is Gen && unsigned_number(bytes@, radix as int, I::hi()) is None,
{
    let base = match I::from_u32(radix) {
        Some(base) => base,
        None => {
            return Err(GitError::Gen);
        },
    };
    if bytes.len() == 0 {
        return Err(GitError::Gen);
    }
    let mut result = I::zero();
    let mut i: usize = 0;
    assert(bytes@.take(0).len() == 0);
    while i < bytes.len()
        invariant
            2 <= radix <= 36,
            radix <= I::hi(),
            base.val() == radix,
            i <= bytes@.len(),
            all_digits(bytes@.take(i as int), radix as int),
            result.val() == digits_value(bytes@.take(i as int), radix as int),
        decreases bytes@.len() - i,
    {
        let ghost next = bytes@.take(i + 1);
        proof {
            assert(next.drop_last() =~= bytes@.take(i as int));
            assert(next.last() == bytes@[i as int]);
            lemma_digits_grow(bytes@, i + 1, radix as int);
            lemma_digits_grow(bytes@, i as int, radix as int);
            result.lemma_in_range();
            let v = result.val();
            assert(v * (radix as int) >= 0) by (nonlinear_arith)
                requires
                    v >= 0,
                    radix >= 2,
            ;
        }
        let x = match to_digit(bytes[i], radix) {
            Some(d) => match I::from_u32(d) {
                Some(x) => x,
                None => {
                    return Err(GitError::Gen);
                },
            },
            None => {
                return Err(GitError::Gen);
            },
        };
        result = match result.checked_mul(base) {
            Some(result) => result,
            None => {
                return Err(GitError::Gen);
            },
        };
        result = match result.checked_add(x) {
            Some(result) => result,
            None => {
                return Err(GitError::Gen);
            },
        };
        i += 1;
        proof {
            assert forall|j: int| 0 <= j < next.len() implies digit_value(#[trigger] next[j])
                < radix by {
                if j < i - 1 {
                    assert(next[j] == bytes@.take(i - 1)[j]);
                }
            }
        }
    }
    proof {
        assert(bytes@.take(i as int) =~= bytes@);
        result.lemma_in_range();
    }
    Ok(result)
}

/// Reads a number that may have a sign, written in the base 10.
pub fn to_signed<I: MinNumTraits>(bytes: &[u8]) -> (r: Result<I, GitError>)
    requires
        10 <= I::hi(),
    ensures
        r matches Ok(x) ==> signed_number(bytes@, 10, I::lo(), I::hi()) == Some(x.val()),
        r matches Err(e) ==> e is Gen && signed_number(bytes@, 10, I::lo(), I::hi()) is None,
{
    to_signed_with_radix(bytes, 10)
}

/// Reads a number that may have a sign, written in the base `radix`.
pub fn to_signed_with_radix<I: MinNumTraits>(bytes: &[u8], radix: u32) -> (r: Result<I, GitError>)
    requires
        2 <= radix <= 36,
        radix <= I::hi(),
    ensures
        r matches Ok(x) ==> signed_number(bytes@, radix as int, I::lo(), I::hi()) == Some(x.val()),
        r matches Err(e) ==> e is Gen && signed_number(bytes@, radix as int, I::lo(), I::hi())
            is None,
{
    let base = match I::from_u32(radix) {
        Some(base) => base,
        None => {
            return Err(GitError::Gen);
        },
    };
    if bytes.len() == 0 {
        return Err(GitError::Gen);
    }
    if bytes[0] == '+' as u8 {
        return to_unsigned_with_radix(&bytes[1..bytes.len()], radix);
    }
    if bytes[0] != '-' as u8 {
        return to_unsigned_with_radix(bytes, radix);
    }
    let digits: &[u8] = &bytes[1..bytes.len()];
    if digits.len() == 0 {
        return Err(GitError::Gen);
    }
    let mut result = I::zero();
    let mut i: usize = 0;
    assert(digits@.take(0).len() == 0);
    while i < digits.len()
        invariant
            2 <= radix <= 36,
            radix <= I::hi(),
            base.val() == radix,
            i <= digits@.len(),
            all_digits(digits@.take(i as int), radix as int),
            result.val() == -digits_value(digits@.take(i as int), radix as int),
            bytes@.len() > 0,
            bytes@[0] == '-' as u8,
            digits@ == from(bytes@, 1),
        decreases digits@.len() - i,
    {
        let ghost next = digits@.take(i + 1);
        proof {
            assert(next.drop_last() =~= digits@.take(i as int));
            assert(next.last() == digits@[i as int]);
            lemma_digits_grow(digits@, i + 1, radix as int);
            lemma_digits_grow(digits@, i as int, radix as int);
            result.lemma_in_range();
            let v = digits_value(digits@.take(i as int), radix as int);
            assert(v * (radix as int) >= 0) by (nonlinear_arith)
                requires
                    v >= 0,
                    radix >= 2,
            ;
            assert((-v) * (radix as int) == -(v * (radix as int))) by (nonlinear_arith);
        }
        let x = match to_digit(digits[i], radix) {
            Some(d) => match I::from_u32(d) {
                Some(x) => x,
                None => {
                    return Err(GitError::Gen);
                },
            },
            None => {
                return Err(GitError::Gen);
            },
        };
        result = match result.checked_mul(base) {
            Some(result) => result,
            None => {
                return Err(GitError::Gen);
            },
        };
        result = match result.checked_sub(x) {
            Some(result) => result,
            None => {
                return Err(GitError::Gen);
            },
        };
        i += 1;
        proof {
            assert forall|j: int| 0 <= j < next.len() implies digit_value(#[trigger] next[j])
                < radix by {
                if j < i - 1 {
                    assert(next[j] == digits@.take(i - 1)[j]);
                }
            }
        }
    }
    proof {
        assert(digits@.take(i as int) =~= digits@);
        result.lemma_in_range();
    }
    Ok(result)
}

/// The decimal digits of `n`.
pub open spec fn decimal(n: nat) -> Seq<u8>
    decreases n,
{
    if n < 10 {
        seq![(0x30 + n) as u8]
    } else {
        decimal(n / 10).push((0x30 + n % 10) as u8)
    }
}

/// Writing a number in decimal and reading it gives the number back.
pub proof fn law_decimal_read_back(n: nat)
    ensures
        decimal(n).len() > 0,
        all_digits(decimal(n), 10),
        digits_value(decimal(n), 10) == n,
        forall|i: int| 0 <= i < decimal(n).len() ==> 0x30 <= #[trigger] decimal(n)[i] <= 0x39,
    decreases n,
{
    let d = decimal(n);
    if n < 10 {
        assert(d.drop_last() =~= seq![]);
        assert(digits_value(d.drop_last(), 10) == 0);
        assert(d.last() == 0x30 + n);
    } else {
        assert(d.last() == 0x30 + n % 10);
        law_decimal_read_back(n / 10);
        assert(d.drop_last() =~= decimal(n / 10));
        assert forall|i: int| 0 <= i < d.len() implies 0x30 <= #[trigger] d[i] <= 0x39 by {
            if i < d.len() - 1 {
                assert(d[i] == decimal(n / 10)[i]);
            }
        }
        assert forall|i: int| 0 <= i < d.len() implies digit_value(#[trigger] d[i]) < 10 by {
        }
    }
}

/// Calls `itoa::Buffer::format`: the decimal digits of `n`.
#[verifier::external_body]
pub(crate) fn format_decimal(n: u64) -> (r: Vec<u8>)
    ensures
        r@ == decimal(n as nat),
{
    itoa::Buffer::new().format(n).as_bytes().to_vec()
}

} // verus!
