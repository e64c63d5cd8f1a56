use vstd::prelude::*;

verus! {

/// The two ways an integer literal of the configuration language is stored:
/// values that came from a signed source (negative decimal literals and
/// hexadecimal literals) and values that came from an unsigned source
/// (non-negative decimal literals).
#[derive(PartialEq, Eq, Structural, PartialOrd, Ord, Clone, Copy, Debug)]
pub enum IntegerType {
    Negative(i64),
    Positive(u64),
}

/// A 64-bit integer value that remembers whether it was read as signed or unsigned.
#[derive(PartialEq, Eq, Structural, PartialOrd, Ord, Clone, Copy, Debug)]
pub struct Integer {
    inner: IntegerType,
}

/// The decimal digits of a natural number, most significant first.
pub open spec fn decimal_digits(n: nat) -> Seq<char>
    decreases n,
{
    if n < 10 {
        seq![digit_char(n)]
    } else {
        decimal_digits(n / 10).push(digit_char(n % 10))
    }
}

/// The ASCII character of a decimal digit.
pub open spec fn digit_char(d: nat) -> char {
    ('0' as nat + d) as char
}

/// The usual decimal representation of an integer: a minus sign for
/// negative numbers followed by the digits of its magnitude.
pub open spec fn decimal_text(i: int) -> Seq<char> {
    if i < 0 {
        seq!['-'] + decimal_digits((-i) as nat)
    } else {
        decimal_digits(i as nat)
    }
}

/// Formats a signed integer with `itoa::Buffer::format`.
/// Claimed: the text is the decimal representation of `n`.
#[verifier::external_body]
fn itoa_format_i64(n: i64) -> (s: String)
    ensures
        s@ == decimal_text(n as int),
{
    let mut buffer = itoa::Buffer::new();
    String::from(buffer.format(n))
}

/// Formats an unsigned integer with `itoa::Buffer::format`.
/// Claimed: the text is the decimal representation of `n`.
#[verifier::external_body]
fn itoa_format_u64(n: u64) -> (s: String)
    ensures
        s@ == decimal_text(n as int),
{
    let mut buffer = itoa::Buffer::new();
    String::from(buffer.format(n))
}

impl Integer {
    /// The representation the integer was stored with.
    pub closed spec fn kind(self) -> IntegerType {
        self.inner
    }

    /// The mathematical value of the integer.
    pub open spec fn value(self) -> int {
        match self.kind() {
            IntegerType::Negative(n) => n as int,
            IntegerType::Positive(n) => n as int,
        }
    }

    /// The integer stored as signed with value `v`.
    pub closed spec fn from_spec_i64(v: i64) -> Integer {
        Integer { inner: IntegerType::Negative(v) }
    }

    /// The integer stored as unsigned with value `v`.
    pub closed spec fn from_spec_u64(v: u64) -> Integer {
        Integer { inner: IntegerType::Positive(v) }
    }

    /// Two integers are equal exactly when they were stored the same way with the same value.
    pub proof fn lemma_kind_determines(a: Integer, b: Integer)
        requires
            a.kind() == b.kind(),
        ensures
            a == b,
    {
    }

    /// A signed integer is read back as the same signed value and never as an
    /// unsigned one; an unsigned integer is read back as the same unsigned value,
    /// and as a signed value exactly when it fits.
    pub proof fn lemma_read_back(a: i64, b: u64)
        ensures
            Integer::from_spec_i64(a).value() == a,
            i64::MIN <= Integer::from_spec_i64(a).value() <= i64::MAX,
            Integer::from_spec_i64(a).kind() == IntegerType::Negative(a),
            Integer::from_spec_u64(b).value() == b,
            Integer::from_spec_u64(b).kind() == IntegerType::Positive(b),
            (i64::MIN <= Integer::from_spec_u64(b).value() <= i64::MAX) == (b <= i64::MAX),
    {
    }

    /// An integer stored as signed.
    pub fn from_i64(value: i64) -> (r: Integer)
        ensures
            r.kind() == IntegerType::Negative(value),
            r == Integer::from_spec_i64(value),
    {
        Integer { inner: IntegerType::Negative(value) }
    }

    /// An integer stored as unsigned.
    pub fn from_u64(value: u64) -> (r: Integer)
        ensures
            r.kind() == IntegerType::Positive(value),
            r == Integer::from_spec_u64(value),
    {
        Integer { inner: IntegerType::Positive(value) }
    }

    /// Whether the value fits in an `i64`.
    pub fn is_i64(&self) -> (r: bool)
        ensures
            r == (i64::MIN <= self.value() <= i64::MAX),
    {
        match self.inner {
            IntegerType::Positive(n) => n <= i64::MAX as u64,
            IntegerType::Negative(_) => true,
        }
    }

    /// Whether the integer was stored as unsigned.
    pub fn is_u64(&self) -> (r: bool)
        ensures
            r == (self.kind() is Positive),
    {
        matches!(self.inner, IntegerType::Positive(_))
    }

    /// The value as an `i64`, when it fits.
    pub fn as_i64(&self) -> (r: Option<i64>)
        ensures
            match r {
                Some(v) => v as int == self.value(),
                None => self.value() > i64::MAX,
            },
    {
        match self.inner {
            IntegerType::Negative(n) => Some(n),
            IntegerType::Positive(n) => {
                if n <= i64::MAX as u64 {
                    Some(n as i64)
                } else {
                    None
                }
            },
        }
    }

    /// The value as a `u64`, when the integer was stored as unsigned.
    pub fn as_u64(&self) -> (r: Option<u64>)
        ensures
            match self.kind() {
                IntegerType::Positive(n) => r == Some(n),
                IntegerType::Negative(_) => r is None,
            },
    {
        match self.inner {
            IntegerType::Positive(n) => Some(n),
            IntegerType::Negative(_) => None,
        }
    }

    /// The decimal text of the integer.
    pub fn to_decimal_string(&self) -> (s: String)
        ensures
            s@ == decimal_text(self.value()),
    {
        match self.inner {
            IntegerType::Negative(n) => itoa_format_i64(n),
            IntegerType::Positive(n) => itoa_format_u64(n),
        }
    }
}

impl From<i64> for Integer {
    fn from(value: i64) -> (r: Integer) {
        Integer::from_i64(value)
    }
}

impl vstd::std_specs::convert::FromSpecImpl<i64> for Integer {
    open spec fn obeys_from_spec() -> bool {
        true
    }

    open spec fn from_spec(v: i64) -> Integer {
        Integer::from_spec_i64(v)
    }
}

impl From<u64> for Integer {
    fn from(value: u64) -> (r: Integer) {
        Integer::from_u64(value)
    }
}

impl vstd::std_specs::convert::FromSpecImpl<u64> for Integer {
    open spec fn obeys_from_spec() -> bool {
        true
    }

    open spec fn from_spec(v: u64) -> Integer {
        Integer::from_spec_u64(v)
    }
}

} // verus!
