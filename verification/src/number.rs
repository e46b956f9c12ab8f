//! Numbers as wide as a wire.
//!
//! A circuit's wire holds a field element, which fits 256 bits; the types say of
//! how many bits a number is. [`Number`] holds any of them exactly.
use crate::fab::{capacity, le_bytes, le_value};
use vstd::prelude::*;

verus! {

/// `2` to the power `k`: how many numbers of `k` bits there are.
pub open spec fn two_to(k: nat) -> nat
    decreases k,
{
    if k == 0 {
        1
    } else {
        2 * two_to((k - 1) as nat)
    }
}

/// The powers of two grow.
pub proof fn lemma_two_to_grows(j: nat, k: nat)
    requires
        j < k,
    ensures
        two_to(j) < two_to(k),
        two_to(j) >= 1,
    decreases k,
{
    if j + 1 < k {
        lemma_two_to_grows(j, (k - 1) as nat);
    } else {
        lemma_two_to_positive(j);
    }
}

/// No power of two is zero.
pub proof fn lemma_two_to_positive(k: nat)
    ensures
        two_to(k) >= 1,
    decreases k,
{
    if k > 0 {
        lemma_two_to_positive((k - 1) as nat);
    }
}

proof fn lemma_two_to_adds(j: nat, k: nat)
    ensures
        two_to(j + k) == two_to(j) * two_to(k),
    decreases k,
{
    if k == 0 {
        assert(two_to(j) * 1 == two_to(j)) by (nonlinear_arith);
    } else {
        lemma_two_to_adds(j, (k - 1) as nat);
        let (a, b) = (two_to(j), two_to((k - 1) as nat));
        assert(2 * (a * b) == a * (2 * b)) by (nonlinear_arith);
    }
}

/// `k` bytes hold the numbers of `8 * k` bits.
pub proof fn lemma_capacity_is_a_power(k: nat)
    ensures
        capacity(k) == two_to(8 * k),
    decreases k,
{
    if k > 0 {
        lemma_capacity_is_a_power((k - 1) as nat);
        let rest = (8 * (k - 1)) as nat;
        lemma_two_to_adds(8, rest);
        assert(two_to(8) == 256) by {
            reveal_with_fuel(two_to, 9);
        }
        assert(8 * k == 8 + rest);
    }
}

/// The numbers below this one are those of 128 bits.
pub open spec fn half_limit() -> nat {
    0x1_0000_0000_0000_0000_0000_0000_0000_0000nat
}

/// The numbers below this one are those of 256 bits.
pub open spec fn limit() -> nat {
    0x1_0000_0000_0000_0000_0000_0000_0000_0000_0000_0000_0000_0000_0000_0000_0000_0000nat
}

/// What the two limits are.
pub proof fn lemma_limits()
    ensures
        half_limit() == two_to(128),
        limit() == two_to(256),
        limit() == capacity(32),
{
    assert(two_to(64) == 0x1_0000_0000_0000_0000nat) by {
        reveal_with_fuel(two_to, 65);
    }
    lemma_two_to_adds(64, 64);
    lemma_two_to_adds(128, 128);
    assert(0x1_0000_0000_0000_0000nat * 0x1_0000_0000_0000_0000nat == 0x1_0000_0000_0000_0000_0000_0000_0000_0000nat) by (nonlinear_arith);
    assert(0x1_0000_0000_0000_0000_0000_0000_0000_0000nat * 0x1_0000_0000_0000_0000_0000_0000_0000_0000nat
        == 0x1_0000_0000_0000_0000_0000_0000_0000_0000_0000_0000_0000_0000_0000_0000_0000_0000nat)
        by (nonlinear_arith);
    lemma_capacity_is_a_power(32);
}

/// A number of up to 256 bits.
#[derive(Clone, Copy, PartialEq, Eq, Structural, Debug)]
pub struct Number {
    /// Its upper 128 bits.
    pub high: u128,
    /// Its lower 128 bits.
    pub low: u128,
}

impl Number {
    /// The number.
    pub open spec fn view(&self) -> nat {
        self.high as nat * 0x1_0000_0000_0000_0000_0000_0000_0000_0000nat + self.low as nat
    }

    /// The number that `n` is, where it has up to 256 bits.
    pub open spec fn exactly(n: nat) -> Self {
        Number { high: (n / half_limit()) as u128, low: (n % half_limit()) as u128 }
    }

    /// A machine word.
    pub open spec fn word(word: u64) -> Self {
        Number { high: 0, low: word as u128 }
    }

    /// A machine word.
    pub fn of(word: u64) -> (r: Self)
        ensures
            r == Self::word(word),
            r@ == word,
    {
        Number { high: 0, low: word as u128 }
    }

    /// The number as a machine word, where it is one.
    pub fn to_word(&self) -> (r: Option<u64>)
        ensures
            match r {
                Some(word) => self@ == word,
                None => self@ > u64::MAX,
            },
    {
        if self.high == 0 && self.low <= u64::MAX as u128 {
            Some(self.low as u64)
        } else {
            None
        }
    }

    /// Whether the number is below another.
    pub fn below(&self, other: &Number) -> (r: bool)
        ensures
            r == (self@ < other@),
    {
        self.high < other.high || (self.high == other.high && self.low < other.low)
    }

    /// The sum, where it has up to 256 bits.
    pub fn plus(&self, other: &Number) -> (r: Number)
        requires
            self@ + other@ < limit(),
        ensures
            r@ == self@ + other@,
    {
        if self.low <= u128::MAX - other.low {
            Number { high: self.high + other.high, low: self.low + other.low }
        } else {
            let low: u128 = self.low - (u128::MAX - other.low) - 1;
            Number { high: self.high + other.high + 1, low }
        }
    }

    /// The number with one more digit of eight bits below it, where that has up
    /// to 256 bits.
    fn with_digit(&self, digit: u8) -> (r: Number)
        requires
            256 * self@ + digit < limit(),
        ensures
            r@ == 256 * self@ + digit,
    {
        let step: u128 = 0x1_0000_0000_0000_0000_0000_0000_0000_00u128;
        Number {
            high: self.high * 256 + self.low / step,
            low: (self.low % step) * 256 + digit as u128,
        }
    }

    /// The number without its lowest digit of eight bits, and that digit.
    fn split_digit(&self) -> (r: (Number, u8))
        ensures
            r.0@ == self@ / 256,
            r.1 == self@ % 256,
    {
        let step: u128 = 0x1_0000_0000_0000_0000_0000_0000_0000_00u128;
        let rest = Number {
            high: self.high / 256,
            low: (self.high % 256) * step + self.low / 256,
        };
        let digit: u8 = (self.low % 256) as u8;
        assert(self@ == 256 * rest@ + digit);
        (rest, digit)
    }

    /// `2` to the power `bits`, where that has up to 256 bits.
    pub fn two_to_the(bits: u32) -> (r: Number)
        requires
            bits < 256,
        ensures
            r@ == two_to(bits as nat),
    {
        let mut r: Number = Number::of(1);
        let mut i: u32 = 0;
        while i < bits
            invariant
                i <= bits < 256,
                r@ == two_to(i as nat),
            decreases bits - i,
        {
            proof {
                lemma_limits();
                lemma_two_to_grows((i + 1) as nat, 256);
            }
            r = r.plus(&r);
            i += 1;
        }
        r
    }

    /// The little-endian bytes, `width` of them.
    pub fn to_le(&self, width: u32) -> (r: Vec<u8>)
        ensures
            r@ == le_bytes(self@, width as nat),
    {
        let mut bytes: Vec<u8> = Vec::new();
        let mut rest: Number = *self;
        let mut i: u32 = 0;
        assert(bytes@ + le_bytes(rest@, (width - i) as nat) =~= le_bytes(self@, width as nat));
        while i < width
            invariant
                i <= width,
                bytes@ + le_bytes(rest@, (width - i) as nat) == le_bytes(self@, width as nat),
            decreases width - i,
        {
            let ghost before = bytes@;
            let ghost tail = le_bytes(rest@, (width - i) as nat);
            let (next, digit) = rest.split_digit();
            bytes.push(digit);
            proof {
                assert(tail == seq![(rest@ % 256) as u8] + le_bytes(
                    rest@ / 256,
                    (width - i - 1) as nat,
                ));
                assert(bytes@ + le_bytes(next@, (width - i - 1) as nat) =~= before + tail);
            }
            rest = next;
            i += 1;
        }
        assert(bytes@ =~= le_bytes(self@, width as nat));
        bytes
    }

    /// The number whose little-endian bytes these are, where it has up to 256
    /// bits.
    pub fn from_le(bytes: &Vec<u8>) -> (r: Option<Number>)
        ensures
            match r {
                Some(n) => n@ == le_value(bytes@) && le_value(bytes@) < limit(),
                None => le_value(bytes@) >= limit(),
            },
    {
        let top: u128 = 0x1_0000_0000_0000_0000_0000_0000_0000_00u128;
        let mut i: usize = bytes.len();
        let mut r: Number = Number::of(0);
        let mut over: bool = false;
        assert(bytes@.skip(i as int) =~= Seq::<u8>::empty());
        while i > 0
            invariant
                i <= bytes@.len(),
                top == 0x1_0000_0000_0000_0000_0000_0000_0000_00u128,
                over <==> le_value(bytes@.skip(i as int)) >= limit(),
                !over ==> r@ == le_value(bytes@.skip(i as int)),
            decreases i,
        {
            i -= 1;
            assert(bytes@.skip(i as int).skip(1) =~= bytes@.skip(i + 1));
            if !over && r.high < top {
                r = r.with_digit(bytes[i]);
            } else {
                over = true;
            }
        }
        assert(bytes@.skip(0) =~= bytes@);
        if over {
            None
        } else {
            Some(r)
        }
    }
}

/// A number is its value.
pub proof fn lemma_number_is_its_value(a: Number, b: Number)
    requires
        a@ == b@,
    ensures
        a == b,
{
}

/// Every number of up to 256 bits is one.
pub proof fn lemma_exactly(n: nat)
    requires
        n < limit(),
    ensures
        Number::exactly(n)@ == n,
{
}

/// A number is the one that its value is.
pub proof fn lemma_is_exactly(a: Number)
    ensures
        Number::exactly(a@) == a,
        a@ < limit(),
{
    lemma_exactly(a@);
    lemma_number_is_its_value(Number::exactly(a@), a);
}

/// The number these little-endian bytes are; zero where it has more than 256
/// bits.
pub open spec fn number_of(bytes: Seq<u8>) -> Number {
    if le_value(bytes) < limit() {
        Number::exactly(le_value(bytes))
    } else {
        Number::word(0)
    }
}

/// A byte string of up to `width` bytes is below their capacity.
pub proof fn lemma_le_bound(bytes: Seq<u8>, width: nat)
    requires
        bytes.len() <= width,
    ensures
        le_value(bytes) < capacity(width),
    decreases width,
{
    if bytes.len() > 0 {
        lemma_le_bound(bytes.skip(1), (width - 1) as nat);
    } else {
        lemma_capacity_is_a_power(width);
        lemma_two_to_positive(8 * width);
    }
}

/// A number's upper and lower 128 bits.
pub proof fn law_upper_and_lower_half(a: Number)
    ensures
        a@ / two_to(128) == a.high,
        a@ % two_to(128) == a.low,
        a@ < two_to(256),
{
    lemma_limits();
    lemma_is_exactly(a);
    let half = half_limit();
    assert(Number::exactly(a@).high == a.high);
    assert(a@ < limit());
    assert(a@ / half <= u128::MAX) by (nonlinear_arith)
        requires
            a@ < limit(),
            half == 0x1_0000_0000_0000_0000_0000_0000_0000_0000nat,
            limit() == 0x1_0000_0000_0000_0000_0000_0000_0000_0000_0000_0000_0000_0000_0000_0000_0000_0000nat,
    ;
}

/// A machine word is a number as it is.
pub proof fn law_words_are_numbers(word: u64)
    ensures
        Number::word(word)@ == word,
{
}

} // verus!
