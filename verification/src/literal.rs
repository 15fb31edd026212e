//! Literals: a variable or a constant, with a polarity and a flag that the
//! node representation uses to tell its kinds apart.

use core::ops::Not;
use vstd::prelude::*;
use vstd::string::StringExecFns;

verus! {

/// A machine word used to simulate many input patterns at once, one for
/// each bit.
pub trait Num: Copy {
    /// The number of bits of the word.
    spec fn width() -> int;

    /// Bit `i` of the word.
    spec fn bit(self, i: int) -> bool;

    /// The word with every bit clear.
    fn zeros() -> (r: Self)
        ensures
            forall|i: int| 0 <= i < Self::width() ==> !(#[trigger] r.bit(i)),
    ;

    /// The word with every bit set.
    fn ones() -> (r: Self)
        ensures
            forall|i: int| 0 <= i < Self::width() ==> #[trigger] r.bit(i),
    ;

    /// The And of two words, bit by bit.
    fn and(self, other: Self) -> (r: Self)
        ensures
            forall|i: int|
                0 <= i < Self::width() ==> #[trigger] r.bit(i) == (self.bit(i) && other.bit(i)),
    ;

    /// The Or of two words, bit by bit.
    fn or(self, other: Self) -> (r: Self)
        ensures
            forall|i: int|
                0 <= i < Self::width() ==> #[trigger] r.bit(i) == (self.bit(i) || other.bit(i)),
    ;

    /// The Xor of two words, bit by bit.
    fn xor(self, other: Self) -> (r: Self)
        ensures
            forall|i: int|
                0 <= i < Self::width() ==> #[trigger] r.bit(i) == (self.bit(i) != other.bit(i)),
    ;

    /// The complement of a word, bit by bit.
    fn inv(self) -> (r: Self)
        ensures
            forall|i: int| 0 <= i < Self::width() ==> #[trigger] r.bit(i) == !self.bit(i),
    ;
}

impl Num for u64 {
    open spec fn width() -> int {
        64
    }

    open spec fn bit(self, i: int) -> bool {
        (self >> (i as u64)) & 1 == 1
    }

    fn zeros() -> (r: u64) {
        assert forall|i: int| 0 <= i < 64 implies !(#[trigger] 0u64.bit(i)) by {
            let k = i as u64;
            assert((0u64 >> k) & 1 != 1) by (bit_vector);
        }
        0
    }

    fn ones() -> (r: u64) {
        assert forall|i: int| 0 <= i < 64 implies #[trigger] 0xffff_ffff_ffff_ffffu64.bit(i) by {
            let k = i as u64;
            assert((0xffff_ffff_ffff_ffffu64 >> k) & 1 == 1) by (bit_vector)
                requires
                    k < 64,
            ;
        }
        0xffff_ffff_ffff_ffff
    }

    fn and(self, other: u64) -> (r: u64) {
        let a = self;
        let b = other;
        assert forall|i: int| 0 <= i < 64 implies #[trigger] (a & b).bit(i) == (a.bit(i) && b.bit(
            i,
        )) by {
            let k = i as u64;
            assert((((a & b) >> k) & 1 == 1) == (((a >> k) & 1 == 1) && ((b >> k) & 1 == 1)))
                by (bit_vector);
        }
        self & other
    }

    fn or(self, other: u64) -> (r: u64) {
        let a = self;
        let b = other;
        assert forall|i: int| 0 <= i < 64 implies #[trigger] (a | b).bit(i) == (a.bit(i) || b.bit(
            i,
        )) by {
            let k = i as u64;
            assert((((a | b) >> k) & 1 == 1) == (((a >> k) & 1 == 1) || ((b >> k) & 1 == 1)))
                by (bit_vector);
        }
        self | other
    }

    fn xor(self, other: u64) -> (r: u64) {
        let a = self;
        let b = other;
        assert forall|i: int| 0 <= i < 64 implies #[trigger] (a ^ b).bit(i) == (a.bit(i) != b.bit(
            i,
        )) by {
            let k = i as u64;
            assert((((a ^ b) >> k) & 1 == 1) == (((a >> k) & 1 == 1) != ((b >> k) & 1 == 1)))
                by (bit_vector);
        }
        self ^ other
    }

    fn inv(self) -> (r: u64) {
        let a = self;
        assert forall|i: int| 0 <= i < 64 implies #[trigger] (!a).bit(i) == !a.bit(i) by {
            let k = i as u64;
            assert((((!a) >> k) & 1 == 1) == !((a >> k) & 1 == 1)) by (bit_vector)
                requires
                    k < 64,
            ;
        }
        !self
    }
}

impl Num for u32 {
    open spec fn width() -> int {
        32
    }

    open spec fn bit(self, i: int) -> bool {
        (self >> (i as u32)) & 1 == 1
    }

    fn zeros() -> (r: u32) {
        assert forall|i: int| 0 <= i < 32 implies !(#[trigger] 0u32.bit(i)) by {
            let k = i as u32;
            assert((0u32 >> k) & 1 != 1) by (bit_vector);
        }
        0
    }

    fn ones() -> (r: u32) {
        assert forall|i: int| 0 <= i < 32 implies #[trigger] 0xffff_ffffu32.bit(i) by {
            let k = i as u32;
            assert((0xffff_ffffu32 >> k) & 1 == 1) by (bit_vector)
                requires
                    k < 32,
            ;
        }
        0xffff_ffff
    }

    fn and(self, other: u32) -> (r: u32) {
        let a = self;
        let b = other;
        assert forall|i: int| 0 <= i < 32 implies #[trigger] (a & b).bit(i) == (a.bit(i) && b.bit(
            i,
        )) by {
            let k = i as u32;
            assert((((a & b) >> k) & 1 == 1) == (((a >> k) & 1 == 1) && ((b >> k) & 1 == 1)))
                by (bit_vector);
        }
        self & other
    }

    fn or(self, other: u32) -> (r: u32) {
        let a = self;
        let b = other;
        assert forall|i: int| 0 <= i < 32 implies #[trigger] (a | b).bit(i) == (a.bit(i) || b.bit(
            i,
        )) by {
            let k = i as u32;
            assert((((a | b) >> k) & 1 == 1) == (((a >> k) & 1 == 1) || ((b >> k) & 1 == 1)))
                by (bit_vector);
        }
        self | other
    }

    fn xor(self, other: u32) -> (r: u32) {
        let a = self;
        let b = other;
        assert forall|i: int| 0 <= i < 32 implies #[trigger] (a ^ b).bit(i) == (a.bit(i) != b.bit(
            i,
        )) by {
            let k = i as u32;
            assert((((a ^ b) >> k) & 1 == 1) == (((a >> k) & 1 == 1) != ((b >> k) & 1 == 1)))
                by (bit_vector);
        }
        self ^ other
    }

    fn inv(self) -> (r: u32) {
        let a = self;
        assert forall|i: int| 0 <= i < 32 implies #[trigger] (!a).bit(i) == !a.bit(i) by {
            let k = i as u32;
            assert((((!a) >> k) & 1 == 1) == !((a >> k) & 1 == 1)) by (bit_vector)
                requires
                    k < 32,
            ;
        }
        !self
    }
}

impl Num for u16 {
    open spec fn width() -> int {
        16
    }

    open spec fn bit(self, i: int) -> bool {
        (self >> (i as u16)) & 1 == 1
    }

    fn zeros() -> (r: u16) {
        assert forall|i: int| 0 <= i < 16 implies !(#[trigger] 0u16.bit(i)) by {
            let k = i as u16;
            assert((0u16 >> k) & 1 != 1) by (bit_vector);
        }
        0
    }

    fn ones() -> (r: u16) {
        assert forall|i: int| 0 <= i < 16 implies #[trigger] 0xffffu16.bit(i) by {
            let k = i as u16;
            assert((0xffffu16 >> k) & 1 == 1) by (bit_vector)
                requires
                    k < 16,
            ;
        }
        0xffff
    }

    fn and(self, other: u16) -> (r: u16) {
        let a = self;
        let b = other;
        assert forall|i: int| 0 <= i < 16 implies #[trigger] (a & b).bit(i) == (a.bit(i) && b.bit(
            i,
        )) by {
            let k = i as u16;
            assert((((a & b) >> k) & 1 == 1) == (((a >> k) & 1 == 1) && ((b >> k) & 1 == 1)))
                by (bit_vector);
        }
        self & other
    }

    fn or(self, other: u16) -> (r: u16) {
        let a = self;
        let b = other;
        assert forall|i: int| 0 <= i < 16 implies #[trigger] (a | b).bit(i) == (a.bit(i) || b.bit(
            i,
        )) by {
            let k = i as u16;
            assert((((a | b) >> k) & 1 == 1) == (((a >> k) & 1 == 1) || ((b >> k) & 1 == 1)))
                by (bit_vector);
        }
        self | other
    }

    fn xor(self, other: u16) -> (r: u16) {
        let a = self;
        let b = other;
        assert forall|i: int| 0 <= i < 16 implies #[trigger] (a ^ b).bit(i) == (a.bit(i) != b.bit(
            i,
        )) by {
            let k = i as u16;
            assert((((a ^ b) >> k) & 1 == 1) == (((a >> k) & 1 == 1) != ((b >> k) & 1 == 1)))
                by (bit_vector);
        }
        self ^ other
    }

    fn inv(self) -> (r: u16) {
        let a = self;
        assert forall|i: int| 0 <= i < 16 implies #[trigger] (!a).bit(i) == !a.bit(i) by {
            let k = i as u16;
            assert((((!a) >> k) & 1 == 1) == !((a >> k) & 1 == 1)) by (bit_vector)
                requires
                    k < 16,
            ;
        }
        !self
    }
}

impl Num for u8 {
    open spec fn width() -> int {
        8
    }

    open spec fn bit(self, i: int) -> bool {
        (self >> (i as u8)) & 1 == 1
    }

    fn zeros() -> (r: u8) {
        assert forall|i: int| 0 <= i < 8 implies !(#[trigger] 0u8.bit(i)) by {
            let k = i as u8;
            assert((0u8 >> k) & 1 != 1) by (bit_vector);
        }
        0
    }

    fn ones() -> (r: u8) {
        assert forall|i: int| 0 <= i < 8 implies #[trigger] 0xffu8.bit(i) by {
            let k = i as u8;
            assert((0xffu8 >> k) & 1 == 1) by (bit_vector)
                requires
                    k < 8,
            ;
        }
        0xff
    }

    fn and(self, other: u8) -> (r: u8) {
        let a = self;
        let b = other;
        assert forall|i: int| 0 <= i < 8 implies #[trigger] (a & b).bit(i) == (a.bit(i) && b.bit(
            i,
        )) by {
            let k = i as u8;
            assert((((a & b) >> k) & 1 == 1) == (((a >> k) & 1 == 1) && ((b >> k) & 1 == 1)))
                by (bit_vector);
        }
        self & other
    }

    fn or(self, other: u8) -> (r: u8) {
        let a = self;
        let b = other;
        assert forall|i: int| 0 <= i < 8 implies #[trigger] (a | b).bit(i) == (a.bit(i) || b.bit(
            i,
        )) by {
            let k = i as u8;
            assert((((a | b) >> k) & 1 == 1) == (((a >> k) & 1 == 1) || ((b >> k) & 1 == 1)))
                by (bit_vector);
        }
        self | other
    }

    fn xor(self, other: u8) -> (r: u8) {
        let a = self;
        let b = other;
        assert forall|i: int| 0 <= i < 8 implies #[trigger] (a ^ b).bit(i) == (a.bit(i) != b.bit(
            i,
        )) by {
            let k = i as u8;
            assert((((a ^ b) >> k) & 1 == 1) == (((a >> k) & 1 == 1) != ((b >> k) & 1 == 1)))
                by (bit_vector);
        }
        self ^ other
    }

    fn inv(self) -> (r: u8) {
        let a = self;
        assert forall|i: int| 0 <= i < 8 implies #[trigger] (!a).bit(i) == !a.bit(i) by {
            let k = i as u8;
            assert((((!a) >> k) & 1 == 1) == !((a >> k) & 1 == 1)) by (bit_vector)
                requires
                    k < 8,
            ;
        }
        !self
    }
}

/// A variable or a constant, possibly inverted, with a flag.
#[derive(Clone, Copy, Debug, PartialEq, Eq, Hash, Ord, Structural)]
pub struct Lit {
    /// The variable; none for the constant.
    pub variable: Option<u32>,
    /// The flag that marks the first literal of a multiplexer.
    pub flag: bool,
    /// Whether the literal is inverted. The inverted constant is 1.
    pub inverted: bool,
}

/// The digit that stands for a number below ten.
pub open spec fn digit(d: nat) -> char {
    if d == 0 {
        '0'
    } else if d == 1 {
        '1'
    } else if d == 2 {
        '2'
    } else if d == 3 {
        '3'
    } else if d == 4 {
        '4'
    } else if d == 5 {
        '5'
    } else if d == 6 {
        '6'
    } else if d == 7 {
        '7'
    } else if d == 8 {
        '8'
    } else {
        '9'
    }
}

/// A number written in base ten.
pub open spec fn decimal(n: nat) -> Seq<char>
    decreases n,
{
    if n < 10 {
        seq![digit(n)]
    } else {
        decimal(n / 10).push(digit(n % 10))
    }
}

/// The text of a digit.
fn digit_text(d: u32) -> (s: &'static str)
    requires
        d < 10,
    ensures
        s@ == seq![digit(d as nat)],
{
    proof {
        reveal_strlit("0");
        reveal_strlit("1");
        reveal_strlit("2");
        reveal_strlit("3");
        reveal_strlit("4");
        reveal_strlit("5");
        reveal_strlit("6");
        reveal_strlit("7");
        reveal_strlit("8");
        reveal_strlit("9");
    }
    let s = if d == 0 {
        "0"
    } else if d == 1 {
        "1"
    } else if d == 2 {
        "2"
    } else if d == 3 {
        "3"
    } else if d == 4 {
        "4"
    } else if d == 5 {
        "5"
    } else if d == 6 {
        "6"
    } else if d == 7 {
        "7"
    } else if d == 8 {
        "8"
    } else {
        "9"
    };
    assert(s@ =~= seq![digit(d as nat)]);
    s
}

/// Appends a number, written in base ten, to a text.
pub fn append_decimal(text: &mut String, n: u64)
    ensures
        final(text)@ == old(text)@ + decimal(n as nat),
    decreases n,
{
    if n >= 10 {
        append_decimal(text, n / 10);
    }
    text.append(digit_text((n % 10) as u32));
    assert(text@ =~= old(text)@ + decimal(n as nat));
}

impl Lit {
    /// Position of the variable in the order of the literals: the constant
    /// first, then the variables by number.
    pub open spec fn ord(self) -> int {
        match self.variable {
            None => 0,
            Some(v) => v + 1,
        }
    }

    /// Position of the literal in the order: by variable, then the flag,
    /// then the polarity.
    pub open spec fn rank(self) -> int {
        4 * self.ord() + if self.flag {
            2int
        } else {
            0int
        } + if self.inverted {
            1int
        } else {
            0int
        }
    }

    /// The same literal with the opposite polarity.
    pub open spec fn complement(self) -> Lit {
        Lit { variable: self.variable, flag: self.flag, inverted: !self.inverted }
    }

    /// The same literal, flag cleared.
    pub open spec fn plain(self) -> Lit {
        Lit { variable: self.variable, flag: false, inverted: self.inverted }
    }

    /// The same literal, flag set.
    pub open spec fn flagged(self) -> Lit {
        Lit { variable: self.variable, flag: true, inverted: self.inverted }
    }

    /// The same literal, not inverted.
    pub open spec fn positive(self) -> Lit {
        Lit { variable: self.variable, flag: self.flag, inverted: false }
    }

    /// The constant of a truth value.
    pub open spec fn constant(value: bool) -> Lit {
        Lit { variable: None, flag: false, inverted: value }
    }

    /// The literal of a variable, neither inverted nor flagged.
    pub open spec fn of(v: u32) -> Lit {
        Lit { variable: Some(v), flag: false, inverted: false }
    }

    /// The truth value of the literal where its variable has the value
    /// `x`; the constant is false before inversion.
    pub open spec fn value(self, x: bool) -> bool {
        match self.variable {
            None => self.inverted,
            Some(_) => x != self.inverted,
        }
    }

    /// The text of the literal: `0` and `1` for the constants, `v` and the
    /// number for a variable, after `!` where it is inverted.
    pub open spec fn text(self) -> Seq<char> {
        match self.variable {
            None => if self.inverted {
                seq!['1']
            } else {
                seq!['0']
            },
            Some(v) => if self.inverted {
                seq!['!', 'v'] + decimal(v as nat)
            } else {
                seq!['v'] + decimal(v as nat)
            },
        }
    }

    /// The constant 0.
    pub fn zero() -> (l: Lit)
        ensures
            l == Lit::constant(false),
    {
        Lit { variable: None, flag: false, inverted: false }
    }

    /// The constant 1.
    pub fn one() -> (l: Lit)
        ensures
            l == Lit::constant(true),
    {
        Lit { variable: None, flag: false, inverted: true }
    }

    /// The literal of variable `v`.
    pub fn from_var(v: u32) -> (l: Lit)
        ensures
            l == Lit::of(v),
    {
        Lit { variable: Some(v), flag: false, inverted: false }
    }

    /// The number of the variable.
    pub fn var(&self) -> (v: u32)
        requires
            self.variable is Some,
        ensures
            self.variable == Some(v),
    {
        match self.variable {
            Some(v) => v,
            None => 0,
        }
    }

    /// Position of the variable in the order of the literals.
    pub fn ind(&self) -> (r: u64)
        ensures
            r == self.ord(),
    {
        match self.variable {
            None => 0,
            Some(v) => v as u64 + 1,
        }
    }

    /// Position of the literal in the order.
    pub fn raw(&self) -> (r: u64)
        ensures
            r == self.rank(),
    {
        let f: u64 = if self.flag {
            2
        } else {
            0
        };
        let p: u64 = if self.inverted {
            1
        } else {
            0
        };
        4 * self.ind() + f + p
    }

    /// Whether the literal is a constant.
    pub fn is_constant(&self) -> (b: bool)
        ensures
            b == (self.variable is None),
    {
        self.variable.is_none()
    }

    /// Whether the literal is inverted.
    pub fn pol(&self) -> (b: bool)
        ensures
            b == self.inverted,
    {
        self.inverted
    }

    /// Whether the flag is set.
    pub fn flag(&self) -> (b: bool)
        ensures
            b == self.flag,
    {
        self.flag
    }

    /// The same literal, flag set.
    pub fn with_flag(&self) -> (l: Lit)
        ensures
            l == self.flagged(),
    {
        Lit { variable: self.variable, flag: true, inverted: self.inverted }
    }

    /// The same literal, flag cleared.
    pub fn without_flag(&self) -> (l: Lit)
        ensures
            l == self.plain(),
    {
        Lit { variable: self.variable, flag: false, inverted: self.inverted }
    }

    /// The same literal, not inverted.
    pub fn without_inversion(&self) -> (l: Lit)
        ensures
            l == self.positive(),
    {
        Lit { variable: self.variable, flag: self.flag, inverted: false }
    }

    /// The polarity as a word: every bit set where the literal is
    /// inverted, every bit clear where it is not.
    pub fn pol_to_word<T: Num>(&self) -> (w: T)
        ensures
            forall|i: int| 0 <= i < T::width() ==> #[trigger] w.bit(i) == self.inverted,
    {
        if self.inverted {
            T::ones()
        } else {
            T::zeros()
        }
    }

    /// The flag as a word: every bit set where the flag is, every bit
    /// clear where it is not.
    pub fn flag_to_word<T: Num>(&self) -> (w: T)
        ensures
            forall|i: int| 0 <= i < T::width() ==> #[trigger] w.bit(i) == self.flag,
    {
        if self.flag {
            T::ones()
        } else {
            T::zeros()
        }
    }

    /// The text of the literal; see `text`.
    pub fn to_string(&self) -> (s: String)
        ensures
            s@ == self.text(),
    {
        proof {
            reveal_strlit("0");
            reveal_strlit("1");
            reveal_strlit("v");
            reveal_strlit("!v");
        }
        match self.variable {
            None => {
                let s = if self.inverted {
                    String::from_str("1")
                } else {
                    String::from_str("0")
                };
                assert(s@ =~= self.text());
                s
            },
            Some(v) => {
                let mut s = if self.inverted {
                    String::from_str("!v")
                } else {
                    String::from_str("v")
                };
                append_decimal(&mut s, v as u64);
                assert(s@ =~= self.text());
                s
            },
        }
    }

    /// Two literals are equal exactly when their positions in the order
    /// are.
    pub proof fn lemma_rank_injective(a: Lit, b: Lit)
        ensures
            a.rank() == b.rank() <==> a == b,
            a.ord() == b.ord() <==> a.variable == b.variable,
    {
    }
}

impl core::ops::Not for Lit {
    type Output = Lit;

    fn not(self) -> (r: Lit) {
        Lit { variable: self.variable, flag: self.flag, inverted: !self.inverted }
    }
}

impl vstd::std_specs::ops::NotSpecImpl for Lit {
    open spec fn obeys_not_spec() -> bool {
        true
    }

    open spec fn not_req(self) -> bool {
        true
    }

    open spec fn not_spec(self) -> Lit {
        self.complement()
    }
}

} // verus!
