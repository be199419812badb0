use vstd::prelude::*;

verus! {

/// The ring of integers modulo three; it is a field.
#[derive(Debug, Clone, Copy, PartialEq, Eq, Structural)]
pub enum Mod3 {
    Zero,
    One,
    Two,
}

/// The residue of an integer modulo three, as a ring element.
pub open spec fn mod3_of(n: int) -> Mod3 {
    if n % 3 == 0 {
        Mod3::Zero
    } else if n % 3 == 1 {
        Mod3::One
    } else {
        Mod3::Two
    }
}

impl Mod3 {
    /// The integer in `0..3` that this element stands for.
    pub open spec fn val(self) -> int {
        match self {
            Mod3::Zero => 0,
            Mod3::One => 1,
            Mod3::Two => 2,
        }
    }

    /// The sum, by the addition table.
    pub open spec fn add_spec(self, o: Mod3) -> Mod3 {
        match (self, o) {
            (Mod3::Zero, _) => o,
            (_, Mod3::Zero) => self,
            (Mod3::One, Mod3::One) => Mod3::Two,
            (Mod3::Two, Mod3::Two) => Mod3::One,
            _ => Mod3::Zero,
        }
    }

    /// The additive inverse.
    pub open spec fn neg_spec(self) -> Mod3 {
        match self {
            Mod3::Zero => Mod3::Zero,
            Mod3::One => Mod3::Two,
            Mod3::Two => Mod3::One,
        }
    }

    /// The difference: the sum with the additive inverse.
    pub open spec fn sub_spec(self, o: Mod3) -> Mod3 {
        self.add_spec(o.neg_spec())
    }

    /// The product, by the multiplication table.
    pub open spec fn mul_spec(self, o: Mod3) -> Mod3 {
        match (self, o) {
            (Mod3::Zero, _) => Mod3::Zero,
            (_, Mod3::Zero) => Mod3::Zero,
            (Mod3::One, _) => o,
            (_, Mod3::One) => self,
            _ => Mod3::One,
        }
    }

    /// The additive inverse.
    pub fn add_inv(&self) -> (r: Mod3)
        ensures
            r == self.neg_spec(),
            r.add_spec(*self) == Mod3::Zero,
    {
        match self {
            Mod3::Zero => Mod3::Zero,
            Mod3::One => Mod3::Two,
            Mod3::Two => Mod3::One,
        }
    }

    /// The multiplicative inverse of a non-zero element.
    pub fn mul_inv(&self) -> (r: Mod3)
        requires
            *self != Mod3::Zero,
        ensures
            self.mul_spec(r) == Mod3::One,
            r == *self,
    {
        match self {
            Mod3::Zero => Mod3::Zero,
            Mod3::One => Mod3::One,
            Mod3::Two => Mod3::Two,
        }
    }

    /// The additive identity.
    pub fn zero() -> (r: Mod3)
        ensures
            r == Mod3::Zero,
            r.val() == 0,
    {
        Mod3::Zero
    }

    pub fn is_zero(&self) -> (r: bool)
        ensures
            r == (*self == Mod3::Zero),
    {
        matches!(self, Mod3::Zero)
    }

    pub fn set_zero(&mut self)
        ensures
            *final(self) == Mod3::Zero,
    {
        *self = Mod3::Zero;
    }

    /// The multiplicative identity.
    pub fn one() -> (r: Mod3)
        ensures
            r == Mod3::One,
            r.val() == 1,
    {
        Mod3::One
    }

    pub fn is_one(&self) -> (r: bool)
        ensures
            r == (*self == Mod3::One),
    {
        matches!(self, Mod3::One)
    }

    pub fn set_one(&mut self)
        ensures
            *final(self) == Mod3::One,
    {
        *self = Mod3::One;
    }

    /// The residue of `n` modulo three.
    pub fn from_usize(n: usize) -> (r: Mod3)
        ensures
            r == mod3_of(n as int),
    {
        let m: usize = n % 3;
        if m == 0 {
            Mod3::Zero
        } else if m == 1 {
            Mod3::One
        } else {
            Mod3::Two
        }
    }

    /// The integer in `0..3` that this element stands for.
    pub fn to_usize(self) -> (r: usize)
        ensures
            r as int == self.val(),
    {
        match self {
            Mod3::Zero => 0,
            Mod3::One => 1,
            Mod3::Two => 2,
        }
    }

    pub fn add_assign(&mut self, o: Mod3)
        ensures
            *final(self) == old(self).add_spec(o),
    {
        *self = *self + o;
    }

    pub fn sub_assign(&mut self, o: Mod3)
        ensures
            *final(self) == old(self).sub_spec(o),
    {
        *self = *self - o;
    }

    pub fn mul_assign(&mut self, o: Mod3)
        ensures
            *final(self) == old(self).mul_spec(o),
    {
        *self = *self * o;
    }

    pub fn div_assign(&mut self, o: Mod3)
        requires
            o != Mod3::Zero,
        ensures
            *final(self) == old(self).mul_spec(o),
    {
        *self = *self / o;
    }

    /// A three-character label: `1  ` for zero, `w  ` for one, `w^2` for two.
    pub fn label(&self) -> (r: &'static str)
        ensures
            r@ == (match *self {
                Mod3::Zero => "1  "@,
                Mod3::One => "w  "@,
                Mod3::Two => "w^2"@,
            }),
    {
        proof {
            reveal_strlit("1  ");
            reveal_strlit("w  ");
            reveal_strlit("w^2");
        }
        match self {
            Mod3::Zero => "1  ",
            Mod3::One => "w  ",
            Mod3::Two => "w^2",
        }
    }
}

impl From<usize> for Mod3 {
    fn from(n: usize) -> (r: Mod3) {
        Mod3::from_usize(n)
    }
}

impl vstd::std_specs::convert::FromSpecImpl<usize> for Mod3 {
    open spec fn obeys_from_spec() -> bool {
        true
    }

    open spec fn from_spec(n: usize) -> Mod3 {
        mod3_of(n as int)
    }
}

impl From<Mod3> for usize {
    fn from(m: Mod3) -> (r: usize) {
        m.to_usize()
    }
}

impl vstd::std_specs::convert::FromSpecImpl<Mod3> for usize {
    open spec fn obeys_from_spec() -> bool {
        true
    }

    open spec fn from_spec(m: Mod3) -> usize {
        m.val() as usize
    }
}

impl core::ops::Add for Mod3 {
    type Output = Mod3;

    fn add(self, o: Mod3) -> (r: Mod3) {
        match (self, o) {
            (Mod3::Zero, _) => o,
            (_, Mod3::Zero) => self,
            (Mod3::One, Mod3::One) => Mod3::Two,
            (Mod3::One, Mod3::Two) => Mod3::Zero,
            (Mod3::Two, Mod3::One) => Mod3::Zero,
            (Mod3::Two, Mod3::Two) => Mod3::One,
        }
    }
}

impl vstd::std_specs::ops::AddSpecImpl for Mod3 {
    open spec fn obeys_add_spec() -> bool {
        true
    }

    open spec fn add_req(self, o: Mod3) -> bool {
        true
    }

    open spec fn add_spec(self, o: Mod3) -> Mod3 {
        Mod3::add_spec(self, o)
    }
}

impl core::ops::Sub for Mod3 {
    type Output = Mod3;

    fn sub(self, o: Mod3) -> (r: Mod3) {
        match (self, o) {
            (Mod3::Zero, _) => o.add_inv(),
            (_, Mod3::Zero) => self,
            (Mod3::One, Mod3::One) => Mod3::Zero,
            (Mod3::One, Mod3::Two) => Mod3::Two,
            (Mod3::Two, Mod3::One) => Mod3::One,
            (Mod3::Two, Mod3::Two) => Mod3::Zero,
        }
    }
}

impl vstd::std_specs::ops::SubSpecImpl for Mod3 {
    open spec fn obeys_sub_spec() -> bool {
        true
    }

    open spec fn sub_req(self, o: Mod3) -> bool {
        true
    }

    open spec fn sub_spec(self, o: Mod3) -> Mod3 {
        Mod3::sub_spec(self, o)
    }
}

impl core::ops::Mul for Mod3 {
    type Output = Mod3;

    fn mul(self, o: Mod3) -> (r: Mod3) {
        match (self, o) {
            (Mod3::Zero, _) => Mod3::Zero,
            (_, Mod3::Zero) => Mod3::Zero,
            (Mod3::One, Mod3::One) => Mod3::One,
            (Mod3::One, Mod3::Two) => Mod3::Two,
            (Mod3::Two, Mod3::One) => Mod3::Two,
            (Mod3::Two, Mod3::Two) => Mod3::One,
        }
    }
}

impl vstd::std_specs::ops::MulSpecImpl for Mod3 {
    open spec fn obeys_mul_spec() -> bool {
        true
    }

    open spec fn mul_req(self, o: Mod3) -> bool {
        true
    }

    open spec fn mul_spec(self, o: Mod3) -> Mod3 {
        Mod3::mul_spec(self, o)
    }
}

impl core::ops::Div for Mod3 {
    type Output = Mod3;

    fn div(self, o: Mod3) -> (r: Mod3) {
        self * o.mul_inv()
    }
}

impl vstd::std_specs::ops::DivSpecImpl for Mod3 {
    open spec fn obeys_div_spec() -> bool {
        true
    }

    open spec fn div_req(self, o: Mod3) -> bool {
        o != Mod3::Zero
    }

    open spec fn div_spec(self, o: Mod3) -> Mod3 {
        Mod3::mul_spec(self, o)
    }
}

/// The ring laws, for any three elements: three times an element is zero; zero is a unit for
/// addition and one for multiplication; adding the additive inverse gives zero; both
/// operations are commutative and associative; multiplication distributes over addition; and
/// subtraction undoes addition.
pub proof fn lemma_ring_laws(a: Mod3, b: Mod3, c: Mod3)
    ensures
        a.add_spec(a).add_spec(a) == Mod3::Zero,
        Mod3::Zero.add_spec(a) == a,
        a.add_spec(Mod3::Zero) == a,
        Mod3::One.mul_spec(a) == a,
        a.mul_spec(Mod3::One) == a,
        a.add_spec(a.neg_spec()) == Mod3::Zero,
        a.add_spec(b) == b.add_spec(a),
        a.mul_spec(b) == b.mul_spec(a),
        a.add_spec(b).sub_spec(b) == a,
        a.add_spec(b).add_spec(c) == a.add_spec(b.add_spec(c)),
        a.mul_spec(b).mul_spec(c) == a.mul_spec(b.mul_spec(c)),
        a.mul_spec(b.add_spec(c)) == a.mul_spec(b).add_spec(a.mul_spec(c)),
{
    if a == Mod3::Zero {
        if b == Mod3::Zero {
            if c == Mod3::Zero {
            } else if c == Mod3::One {
            } else {
            }
        } else if b == Mod3::One {
            if c == Mod3::Zero {
            } else if c == Mod3::One {
            } else {
            }
        } else {
            if c == Mod3::Zero {
            } else if c == Mod3::One {
            } else {
            }
        }
    } else if a == Mod3::One {
        if b == Mod3::Zero {
            if c == Mod3::Zero {
            } else if c == Mod3::One {
            } else {
            }
        } else if b == Mod3::One {
            if c == Mod3::Zero {
            } else if c == Mod3::One {
            } else {
            }
        } else {
            if c == Mod3::Zero {
            } else if c == Mod3::One {
            } else {
            }
        }
    } else {
        if b == Mod3::Zero {
            if c == Mod3::Zero {
            } else if c == Mod3::One {
            } else {
            }
        } else if b == Mod3::One {
            if c == Mod3::Zero {
            } else if c == Mod3::One {
            } else {
            }
        } else {
            if c == Mod3::Zero {
            } else if c == Mod3::One {
            } else {
            }
        }
    }
}

#[verifier::external_type_specification]
#[verifier::external_body]
pub struct ExParseIntError(core::num::ParseIntError);

/// What `usize::from_str_radix` gives for a text and a radix, when it gives a number.
pub uninterp spec fn usize_from_text(s: Seq<char>, radix: u32) -> Option<usize>;

/// Relies on `num_traits::Num::from_str_radix` for `usize`, which forwards to std's
/// `usize::from_str_radix`: the outcome depends on the text and the radix alone, and a radix
/// outside `2..=36` panics.
#[verifier::external_body]
fn parse_usize(s: &str, radix: u32) -> (r: Result<usize, core::num::ParseIntError>)
    requires
        2 <= radix <= 36,
    ensures
        r is Ok <==> usize_from_text(s@, radix) is Some,
        r matches Ok(n) ==> usize_from_text(s@, radix) == Some(n),
{
    <usize as num_traits::Num>::from_str_radix(s, radix)
}

impl Mod3 {
    /// Reads an unsigned number in the given radix and takes it modulo three.
    pub fn from_str_radix(s: &str, radix: u32) -> (r: Result<Mod3, core::num::ParseIntError>)
        requires
            2 <= radix <= 36,
        ensures
            r is Ok <==> usize_from_text(s@, radix) is Some,
            r matches Ok(m) ==> (usize_from_text(s@, radix) matches Some(n) && m == mod3_of(
                n as int,
            )),
    {
        match parse_usize(s, radix) {
            Ok(n) => Ok(Mod3::from_usize(n)),
            Err(e) => Err(e),
        }
    }
}

} // verus!
