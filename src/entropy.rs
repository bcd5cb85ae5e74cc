use vstd::prelude::*;

verus! {

/// The mask with the bits of the digits 1 to 9 set (bit `d` stands for digit `d`).
pub const MASK: u32 = 0x3fe;

/// Whether bit `d` of `m` marks the digit `d` (1 to 9) as present.
pub open spec fn has_digit(m: u32, d: int) -> bool {
    1 <= d <= 9 && (m >> (d as u32)) & 1u32 == 1u32
}

/// The set of digits that the bitmask `m` holds.
pub open spec fn digits_of(m: u32) -> Set<int> {
    Set::new(|d: int| has_digit(m, d))
}

/// A mask that uses no bit other than those of the digits 1 to 9.
pub open spec fn in_range(m: u32) -> bool {
    m & !MASK == 0
}

/// The set of all nine digits.
pub open spec fn all_digits() -> Set<int> {
    Set::new(|d: int| 1 <= d <= 9)
}

/// The full set holds every digit; taking a digit out of it leaves a set without that
/// digit and with one element fewer; taking out a digit that a set lacks changes nothing.
pub proof fn lemma_full_disable(s: Set<int>, d: int)
    requires
        1 <= d <= 9,
    ensures
        all_digits().finite(),
        all_digits().len() == 9,
        all_digits().contains(d),
        !all_digits().remove(d).contains(d),
        all_digits().remove(d).len() == all_digits().len() - 1,
        !s.contains(d) ==> s.remove(d) =~= s,
{
    vstd::set_lib::lemma_int_range(1, 10);
    assert(all_digits() =~= vstd::set_lib::set_int_range(1, 10));
}

/// The number of digits among 1 to `k` that `m` holds.
pub open spec fn count_upto(m: u32, k: int) -> nat
    decreases k,
{
    if k <= 0 {
        0
    } else {
        count_upto(m, k - 1) + if has_digit(m, k) {
            1nat
        } else {
            0nat
        }
    }
}

/// The digits among 1 to `k` that `m` holds.
spec fn digits_upto(m: u32, k: int) -> Set<int> {
    Set::new(|d: int| has_digit(m, d) && d <= k)
}

proof fn lemma_digits_upto(m: u32, k: int)
    requires
        0 <= k <= 9,
    ensures
        digits_upto(m, k).finite(),
        digits_upto(m, k).len() == count_upto(m, k),
    decreases k,
{
    if k == 0 {
        assert(digits_upto(m, k) =~= Set::empty());
    } else {
        lemma_digits_upto(m, k - 1);
        if has_digit(m, k) {
            assert(digits_upto(m, k) =~= digits_upto(m, k - 1).insert(k));
        } else {
            assert(digits_upto(m, k) =~= digits_upto(m, k - 1));
        }
    }
}

/// The digits of a mask form a finite set with as many elements as the mask has digit bits.
pub proof fn lemma_digits_len(m: u32)
    ensures
        digits_of(m).finite(),
        digits_of(m).len() == count_upto(m, 9),
        digits_of(m).len() <= 9,
{
    lemma_digits_upto(m, 9);
    assert(digits_of(m) =~= digits_upto(m, 9));
    assert(count_upto(m, 9) <= 9) by {
        reveal_with_fuel(count_upto, 10);
    }
}

proof fn lemma_bits_and(a: u32, b: u32)
    ensures
        forall|d: int| has_digit(a & b, d) == (has_digit(a, d) && has_digit(b, d)),
        forall|d: int| has_digit(!b & a, d) == (has_digit(a, d) && !has_digit(b, d)),
{
    assert(forall|d: u32|
        #![auto]
        d < 32 ==> ((((a & b) >> d) & 1u32 == 1u32) == ((a >> d) & 1u32 == 1u32 && (b >> d) & 1u32
            == 1u32))) by (bit_vector);
    assert(forall|d: u32|
        #![auto]
        d < 32 ==> ((((!b & a) >> d) & 1u32 == 1u32) == ((a >> d) & 1u32 == 1u32 && (b >> d) & 1u32
            != 1u32))) by (bit_vector);
    assert forall|d: int| has_digit(a & b, d) == (has_digit(a, d) && has_digit(b, d)) by {
        if 1 <= d <= 9 {
            let e = d as u32;
            assert(e < 32);
        }
    }
    assert forall|d: int| has_digit(!b & a, d) == (has_digit(a, d) && !has_digit(b, d)) by {
        if 1 <= d <= 9 {
            let e = d as u32;
            assert(e < 32);
        }
    }
}

proof fn lemma_single_bit(v: u32)
    requires
        1 <= v <= 9,
    ensures
        in_range(1u32 << v),
        (1u32 << v) != 0,
        digits_of(1u32 << v) =~= set![v as int],
        forall|d: int| has_digit(1u32 << v, d) == (d == v),
{
    assert(1 <= v <= 9 ==> (1u32 << v) & !0x3feu32 == 0 && (1u32 << v) != 0) by (bit_vector);
    assert(forall|d: u32|
        #![auto]
        d < 32 ==> ((((1u32 << v) >> d) & 1u32 == 1u32) == (d == v))) by (bit_vector)
        requires
            v < 32,
    ;
    assert forall|d: int| has_digit(1u32 << v, d) == (d == v) by {
        if 1 <= d <= 9 {
            let e = d as u32;
            assert(e < 32);
        }
    }
}

proof fn lemma_range_and(a: u32, b: u32)
    requires
        in_range(a),
    ensures
        in_range(a & b),
        in_range(!b & a),
{
    assert(a & !0x3feu32 == 0 ==> (a & b) & !0x3feu32 == 0 && (!b & a) & !0x3feu32 == 0)
        by (bit_vector);
}

/// A mask within range is zero exactly when it holds no digit.
pub proof fn lemma_zero_iff_empty(m: u32)
    requires
        in_range(m),
    ensures
        (m == 0) <==> digits_of(m) =~= Set::<int>::empty(),
{
    assert(m & !0x3feu32 == 0 && m != 0 ==> (m >> 1u32) & 1u32 == 1u32 || (m >> 2u32) & 1u32
        == 1u32 || (m >> 3u32) & 1u32 == 1u32 || (m >> 4u32) & 1u32 == 1u32 || (m >> 5u32) & 1u32
        == 1u32 || (m >> 6u32) & 1u32 == 1u32 || (m >> 7u32) & 1u32 == 1u32 || (m >> 8u32) & 1u32
        == 1u32 || (m >> 9u32) & 1u32 == 1u32) by (bit_vector);
    assert(forall|d: u32| #![auto] (0u32 >> d) & 1u32 != 1u32) by (bit_vector);
    if m == 0 {
        assert forall|d: int| !has_digit(m, d) by {
            if 1 <= d <= 9 {
                let e = d as u32;
                assert((0u32 >> e) & 1u32 != 1u32);
            }
        }
    } else {
        let w: int = if has_digit(m, 1) {
            1
        } else if has_digit(m, 2) {
            2
        } else if has_digit(m, 3) {
            3
        } else if has_digit(m, 4) {
            4
        } else if has_digit(m, 5) {
            5
        } else if has_digit(m, 6) {
            6
        } else if has_digit(m, 7) {
            7
        } else if has_digit(m, 8) {
            8
        } else {
            9
        };
        assert(has_digit(m, w));
        assert(digits_of(m).contains(w));
        assert(!Set::<int>::empty().contains(w));
    }
}

/// A set of at most one element that holds `a` is `{a}`.
pub proof fn lemma_singleton(s: Set<int>, a: int)
    requires
        s.finite(),
        s.len() == 1,
        s.contains(a),
    ensures
        s =~= set![a],
{
    s.remove(a).lemma_len0_is_empty();
    assert forall|b: int| s.contains(b) implies b == a by {
        if b != a {
            assert(s.remove(a).contains(b));
        }
    }
}

/// The number of digits that `m` holds, counted bit by bit.
fn count_digits(m: u32) -> (r: u32)
    ensures
        r == digits_of(m).len(),
{
    let mut count: u32 = 0;
    let mut d: u32 = 1;
    while d <= 9
        invariant
            1 <= d <= 10,
            count == count_upto(m, d - 1),
            count <= d - 1,
        decreases 10 - d,
    {
        if (m >> d) & 1 == 1 {
            count = count + 1;
        }
        d = d + 1;
    }
    proof {
        lemma_digits_len(m);
    }
    count
}

/// The smallest digit that `m` holds, if any.
fn first_digit(m: u32) -> (r: Option<u32>)
    ensures
        r matches Some(d) ==> has_digit(m, d as int) && forall|e: int|
            has_digit(m, e) ==> d <= e,
        r is None ==> digits_of(m) =~= Set::<int>::empty(),
{
    let mut d: u32 = 1;
    while d <= 9
        invariant
            1 <= d <= 10,
            forall|e: int| has_digit(m, e) ==> d <= e,
        decreases 10 - d,
    {
        if (m >> d) & 1 == 1 {
            return Some(d);
        }
        d = d + 1;
    }
    None
}

/// A digit of the puzzle, 1 to 9.
#[derive(PartialEq, Eq, Structural, Clone, Copy, Debug)]
pub struct Value(u32);

impl View for Value {
    type V = int;

    closed spec fn view(&self) -> int {
        self.0 as int
    }
}

impl Value {
    #[verifier::type_invariant]
    pub open spec fn wf(&self) -> bool {
        1 <= self@ <= 9
    }

    /// The digit `value`, or `None` unless `1 <= value <= 9`.
    pub fn new(value: u32) -> (r: Option<Value>)
        ensures
            r is Some <==> 1 <= value <= 9,
            r matches Some(v) ==> v@ == value,
    {
        if value > 0 && value <= 9 {
            Some(Value(value))
        } else {
            None
        }
    }

    /// The digit as a number.
    pub fn digit(&self) -> (r: u32)
        ensures
            r == self@,
    {
        self.0
    }
}

/// The digits that a cell may still take: a bitmask in which bit `d` stands for digit `d`.
/// A well-formed candidate set is never empty.
#[derive(PartialEq, Eq, Structural, Clone, Copy, Debug)]
pub struct Entropy(u32);

impl View for Entropy {
    type V = Set<int>;

    open spec fn view(&self) -> Set<int> {
        digits_of(self.mask())
    }
}

/// The error of a candidate set that would become empty: `main_entropy` is the set
/// that was to be narrowed, `conflicting_entropy` what it was narrowed by.
#[derive(Clone, Copy, Debug)]
pub struct EntropyConflictError {
    pub conflicting_entropy: Entropy,
    pub main_entropy: Entropy,
}

impl Entropy {
    /// The bitmask of the set.
    pub closed spec fn mask(&self) -> u32 {
        self.0
    }

    pub open spec fn wf(&self) -> bool {
        in_range(self.mask()) && self.mask() != 0
    }

    /// A well-formed candidate set holds between one and nine digits, all of them
    /// from 1 to 9.
    pub proof fn lemma_wf(&self)
        requires
            self.wf(),
        ensures
            self@.finite(),
            1 <= self@.len() <= 9,
            forall|d: int| self@.contains(d) ==> 1 <= d <= 9,
    {
        lemma_digits_len(self.0);
        lemma_zero_iff_empty(self.0);
        if self@.len() == 0 {
            self@.lemma_len0_is_empty();
        }
    }

    /// The set with digit `v` taken out.
    pub closed spec fn without(self, v: int) -> Entropy {
        Entropy(!(1u32 << (v as u32)) & self.0)
    }

    /// The intersection of two sets.
    pub closed spec fn meet(self, other: Entropy) -> Entropy {
        Entropy(self.0 & other.0)
    }

    pub proof fn lemma_without_meet(self, other: Entropy, v: int)
        requires
            1 <= v <= 9,
        ensures
            self.without(v)@ =~= self@.remove(v),
            self.meet(other)@ =~= self@.intersect(other@),
    {
        lemma_single_bit(v as u32);
        lemma_bits_and(self.0, 1u32 << (v as u32));
        lemma_bits_and(self.0, other.0);
    }

    /// The bitmask: bit `d` set for each digit `d` still possible.
    pub fn bits(&self) -> (r: u32)
        ensures
            r == self.mask(),
    {
        self.0
    }

    /// The candidate set with mask `bits`, or `None` where the mask is zero or sets a bit
    /// other than those of the digits 1 to 9.
    pub fn from_bits(bits: u32) -> (r: Option<Entropy>)
        ensures
            r is Some <==> bits != 0 && in_range(bits),
            r matches Some(e) ==> e.mask() == bits && e.wf(),
    {
        if bits != 0 && bits & !MASK == 0 {
            Some(Entropy(bits))
        } else {
            None
        }
    }

    /// The candidate set with all nine digits.
    pub fn new() -> (r: Entropy)
        ensures
            r.wf(),
            r@ =~= all_digits(),
    {
        proof {
            assert(forall|d: u32|
                #![auto]
                1 <= d <= 9 ==> (0x3feu32 >> d) & 1u32 == 1u32) by (bit_vector);
            assert(0x3feu32 & !0x3feu32 == 0) by (bit_vector);
            assert forall|d: int| 1 <= d <= 9 implies has_digit(MASK, d) by {
                let e = d as u32;
                assert(1 <= e <= 9);
            }
        }
        Entropy(MASK)
    }

    /// The candidate set that holds `value` alone.
    pub fn new_converged(value: Value) -> (r: Entropy)
        ensures
            r.wf(),
            r@ =~= set![value@],
    {
        proof {
            use_type_invariant(&value);
            lemma_single_bit(value.0);
        }
        Entropy(1u32 << value.0)
    }

    /// The number of digits still possible.
    pub fn len(&self) -> (r: u32)
        ensures
            r == self@.len(),
            r <= 9,
    {
        proof {
            lemma_digits_len(self.0);
        }
        count_digits(self.0)
    }

    /// Whether `value` is still possible.
    pub fn is_possible(&self, value: &Value) -> (r: bool)
        ensures
            r == self@.contains(value@),
    {
        proof {
            use_type_invariant(value);
        }
        (self.0 >> value.0) & 1 == 1
    }

    /// Takes `value` out of the set. `Ok(false)` where it was already out, and the
    /// set is unchanged; an error where it was the last digit left, and the set is
    /// unchanged too.
    pub fn disable(&mut self, value: &Value) -> (r: Result<bool, EntropyConflictError>)
        requires
            old(self).wf(),
        ensures
            final(self).wf(),
            !old(self)@.contains(value@) ==> r == Ok::<bool, EntropyConflictError>(false)
                && *final(self) == *old(self),
            old(self)@.contains(value@) && old(self)@.len() == 1 ==> r is Err && *final(self)
                == *old(self),
            old(self)@.contains(value@) && old(self)@.len() != 1 ==> r == Ok::<
                bool,
                EntropyConflictError,
            >(true) && final(self)@ =~= old(self)@.remove(value@),
            r matches Err(e) ==> e.main_entropy == *old(self) && e.conflicting_entropy@ =~= set![
                value@,
            ],
    {
        proof {
            use_type_invariant(value);
        }
        if self.is_possible(value) {
            if self.len() == 1 {
                Err(
                    EntropyConflictError {
                        main_entropy: *self,
                        conflicting_entropy: Entropy::new_converged(*value),
                    },
                )
            } else {
                let bit = 1u32 << value.0;
                proof {
                    lemma_single_bit(value.0);
                    lemma_bits_and(self.0, bit);
                    lemma_range_and(self.0, bit);
                    lemma_digits_len(self.0);
                    lemma_digits_len(!bit & self.0);
                    assert(digits_of(!bit & self.0) =~= self@.remove(value@));
                    lemma_zero_iff_empty(!bit & self.0);
                }
                self.0 = !bit & self.0;
                Ok(true)
            }
        } else {
            Ok(false)
        }
    }

    /// Narrows the set to its intersection with `other`, and hands back the digits
    /// that this took out. Where the intersection is empty, an error, and the set
    /// is unchanged.
    pub fn superimpose(&mut self, other: Entropy) -> (r: Result<ValueIter, EntropyConflictError>)
        requires
            old(self).wf(),
            other.wf(),
        ensures
            final(self).wf(),
            r is Err <==> old(self)@.intersect(other@) =~= Set::<int>::empty(),
            r is Err ==> *final(self) == *old(self),
            r matches Err(e) ==> e.main_entropy == *old(self) && e.conflicting_entropy == other,
            r is Ok ==> *final(self) == old(self).meet(other),
            r matches Ok(rest) ==> final(self)@ =~= old(self)@.intersect(other@) && rest.wf()
                && rest@ =~= old(self)@.difference(other@) && rest@.len() + final(self)@.len()
                == old(self)@.len(),
    {
        let rest = !other.0 & self.0;
        let (a, b) = (self.0, other.0);
        proof {
            lemma_bits_and(self.0, other.0);
            lemma_range_and(self.0, other.0);
            assert(digits_of(self.0 & other.0) =~= self@.intersect(other@));
            assert(digits_of(rest) =~= self@.difference(other@));
            lemma_zero_iff_empty(self.0 & other.0);
            lemma_digits_len(a);
            lemma_digits_len(b);
            vstd::set_lib::lemma_set_difference_len(self@, other@);
            assert((rest != a) == (a & b != 0)) by (bit_vector)
                requires
                    rest == !b & a,
            ;
        }
        if rest != self.0 {
            self.0 = self.0 & other.0;
            Ok(ValueIter(rest))
        } else {
            Err(EntropyConflictError { main_entropy: *self, conflicting_entropy: other })
        }
    }

    /// Narrows the set to `value` alone, as `superimpose` with the set `{value}`.
    pub fn try_converge(&mut self, value: &Value) -> (r: Result<ValueIter, EntropyConflictError>)
        requires
            old(self).wf(),
        ensures
            final(self).wf(),
            r is Err <==> !old(self)@.contains(value@),
            r is Err ==> *final(self) == *old(self),
            r matches Ok(rest) ==> final(self)@ =~= set![value@] && rest.wf() && rest@
                =~= old(self)@.remove(value@),
    {
        let single = Entropy::new_converged(*value);
        let r = self.superimpose(single);
        proof {
            if old(self)@.contains(value@) {
                assert(old(self)@.intersect(single@).contains(value@));
            }
        }
        r
    }

    /// Whether exactly one digit is left.
    pub fn is_converged(&self) -> (r: bool)
        ensures
            r == (self@.len() == 1),
    {
        self.len() == 1
    }

    /// The one digit left, where exactly one is left.
    pub fn check_convergence(&self) -> (r: Option<Value>)
        ensures
            r is Some <==> self@.len() == 1,
            r matches Some(v) ==> v.wf() && self@ =~= set![v@],
    {
        if self.len() == 1 {
            match first_digit(self.0) {
                Some(d) => {
                    proof {
                        lemma_digits_len(self.0);
                        lemma_singleton(self@, d as int);
                    }
                    Some(Value(d))
                },
                None => {
                    proof {
                        lemma_digits_len(self.0);
                    }
                    None
                },
            }
        } else {
            None
        }
    }

    /// The digits still possible, smallest first.
    pub fn into_iter(self) -> (r: ValueIter)
        ensures
            self.wf() ==> r.wf(),
            r@ == self@,
    {
        ValueIter(self.0)
    }
}

impl Default for Entropy {
    fn default() -> (r: Entropy)
        ensures
            r.wf(),
            r@ =~= all_digits(),
    {
        Entropy::new()
    }
}

impl Entropy {
    /// The candidate set that holds the digit `value` alone.
    pub closed spec fn converged(value: Value) -> Entropy {
        Entropy(1u32 << value.0)
    }

    pub proof fn lemma_converged(value: Value)
        requires
            value.wf(),
        ensures
            Entropy::converged(value).wf(),
            Entropy::converged(value)@ =~= set![value@],
    {
        lemma_single_bit(value.0);
    }
}

impl From<Value> for Entropy {
    fn from(value: Value) -> (r: Entropy) {
        proof {
            use_type_invariant(&value);
        }
        Entropy(1u32 << value.0)
    }
}

impl vstd::std_specs::convert::FromSpecImpl<Value> for Entropy {
    open spec fn obeys_from_spec() -> bool {
        true
    }

    open spec fn from_spec(value: Value) -> Entropy {
        Entropy::converged(value)
    }
}

/// The digits of a set, handed out one at a time from the smallest.
#[derive(Clone, Copy, Debug)]
pub struct ValueIter(u32);

impl View for ValueIter {
    type V = Set<int>;

    open spec fn view(&self) -> Set<int> {
        digits_of(self.mask())
    }
}

impl ValueIter {
    /// The bitmask of the digits not yet handed out.
    pub closed spec fn mask(&self) -> u32 {
        self.0
    }

    pub open spec fn wf(&self) -> bool {
        in_range(self.mask())
    }

    /// The digits not yet handed out form a finite set.
    pub proof fn lemma_finite(&self)
        ensures
            self@.finite(),
    {
        lemma_digits_len(self.0);
    }

    /// The number of digits not yet handed out.
    pub fn len(&self) -> (r: u32)
        ensures
            r == self@.len(),
            r <= 9,
    {
        proof {
            lemma_digits_len(self.0);
        }
        count_digits(self.0)
    }

    /// The smallest digit not yet handed out, which is then taken out.
    pub fn next(&mut self) -> (r: Option<Value>)
        requires
            old(self).wf(),
        ensures
            final(self).wf(),
            r is None <==> old(self)@ =~= Set::<int>::empty(),
            r is None <==> old(self)@.len() == 0,
            r is None ==> *final(self) == *old(self),
            r matches Some(v) ==> v.wf() && old(self)@.contains(v@) && (forall|e: int|
                old(self)@.contains(e) ==> v@ <= e) && final(self)@ =~= old(self)@.remove(v@)
                && final(self)@.len() == old(self)@.len() - 1,
    {
        proof {
            lemma_digits_len(self.0);
        }
        match first_digit(self.0) {
            Some(d) => {
                let bit = 1u32 << d;
                proof {
                    assert(old(self)@.contains(d as int));
                    lemma_single_bit(d);
                    lemma_bits_and(self.0, bit);
                    lemma_range_and(self.0, bit);
                }
                self.0 = !bit & self.0;
                Some(Value(d))
            },
            None => None,
        }
    }
}

} // verus!
