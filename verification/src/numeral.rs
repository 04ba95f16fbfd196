use vstd::prelude::*;
use crate::limit::lemma_limit_digits;
use crate::text::characters;

verus! {

/// Whether `c` is one of the ten decimal digits.
pub open spec fn is_digit(c: char) -> bool {
    '0' <= c && c <= '9'
}

/// Whether `c` may occur in a numeral: a decimal digit or the decimal point.
pub open spec fn is_numeral_char(c: char) -> bool {
    is_digit(c) || c == '.'
}

/// The value of a decimal digit; zero for every other character.
pub open spec fn digit_value(c: char) -> nat {
    if is_digit(c) {
        (c as u32 - '0' as u32) as nat
    } else {
        0
    }
}

/// The natural number that the characters of `s` denote in base ten.
pub open spec fn decimal_value(s: Seq<char>) -> nat
    decreases s.len(),
{
    if s.len() == 0 {
        0
    } else {
        10 * decimal_value(s.drop_last()) + digit_value(s.last())
    }
}

/// How many decimal points `s` holds.
pub open spec fn count_points(s: Seq<char>) -> nat
    decreases s.len(),
{
    if s.len() == 0 {
        0
    } else {
        count_points(s.drop_last()) + if s.last() == '.' { 1nat } else { 0nat }
    }
}

/// How many decimal digits `s` holds.
pub open spec fn count_digits(s: Seq<char>) -> nat
    decreases s.len(),
{
    if s.len() == 0 {
        0
    } else {
        count_digits(s.drop_last()) + if is_digit(s.last()) { 1nat } else { 0nat }
    }
}

/// The position of the first decimal point of `s`, or its length where it has none.
pub open spec fn point_position(s: Seq<char>) -> int
    decreases s.len(),
{
    if s.len() == 0 {
        0
    } else {
        let before = point_position(s.drop_last());
        if before < s.len() - 1 || s.last() == '.' {
            before
        } else {
            s.len() as int
        }
    }
}

/// There is no decimal point in front of the position, and there is one at it
/// unless it is the length.
pub proof fn lemma_point_position_is_first(s: Seq<char>)
    ensures
        0 <= point_position(s) <= s.len(),
        forall|i: int| 0 <= i < point_position(s) ==> #[trigger] s[i] != '.',
        point_position(s) < s.len() ==> s[point_position(s)] == '.',
    decreases s.len(),
{
    if s.len() > 0 {
        lemma_point_position_is_first(s.drop_last());
        assert forall|i: int| 0 <= i < point_position(s) implies #[trigger] s[i] != '.' by {
            if i < s.len() - 1 {
                assert(s.drop_last()[i] == s[i]);
            }
        }
    }
}

/// The characters in front of the decimal point.
pub open spec fn whole_part(s: Seq<char>) -> Seq<char> {
    s.take(point_position(s))
}

/// The syntax of a numeral: digits with at most one decimal point among them,
/// and at least one digit.
pub open spec fn is_well_formed(s: Seq<char>) -> bool {
    &&& forall|i: int| 0 <= i < s.len() ==> is_numeral_char(#[trigger] s[i])
    &&& count_points(s) <= 1
    &&& count_digits(s) >= 1
}

/// The decimal text of the limit of the finite range.
pub const LIMIT: &'static str = "179769313486231580793728971405303415079934132710037826936173778980444968292764750946649017977587207096330286416692887910946555547851940402630657488671505820681908902000708383676273854845817711531764475730270069855571366959622842914819860834936475292719074168444365510704342711559699508093042880177904174497792";

/// The decimal digits of the least whole number that no finite double-precision
/// value can stand for: the midpoint between the largest finite double and two to
/// the power 1024, which rounds away from the finite range.
pub open spec fn limit_digits() -> Seq<char> {
    LIMIT@
}

/// The number that [`limit_digits`] denotes, two to the power 1024 less two to the
/// power 970.
pub open spec fn limit() -> nat {
    decimal_value(limit_digits())
}

/// Whether the numeral is too large for a finite double: its whole part reaches
/// the limit. The fraction never matters, since the limit is a whole number.
pub open spec fn is_too_large(s: Seq<char>) -> bool {
    decimal_value(whole_part(s)) >= limit()
}

/// A well-formed numeral that a finite double can stand for.
pub open spec fn is_numeral(s: Seq<char>) -> bool {
    is_well_formed(s) && !is_too_large(s)
}

/// Why a text is no numeral.
#[derive(Debug, PartialEq, Eq, Clone, Copy, Structural)]
pub enum Defect {
    /// Not digits with at most one decimal point and at least one digit.
    Malformed,
    /// Well formed, and too large for a finite double.
    TooLarge,
}

/// What keeps `s` from being a numeral, if anything. Syntax is judged first.
pub open spec fn defect_of(s: Seq<char>) -> Option<Defect> {
    if !is_well_formed(s) {
        Some(Defect::Malformed)
    } else if is_too_large(s) {
        Some(Defect::TooLarge)
    } else {
        None
    }
}

/// A numeric literal of the language, kept as its decimal text.
#[derive(Debug, PartialEq, Eq)]
pub struct Numeral {
    digits: Vec<char>,
}

impl View for Numeral {
    type V = Seq<char>;

    closed spec fn view(&self) -> Seq<char> {
        self.digits@
    }
}

impl Clone for Numeral {
    fn clone(&self) -> (copy: Numeral)
        ensures
            copy@ == self@,
    {
        proof {
            use_type_invariant(self);
        }
        let digits = self.digits.clone();
        assert(digits@ =~= self.digits@);
        Numeral { digits }
    }
}

impl Numeral {
    #[verifier::type_invariant]
    spec fn valid(self) -> bool {
        is_numeral(self.digits@)
    }

    /// The numeral `0`.
    pub fn zero() -> (n: Numeral)
        ensures
            n@ == seq!['0'],
    {
        let mut digits: Vec<char> = Vec::new();
        digits.push('0');
        proof {
            lemma_zero_is_numeral();
            assert(digits@ =~= seq!['0']);
        }
        Numeral { digits }
    }

    /// The numeral with the given characters, or what keeps them from being one.
    pub fn new(digits: Vec<char>) -> (r: Result<Numeral, Defect>)
        ensures
            match defect_of(digits@) {
                None => r matches Ok(n) && n@ == digits@,
                Some(d) => r == Err::<Numeral, Defect>(d),
            },
    {
        let mut points: usize = 0;
        let mut count: usize = 0;
        let mut whole: usize = 0;
        let mut k: usize = 0;
        while k < digits.len()
            invariant
                k <= digits.len(),
                points == count_points(digits@.take(k as int)),
                count == count_digits(digits@.take(k as int)),
                whole == point_position(digits@.take(k as int)),
                points <= k,
                count <= k,
                whole <= k,
                forall|i: int| 0 <= i < k ==> is_numeral_char(#[trigger] digits@[i]),
                forall|i: int| 0 <= i < whole ==> is_digit(#[trigger] digits@[i]),
            decreases digits.len() - k,
        {
            let c = digits[k];
            proof {
                assert(digits@.take(k + 1).drop_last() =~= digits@.take(k as int));
            }
            if c == '.' {
                points += 1;
            } else if is_decimal_digit(c) {
                count += 1;
                if whole == k {
                    whole = k + 1;
                }
            } else {
                return Err(Defect::Malformed);
            }
            k += 1;
        }
        proof {
            assert(digits@.take(k as int) =~= digits@);
        }
        if points > 1 || count == 0 {
            return Err(Defect::Malformed);
        }
        if reaches_limit(&digits, whole) {
            return Err(Defect::TooLarge);
        }
        Ok(Numeral { digits })
    }

    /// The characters of the numeral.
    pub fn digits(&self) -> (digits: &Vec<char>)
        ensures
            digits@ == self@,
            is_numeral(self@),
    {
        proof {
            use_type_invariant(self);
        }
        &self.digits
    }
}

/// Ten to the power `n`.
pub open spec fn pow10(n: nat) -> nat
    decreases n,
{
    if n == 0 {
        1
    } else {
        10 * pow10((n - 1) as nat)
    }
}

/// A text of `n` characters denotes a number below ten to the power `n`.
pub proof fn lemma_value_upper(s: Seq<char>)
    ensures
        decimal_value(s) < pow10(s.len()),
    decreases s.len(),
{
    if s.len() > 0 {
        lemma_value_upper(s.drop_last());
    }
}

/// The value of two texts joined: the first is shifted by the length of the second.
pub proof fn lemma_value_concat(a: Seq<char>, b: Seq<char>)
    ensures
        decimal_value(a + b) == decimal_value(a) * pow10(b.len()) + decimal_value(b),
    decreases b.len(),
{
    if b.len() == 0 {
        assert(a + b =~= a);
        assert(pow10(0) == 1);
        assert(decimal_value(a) * 1 == decimal_value(a)) by (nonlinear_arith);
    } else {
        assert((a + b).drop_last() =~= a + b.drop_last());
        lemma_value_concat(a, b.drop_last());
        let x = decimal_value(a) as int;
        let p = pow10(b.drop_last().len()) as int;
        assert(pow10(b.len()) == 10 * p);
        assert((a + b).last() == b.last());
        assert(10 * (x * p) == x * (10 * p)) by (nonlinear_arith);
        assert(decimal_value(a + b) == 10 * (x * p + decimal_value(b.drop_last())) + digit_value(
            b.last(),
        ));
    }
}

/// What the counts and the value are on a single character.
proof fn lemma_single(c: char)
    ensures
        decimal_value(seq![c]) == digit_value(c),
        count_points(seq![c]) == if c == '.' { 1nat } else { 0nat },
        count_digits(seq![c]) == if is_digit(c) { 1nat } else { 0nat },
        point_position(seq![c]) == if c == '.' { 0int } else { 1int },
{
    let s = seq![c];
    assert(s.drop_last() =~= Seq::<char>::empty());
    reveal_with_fuel(decimal_value, 2);
    reveal_with_fuel(count_points, 2);
    reveal_with_fuel(count_digits, 2);
    reveal_with_fuel(point_position, 2);
}

/// A text that starts with a digit other than zero denotes a number of full length.
pub proof fn lemma_value_lower(s: Seq<char>)
    requires
        s.len() > 0,
        is_digit(s[0]),
        s[0] != '0',
    ensures
        decimal_value(s) >= pow10((s.len() - 1) as nat),
{
    let head = seq![s[0]];
    let tail = s.skip(1);
    assert(s =~= head + tail);
    lemma_value_concat(head, tail);
    lemma_single(s[0]);
    let d = digit_value(s[0]) as int;
    let p = pow10(tail.len()) as int;
    assert(d >= 1 && p >= 0 ==> d * p >= p) by (nonlinear_arith);
}

/// The limit has 309 digits.
pub proof fn lemma_limit_bounds()
    ensures
        limit_digits().len() == 309,
        pow10(308) <= limit() < pow10(309),
{
    lemma_limit_digits();
    lemma_value_upper(limit_digits());
    lemma_value_lower(limit_digits());
}

/// Ten to a greater power is no less.
pub proof fn lemma_pow10_grows(a: nat, b: nat)
    requires
        a <= b,
    ensures
        pow10(a) <= pow10(b),
    decreases b,
{
    if a < b {
        lemma_pow10_grows(a, (b - 1) as nat);
    }
}

/// Of two texts of one length whose first `k` characters denote the same number,
/// the one with the lesser digit at `k` denotes the lesser number.
pub proof fn lemma_first_difference(a: Seq<char>, b: Seq<char>, k: int)
    requires
        a.len() == b.len(),
        0 <= k < a.len(),
        decimal_value(a.take(k)) == decimal_value(b.take(k)),
        digit_value(a[k]) < digit_value(b[k]),
    ensures
        decimal_value(a) < decimal_value(b),
{
    let m = (a.len() - k - 1) as nat;
    assert(a =~= a.take(k + 1) + a.skip(k + 1));
    assert(b =~= b.take(k + 1) + b.skip(k + 1));
    lemma_value_concat(a.take(k + 1), a.skip(k + 1));
    lemma_value_concat(b.take(k + 1), b.skip(k + 1));
    assert(a.take(k + 1).drop_last() =~= a.take(k));
    assert(b.take(k + 1).drop_last() =~= b.take(k));
    lemma_value_upper(a.skip(k + 1));
    let x = decimal_value(a.take(k + 1)) as int;
    let y = decimal_value(b.take(k + 1)) as int;
    let p = pow10(m) as int;
    assert(x + 1 <= y);
    assert(x + 1 <= y && p >= 0 ==> (x + 1) * p <= y * p) by (nonlinear_arith);
    assert((x + 1) * p == x * p + p) by (nonlinear_arith);
}

fn is_decimal_digit(c: char) -> (b: bool)
    ensures
        b == is_digit(c),
{
    '0' <= c && c <= '9'
}

fn value_of_digit(c: char) -> (v: u32)
    ensures
        v == digit_value(c),
{
    if is_decimal_digit(c) {
        c as u32 - '0' as u32
    } else {
        0
    }
}

/// Whether the first `whole` characters of `digits`, all of them decimal digits,
/// denote a number that reaches the limit.
fn reaches_limit(digits: &Vec<char>, whole: usize) -> (b: bool)
    requires
        whole <= digits.len(),
        forall|i: int| 0 <= i < whole ==> is_digit(#[trigger] digits@[i]),
    ensures
        b == (decimal_value(digits@.take(whole as int)) >= limit()),
{
    let ghost all = digits@.take(whole as int);
    let mut z: usize = 0;
    while z < whole && digits[z] == '0'
        invariant
            z <= whole <= digits.len(),
            all == digits@.take(whole as int),
            decimal_value(all.take(z as int)) == 0,
        decreases whole - z,
    {
        proof {
            assert(all.take(z + 1).drop_last() =~= all.take(z as int));
        }
        z += 1;
    }
    let ghost tail = all.skip(z as int);
    let n = whole - z;
    proof {
        assert(all =~= all.take(z as int) + tail);
        lemma_value_concat(all.take(z as int), tail);
        assert(0 * pow10(tail.len()) == 0) by (nonlinear_arith);
        assert(decimal_value(all) == decimal_value(tail));
        lemma_limit_bounds();
        lemma_value_upper(tail);
        if n > 0 {
            lemma_value_lower(tail);
        }
    }
    if n > 309 {
        proof {
            lemma_pow10_grows(309, (n - 1) as nat);
        }
        return true;
    }
    if n < 309 {
        proof {
            lemma_pow10_grows(n as nat, 308);
        }
        return false;
    }
    let bound = characters(LIMIT);
    let mut k: usize = 0;
    while k < 309
        invariant
            k <= 309,
            n == 309,
            z + n == whole <= digits.len(),
            tail == digits@.take(whole as int).skip(z as int),
            tail.len() == 309,
            decimal_value(digits@.take(whole as int)) == decimal_value(tail),
            bound@ == limit_digits(),
            bound@.len() == 309,
            decimal_value(tail.take(k as int)) == decimal_value(bound@.take(k as int)),
        decreases 309 - k,
    {
        let x = value_of_digit(digits[z + k]);
        let y = value_of_digit(bound[k]);
        proof {
            assert(tail[k as int] == digits@[z + k]);
        }
        if x < y {
            proof {
                lemma_first_difference(tail, bound@, k as int);
            }
            return false;
        }
        if y < x {
            proof {
                lemma_first_difference(bound@, tail, k as int);
            }
            return true;
        }
        proof {
            assert(tail.take(k + 1).drop_last() =~= tail.take(k as int));
            assert(bound@.take(k + 1).drop_last() =~= bound@.take(k as int));
        }
        k += 1;
    }
    proof {
        assert(tail.take(309) =~= tail);
        assert(bound@.take(309) =~= bound@);
    }
    true
}

proof fn lemma_zero_is_numeral()
    ensures
        is_numeral(seq!['0']),
{
    let s = seq!['0'];
    lemma_single('0');
    assert(whole_part(s) =~= s);
    assert(decimal_value(s) == 0);
    lemma_limit_bounds();
}

} // verus!
