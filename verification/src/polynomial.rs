//! The shape of a dense polynomial: what is decided about its list of
//! coefficients without doing arithmetic on them.
//!
//! A polynomial is held as its coefficients in ascending order of degree. The
//! coefficients are real numbers and live outside this library. What is
//! decided here needs to know of a coefficient only whether it is zero,
//! whether it is negative, whether its magnitude is one, and how it is
//! written.

use crate::text::{decimal_nat, push_decimal_nat};
use vstd::prelude::*;
use vstd::string::*;

verus! {

/// Why a polynomial could not be built.
#[derive(Clone, Copy, Debug, PartialEq, Eq, Structural)]
pub enum PolynomialError {
    /// No coefficient, or no term, was given.
    EmptyInput,
    /// Two terms name the same degree.
    DegreeCollision,
}

/// Whether two of the degrees are the same.
pub open spec fn has_collision(degrees: Seq<usize>) -> bool {
    exists|i: int, j: int| 0 <= i < j < degrees.len() && degrees[i] == degrees[j]
}

/// Whether `slots` lays the terms out by degree: there is a slot for every
/// degree up to the highest that is named; the slot of a named degree holds
/// the position of the term that names it; every other slot is empty.
pub open spec fn is_layout(degrees: Seq<usize>, slots: Seq<Option<usize>>) -> bool {
    &&& slots.len() > 0
    &&& slots.last() is Some
    &&& forall|i: int|
        0 <= i < degrees.len() ==> (#[trigger] degrees[i]) < slots.len() && slots[degrees[i] as int]
            == Some(i as usize)
    &&& forall|d: int|
        0 <= d < slots.len() ==> match #[trigger] slots[d] {
            Some(i) => i < degrees.len() && degrees[i as int] == d,
            None => forall|i: int| 0 <= i < degrees.len() ==> degrees[i] != d,
        }
}

/// The length to which a list of coefficients is cut, given for each
/// coefficient whether it is zero: zeros at the high end go, but one
/// coefficient always stays.
pub open spec fn trimmed_len(zero: Seq<bool>) -> int
    decreases zero.len(),
{
    if zero.len() <= 1 {
        1
    } else if zero.last() {
        trimmed_len(zero.drop_last())
    } else {
        zero.len() as int
    }
}

/// The cut keeps at least one coefficient and no more than there are, drops
/// zeros only, and stops at the highest coefficient that is not zero.
pub proof fn lemma_trimmed_len(zero: Seq<bool>)
    requires
        zero.len() > 0,
    ensures
        1 <= trimmed_len(zero) <= zero.len(),
        forall|i: int| trimmed_len(zero) <= i < zero.len() ==> zero[i],
        trimmed_len(zero) > 1 ==> !zero[trimmed_len(zero) - 1],
    decreases zero.len(),
{
    if zero.len() > 1 && zero.last() {
        let init = zero.drop_last();
        lemma_trimmed_len(init);
        assert forall|i: int| trimmed_len(zero) <= i < zero.len() implies zero[i] by {
            if i < init.len() {
                assert(zero[i] == init[i]);
            }
        }
        if trimmed_len(zero) > 1 {
            assert(zero[trimmed_len(zero) - 1] == init[trimmed_len(zero) - 1]);
        }
    }
}

/// Cutting a list that was cut changes nothing more.
pub proof fn lemma_trim_idempotent(zero: Seq<bool>)
    requires
        zero.len() > 0,
    ensures
        trimmed_len(zero.take(trimmed_len(zero))) == trimmed_len(zero),
    decreases zero.len(),
{
    if zero.len() > 1 && zero.last() {
        let init = zero.drop_last();
        lemma_trimmed_len(init);
        lemma_trim_idempotent(init);
        assert(zero.take(trimmed_len(zero)) == init.take(trimmed_len(init)));
    } else {
        assert(zero.take(zero.len() as int) == zero);
    }
}

/// A list whose highest coefficient is not zero is not cut.
pub proof fn lemma_trim_keeps_canonical(zero: Seq<bool>)
    requires
        zero.len() > 0,
        !zero.last(),
    ensures
        trimmed_len(zero) == zero.len(),
{
}

/// Lays out the terms of a polynomial by degree. `degrees[i]` is the degree
/// that term `i` names. The result has a slot for each degree from zero to
/// the highest named, holding the position of the term of that degree, or
/// `None` where no term names it (its coefficient is zero).
///
/// Fails with `DegreeCollision` where two terms name the same degree, however
/// the terms are ordered, and with `EmptyInput` where there is no term.
pub fn degree_slots(degrees: &Vec<usize>) -> (out: Result<Vec<Option<usize>>, PolynomialError>)
    requires
        forall|i: int| 0 <= i < degrees.len() ==> degrees[i] < usize::MAX,
    ensures
        has_collision(degrees@) ==> out == Err::<Vec<Option<usize>>, PolynomialError>(
            PolynomialError::DegreeCollision,
        ),
        !has_collision(degrees@) && degrees.len() == 0 ==> out == Err::<
            Vec<Option<usize>>,
            PolynomialError,
        >(PolynomialError::EmptyInput),
        !has_collision(degrees@) && degrees.len() > 0 ==> out is Ok && is_layout(
            degrees@,
            out->Ok_0@,
        ),
{
    let n: usize = degrees.len();
    let mut j: usize = 0;
    while j < n
        invariant
            j <= n == degrees.len(),
            forall|a: int, b: int| 0 <= a < b < j ==> degrees[a] != degrees[b],
        decreases n - j,
    {
        let mut i: usize = 0;
        while i < j
            invariant
                i <= j < n == degrees.len(),
                forall|a: int| 0 <= a < i ==> degrees[a] != degrees[j as int],
            decreases j - i,
        {
            if degrees[i] == degrees[j] {
                assert(has_collision(degrees@));
                return Err(PolynomialError::DegreeCollision);
            }
            i += 1;
        }
        j += 1;
    }
    assert(!has_collision(degrees@));
    if n == 0 {
        return Err(PolynomialError::EmptyInput);
    }
    let mut highest: usize = degrees[0];
    let mut at: usize = 0;
    let mut k: usize = 1;
    while k < n
        invariant
            1 <= k <= n == degrees.len(),
            at < n,
            highest == degrees[at as int],
            forall|a: int| 0 <= a < k ==> degrees[a] <= highest,
        decreases n - k,
    {
        if degrees[k] > highest {
            highest = degrees[k];
            at = k;
        }
        k += 1;
    }
    let mut slots: Vec<Option<usize>> = Vec::new();
    let mut d: usize = 0;
    while d <= highest
        invariant
            d <= highest + 1,
            highest < usize::MAX,
            n == degrees.len(),
            slots@.len() == d,
            forall|a: int, b: int| 0 <= a < b < n ==> degrees[a] != degrees[b],
            forall|e: int|
                0 <= e < d ==> match #[trigger] slots@[e] {
                    Some(i) => i < n && degrees[i as int] == e,
                    None => forall|i: int| 0 <= i < n ==> degrees[i] != e,
                },
        decreases highest + 1 - d,
    {
        let mut found: Option<usize> = None;
        let mut i: usize = 0;
        while i < n
            invariant
                i <= n == degrees.len(),
                match found {
                    Some(p) => p < n && degrees[p as int] == d,
                    None => forall|a: int| 0 <= a < i ==> degrees[a] != d,
                },
            decreases n - i,
        {
            if found.is_none() && degrees[i] == d {
                found = Some(i);
            }
            i += 1;
        }
        slots.push(found);
        d += 1;
    }
    proof {
        assert forall|i: int| 0 <= i < degrees.len() implies (#[trigger] degrees[i]) < slots@.len()
            && slots@[degrees[i] as int] == Some(i as usize) by {
            let e = degrees[i] as int;
            match slots@[e] {
                Some(p) => {
                    if p != i {
                        if p < i {
                            assert(degrees[p as int] != degrees[i]);
                        } else {
                            assert(degrees[i] != degrees[p as int]);
                        }
                    }
                },
                None => {},
            }
        }
        assert(slots@[degrees[at as int] as int] == Some(at));
    }
    Ok(slots)
}

/// The length to which a list of coefficients is cut so that its highest
/// coefficient is not zero, or is the only one. `zero[i]` says whether the
/// coefficient of degree `i` is zero.
///
/// Fails with `EmptyInput` where there is no coefficient.
pub fn canonical_len(zero: &Vec<bool>) -> (out: Result<usize, PolynomialError>)
    ensures
        zero.len() == 0 ==> out == Err::<usize, PolynomialError>(PolynomialError::EmptyInput),
        zero.len() > 0 ==> out == Ok::<usize, PolynomialError>(trimmed_len(zero@) as usize),
        zero.len() > 0 ==> 1 <= trimmed_len(zero@) <= zero.len(),
{
    if zero.len() == 0 {
        return Err(PolynomialError::EmptyInput);
    }
    let mut n: usize = zero.len();
    proof {
        assert(zero@.take(n as int) == zero@);
        lemma_trimmed_len(zero@);
    }
    while n > 1 && zero[n - 1]
        invariant
            1 <= n <= zero.len(),
            trimmed_len(zero@.take(n as int)) == trimmed_len(zero@),
        decreases n,
    {
        proof {
            assert(zero@.take(n as int).drop_last() == zero@.take(n - 1));
        }
        n -= 1;
    }
    Ok(n)
}

/// What the text of a polynomial needs to know of one coefficient.
pub struct Term {
    /// Whether the coefficient is zero.
    pub zero: bool,
    /// Whether the coefficient is less than zero.
    pub negative: bool,
    /// Whether the magnitude of the coefficient is one.
    pub unit: bool,
    /// The coefficient as it is written, with its sign.
    pub text: String,
    /// The magnitude of the coefficient as it is written.
    pub magnitude: String,
}

/// The text that stands for a polynomial without coefficients.
pub open spec fn empty_text() -> Seq<char> {
    seq!['<', 'e', 'm', 'p', 't', 'y', '>']
}

/// The text of the power of degree `degree`: `x^` and the degree.
pub open spec fn power_text(degree: nat) -> Seq<char> {
    seq!['x', '^'] + decimal_nat(degree)
}

/// The text of the term of highest degree. In degree zero it is the
/// coefficient as written. Otherwise a coefficient of one is left out, one of
/// minus one leaves its sign, and any other stands before the power.
pub open spec fn leading_text(term: Term, degree: nat) -> Seq<char> {
    if degree == 0 {
        term.text@
    } else if term.unit && !term.negative {
        power_text(degree)
    } else if term.unit {
        seq!['-'] + power_text(degree)
    } else {
        term.text@ + power_text(degree)
    }
}

/// The sign that joins a term to those before it, between two spaces.
pub open spec fn joint_text(term: Term) -> Seq<char> {
    if term.negative {
        seq![' ', '-', ' ']
    } else {
        seq![' ', '+', ' ']
    }
}

/// The text of a term below the highest degree. A zero term has none. Any
/// other has its sign and then its magnitude before the power; a magnitude of
/// one is left out, except in degree zero, where there is no power.
pub open spec fn following_text(term: Term, degree: nat) -> Seq<char> {
    if term.zero {
        Seq::empty()
    } else if degree == 0 {
        joint_text(term) + term.magnitude@
    } else if term.unit {
        joint_text(term) + power_text(degree)
    } else {
        joint_text(term) + term.magnitude@ + power_text(degree)
    }
}

/// The text of the terms of degree below `n`, from the highest down.
pub open spec fn lower_text(terms: Seq<Term>, n: nat) -> Seq<char>
    decreases n,
{
    if n == 0 {
        Seq::empty()
    } else {
        following_text(terms[n - 1], (n - 1) as nat) + lower_text(terms, (n - 1) as nat)
    }
}

/// The text of the polynomial whose coefficients, in ascending order of
/// degree, are described by `terms`: the term of highest degree and then the
/// others from the highest down, zero terms left out.
pub open spec fn polynomial_text(terms: Seq<Term>) -> Seq<char> {
    if terms.len() == 0 {
        empty_text()
    } else {
        leading_text(terms.last(), (terms.len() - 1) as nat) + lower_text(
            terms,
            (terms.len() - 1) as nat,
        )
    }
}

/// Appends `x^` and the degree to `out`.
fn push_power(out: &mut String, degree: usize)
    ensures
        final(out)@ == old(out)@ + power_text(degree as nat),
{
    proof {
        reveal_strlit("x^");
    }
    out.append("x^");
    push_decimal_nat(out, degree as u64);
    assert("x^"@ == seq!['x', '^']);
    assert(final(out)@ == old(out)@ + power_text(degree as nat));
}

/// Appends the text of the term of highest degree to `out`.
fn push_leading(out: &mut String, term: &Term, degree: usize)
    ensures
        final(out)@ == old(out)@ + leading_text(*term, degree as nat),
{
    if degree == 0 {
        out.append(term.text.as_str());
    } else if term.unit && !term.negative {
        push_power(out, degree);
    } else if term.unit {
        proof {
            reveal_strlit("-");
        }
        out.append("-");
        push_power(out, degree);
        assert("-"@ == seq!['-']);
        assert(final(out)@ == old(out)@ + (seq!['-'] + power_text(degree as nat)));
    } else {
        out.append(term.text.as_str());
        push_power(out, degree);
        assert(final(out)@ == old(out)@ + (term.text@ + power_text(degree as nat)));
    }
}

/// Appends the text of a term below the highest degree to `out`.
fn push_following(out: &mut String, term: &Term, degree: usize)
    ensures
        final(out)@ == old(out)@ + following_text(*term, degree as nat),
{
    if term.zero {
        assert(old(out)@ + Seq::<char>::empty() == old(out)@);
        return ;
    }
    proof {
        reveal_strlit(" - ");
        reveal_strlit(" + ");
    }
    if term.negative {
        out.append(" - ");
        assert(" - "@ == seq![' ', '-', ' ']);
    } else {
        out.append(" + ");
        assert(" + "@ == seq![' ', '+', ' ']);
    }
    assert(out@ == old(out)@ + joint_text(*term));
    if degree == 0 {
        out.append(term.magnitude.as_str());
        assert(final(out)@ == old(out)@ + (joint_text(*term) + term.magnitude@));
    } else if term.unit {
        push_power(out, degree);
        assert(final(out)@ == old(out)@ + (joint_text(*term) + power_text(degree as nat)));
    } else {
        out.append(term.magnitude.as_str());
        push_power(out, degree);
        assert(final(out)@ == old(out)@ + (joint_text(*term) + term.magnitude@ + power_text(
            degree as nat,
        )));
    }
}

/// Writes a polynomial. `terms[i]` describes the coefficient of degree `i`.
/// A polynomial of degree zero is written as its coefficient. Otherwise the
/// terms stand from the highest degree down, zero terms left out; a term is
/// its coefficient and `x^` with its degree, a coefficient of magnitude one
/// left out; after the first term each is joined by ` + ` or ` - ` and
/// written by its magnitude. No coefficient at all is written `<empty>`.
pub fn render(terms: &Vec<Term>) -> (out: String)
    ensures
        out@ == polynomial_text(terms@),
{
    if terms.len() == 0 {
        proof {
            reveal_strlit("<empty>");
        }
        let out = String::from_str("<empty>");
        assert(out@ =~= empty_text());
        return out;
    }
    let degree: usize = terms.len() - 1;
    let mut out = String::new();
    push_leading(&mut out, &terms[degree], degree);
    assert(out@ == leading_text(terms@.last(), degree as nat));
    let mut i: usize = degree;
    while i > 0
        invariant
            i <= degree == terms.len() - 1,
            out@ + lower_text(terms@, i as nat) == polynomial_text(terms@),
        decreases i,
    {
        let ghost before = out@;
        push_following(&mut out, &terms[i - 1], i - 1);
        proof {
            let step = following_text(terms@[i - 1], (i - 1) as nat);
            assert(before + (step + lower_text(terms@, (i - 1) as nat)) == (before + step)
                + lower_text(terms@, (i - 1) as nat));
        }
        i -= 1;
    }
    assert(out@ + Seq::<char>::empty() == out@);
    out
}

} // verus!
