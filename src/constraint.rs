//! Symbolic multivariate constraint polynomials over the columns of an
//! execution trace, in the current and the next row.

use crate::field::{lemma_constants, lemma_prime_no_zero_divisors, modulus, modulus_is_prime, BaseFelt};
use std::cmp::Ordering;
use vstd::prelude::*;

verus! {

/// A column of the trace, read in the current or in the next row.
#[derive(Clone, Copy, Debug, PartialEq, Eq, Structural, Hash)]
pub enum Element {
    Curr(usize),
    Next(usize),
}

/// The order of elements: every current-row column before every next-row
/// column, then by column index.
pub open spec fn element_lt(a: Element, b: Element) -> bool {
    match (a, b) {
        (Element::Curr(x), Element::Curr(y)) => x < y,
        (Element::Curr(_), Element::Next(_)) => true,
        (Element::Next(_), Element::Curr(_)) => false,
        (Element::Next(x), Element::Next(y)) => x < y,
    }
}

fn element_less(a: Element, b: Element) -> (r: bool)
    ensures
        r == element_lt(a, b),
{
    match (a, b) {
        (Element::Curr(x), Element::Curr(y)) => x < y,
        (Element::Curr(_), Element::Next(_)) => true,
        (Element::Next(_), Element::Curr(_)) => false,
        (Element::Next(x), Element::Next(y)) => x < y,
    }
}

/// The total degree: the sum of the exponents.
pub open spec fn degree_of(s: Seq<(Element, usize)>) -> nat
    decreases s.len(),
{
    if s.len() == 0 {
        0
    } else {
        s[0].1 as nat + degree_of(s.drop_first())
    }
}

/// Canonical variables: exponents nonzero, elements strictly ascending, and
/// the degree fits a `usize`.
pub open spec fn vars_wf(s: Seq<(Element, usize)>) -> bool {
    &&& forall|i: int| 0 <= i < s.len() ==> #[trigger] s[i].1 > 0
    &&& forall|i: int, j: int| 0 <= i < j < s.len() ==> element_lt(#[trigger] s[i].0, #[trigger] s[j].0)
    &&& degree_of(s) <= usize::MAX
}

/// Among variables of equal degree: the first position where the two differ
/// decides; a lower-numbered element, or a higher exponent on the same
/// element, sorts as greater.
pub open spec fn lex_lt(a: Seq<(Element, usize)>, b: Seq<(Element, usize)>) -> bool
    decreases a.len(),
{
    if a.len() == 0 || b.len() == 0 {
        false
    } else if a[0].0 == b[0].0 {
        if a[0].1 != b[0].1 {
            a[0].1 < b[0].1
        } else {
            lex_lt(a.drop_first(), b.drop_first())
        }
    } else {
        element_lt(b[0].0, a[0].0)
    }
}

/// The canonical order of variables: total degree first, then `lex_lt`.
pub open spec fn vars_lt(a: Seq<(Element, usize)>, b: Seq<(Element, usize)>) -> bool {
    degree_of(a) < degree_of(b) || (degree_of(a) == degree_of(b) && lex_lt(a, b))
}

pub proof fn lemma_element_order(a: Element, b: Element, c: Element)
    ensures
        !element_lt(a, a),
        element_lt(a, b) && element_lt(b, c) ==> element_lt(a, c),
        a != b ==> element_lt(a, b) || element_lt(b, a),
        element_lt(a, b) ==> !element_lt(b, a),
{
}

pub proof fn lemma_lex_irreflexive(a: Seq<(Element, usize)>)
    ensures
        !lex_lt(a, a),
    decreases a.len(),
{
    if a.len() > 0 {
        lemma_element_order(a[0].0, a[0].0, a[0].0);
        lemma_lex_irreflexive(a.drop_first());
    }
}

pub proof fn lemma_lex_asymmetric(a: Seq<(Element, usize)>, b: Seq<(Element, usize)>)
    ensures
        lex_lt(a, b) ==> !lex_lt(b, a),
    decreases a.len(),
{
    if a.len() > 0 && b.len() > 0 {
        lemma_element_order(a[0].0, b[0].0, a[0].0);
        lemma_lex_asymmetric(a.drop_first(), b.drop_first());
    }
}

pub proof fn lemma_lex_transitive(a: Seq<(Element, usize)>, b: Seq<(Element, usize)>, c: Seq<(Element, usize)>)
    requires
        lex_lt(a, b),
        lex_lt(b, c),
    ensures
        lex_lt(a, c),
    decreases a.len(),
{
    lemma_element_order(a[0].0, b[0].0, c[0].0);
    lemma_element_order(c[0].0, b[0].0, a[0].0);
    if a[0].0 == b[0].0 && b[0].0 == c[0].0 && a[0].1 == b[0].1 && b[0].1 == c[0].1 {
        lemma_lex_transitive(a.drop_first(), b.drop_first(), c.drop_first());
    }
}

/// The tail of canonical variables is canonical, with the head's exponent
/// less degree.
pub proof fn lemma_vars_tail(a: Seq<(Element, usize)>)
    requires
        vars_wf(a),
        a.len() > 0,
    ensures
        vars_wf(a.drop_first()),
        degree_of(a) == a[0].1 + degree_of(a.drop_first()),
        degree_of(a) > 0,
{
    let t = a.drop_first();
    assert forall|i: int, j: int| 0 <= i < j < t.len() implies element_lt(#[trigger] t[i].0, #[trigger] t[j].0) by {
        assert(t[i] == a[i + 1] && t[j] == a[j + 1]);
    }
    assert forall|i: int| 0 <= i < t.len() implies #[trigger] t[i].1 > 0 by {
        assert(t[i] == a[i + 1]);
    }
    assert(a[0].1 > 0);
}

/// Distinct canonical variables of equal degree are ordered one way or the
/// other.
pub proof fn lemma_lex_total(a: Seq<(Element, usize)>, b: Seq<(Element, usize)>)
    requires
        vars_wf(a),
        vars_wf(b),
        degree_of(a) == degree_of(b),
        a != b,
    ensures
        lex_lt(a, b) || lex_lt(b, a),
    decreases a.len(),
{
    if a.len() == 0 {
        if b.len() > 0 {
            lemma_vars_tail(b);
        }
        assert(a =~= b);
    } else if b.len() == 0 {
        lemma_vars_tail(a);
        assert(a =~= b);
    } else {
        lemma_vars_tail(a);
        lemma_vars_tail(b);
        lemma_element_order(a[0].0, b[0].0, a[0].0);
        if a[0] == b[0] {
            if a.drop_first() == b.drop_first() {
                assert(a =~= seq![a[0]] + a.drop_first());
                assert(b =~= seq![b[0]] + b.drop_first());
            }
            lemma_lex_total(a.drop_first(), b.drop_first());
        }
    }
}

/// `vars_lt` is a strict total order on canonical variables.
pub proof fn lemma_vars_order(a: Seq<(Element, usize)>, b: Seq<(Element, usize)>, c: Seq<(Element, usize)>)
    ensures
        !vars_lt(a, a),
        vars_lt(a, b) ==> !vars_lt(b, a),
        vars_lt(a, b) && vars_lt(b, c) ==> vars_lt(a, c),
        vars_wf(a) && vars_wf(b) && a != b ==> vars_lt(a, b) || vars_lt(b, a),
{
    lemma_lex_irreflexive(a);
    lemma_lex_asymmetric(a, b);
    if vars_lt(a, b) && vars_lt(b, c) && degree_of(a) == degree_of(b) && degree_of(b) == degree_of(c) {
        lemma_lex_transitive(a, b, c);
    }
    if vars_wf(a) && vars_wf(b) && a != b && degree_of(a) == degree_of(b) {
        lemma_lex_total(a, b);
    }
}

/// The product of two monomials: the merge of their variables, with the
/// exponents of a shared element summed.
pub open spec fn vars_mul(x: Seq<(Element, usize)>, y: Seq<(Element, usize)>) -> Seq<(Element, usize)>
    decreases x.len() + y.len(),
{
    if x.len() == 0 {
        y
    } else if y.len() == 0 {
        x
    } else if x[0].0 == y[0].0 {
        seq![(x[0].0, (x[0].1 + y[0].1) as usize)] + vars_mul(x.drop_first(), y.drop_first())
    } else if element_lt(x[0].0, y[0].0) {
        seq![x[0]] + vars_mul(x.drop_first(), y)
    } else {
        seq![y[0]] + vars_mul(x, y.drop_first())
    }
}

pub open spec fn elements_above(e: Element, s: Seq<(Element, usize)>) -> bool {
    forall|i: int| 0 <= i < s.len() ==> element_lt(e, #[trigger] s[i].0)
}

proof fn lemma_vars_mul_above(x: Seq<(Element, usize)>, y: Seq<(Element, usize)>, e: Element)
    requires
        elements_above(e, x),
        elements_above(e, y),
    ensures
        elements_above(e, vars_mul(x, y)),
    decreases x.len() + y.len(),
{
    if x.len() > 0 && y.len() > 0 {
        let xt = x.drop_first();
        let yt = y.drop_first();
        assert(elements_above(e, xt)) by {
            assert forall|i: int| 0 <= i < xt.len() implies element_lt(e, #[trigger] xt[i].0) by {
                assert(xt[i] == x[i + 1]);
            }
        }
        assert(elements_above(e, yt)) by {
            assert forall|i: int| 0 <= i < yt.len() implies element_lt(e, #[trigger] yt[i].0) by {
                assert(yt[i] == y[i + 1]);
            }
        }
        assert(element_lt(e, x[0].0) && element_lt(e, y[0].0));
        if x[0].0 == y[0].0 {
            lemma_vars_mul_above(xt, yt, e);
        } else if element_lt(x[0].0, y[0].0) {
            lemma_vars_mul_above(xt, y, e);
        } else {
            lemma_vars_mul_above(x, yt, e);
        }
        let m = vars_mul(x, y);
        assert forall|i: int| 0 <= i < m.len() implies element_lt(e, #[trigger] m[i].0) by {
            if i > 0 {
                if x[0].0 == y[0].0 {
                    assert(m[i] == vars_mul(xt, yt)[i - 1]);
                } else if element_lt(x[0].0, y[0].0) {
                    assert(m[i] == vars_mul(xt, y)[i - 1]);
                } else {
                    assert(m[i] == vars_mul(x, yt)[i - 1]);
                }
            }
        }
    }
}

proof fn lemma_head_below_rest(s: Seq<(Element, usize)>)
    requires
        vars_wf(s),
        s.len() > 0,
    ensures
        elements_above(s[0].0, s.drop_first()),
{
    let t = s.drop_first();
    assert forall|i: int| 0 <= i < t.len() implies element_lt(s[0].0, #[trigger] t[i].0) by {
        assert(t[i] == s[i + 1]);
    }
}

proof fn lemma_above_lower(e: Element, f: Element, s: Seq<(Element, usize)>)
    requires
        element_lt(e, f),
        elements_above(f, s),
    ensures
        elements_above(e, s),
{
    assert forall|i: int| 0 <= i < s.len() implies element_lt(e, #[trigger] s[i].0) by {
        lemma_element_order(e, f, s[i].0);
    }
}

/// A sequence with a head below everything in a canonical tail.
proof fn lemma_cons_wf(h: (Element, usize), t: Seq<(Element, usize)>)
    requires
        h.1 > 0,
        vars_wf(t) || t.len() == 0,
        forall|i: int| 0 <= i < t.len() ==> #[trigger] t[i].1 > 0,
        forall|i: int, j: int| 0 <= i < j < t.len() ==> element_lt(#[trigger] t[i].0, #[trigger] t[j].0),
        elements_above(h.0, t),
        h.1 + degree_of(t) <= usize::MAX,
    ensures
        vars_wf(seq![h] + t),
        degree_of(seq![h] + t) == h.1 + degree_of(t),
{
    let s = seq![h] + t;
    assert(s.drop_first() =~= t);
    assert forall|i: int, j: int| 0 <= i < j < s.len() implies element_lt(#[trigger] s[i].0, #[trigger] s[j].0) by {
        if i == 0 {
            assert(s[j] == t[j - 1]);
        } else {
            assert(s[i] == t[i - 1] && s[j] == t[j - 1]);
        }
    }
    assert forall|i: int| 0 <= i < s.len() implies #[trigger] s[i].1 > 0 by {
        if i > 0 {
            assert(s[i] == t[i - 1]);
        }
    }
}

/// The product of canonical monomials is canonical, of the summed degree.
pub proof fn lemma_vars_mul_wf(x: Seq<(Element, usize)>, y: Seq<(Element, usize)>)
    requires
        vars_wf(x),
        vars_wf(y),
        degree_of(x) + degree_of(y) <= usize::MAX,
    ensures
        vars_wf(vars_mul(x, y)),
        degree_of(vars_mul(x, y)) == degree_of(x) + degree_of(y),
    decreases x.len() + y.len(),
{
    if x.len() == 0 {
    } else if y.len() == 0 {
    } else {
        let xt = x.drop_first();
        let yt = y.drop_first();
        lemma_vars_tail(x);
        lemma_vars_tail(y);
        lemma_head_below_rest(x);
        lemma_head_below_rest(y);
        if x[0].0 == y[0].0 {
            lemma_vars_mul_wf(xt, yt);
            lemma_vars_mul_above(xt, yt, x[0].0);
            lemma_cons_wf((x[0].0, (x[0].1 + y[0].1) as usize), vars_mul(xt, yt));
        } else if element_lt(x[0].0, y[0].0) {
            lemma_vars_mul_wf(xt, y);
            lemma_above_lower(x[0].0, y[0].0, yt);
            assert(elements_above(x[0].0, y)) by {
                assert forall|i: int| 0 <= i < y.len() implies element_lt(x[0].0, #[trigger] y[i].0) by {
                    if i > 0 {
                        assert(y[i] == yt[i - 1]);
                    }
                }
            }
            lemma_vars_mul_above(xt, y, x[0].0);
            lemma_cons_wf(x[0], vars_mul(xt, y));
        } else {
            lemma_element_order(x[0].0, y[0].0, x[0].0);
            lemma_vars_mul_wf(x, yt);
            lemma_above_lower(y[0].0, x[0].0, xt);
            assert(elements_above(y[0].0, x)) by {
                assert forall|i: int| 0 <= i < x.len() implies element_lt(y[0].0, #[trigger] x[i].0) by {
                    if i > 0 {
                        assert(x[i] == xt[i - 1]);
                    }
                }
            }
            lemma_vars_mul_above(x, yt, y[0].0);
            lemma_cons_wf(y[0], vars_mul(x, yt));
        }
    }
}

/// The variables of a term: each element with its exponent, in canonical
/// form when `vars_wf` holds of the view.
#[derive(Debug)]
pub struct Variables(pub Vec<(Element, usize)>);

impl View for Variables {
    type V = Seq<(Element, usize)>;

    open spec fn view(&self) -> Seq<(Element, usize)> {
        self.0@
    }
}

proof fn lemma_degree_skip(s: Seq<(Element, usize)>, i: int)
    requires
        0 <= i < s.len(),
    ensures
        degree_of(s.skip(i)) == s[i].1 + degree_of(s.skip(i + 1)),
        s.skip(i)[0] == s[i],
{
    assert(s.skip(i).drop_first() =~= s.skip(i + 1));
}

impl Variables {
    /// No variables: the monomial 1.
    pub fn empty() -> (r: Variables)
        ensures
            r@ == Seq::<(Element, usize)>::empty(),
            vars_wf(r@),
    {
        Variables(Vec::new())
    }

    /// One element to the first power.
    pub fn single(element: Element) -> (r: Variables)
        ensures
            r@ == seq![(element, 1usize)],
            vars_wf(r@),
            degree_of(r@) == 1,
    {
        let mut v = Vec::new();
        v.push((element, 1usize));
        proof {
            lemma_single_wf(element);
        }
        Variables(v)
    }

    /// A copy with the same view.
    pub fn copy(&self) -> (r: Variables)
        ensures
            r@ == self@,
    {
        let mut v: Vec<(Element, usize)> = Vec::new();
        let mut i: usize = 0;
        while i < self.0.len()
            invariant
                i <= self.0.len(),
                v@ == self.0@.subrange(0, i as int),
            decreases self.0.len() - i,
        {
            v.push(self.0[i]);
            i = i + 1;
        }
        proof {
            assert(v@ =~= self.0@);
        }
        Variables(v)
    }

    /// The combined degree of all variables.
    pub fn degree(&self) -> (r: usize)
        requires
            vars_wf(self@),
        ensures
            r == degree_of(self@),
    {
        let mut sum: usize = 0;
        let mut i: usize = 0;
        proof {
            assert(self@.skip(0) =~= self@);
        }
        while i < self.0.len()
            invariant
                i <= self.0.len(),
                sum + degree_of(self@.skip(i as int)) == degree_of(self@),
                degree_of(self@) <= usize::MAX,
            decreases self.0.len() - i,
        {
            proof {
                lemma_degree_skip(self@, i as int);
            }
            sum = sum + self.0[i].1;
            i = i + 1;
        }
        proof {
            assert(self@.skip(i as int) =~= Seq::<(Element, usize)>::empty());
        }
        sum
    }

    /// The canonical order: total degree, then the first position where the
    /// variables differ.
    pub fn compare(&self, other: &Variables) -> (r: Ordering)
        requires
            vars_wf(self@),
            vars_wf(other@),
        ensures
            (r == Ordering::Less) == vars_lt(self@, other@),
            (r == Ordering::Greater) == vars_lt(other@, self@),
            (r == Ordering::Equal) == (self@ == other@),
    {
        proof {
            lemma_vars_order(self@, other@, self@);
            lemma_vars_order(other@, self@, other@);
        }
        let da = self.degree();
        let db = other.degree();
        if da < db {
            return Ordering::Less;
        } else if da > db {
            return Ordering::Greater;
        }
        let a = &self.0;
        let b = &other.0;
        let mut i: usize = 0;
        proof {
            assert(a@.skip(0) =~= a@);
            assert(b@.skip(0) =~= b@);
        }
        while i < a.len() && i < b.len()
            invariant
                i <= a.len(),
                i <= b.len(),
                a@ == self@,
                b@ == other@,
                degree_of(self@) == degree_of(other@),
                lex_lt(self@, other@) == lex_lt(a@.skip(i as int), b@.skip(i as int)),
                lex_lt(other@, self@) == lex_lt(b@.skip(i as int), a@.skip(i as int)),
                forall|k: int| 0 <= k < i ==> a@[k] == b@[k],
            decreases a.len() - i,
        {
            proof {
                assert(a@.skip(i as int).drop_first() =~= a@.skip(i + 1));
                assert(b@.skip(i as int).drop_first() =~= b@.skip(i + 1));
                assert(a@.skip(i as int)[0] == a@[i as int]);
                assert(b@.skip(i as int)[0] == b@[i as int]);
            }
            let (ea, xa) = a[i];
            let (eb, xb) = b[i];
            if ea == eb {
                if xa != xb {
                    if xa < xb {
                        return Ordering::Less;
                    } else {
                        return Ordering::Greater;
                    }
                }
            } else if element_less(eb, ea) {
                return Ordering::Less;
            } else {
                proof {
                    lemma_element_order(ea, eb, ea);
                }
                return Ordering::Greater;
            }
            i = i + 1;
        }
        proof {
            lemma_vars_order(self@, other@, self@);
            if self@ != other@ {
                lemma_lex_total(self@, other@);
            }
        }
        Ordering::Equal
    }

    /// The product of two monomials: merge by element, summing the exponents
    /// of a shared element.
    pub fn mul(&self, other: &Variables) -> (r: Variables)
        requires
            vars_wf(self@),
            vars_wf(other@),
            degree_of(self@) + degree_of(other@) <= usize::MAX,
        ensures
            r@ == vars_mul(self@, other@),
            vars_wf(r@),
            degree_of(r@) == degree_of(self@) + degree_of(other@),
    {
        proof {
            lemma_vars_mul_wf(self@, other@);
            assert(self@.skip(0) =~= self@);
            assert(other@.skip(0) =~= other@);
        }
        let x = &self.0;
        let y = &other.0;
        let mut res: Vec<(Element, usize)> = Vec::new();
        let mut i: usize = 0;
        let mut j: usize = 0;
        while i < x.len() || j < y.len()
            invariant
                i <= x.len(),
                j <= y.len(),
                x@ == self@,
                y@ == other@,
                degree_of(x@.skip(i as int)) + degree_of(y@.skip(j as int)) <= usize::MAX,
                res@ + vars_mul(x@.skip(i as int), y@.skip(j as int)) == vars_mul(self@, other@),
            decreases x.len() - i + y.len() - j,
        {
            let ghost xs = x@.skip(i as int);
            let ghost ys = y@.skip(j as int);
            if i < x.len() {
                proof {
                    lemma_degree_skip(x@, i as int);
                }
            }
            if j < y.len() {
                proof {
                    lemma_degree_skip(y@, j as int);
                }
            }
            if i == x.len() {
                proof {
                    assert(xs.len() == 0);
                    assert(ys.drop_first() =~= y@.skip(j + 1));
                    assert(vars_mul(xs, ys) =~= seq![ys[0]] + vars_mul(xs, ys.drop_first())) by {
                        assert(vars_mul(xs, ys.drop_first()) == ys.drop_first());
                    }
                }
                res.push(y[j]);
                j = j + 1;
            } else if j == y.len() {
                proof {
                    assert(xs.drop_first() =~= x@.skip(i + 1));
                    assert(vars_mul(xs, ys) =~= seq![xs[0]] + vars_mul(xs.drop_first(), ys));
                }
                res.push(x[i]);
                i = i + 1;
            } else {
                let (ex, px) = x[i];
                let (ey, py) = y[j];
                proof {
                    assert(xs.drop_first() =~= x@.skip(i + 1));
                    assert(ys.drop_first() =~= y@.skip(j + 1));
                }
                if ex == ey {
                    res.push((ex, px + py));
                    i = i + 1;
                    j = j + 1;
                } else if element_less(ex, ey) {
                    res.push((ex, px));
                    i = i + 1;
                } else {
                    res.push((ey, py));
                    j = j + 1;
                }
            }
            proof {
                assert(res@ + vars_mul(x@.skip(i as int), y@.skip(j as int)) =~= vars_mul(self@, other@));
            }
        }
        proof {
            assert(x@.skip(i as int) =~= Seq::<(Element, usize)>::empty());
            assert(y@.skip(j as int) =~= Seq::<(Element, usize)>::empty());
            assert(res@ =~= vars_mul(self@, other@));
        }
        Variables(res)
    }
}

proof fn lemma_single_wf(e: Element)
    ensures
        vars_wf(seq![(e, 1usize)]),
        degree_of(seq![(e, 1usize)]) == 1,
{
    let s = seq![(e, 1usize)];
    assert(s.drop_first() =~= Seq::<(Element, usize)>::empty());
    assert(degree_of(Seq::<(Element, usize)>::empty()) == 0);
    assert(degree_of(s) == 1);
}

/// A type that stands for a column of the execution trace.
pub trait Column {
    /// The column index, as a specification.
    spec fn column_index(&self) -> usize;

    /// The column index.
    fn index(&self) -> (r: usize)
        ensures
            r == self.column_index(),
    ;

    /// The column in the current row, as a polynomial.
    fn curr(&self) -> (r: Constraint)
        ensures
            r.wf(),
            r@ == seq![(1nat, seq![(Element::Curr(self.column_index()), 1usize)])],
    {
        Constraint::element(Element::Curr(self.index()))
    }

    /// The column in the next row, as a polynomial.
    fn next(&self) -> (r: Constraint)
        ensures
            r.wf(),
            r@ == seq![(1nat, seq![(Element::Next(self.column_index()), 1usize)])],
    {
        Constraint::element(Element::Next(self.index()))
    }
}

impl Column for usize {
    open spec fn column_index(&self) -> usize {
        *self
    }

    fn index(&self) -> (r: usize) {
        *self
    }
}

/// The sum of the exponents of a list of variables.
pub open spec fn exponent_sum(s: Seq<(Element, usize)>) -> nat
    decreases s.len(),
{
    if s.len() == 0 {
        0
    } else {
        exponent_sum(s.drop_last()) + s.last().1 as nat
    }
}

/// The monomial of a list of variables in any order: the product of each
/// element to its power, zero powers dropped.
pub open spec fn monomial_of(s: Seq<(Element, usize)>) -> Seq<(Element, usize)>
    decreases s.len(),
{
    if s.len() == 0 {
        Seq::empty()
    } else {
        vars_mul(
            monomial_of(s.drop_last()),
            if s.last().1 == 0 {
                Seq::empty()
            } else {
                seq![s.last()]
            },
        )
    }
}

proof fn lemma_exponent_sum_prefix(s: Seq<(Element, usize)>, i: int)
    requires
        0 <= i <= s.len(),
    ensures
        exponent_sum(s.take(i)) <= exponent_sum(s),
    decreases s.len() - i,
{
    if i < s.len() {
        lemma_exponent_sum_prefix(s, i + 1);
        assert(s.take(i + 1).drop_last() =~= s.take(i));
    } else {
        assert(s.take(i) =~= s);
    }
}

impl Variables {
    /// The canonical variables of a list in any order: zero powers dropped,
    /// sorted by element, the powers of a repeated element summed.
    pub fn new(variables: Vec<(Element, usize)>) -> (r: Variables)
        requires
            exponent_sum(variables@) <= usize::MAX,
        ensures
            r@ == monomial_of(variables@),
            vars_wf(r@),
            degree_of(r@) == exponent_sum(variables@),
    {
        let mut res = Variables::empty();
        let mut i: usize = 0;
        proof {
            assert(variables@.take(0) =~= Seq::<(Element, usize)>::empty());
            assert(degree_of(Seq::<(Element, usize)>::empty()) == 0);
        }
        while i < variables.len()
            invariant
                i <= variables.len(),
                exponent_sum(variables@) <= usize::MAX,
                res@ == monomial_of(variables@.take(i as int)),
                vars_wf(res@),
                degree_of(res@) == exponent_sum(variables@.take(i as int)),
            decreases variables.len() - i,
        {
            let (e, pw) = variables[i];
            proof {
                assert(variables@.take(i + 1).drop_last() =~= variables@.take(i as int));
                lemma_exponent_sum_prefix(variables@, i + 1);
            }
            if pw != 0 {
                let mut v = Vec::new();
                v.push((e, pw));
                let single = Variables(v);
                proof {
                    let t = seq![(e, pw)];
                    assert(single@ =~= t);
                    assert(t.drop_first() =~= Seq::<(Element, usize)>::empty());
                    assert(degree_of(Seq::<(Element, usize)>::empty()) == 0);
                    assert(degree_of(t) == pw);
                }
                res = res.mul(&single);
            } else {
                proof {
                    assert(degree_of(Seq::<(Element, usize)>::empty()) == 0);
                    let m = monomial_of(variables@.take(i as int));
                    assert(vars_mul(m, Seq::<(Element, usize)>::empty()) == m);
                }
            }
            i = i + 1;
        }
        proof {
            assert(variables@.take(i as int) =~= variables@);
        }
        res
    }
}

/// A term: a coefficient times a monomial.
#[derive(Debug)]
pub struct Term(pub BaseFelt, pub Variables);

/// The mathematical view of a term: the coefficient's integer and the
/// monomial.
pub open spec fn term_view(t: Term) -> (nat, Seq<(Element, usize)>) {
    (t.0.value(), t.1@)
}

pub open spec fn terms_view(s: Seq<Term>) -> Seq<(nat, Seq<(Element, usize)>)> {
    s.map_values(|t: Term| term_view(t))
}

/// Every coefficient is a reduced field element.
pub open spec fn felts_wf(s: Seq<Term>) -> bool {
    forall|i: int| 0 <= i < s.len() ==> (#[trigger] s[i]).0.wf()
}

/// A canonical polynomial: nonzero coefficients below `N`, canonical
/// monomials, strictly ascending in the canonical order.
pub open spec fn poly_wf(c: Seq<(nat, Seq<(Element, usize)>)>) -> bool {
    &&& forall|i: int| 0 <= i < c.len() ==> 0 < (#[trigger] c[i]).0 < modulus() && vars_wf(c[i].1)
    &&& forall|i: int, j: int| 0 <= i < j < c.len() ==> vars_lt((#[trigger] c[i]).1, (#[trigger] c[j]).1)
}

/// The coefficient of monomial `k`: that of the last term with it, else 0.
pub open spec fn coeff(c: Seq<(nat, Seq<(Element, usize)>)>, k: Seq<(Element, usize)>) -> nat
    decreases c.len(),
{
    if c.len() == 0 {
        0
    } else if c.last().1 == k {
        c.last().0
    } else {
        coeff(c.drop_last(), k)
    }
}

/// Every monomial of `c` sorts below `k`.
pub open spec fn all_below(c: Seq<(nat, Seq<(Element, usize)>)>, k: Seq<(Element, usize)>) -> bool {
    forall|m: int| 0 <= m < c.len() ==> vars_lt((#[trigger] c[m]).1, k)
}

pub proof fn lemma_coeff_absent(c: Seq<(nat, Seq<(Element, usize)>)>, k: Seq<(Element, usize)>)
    requires
        forall|m: int| 0 <= m < c.len() ==> (#[trigger] c[m]).1 != k,
    ensures
        coeff(c, k) == 0,
    decreases c.len(),
{
    if c.len() > 0 {
        let d = c.drop_last();
        assert forall|m: int| 0 <= m < d.len() implies (#[trigger] d[m]).1 != k by {
            assert(d[m] == c[m]);
        }
        lemma_coeff_absent(d, k);
    }
}

pub proof fn lemma_below_absent(c: Seq<(nat, Seq<(Element, usize)>)>, k: Seq<(Element, usize)>)
    requires
        all_below(c, k),
    ensures
        coeff(c, k) == 0,
{
    assert forall|m: int| 0 <= m < c.len() implies (#[trigger] c[m]).1 != k by {
        lemma_vars_order(k, k, k);
    }
    lemma_coeff_absent(c, k);
}

proof fn lemma_below_raise(c: Seq<(nat, Seq<(Element, usize)>)>, k1: Seq<(Element, usize)>, k2: Seq<(Element, usize)>)
    requires
        all_below(c, k1),
        vars_lt(k1, k2),
    ensures
        all_below(c, k2),
{
    assert forall|m: int| 0 <= m < c.len() implies vars_lt((#[trigger] c[m]).1, k2) by {
        lemma_vars_order(c[m].1, k1, k2);
    }
}

proof fn lemma_below_push(c: Seq<(nat, Seq<(Element, usize)>)>, t: (nat, Seq<(Element, usize)>), k: Seq<(Element, usize)>)
    requires
        all_below(c, k),
        vars_lt(t.1, k),
    ensures
        all_below(c.push(t), k),
{
    assert forall|m: int| 0 <= m < c.push(t).len() implies vars_lt((#[trigger] c.push(t)[m]).1, k) by {
        if m < c.len() {
            assert(c.push(t)[m] == c[m]);
        }
    }
}

/// In a canonical polynomial the terms before position `i` sort below it.
proof fn lemma_prefix_below(c: Seq<(nat, Seq<(Element, usize)>)>, i: int)
    requires
        poly_wf(c),
        0 <= i < c.len(),
    ensures
        all_below(c.take(i), c[i].1),
{
    assert forall|m: int| 0 <= m < c.take(i).len() implies vars_lt((#[trigger] c.take(i)[m]).1, c[i].1) by {
        assert(c.take(i)[m] == c[m]);
    }
}

/// Pushing a term above everything keeps a polynomial canonical.
proof fn lemma_push_wf(c: Seq<(nat, Seq<(Element, usize)>)>, t: (nat, Seq<(Element, usize)>))
    requires
        poly_wf(c),
        all_below(c, t.1),
        0 < t.0 < modulus(),
        vars_wf(t.1),
    ensures
        poly_wf(c.push(t)),
{
    let d = c.push(t);
    assert forall|i: int, j: int| 0 <= i < j < d.len() implies vars_lt((#[trigger] d[i]).1, (#[trigger] d[j]).1) by {
        assert(d[i] == c[i]);
        if j < c.len() {
            assert(d[j] == c[j]);
        }
    }
    assert forall|i: int| 0 <= i < d.len() implies 0 < (#[trigger] d[i]).0 < modulus() && vars_wf(d[i].1) by {
        if i < c.len() {
            assert(d[i] == c[i]);
        }
    }
}

pub proof fn lemma_coeff_push(c: Seq<(nat, Seq<(Element, usize)>)>, t: (nat, Seq<(Element, usize)>), k: Seq<(Element, usize)>)
    ensures
        coeff(c.push(t), k) == if t.1 == k { t.0 } else { coeff(c, k) },
{
    assert(c.push(t).drop_last() =~= c);
}

proof fn lemma_take_next(c: Seq<(nat, Seq<(Element, usize)>)>, i: int)
    requires
        0 <= i < c.len(),
    ensures
        c.take(i + 1) == c.take(i).push(c[i]),
{
    assert(c.take(i + 1) =~= c.take(i).push(c[i]));
}

impl Term {
    pub fn new(coefficient: BaseFelt, variables: Variables) -> (r: Term)
        ensures
            r.0 == coefficient,
            r.1@ == variables@,
    {
        Term(coefficient, variables)
    }

    /// The degree of the term's monomial.
    pub fn degree(&self) -> (r: usize)
        requires
            vars_wf(self.1@),
        ensures
            r == degree_of(self.1@),
    {
        self.1.degree()
    }

    pub fn copy(&self) -> (r: Term)
        ensures
            term_view(r) == term_view(*self),
            r.0 == self.0,
    {
        Term(self.0, self.1.copy())
    }
}

/// A multivariate constraint polynomial: its terms in canonical order.
#[derive(Debug)]
pub struct Constraint(pub Vec<Term>);

impl View for Constraint {
    type V = Seq<(nat, Seq<(Element, usize)>)>;

    open spec fn view(&self) -> Seq<(nat, Seq<(Element, usize)>)> {
        terms_view(self.0@)
    }
}

/// A map over the terms that keeps each monomial keeps the order.
proof fn lemma_same_keys_wf(rv: Seq<(nat, Seq<(Element, usize)>)>, av: Seq<(nat, Seq<(Element, usize)>)>)
    requires
        poly_wf(av),
        rv.len() <= av.len(),
        forall|m: int| 0 <= m < rv.len() ==> (#[trigger] rv[m]).1 == av[m].1 && 0 < rv[m].0 < modulus(),
    ensures
        poly_wf(rv),
{
    assert forall|i: int, j: int| 0 <= i < j < rv.len() implies vars_lt((#[trigger] rv[i]).1, (#[trigger] rv[j]).1) by {
        assert(vars_lt(av[i].1, av[j].1));
    }
    assert forall|i: int| 0 <= i < rv.len() implies 0 < (#[trigger] rv[i]).0 < modulus() && vars_wf(rv[i].1) by {
        assert(vars_wf(av[i].1));
    }
}

/// The largest degree of a term; zero for the zero polynomial.
pub open spec fn max_degree(c: Seq<(nat, Seq<(Element, usize)>)>) -> nat
    decreases c.len(),
{
    if c.len() == 0 {
        0
    } else {
        let d = degree_of(c.last().1);
        let m = max_degree(c.drop_last());
        if d > m {
            d
        } else {
            m
        }
    }
}

proof fn lemma_max_degree_bounds(c: Seq<(nat, Seq<(Element, usize)>)>, i: int)
    requires
        0 <= i < c.len(),
    ensures
        degree_of(c[i].1) <= max_degree(c),
    decreases c.len(),
{
    if i < c.len() - 1 {
        lemma_max_degree_bounds(c.drop_last(), i);
        assert(c.drop_last()[i] == c[i]);
    }
}

/// The coefficient of `k` in the product of term `t` with the polynomial
/// `b`.
pub open spec fn row_coeff(t: (nat, Seq<(Element, usize)>), b: Seq<(nat, Seq<(Element, usize)>)>, k: Seq<(Element, usize)>) -> nat
    decreases b.len(),
{
    if b.len() == 0 {
        0
    } else {
        (row_coeff(t, b.drop_last(), k) + if vars_mul(t.1, b.last().1) == k {
            t.0 * b.last().0
        } else {
            0
        }) % modulus()
    }
}

/// The coefficient of `k` in the product of two polynomials: the sum, over
/// all pairs of terms whose monomials multiply to `k`, of the products of
/// their coefficients.
pub open spec fn product_coeff(a: Seq<(nat, Seq<(Element, usize)>)>, b: Seq<(nat, Seq<(Element, usize)>)>, k: Seq<(Element, usize)>) -> nat
    decreases a.len(),
{
    if a.len() == 0 {
        0
    } else {
        (product_coeff(a.drop_last(), b, k) + row_coeff(a.last(), b, k)) % modulus()
    }
}

/// The coefficient of `k` in the sum of a list of terms.
pub open spec fn sum_coeff(s: Seq<(nat, Seq<(Element, usize)>)>, k: Seq<(Element, usize)>) -> nat
    decreases s.len(),
{
    if s.len() == 0 {
        0
    } else {
        (sum_coeff(s.drop_last(), k) + if s.last().1 == k {
            s.last().0
        } else {
            0
        }) % modulus()
    }
}

proof fn lemma_mod_add3(x: int, y: int, z: int)
    ensures
        ((x + y) % (modulus() as int) + z % (modulus() as int)) % (modulus() as int) == (x + (y + z) % (modulus() as int))
            % (modulus() as int),
{
    let p = modulus() as int;
    lemma_constants();
    vstd::arithmetic::div_mod::lemma_add_mod_noop(x + y, z, p);
    vstd::arithmetic::div_mod::lemma_add_mod_noop_right(x, y + z, p);
}

proof fn lemma_product_coeff_bound(a: Seq<(nat, Seq<(Element, usize)>)>, b: Seq<(nat, Seq<(Element, usize)>)>, k: Seq<(Element, usize)>)
    ensures
        product_coeff(a, b, k) < modulus(),
{
    lemma_constants();
    if a.len() > 0 {
        vstd::arithmetic::div_mod::lemma_mod_pos_bound(
            (product_coeff(a.drop_last(), b, k) + row_coeff(a.last(), b, k)) as int,
            modulus() as int,
        );
    }
}

proof fn lemma_product_coeff_zero(a: Seq<(nat, Seq<(Element, usize)>)>, b: Seq<(nat, Seq<(Element, usize)>)>, k: Seq<(Element, usize)>)
    requires
        a.len() == 0 || b.len() == 0,
    ensures
        product_coeff(a, b, k) == 0,
        coeff(Seq::<(nat, Seq<(Element, usize)>)>::empty(), k) == 0,
    decreases a.len(),
{
    lemma_constants();
    if a.len() > 0 {
        lemma_product_coeff_zero(a.drop_last(), b, k);
        vstd::arithmetic::div_mod::lemma_small_mod(0, modulus());
    }
}

impl Constraint {
    /// Canonical, with reduced coefficients.
    pub open spec fn wf(&self) -> bool {
        felts_wf(self.0@) && poly_wf(self@)
    }

    /// The zero polynomial: no terms.
    pub fn zero() -> (r: Constraint)
        ensures
            r.wf(),
            r@ == Seq::<(nat, Seq<(Element, usize)>)>::empty(),
    {
        let r = Constraint(Vec::new());
        proof {
            assert(r@ =~= Seq::<(nat, Seq<(Element, usize)>)>::empty());
        }
        r
    }

    /// The sum: a merge of the two ordered term lists in which terms with
    /// equal variables combine, and vanish when their coefficients cancel.
    pub fn add(&self, rhs: &Constraint) -> (r: Constraint)
        requires
            self.wf(),
            rhs.wf(),
        ensures
            r.wf(),
            forall|k: Seq<(Element, usize)>| #[trigger] coeff(r@, k) == (coeff(self@, k) + coeff(rhs@, k)) % modulus(),
            forall|curr: Seq<BaseFelt>, next: Seq<BaseFelt>|
                #[trigger] poly_value(r@, curr, next) == (poly_value(self@, curr, next) + poly_value(rhs@, curr, next))
                    % modulus(),
    {
        let a = &self.0;
        let b = &rhs.0;
        let ghost av = self@;
        let ghost bv = rhs@;
        let mut res: Vec<Term> = Vec::new();
        let mut i: usize = 0;
        let mut j: usize = 0;
        proof {
            lemma_constants();
            assert(terms_view(res@) =~= Seq::<(nat, Seq<(Element, usize)>)>::empty());
            assert(av.take(0) =~= Seq::<(nat, Seq<(Element, usize)>)>::empty());
            assert(bv.take(0) =~= Seq::<(nat, Seq<(Element, usize)>)>::empty());
            assert forall|k: Seq<(Element, usize)>|
                #[trigger] coeff(terms_view(res@), k) == (coeff(av.take(0), k) + coeff(bv.take(0), k)) % modulus() by {
                vstd::arithmetic::div_mod::lemma_small_mod(0, modulus());
            }
            assert forall|cu: Seq<BaseFelt>, ne: Seq<BaseFelt>|
                #[trigger] poly_value(terms_view(res@), cu, ne) == (poly_value(av.take(0), cu, ne) + poly_value(
                    bv.take(0),
                    cu,
                    ne,
                )) % modulus() by {
                vstd::arithmetic::div_mod::lemma_small_mod(0, modulus());
            }
        }
        while i < a.len() || j < b.len()
            invariant
                av == self@,
                bv == rhs@,
                av.len() == a.len(),
                bv.len() == b.len(),
                self.wf(),
                rhs.wf(),
                a@ == self.0@,
                b@ == rhs.0@,
                i <= a.len(),
                j <= b.len(),
                felts_wf(res@),
                poly_wf(terms_view(res@)),
                i < a.len() ==> all_below(terms_view(res@), av[i as int].1),
                j < b.len() ==> all_below(terms_view(res@), bv[j as int].1),
                i < a.len() ==> all_below(bv.take(j as int), av[i as int].1),
                j < b.len() ==> all_below(av.take(i as int), bv[j as int].1),
                forall|k: Seq<(Element, usize)>|
                    #[trigger] coeff(terms_view(res@), k) == (coeff(av.take(i as int), k) + coeff(
                        bv.take(j as int),
                        k,
                    )) % modulus(),
                forall|cu: Seq<BaseFelt>, ne: Seq<BaseFelt>|
                    #[trigger] poly_value(terms_view(res@), cu, ne) == (poly_value(av.take(i as int), cu, ne)
                        + poly_value(bv.take(j as int), cu, ne)) % modulus(),
            decreases a.len() - i + b.len() - j,
        {
            let ghost rv = terms_view(res@);
            let ghost ai = i as int;
            let ghost bj = j as int;
            proof {
                if ai < av.len() {
                    assert(av[ai] == term_view(a@[ai]));
                    lemma_prefix_below(av, ai);
                    lemma_take_next(av, ai);
                    lemma_below_absent(av.take(ai), av[ai].1);
                }
                if bj < bv.len() {
                    assert(bv[bj] == term_view(b@[bj]));
                    lemma_prefix_below(bv, bj);
                    lemma_take_next(bv, bj);
                    lemma_below_absent(bv.take(bj), bv[bj].1);
                }
                if ai < av.len() {
                    lemma_below_absent(bv.take(bj), av[ai].1);
                    lemma_below_absent(rv, av[ai].1);
                }
                if bj < bv.len() {
                    lemma_below_absent(av.take(ai), bv[bj].1);
                    lemma_below_absent(rv, bv[bj].1);
                }
            }
            let which = if i == a.len() {
                Ordering::Greater
            } else if j == b.len() {
                Ordering::Less
            } else {
                a[i].1.compare(&b[j].1)
            };
            match which {
                Ordering::Less => {
                    let t = a[i].copy();
                    proof {
                        let tv = term_view(t);
                        assert(tv == av[ai]);
                        lemma_push_wf(rv, tv);
                        if ai + 1 < av.len() {
                            lemma_prefix_below(av, ai + 1);
                            assert(vars_lt(av[ai].1, av[ai + 1].1));
                            lemma_below_raise(rv, av[ai].1, av[ai + 1].1);
                            lemma_below_push(rv, tv, av[ai + 1].1);
                            lemma_below_raise(bv.take(bj), av[ai].1, av[ai + 1].1);
                        }
                        if bj < bv.len() {
                            lemma_below_push(rv, tv, bv[bj].1);
                            lemma_below_push(av.take(ai), tv, bv[bj].1);
                        }
                        assert forall|k: Seq<(Element, usize)>|
                            #[trigger] coeff(rv.push(tv), k) == (coeff(av.take(ai + 1), k) + coeff(bv.take(bj), k))
                                % modulus() by {
                            lemma_coeff_push(rv, tv, k);
                            lemma_coeff_push(av.take(ai), tv, k);
                            if k == tv.1 {
                                vstd::arithmetic::div_mod::lemma_small_mod(tv.0, modulus());
                            }
                        }
                        assert forall|cu: Seq<BaseFelt>, ne: Seq<BaseFelt>|
                            #[trigger] poly_value(rv.push(tv), cu, ne) == (poly_value(av.take(ai + 1), cu, ne)
                                + poly_value(bv.take(bj), cu, ne)) % modulus() by {
                            lemma_value_push(rv, tv, cu, ne);
                            lemma_value_push(av.take(ai), tv, cu, ne);
                            lemma_mod_regroup(
                                poly_value(av.take(ai), cu, ne) as int,
                                poly_value(bv.take(bj), cu, ne) as int,
                                ((tv.0 * monomial_value(tv.1, cu, ne)) % modulus()) as int,
                            );
                        }
                    }
                    res.push(t);
                    proof {
                        assert(terms_view(res@) =~= rv.push(term_view(t)));
                    }
                    i = i + 1;
                },
                Ordering::Greater => {
                    let t = b[j].copy();
                    proof {
                        let tv = term_view(t);
                        assert(tv == bv[bj]);
                        lemma_push_wf(rv, tv);
                        if bj + 1 < bv.len() {
                            lemma_prefix_below(bv, bj + 1);
                            assert(vars_lt(bv[bj].1, bv[bj + 1].1));
                            lemma_below_raise(rv, bv[bj].1, bv[bj + 1].1);
                            lemma_below_push(rv, tv, bv[bj + 1].1);
                            lemma_below_raise(av.take(ai), bv[bj].1, bv[bj + 1].1);
                        }
                        if ai < av.len() {
                            lemma_below_push(rv, tv, av[ai].1);
                            lemma_below_push(bv.take(bj), tv, av[ai].1);
                        }
                        assert forall|k: Seq<(Element, usize)>|
                            #[trigger] coeff(rv.push(tv), k) == (coeff(av.take(ai), k) + coeff(bv.take(bj + 1), k))
                                % modulus() by {
                            lemma_coeff_push(rv, tv, k);
                            lemma_coeff_push(bv.take(bj), tv, k);
                            if k == tv.1 {
                                vstd::arithmetic::div_mod::lemma_small_mod(tv.0, modulus());
                            }
                        }
                        assert forall|cu: Seq<BaseFelt>, ne: Seq<BaseFelt>|
                            #[trigger] poly_value(rv.push(tv), cu, ne) == (poly_value(av.take(ai), cu, ne)
                                + poly_value(bv.take(bj + 1), cu, ne)) % modulus() by {
                            lemma_value_push(rv, tv, cu, ne);
                            lemma_value_push(bv.take(bj), tv, cu, ne);
                            lemma_mod_regroup(
                                poly_value(av.take(ai), cu, ne) as int,
                                poly_value(bv.take(bj), cu, ne) as int,
                                ((tv.0 * monomial_value(tv.1, cu, ne)) % modulus()) as int,
                            );
                        }
                    }
                    res.push(t);
                    proof {
                        assert(terms_view(res@) =~= rv.push(term_view(t)));
                    }
                    j = j + 1;
                },
                Ordering::Equal => {
                    let c = a[i].0.add(b[j].0);
                    let ghost key = av[ai].1;
                    proof {
                        assert(key == bv[bj].1);
                        if ai + 1 < av.len() {
                            lemma_prefix_below(av, ai + 1);
                            lemma_below_raise(rv, key, av[ai + 1].1);
                            lemma_below_raise(bv.take(bj), key, av[ai + 1].1);
                            lemma_below_push(bv.take(bj), bv[bj], av[ai + 1].1);
                        }
                        if bj + 1 < bv.len() {
                            lemma_prefix_below(bv, bj + 1);
                            lemma_below_raise(rv, key, bv[bj + 1].1);
                            lemma_below_raise(av.take(ai), key, bv[bj + 1].1);
                            lemma_below_push(av.take(ai), av[ai], bv[bj + 1].1);
                        }
                    }
                    if !c.is_zero() {
                        let t = Term(c, a[i].1.copy());
                        proof {
                            let tv = term_view(t);
                            lemma_push_wf(rv, tv);
                            if ai + 1 < av.len() {
                                lemma_below_push(rv, tv, av[ai + 1].1);
                            }
                            if bj + 1 < bv.len() {
                                lemma_below_push(rv, tv, bv[bj + 1].1);
                            }
                            assert forall|k: Seq<(Element, usize)>|
                                #[trigger] coeff(rv.push(tv), k) == (coeff(av.take(ai + 1), k) + coeff(
                                    bv.take(bj + 1),
                                    k,
                                )) % modulus() by {
                                lemma_coeff_push(rv, tv, k);
                                lemma_coeff_push(av.take(ai), av[ai], k);
                                lemma_coeff_push(bv.take(bj), bv[bj], k);
                            }
                            assert forall|cu: Seq<BaseFelt>, ne: Seq<BaseFelt>|
                                #[trigger] poly_value(rv.push(tv), cu, ne) == (poly_value(av.take(ai + 1), cu, ne)
                                    + poly_value(bv.take(bj + 1), cu, ne)) % modulus() by {
                                lemma_value_push(rv, tv, cu, ne);
                                lemma_value_push(av.take(ai), av[ai], cu, ne);
                                lemma_value_push(bv.take(bj), bv[bj], cu, ne);
                                lemma_mod_merge(
                                    poly_value(av.take(ai), cu, ne) as int,
                                    poly_value(bv.take(bj), cu, ne) as int,
                                    av[ai].0 as int,
                                    bv[bj].0 as int,
                                    monomial_value(key, cu, ne) as int,
                                );
                            }
                        }
                        res.push(t);
                        proof {
                            assert(terms_view(res@) =~= rv.push(term_view(t)));
                        }
                    } else {
                        proof {
                            assert forall|k: Seq<(Element, usize)>|
                                #[trigger] coeff(rv, k) == (coeff(av.take(ai + 1), k) + coeff(bv.take(bj + 1), k))
                                    % modulus() by {
                                lemma_coeff_push(av.take(ai), av[ai], k);
                                lemma_coeff_push(bv.take(bj), bv[bj], k);
                            }
                            assert forall|cu: Seq<BaseFelt>, ne: Seq<BaseFelt>|
                                #[trigger] poly_value(rv, cu, ne) == (poly_value(av.take(ai + 1), cu, ne) + poly_value(
                                    bv.take(bj + 1),
                                    cu,
                                    ne,
                                )) % modulus() by {
                                lemma_value_push(av.take(ai), av[ai], cu, ne);
                                lemma_value_push(bv.take(bj), bv[bj], cu, ne);
                                lemma_mod_merge(
                                    poly_value(av.take(ai), cu, ne) as int,
                                    poly_value(bv.take(bj), cu, ne) as int,
                                    av[ai].0 as int,
                                    bv[bj].0 as int,
                                    monomial_value(key, cu, ne) as int,
                                );
                                vstd::arithmetic::mul::lemma_mul_basics(monomial_value(key, cu, ne) as int);
                                vstd::arithmetic::div_mod::lemma_small_mod(0, modulus());
                                vstd::arithmetic::div_mod::lemma_mod_twice(
                                    (poly_value(av.take(ai), cu, ne) + poly_value(bv.take(bj), cu, ne)) as int,
                                    modulus() as int,
                                );
                            }
                        }
                    }
                    i = i + 1;
                    j = j + 1;
                },
            }
        }
        proof {
            assert(av.take(i as int) =~= av);
            assert(bv.take(j as int) =~= bv);
        }
        Constraint(res)
    }

    /// A copy with the same view.
    pub fn copy(&self) -> (r: Constraint)
        requires
            self.wf(),
        ensures
            r.wf(),
            r@ == self@,
    {
        let mut res: Vec<Term> = Vec::new();
        let mut i: usize = 0;
        while i < self.0.len()
            invariant
                i <= self.0.len(),
                self.wf(),
                res@.len() == i,
                forall|m: int| 0 <= m < i ==> term_view(#[trigger] res@[m]) == term_view(self.0@[m]) && res@[m].0 == self.0@[m].0,
            decreases self.0.len() - i,
        {
            res.push(self.0[i].copy());
            i = i + 1;
        }
        proof {
            assert(terms_view(res@) =~= self@);
        }
        Constraint(res)
    }

    /// Flips the sign of every coefficient.
    pub fn neg(&self) -> (r: Constraint)
        requires
            self.wf(),
        ensures
            r.wf(),
            forall|k: Seq<(Element, usize)>| #[trigger] coeff(r@, k) == (modulus() - coeff(self@, k)) % (modulus() as int),
            forall|curr: Seq<BaseFelt>, next: Seq<BaseFelt>|
                #[trigger] poly_value(r@, curr, next) == (modulus() - poly_value(self@, curr, next)) % (modulus() as int),
    {
        let ghost av = self@;
        let mut res: Vec<Term> = Vec::new();
        let mut i: usize = 0;
        proof {
            lemma_constants();
            assert(av.take(0) =~= Seq::<(nat, Seq<(Element, usize)>)>::empty());
            assert forall|k: Seq<(Element, usize)>|
                #[trigger] coeff(terms_view(res@), k) == (modulus() - coeff(av.take(0), k)) % (modulus() as int) by {
                vstd::arithmetic::div_mod::lemma_mod_self_0(modulus() as int);
            }
            assert forall|cu: Seq<BaseFelt>, ne: Seq<BaseFelt>|
                #[trigger] poly_value(terms_view(res@), cu, ne) == (modulus() - poly_value(av.take(0), cu, ne)) % (
                modulus() as int) by {
                vstd::arithmetic::div_mod::lemma_mod_self_0(modulus() as int);
                assert(terms_view(res@) =~= Seq::<(nat, Seq<(Element, usize)>)>::empty());
            }
        }
        while i < self.0.len()
            invariant
                i <= self.0.len(),
                self.wf(),
                av == self@,
                res@.len() == i,
                felts_wf(res@),
                forall|m: int| 0 <= m < i ==> (#[trigger] terms_view(res@)[m]).1 == av[m].1 && 0 < terms_view(res@)[m].0 < modulus(),
                forall|k: Seq<(Element, usize)>|
                    #[trigger] coeff(terms_view(res@), k) == (modulus() - coeff(av.take(i as int), k)) % (modulus() as int),
                forall|cu: Seq<BaseFelt>, ne: Seq<BaseFelt>|
                    #[trigger] poly_value(terms_view(res@), cu, ne) == (modulus() - poly_value(av.take(i as int), cu, ne))
                        % (modulus() as int),
            decreases self.0.len() - i,
        {
            let ghost rv = terms_view(res@);
            let t = Term(self.0[i].0.neg(), self.0[i].1.copy());
            proof {
                let ai = i as int;
                assert(av[ai] == term_view(self.0@[ai]));
                lemma_take_next(av, ai);
                lemma_prefix_below(av, ai);
                lemma_below_absent(av.take(ai), av[ai].1);
                assert(0 < av[ai].0 < modulus());
                vstd::arithmetic::div_mod::lemma_small_mod((modulus() - av[ai].0) as nat, modulus());
                assert forall|k: Seq<(Element, usize)>|
                    #[trigger] coeff(rv.push(term_view(t)), k) == (modulus() - coeff(av.take(ai + 1), k)) % (modulus() as int) by {
                    lemma_coeff_push(rv, term_view(t), k);
                    lemma_coeff_push(av.take(ai), av[ai], k);
                }
                assert forall|cu: Seq<BaseFelt>, ne: Seq<BaseFelt>|
                    #[trigger] poly_value(rv.push(term_view(t)), cu, ne) == (modulus() - poly_value(av.take(ai + 1), cu, ne))
                        % (modulus() as int) by {
                    lemma_value_push(rv, term_view(t), cu, ne);
                    lemma_value_push(av.take(ai), av[ai], cu, ne);
                    lemma_mod_neg_step(
                        poly_value(av.take(ai), cu, ne) as int,
                        av[ai].0 as int,
                        monomial_value(av[ai].1, cu, ne) as int,
                    );
                }
            }
            res.push(t);
            proof {
                assert(terms_view(res@) =~= rv.push(term_view(t)));
            }
            i = i + 1;
        }
        proof {
            assert(av.take(i as int) =~= av);
            lemma_same_keys_wf(terms_view(res@), av);
        }
        Constraint(res)
    }

    /// Multiplies every coefficient by `rhs`; terms whose product is zero
    /// vanish.
    pub fn mul_scalar(&self, rhs: BaseFelt) -> (r: Constraint)
        requires
            self.wf(),
            rhs.wf(),
        ensures
            r.wf(),
            forall|k: Seq<(Element, usize)>| #[trigger] coeff(r@, k) == (coeff(self@, k) * rhs.value()) % modulus(),
    {
        let ghost av = self@;
        let mut res: Vec<Term> = Vec::new();
        let mut i: usize = 0;
        proof {
            lemma_constants();
            assert(av.take(0) =~= Seq::<(nat, Seq<(Element, usize)>)>::empty());
            assert(terms_view(res@) =~= Seq::<(nat, Seq<(Element, usize)>)>::empty());
            assert forall|k: Seq<(Element, usize)>|
                #[trigger] coeff(terms_view(res@), k) == (coeff(av.take(0), k) * rhs.value()) % modulus() by {
                vstd::arithmetic::mul::lemma_mul_basics(rhs.value() as int);
                vstd::arithmetic::div_mod::lemma_small_mod(0, modulus());
            }
        }
        while i < self.0.len()
            invariant
                i <= self.0.len(),
                self.wf(),
                rhs.wf(),
                av == self@,
                felts_wf(res@),
                poly_wf(terms_view(res@)),
                i < self.0.len() ==> all_below(terms_view(res@), av[i as int].1),
                forall|k: Seq<(Element, usize)>|
                    #[trigger] coeff(terms_view(res@), k) == (coeff(av.take(i as int), k) * rhs.value()) % modulus(),
            decreases self.0.len() - i,
        {
            let ghost rv = terms_view(res@);
            let ghost ai = i as int;
            let c = self.0[i].0.mul(rhs);
            proof {
                assert(av[ai] == term_view(self.0@[ai]));
                lemma_take_next(av, ai);
                lemma_prefix_below(av, ai);
                lemma_below_absent(av.take(ai), av[ai].1);
                lemma_below_absent(rv, av[ai].1);
                if ai + 1 < av.len() {
                    lemma_prefix_below(av, ai + 1);
                    lemma_below_raise(rv, av[ai].1, av[ai + 1].1);
                }
                vstd::arithmetic::mul::lemma_mul_basics(rhs.value() as int);
                vstd::arithmetic::div_mod::lemma_small_mod(0, modulus());
            }
            if !c.is_zero() {
                let t = Term(c, self.0[i].1.copy());
                proof {
                    lemma_push_wf(rv, term_view(t));
                    if ai + 1 < av.len() {
                        lemma_below_push(rv, term_view(t), av[ai + 1].1);
                    }
                    assert forall|k: Seq<(Element, usize)>|
                        #[trigger] coeff(rv.push(term_view(t)), k) == (coeff(av.take(ai + 1), k) * rhs.value()) % modulus() by {
                        lemma_coeff_push(rv, term_view(t), k);
                        lemma_coeff_push(av.take(ai), av[ai], k);
                    }
                }
                res.push(t);
                proof {
                    assert(terms_view(res@) =~= rv.push(term_view(t)));
                }
            } else {
                proof {
                    assert forall|k: Seq<(Element, usize)>|
                        #[trigger] coeff(rv, k) == (coeff(av.take(ai + 1), k) * rhs.value()) % modulus() by {
                        lemma_coeff_push(av.take(ai), av[ai], k);
                    }
                }
            }
            i = i + 1;
        }
        proof {
            assert(av.take(i as int) =~= av);
        }
        Constraint(res)
    }

    /// The subtraction: the sum with the negation.
    pub fn sub(&self, rhs: &Constraint) -> (r: Constraint)
        requires
            self.wf(),
            rhs.wf(),
        ensures
            r.wf(),
            forall|k: Seq<(Element, usize)>|
                #[trigger] coeff(r@, k) == (coeff(self@, k) + modulus() - coeff(rhs@, k)) % (modulus() as int),
            forall|curr: Seq<BaseFelt>, next: Seq<BaseFelt>|
                #[trigger] poly_value(r@, curr, next) == (poly_value(self@, curr, next) + modulus() - poly_value(
                    rhs@,
                    curr,
                    next,
                )) % (modulus() as int),
    {
        let n = rhs.neg();
        let r = self.add(&n);
        proof {
            assert forall|k: Seq<(Element, usize)>|
                #[trigger] coeff(r@, k) == (coeff(self@, k) + modulus() - coeff(rhs@, k)) % (modulus() as int) by {
                let p = modulus() as int;
                assert(coeff(n@, k) == (p - coeff(rhs@, k)) % p);
                vstd::arithmetic::div_mod::lemma_add_mod_noop_right(coeff(self@, k) as int, p - coeff(rhs@, k), p);
                vstd::arithmetic::div_mod::lemma_mod_twice(p - coeff(rhs@, k), p);
            }
            assert forall|cu: Seq<BaseFelt>, ne: Seq<BaseFelt>|
                #[trigger] poly_value(r@, cu, ne) == (poly_value(self@, cu, ne) + modulus() - poly_value(rhs@, cu, ne))
                    % (modulus() as int) by {
                let p = modulus() as int;
                assert(poly_value(n@, cu, ne) == (p - poly_value(rhs@, cu, ne)) % p);
                vstd::arithmetic::div_mod::lemma_add_mod_noop_right(
                    poly_value(self@, cu, ne) as int,
                    p - poly_value(rhs@, cu, ne),
                    p,
                );
                vstd::arithmetic::div_mod::lemma_mod_twice(p - poly_value(rhs@, cu, ne), p);
            }
        }
        r
    }

    /// The polynomial of one term: no terms for a zero coefficient.
    pub fn monomial(c: BaseFelt, vars: Variables) -> (r: Constraint)
        requires
            c.wf(),
            vars_wf(vars@),
        ensures
            r.wf(),
            forall|k: Seq<(Element, usize)>| #[trigger] coeff(r@, k) == if k == vars@ { c.value() } else { 0 },
            forall|curr: Seq<BaseFelt>, next: Seq<BaseFelt>|
                #[trigger] poly_value(r@, curr, next) == (c.value() * monomial_value(vars@, curr, next)) % modulus(),
    {
        proof {
            lemma_constants();
            vstd::arithmetic::div_mod::lemma_mod_pos_bound((c.0@ * crate::field::r_inverse()) as int, modulus() as int);
        }
        if c.is_zero() {
            let r = Constraint::zero();
            proof {
                assert forall|cu: Seq<BaseFelt>, ne: Seq<BaseFelt>|
                    #[trigger] poly_value(r@, cu, ne) == (c.value() * monomial_value(vars@, cu, ne)) % modulus() by {
                    vstd::arithmetic::mul::lemma_mul_basics(monomial_value(vars@, cu, ne) as int);
                    vstd::arithmetic::div_mod::lemma_small_mod(0, modulus());
                }
            }
            r
        } else {
            let ghost key = vars@;
            let mut v = Vec::new();
            v.push(Term(c, vars));
            let r = Constraint(v);
            proof {
                assert(r@ =~= seq![(c.value(), key)]);
                assert forall|k: Seq<(Element, usize)>| #[trigger] coeff(r@, k) == if k == key { c.value() } else { 0 } by {
                    assert(r@.drop_last() =~= Seq::<(nat, Seq<(Element, usize)>)>::empty());
                    assert(coeff(Seq::<(nat, Seq<(Element, usize)>)>::empty(), k) == 0);
                    assert(r@.last() == (c.value(), key));
                }
                assert forall|cu: Seq<BaseFelt>, ne: Seq<BaseFelt>|
                    #[trigger] poly_value(r@, cu, ne) == (c.value() * monomial_value(key, cu, ne)) % modulus() by {
                    lemma_value_push(Seq::<(nat, Seq<(Element, usize)>)>::empty(), (c.value(), key), cu, ne);
                    assert(r@ =~= Seq::<(nat, Seq<(Element, usize)>)>::empty().push((c.value(), key)));
                    vstd::arithmetic::div_mod::lemma_mod_twice((c.value() * monomial_value(key, cu, ne)) as int, modulus() as int);
                }
            }
            r
        }
    }

    /// The constant polynomial of a field element: no terms for zero.
    pub fn constant(value: BaseFelt) -> (r: Constraint)
        requires
            value.wf(),
        ensures
            r.wf(),
            forall|k: Seq<(Element, usize)>|
                #[trigger] coeff(r@, k) == if k == Seq::<(Element, usize)>::empty() { value.value() } else { 0 },
            forall|curr: Seq<BaseFelt>, next: Seq<BaseFelt>| #[trigger] poly_value(r@, curr, next) == value.value(),
    {
        let r = Constraint::monomial(value, Variables::empty());
        proof {
            lemma_constants();
            assert forall|cu: Seq<BaseFelt>, ne: Seq<BaseFelt>| #[trigger] poly_value(r@, cu, ne) == value.value() by {
                assert(monomial_value(Seq::<(Element, usize)>::empty(), cu, ne) == 1);
                vstd::arithmetic::div_mod::lemma_mod_pos_bound((value.0@ * crate::field::r_inverse()) as int, modulus() as int);
                vstd::arithmetic::div_mod::lemma_small_mod(value.value(), modulus());
            }
        }
        r
    }

    /// The polynomial of one trace element: the element to the first power.
    pub fn element(element: Element) -> (r: Constraint)
        ensures
            r.wf(),
            r@ == seq![(1nat, seq![(element, 1usize)])],
    {
        let mut v = Vec::new();
        v.push(Term(BaseFelt::one(), Variables::single(element)));
        let r = Constraint(v);
        proof {
            lemma_constants();
            assert(r@ =~= seq![(1nat, seq![(element, 1usize)])]);
        }
        r
    }

    /// Adds a field element as a constant term.
    pub fn add_scalar(&self, rhs: BaseFelt) -> (r: Constraint)
        requires
            self.wf(),
            rhs.wf(),
        ensures
            r.wf(),
            forall|k: Seq<(Element, usize)>|
                #[trigger] coeff(r@, k) == (coeff(self@, k) + if k == Seq::<(Element, usize)>::empty() {
                    rhs.value()
                } else {
                    0
                }) % modulus(),
            forall|curr: Seq<BaseFelt>, next: Seq<BaseFelt>|
                #[trigger] poly_value(r@, curr, next) == (poly_value(self@, curr, next) + rhs.value()) % modulus(),
    {
        let c = Constraint::constant(rhs);
        let r = self.add(&c);
        proof {
            assert forall|k: Seq<(Element, usize)>|
                #[trigger] coeff(r@, k) == (coeff(self@, k) + if k == Seq::<(Element, usize)>::empty() {
                    rhs.value()
                } else {
                    0
                }) % modulus() by {
                assert(coeff(c@, k) == if k == Seq::<(Element, usize)>::empty() { rhs.value() } else { 0 });
            }
            assert forall|cu: Seq<BaseFelt>, ne: Seq<BaseFelt>|
                #[trigger] poly_value(r@, cu, ne) == (poly_value(self@, cu, ne) + rhs.value()) % modulus() by {
                assert(poly_value(c@, cu, ne) == rhs.value());
            }
        }
        r
    }

    /// Subtracts a field element as a constant term.
    pub fn sub_scalar(&self, rhs: BaseFelt) -> (r: Constraint)
        requires
            self.wf(),
            rhs.wf(),
        ensures
            r.wf(),
            forall|k: Seq<(Element, usize)>|
                #[trigger] coeff(r@, k) == (coeff(self@, k) + if k == Seq::<(Element, usize)>::empty() {
                    (modulus() - rhs.value()) % (modulus() as int)
                } else {
                    0
                }) % (modulus() as int),
            forall|curr: Seq<BaseFelt>, next: Seq<BaseFelt>|
                #[trigger] poly_value(r@, curr, next) == (poly_value(self@, curr, next) + (modulus() - rhs.value()) % (
                modulus() as int)) % (modulus() as int),
    {
        self.add_scalar(rhs.neg())
    }

    /// The largest degree of a term; zero for the zero polynomial.
    pub fn degree(&self) -> (r: usize)
        requires
            self.wf(),
        ensures
            r == max_degree(self@),
    {
        let mut best: usize = 0;
        let mut i: usize = 0;
        proof {
            assert(self@.take(0) =~= Seq::<(nat, Seq<(Element, usize)>)>::empty());
        }
        while i < self.0.len()
            invariant
                i <= self.0.len(),
                self.wf(),
                best == max_degree(self@.take(i as int)),
            decreases self.0.len() - i,
        {
            proof {
                lemma_take_next(self@, i as int);
                assert(self@.take(i + 1).drop_last() =~= self@.take(i as int));
                assert(self@[i as int] == term_view(self.0@[i as int]));
            }
            let d = self.0[i].1.degree();
            if d > best {
                best = d;
            }
            i = i + 1;
        }
        proof {
            assert(self@.take(i as int) =~= self@);
        }
        best
    }

    /// The product: every pair of terms multiplied, the results summed into
    /// canonical form.
    pub fn mul(&self, rhs: &Constraint) -> (r: Constraint)
        requires
            self.wf(),
            rhs.wf(),
            max_degree(self@) + max_degree(rhs@) <= usize::MAX,
        ensures
            r.wf(),
            forall|k: Seq<(Element, usize)>| #[trigger] coeff(r@, k) == product_coeff(self@, rhs@, k),
            forall|curr: Seq<BaseFelt>, next: Seq<BaseFelt>|
                #[trigger] poly_value(r@, curr, next) == (poly_value(self@, curr, next) * poly_value(rhs@, curr, next))
                    % modulus(),
    {
        let ghost av = self@;
        let ghost bv = rhs@;
        proof {
            lemma_constants();
            assert(av.take(0) =~= Seq::<(nat, Seq<(Element, usize)>)>::empty());
        }
        if self.is_zero() || rhs.is_zero() {
            let r = Constraint::zero();
            proof {
                assert forall|k: Seq<(Element, usize)>| #[trigger] coeff(r@, k) == product_coeff(self@, rhs@, k) by {
                    lemma_product_coeff_zero(av, bv, k);
                }
                assert forall|cu: Seq<BaseFelt>, ne: Seq<BaseFelt>|
                    #[trigger] poly_value(r@, cu, ne) == (poly_value(self@, cu, ne) * poly_value(rhs@, cu, ne)) % modulus() by {
                    vstd::arithmetic::mul::lemma_mul_basics(poly_value(self@, cu, ne) as int);
                    vstd::arithmetic::mul::lemma_mul_basics(poly_value(rhs@, cu, ne) as int);
                    vstd::arithmetic::div_mod::lemma_small_mod(0, modulus());
                }
            }
            return r;
        }
        let mut res = Constraint::zero();
        let mut i: usize = 0;
        proof {
            assert forall|cu: Seq<BaseFelt>, ne: Seq<BaseFelt>|
                #[trigger] poly_value(res@, cu, ne) == (poly_value(av.take(0), cu, ne) * poly_value(bv, cu, ne)) % modulus() by {
                vstd::arithmetic::mul::lemma_mul_basics(poly_value(bv, cu, ne) as int);
                vstd::arithmetic::div_mod::lemma_small_mod(0, modulus());
            }
        }
        while i < self.0.len()
            invariant
                i <= self.0.len(),
                self.wf(),
                rhs.wf(),
                av == self@,
                bv == rhs@,
                max_degree(av) + max_degree(bv) <= usize::MAX,
                res.wf(),
                forall|k: Seq<(Element, usize)>| #[trigger] coeff(res@, k) == product_coeff(av.take(i as int), bv, k),
                forall|cu: Seq<BaseFelt>, ne: Seq<BaseFelt>|
                    #[trigger] poly_value(res@, cu, ne) == (poly_value(av.take(i as int), cu, ne) * poly_value(bv, cu, ne))
                        % modulus(),
            decreases self.0.len() - i,
        {
            let ghost ai = i as int;
            let mut j: usize = 0;
            proof {
                assert(bv.take(0) =~= Seq::<(nat, Seq<(Element, usize)>)>::empty());
                assert(av[ai] == term_view(self.0@[ai]));
                lemma_max_degree_bounds(av, ai);
                assert forall|k: Seq<(Element, usize)>|
                    #[trigger] coeff(res@, k) == (product_coeff(av.take(ai), bv, k) + row_coeff(av[ai], bv.take(0), k)) % modulus() by {
                    lemma_product_coeff_bound(av.take(ai), bv, k);
                    vstd::arithmetic::div_mod::lemma_small_mod(product_coeff(av.take(ai), bv, k), modulus());
                }
                assert forall|cu: Seq<BaseFelt>, ne: Seq<BaseFelt>|
                    #[trigger] poly_value(res@, cu, ne) == (poly_value(av.take(ai), cu, ne) * poly_value(bv, cu, ne)
                        + ((av[ai].0 * monomial_value(av[ai].1, cu, ne)) % modulus()) * poly_value(bv.take(0), cu, ne))
                        % modulus() by {
                    vstd::arithmetic::mul::lemma_mul_basics(((av[ai].0 * monomial_value(av[ai].1, cu, ne)) % modulus()) as int);
                }
            }
            while j < rhs.0.len()
                invariant
                    i < self.0.len(),
                    j <= rhs.0.len(),
                    self.wf(),
                    rhs.wf(),
                    av == self@,
                    bv == rhs@,
                    ai == i,
                    degree_of(av[ai].1) + max_degree(bv) <= usize::MAX,
                    res.wf(),
                    forall|k: Seq<(Element, usize)>|
                        #[trigger] coeff(res@, k) == (product_coeff(av.take(ai), bv, k) + row_coeff(
                            av[ai],
                            bv.take(j as int),
                            k,
                        )) % modulus(),
                    forall|cu: Seq<BaseFelt>, ne: Seq<BaseFelt>|
                        #[trigger] poly_value(res@, cu, ne) == (poly_value(av.take(ai), cu, ne) * poly_value(bv, cu, ne)
                            + ((av[ai].0 * monomial_value(av[ai].1, cu, ne)) % modulus()) * poly_value(
                            bv.take(j as int),
                            cu,
                            ne,
                        )) % modulus(),
                decreases rhs.0.len() - j,
            {
                let ghost bj = j as int;
                proof {
                    assert(av[ai] == term_view(self.0@[ai]));
                    assert(bv[bj] == term_view(rhs.0@[bj]));
                    lemma_max_degree_bounds(bv, bj);
                }
                let c = self.0[i].0.mul(rhs.0[j].0);
                let vars = self.0[i].1.mul(&rhs.0[j].1);
                let ghost key = vars@;
                let single = Constraint::monomial(c, vars);
                let next = res.add(&single);
                proof {
                    lemma_take_next(bv, bj);
                    assert(bv.take(bj + 1).drop_last() =~= bv.take(bj));
                    assert forall|k: Seq<(Element, usize)>|
                        #[trigger] coeff(next@, k) == (product_coeff(av.take(ai), bv, k) + row_coeff(
                            av[ai],
                            bv.take(bj + 1),
                            k,
                        )) % modulus() by {
                        let x = if key == k { av[ai].0 * bv[bj].0 } else { 0 };
                        assert(coeff(single@, k) == x % modulus()) by {
                            vstd::arithmetic::div_mod::lemma_small_mod(0, modulus());
                        }
                        lemma_mod_add3(
                            product_coeff(av.take(ai), bv, k) as int,
                            row_coeff(av[ai], bv.take(bj), k) as int,
                            x as int,
                        );
                    }
                    assert forall|cu: Seq<BaseFelt>, ne: Seq<BaseFelt>|
                        #[trigger] poly_value(next@, cu, ne) == (poly_value(av.take(ai), cu, ne) * poly_value(bv, cu, ne)
                            + ((av[ai].0 * monomial_value(av[ai].1, cu, ne)) % modulus()) * poly_value(
                            bv.take(bj + 1),
                            cu,
                            ne,
                        )) % modulus() by {
                        let ma = monomial_value(av[ai].1, cu, ne) as int;
                        let mb = monomial_value(bv[bj].1, cu, ne) as int;
                        let ti = ((av[ai].0 * monomial_value(av[ai].1, cu, ne)) % modulus()) as int;
                        let u = ((bv[bj].0 * monomial_value(bv[bj].1, cu, ne)) % modulus()) as int;
                        lemma_monomial_value_mul(av[ai].1, bv[bj].1, cu, ne);
                        lemma_mod_term_product(av[ai].0 as int, bv[bj].0 as int, ma, mb);
                        lemma_value_push(bv.take(bj), bv[bj], cu, ne);
                        vstd::arithmetic::div_mod::lemma_mul_mod_noop_right(ti, bv[bj].0 * mb, modulus() as int);
                        vstd::arithmetic::div_mod::lemma_mod_twice(ti * (bv[bj].0 * mb), modulus() as int);
                        lemma_mod_row_step(
                            (poly_value(av.take(ai), cu, ne) * poly_value(bv, cu, ne)) as int,
                            ti,
                            poly_value(bv.take(bj), cu, ne) as int,
                            u,
                            poly_value(single@, cu, ne) as int,
                        );
                    }
                }
                res = next;
                j = j + 1;
            }
            proof {
                assert(bv.take(j as int) =~= bv);
                lemma_take_next(av, ai);
                assert(av.take(ai + 1).drop_last() =~= av.take(ai));
                assert forall|cu: Seq<BaseFelt>, ne: Seq<BaseFelt>|
                    #[trigger] poly_value(res@, cu, ne) == (poly_value(av.take(ai + 1), cu, ne) * poly_value(bv, cu, ne))
                        % modulus() by {
                    lemma_value_push(av.take(ai), av[ai], cu, ne);
                    lemma_mod_outer_step(
                        poly_value(av.take(ai), cu, ne) as int,
                        ((av[ai].0 * monomial_value(av[ai].1, cu, ne)) % modulus()) as int,
                        poly_value(bv, cu, ne) as int,
                    );
                }
            }
            i = i + 1;
        }
        proof {
            assert(av.take(i as int) =~= av);
        }
        res
    }

    /// The canonical polynomial of a list of terms in any order: sorted,
    /// terms with equal variables merged, zero coefficients dropped.
    pub fn new(terms: Vec<Term>) -> (r: Constraint)
        requires
            felts_wf(terms@),
            forall|i: int| 0 <= i < terms.len() ==> vars_wf((#[trigger] terms@[i]).1@),
        ensures
            r.wf(),
            forall|k: Seq<(Element, usize)>| #[trigger] coeff(r@, k) == sum_coeff(terms_view(terms@), k),
    {
        let ghost tv = terms_view(terms@);
        let mut res = Constraint::zero();
        let mut i: usize = 0;
        proof {
            assert(tv.take(0) =~= Seq::<(nat, Seq<(Element, usize)>)>::empty());
        }
        while i < terms.len()
            invariant
                i <= terms.len(),
                tv == terms_view(terms@),
                felts_wf(terms@),
                forall|m: int| 0 <= m < terms.len() ==> vars_wf((#[trigger] terms@[m]).1@),
                res.wf(),
                forall|k: Seq<(Element, usize)>| #[trigger] coeff(res@, k) == sum_coeff(tv.take(i as int), k),
            decreases terms.len() - i,
        {
            let ghost ti = i as int;
            proof {
                assert(tv[ti] == term_view(terms@[ti]));
                assert(terms@[ti].0.wf());
            }
            let single = Constraint::monomial(terms[i].0, terms[i].1.copy());
            let next = res.add(&single);
            proof {
                lemma_take_next(tv, ti);
                assert(tv.take(ti + 1).drop_last() =~= tv.take(ti));
                assert forall|k: Seq<(Element, usize)>| #[trigger] coeff(next@, k) == sum_coeff(tv.take(ti + 1), k) by {
                    vstd::arithmetic::div_mod::lemma_small_mod(0, modulus());
                    vstd::arithmetic::div_mod::lemma_mod_pos_bound((terms@[ti].0.0@ * crate::field::r_inverse()) as int, modulus() as int);
                    vstd::arithmetic::div_mod::lemma_small_mod(tv[ti].0, modulus());
                    vstd::arithmetic::div_mod::lemma_add_mod_noop_right(
                        sum_coeff(tv.take(ti), k) as int,
                        if tv[ti].1 == k { tv[ti].0 as int } else { 0 },
                        modulus() as int,
                    );
                }
            }
            res = next;
            i = i + 1;
        }
        proof {
            assert(tv.take(i as int) =~= tv);
        }
        res
    }

    /// Whether this is the zero polynomial (no terms).
    pub fn is_zero(&self) -> (r: bool)
        requires
            self.wf(),
        ensures
            r == (self@.len() == 0),
    {
        self.0.len() == 0
    }
}

} // verus!

verus! {

/// `coeff` is nonzero exactly at the monomials of a canonical polynomial.
proof fn lemma_coeff_present(c: Seq<(nat, Seq<(Element, usize)>)>, i: int)
    requires
        poly_wf(c),
        0 <= i < c.len(),
    ensures
        coeff(c, c[i].1) == c[i].0,
    decreases c.len(),
{
    if i < c.len() - 1 {
        let d = c.drop_last();
        assert(vars_lt(c[i].1, c.last().1));
        lemma_vars_order(c[i].1, c.last().1, c[i].1);
        lemma_drop_last_wf(c);
        assert(d[i] == c[i]);
        lemma_coeff_present(d, i);
    }
}

/// Two canonical polynomials with the same coefficients are the same.
pub proof fn lemma_canonical_unique(c1: Seq<(nat, Seq<(Element, usize)>)>, c2: Seq<(nat, Seq<(Element, usize)>)>)
    requires
        poly_wf(c1),
        poly_wf(c2),
        forall|k: Seq<(Element, usize)>| #[trigger] coeff(c1, k) == coeff(c2, k),
    ensures
        c1 == c2,
    decreases c1.len() + c2.len(),
{
    if c1.len() == 0 && c2.len() == 0 {
        assert(c1 =~= c2);
    } else if c1.len() == 0 {
        lemma_coeff_present(c2, c2.len() - 1);
        assert(coeff(c1, c2.last().1) == coeff(c2, c2.last().1));
    } else if c2.len() == 0 {
        lemma_coeff_present(c1, c1.len() - 1);
        assert(coeff(c1, c1.last().1) == coeff(c2, c1.last().1));
    } else {
        let k1 = c1.last().1;
        let k2 = c2.last().1;
        lemma_coeff_present(c1, c1.len() - 1);
        lemma_coeff_present(c2, c2.len() - 1);
        lemma_prefix_below(c1, c1.len() - 1);
        lemma_prefix_below(c2, c2.len() - 1);
        assert(c1.take(c1.len() - 1) =~= c1.drop_last());
        assert(c2.take(c2.len() - 1) =~= c2.drop_last());
        let d1 = c1.drop_last();
        let d2 = c2.drop_last();
        if k1 != k2 {
            lemma_vars_order(k1, k2, k1);
            if vars_lt(k1, k2) {
                lemma_below_raise(d1, k1, k2);
                lemma_below_absent(d1, k2);
                assert(coeff(c1, k2) == coeff(c2, k2));
            } else {
                lemma_below_raise(d2, k2, k1);
                lemma_below_absent(d2, k1);
                assert(coeff(c1, k1) == coeff(c2, k1));
            }
        }
        assert(k1 == k2);
        assert(coeff(c1, k1) == coeff(c2, k1));
        lemma_below_absent(d1, k1);
        lemma_below_absent(d2, k1);
        assert forall|k: Seq<(Element, usize)>| #[trigger] coeff(d1, k) == coeff(d2, k) by {
            assert(coeff(c1, k) == coeff(c2, k));
        }
        lemma_drop_last_wf(c1);
        lemma_drop_last_wf(c2);
        lemma_canonical_unique(d1, d2);
        assert(c1 =~= d1.push(c1.last()));
        assert(c2 =~= d2.push(c2.last()));
    }
}

proof fn lemma_drop_last_wf(c: Seq<(nat, Seq<(Element, usize)>)>)
    requires
        poly_wf(c),
        c.len() > 0,
    ensures
        poly_wf(c.drop_last()),
{
    let d = c.drop_last();
    assert forall|x: int, y: int| 0 <= x < y < d.len() implies vars_lt((#[trigger] d[x]).1, (#[trigger] d[y]).1) by {
        assert(d[x] == c[x] && d[y] == c[y]);
    }
    assert forall|x: int| 0 <= x < d.len() implies 0 < (#[trigger] d[x]).0 < modulus() && vars_wf(d[x].1) by {
        assert(d[x] == c[x]);
    }
}

/// The coefficients of a canonical polynomial are below `N`.
proof fn lemma_coeff_reduced(c: Seq<(nat, Seq<(Element, usize)>)>, k: Seq<(Element, usize)>)
    requires
        poly_wf(c),
    ensures
        coeff(c, k) < modulus(),
    decreases c.len(),
{
    lemma_constants();
    if c.len() > 0 {
        lemma_drop_last_wf(c);
        lemma_coeff_reduced(c.drop_last(), k);
    }
}

/// Addition of constraints is commutative.
pub proof fn lemma_add_commutative(
    a: Seq<(nat, Seq<(Element, usize)>)>,
    b: Seq<(nat, Seq<(Element, usize)>)>,
    ab: Seq<(nat, Seq<(Element, usize)>)>,
    ba: Seq<(nat, Seq<(Element, usize)>)>,
)
    requires
        poly_wf(ab),
        poly_wf(ba),
        forall|k: Seq<(Element, usize)>| #[trigger] coeff(ab, k) == (coeff(a, k) + coeff(b, k)) % modulus(),
        forall|k: Seq<(Element, usize)>| #[trigger] coeff(ba, k) == (coeff(b, k) + coeff(a, k)) % modulus(),
    ensures
        ab == ba,
{
    assert forall|k: Seq<(Element, usize)>| #[trigger] coeff(ab, k) == coeff(ba, k) by {
        assert(coeff(a, k) + coeff(b, k) == coeff(b, k) + coeff(a, k));
    }
    lemma_canonical_unique(ab, ba);
}

/// Addition of constraints is associative: `(a + b) + c == a + (b + c)`.
pub proof fn lemma_add_associative(
    a: Seq<(nat, Seq<(Element, usize)>)>,
    b: Seq<(nat, Seq<(Element, usize)>)>,
    c: Seq<(nat, Seq<(Element, usize)>)>,
    ab: Seq<(nat, Seq<(Element, usize)>)>,
    bc: Seq<(nat, Seq<(Element, usize)>)>,
    left: Seq<(nat, Seq<(Element, usize)>)>,
    right: Seq<(nat, Seq<(Element, usize)>)>,
)
    requires
        poly_wf(left),
        poly_wf(right),
        forall|k: Seq<(Element, usize)>| #[trigger] coeff(ab, k) == (coeff(a, k) + coeff(b, k)) % modulus(),
        forall|k: Seq<(Element, usize)>| #[trigger] coeff(bc, k) == (coeff(b, k) + coeff(c, k)) % modulus(),
        forall|k: Seq<(Element, usize)>| #[trigger] coeff(left, k) == (coeff(ab, k) + coeff(c, k)) % modulus(),
        forall|k: Seq<(Element, usize)>| #[trigger] coeff(right, k) == (coeff(a, k) + coeff(bc, k)) % modulus(),
    ensures
        left == right,
{
    lemma_constants();
    assert forall|k: Seq<(Element, usize)>| #[trigger] coeff(left, k) == coeff(right, k) by {
        let p = modulus() as int;
        let (x, y, z) = (coeff(a, k) as int, coeff(b, k) as int, coeff(c, k) as int);
        assert(coeff(ab, k) == (x + y) % p);
        assert(coeff(bc, k) == (y + z) % p);
        vstd::arithmetic::div_mod::lemma_add_mod_noop_right(z, x + y, p);
        vstd::arithmetic::div_mod::lemma_add_mod_noop_right(x, y + z, p);
        assert((x + y) % p + z == z + (x + y) % p);
        assert(z + (x + y) == x + (y + z));
    }
    lemma_canonical_unique(left, right);
}

/// Zero is the identity of addition: `a + 0 == a`.
pub proof fn lemma_add_zero(a: Seq<(nat, Seq<(Element, usize)>)>, r: Seq<(nat, Seq<(Element, usize)>)>)
    requires
        poly_wf(a),
        poly_wf(r),
        forall|k: Seq<(Element, usize)>|
            #[trigger] coeff(r, k) == (coeff(a, k) + coeff(Seq::<(nat, Seq<(Element, usize)>)>::empty(), k)) % modulus(),
    ensures
        r == a,
{
    assert forall|k: Seq<(Element, usize)>| #[trigger] coeff(r, k) == coeff(a, k) by {
        lemma_coeff_reduced(a, k);
        assert(coeff(Seq::<(nat, Seq<(Element, usize)>)>::empty(), k) == 0);
        vstd::arithmetic::div_mod::lemma_small_mod(coeff(a, k), modulus());
    }
    lemma_canonical_unique(r, a);
}

/// The sum of the terms of a canonical polynomial is the polynomial.
proof fn lemma_sum_coeff_canonical(c: Seq<(nat, Seq<(Element, usize)>)>, k: Seq<(Element, usize)>)
    requires
        poly_wf(c),
    ensures
        sum_coeff(c, k) == coeff(c, k),
    decreases c.len(),
{
    lemma_constants();
    if c.len() > 0 {
        let d = c.drop_last();
        lemma_drop_last_wf(c);
        lemma_sum_coeff_canonical(d, k);
        lemma_coeff_reduced(d, k);
        lemma_coeff_reduced(c, k);
        if c.last().1 == k {
            lemma_prefix_below(c, c.len() - 1);
            assert(c.take(c.len() - 1) =~= d);
            lemma_below_absent(d, k);
        }
        vstd::arithmetic::div_mod::lemma_small_mod(coeff(c, k), modulus());
    }
}

/// Multiplying by the term 1 keeps each term.
proof fn lemma_row_one(t: (nat, Seq<(Element, usize)>), k: Seq<(Element, usize)>)
    requires
        t.0 < modulus(),
    ensures
        row_coeff(t, seq![(1nat, Seq::<(Element, usize)>::empty())], k) == if t.1 == k { t.0 } else { 0 },
{
    let one = seq![(1nat, Seq::<(Element, usize)>::empty())];
    lemma_constants();
    assert(one.drop_last() =~= Seq::<(nat, Seq<(Element, usize)>)>::empty());
    if t.1.len() == 0 {
        assert(t.1 =~= Seq::<(Element, usize)>::empty());
    }
    assert(vars_mul(t.1, Seq::<(Element, usize)>::empty()) == t.1);
    assert(one.last() == (1nat, Seq::<(Element, usize)>::empty()));
    assert(row_coeff(t, Seq::<(nat, Seq<(Element, usize)>)>::empty(), k) == 0);
    vstd::arithmetic::mul::lemma_mul_basics(t.0 as int);
    vstd::arithmetic::div_mod::lemma_small_mod(t.0, modulus());
    vstd::arithmetic::div_mod::lemma_small_mod(0, modulus());
}

proof fn lemma_product_one(a: Seq<(nat, Seq<(Element, usize)>)>, k: Seq<(Element, usize)>)
    requires
        forall|i: int| 0 <= i < a.len() ==> (#[trigger] a[i]).0 < modulus(),
    ensures
        product_coeff(a, seq![(1nat, Seq::<(Element, usize)>::empty())], k) == sum_coeff(a, k),
    decreases a.len(),
{
    if a.len() > 0 {
        let d = a.drop_last();
        assert forall|i: int| 0 <= i < d.len() implies (#[trigger] d[i]).0 < modulus() by {
            assert(d[i] == a[i]);
        }
        lemma_product_one(d, k);
        lemma_row_one(a.last(), k);
    }
}

/// One is the identity of multiplication: `a * 1 == a`.
pub proof fn lemma_mul_one(a: Seq<(nat, Seq<(Element, usize)>)>, r: Seq<(nat, Seq<(Element, usize)>)>)
    requires
        poly_wf(a),
        poly_wf(r),
        forall|k: Seq<(Element, usize)>|
            #[trigger] coeff(r, k) == product_coeff(a, seq![(1nat, Seq::<(Element, usize)>::empty())], k),
    ensures
        r == a,
{
    assert forall|k: Seq<(Element, usize)>| #[trigger] coeff(r, k) == coeff(a, k) by {
        lemma_product_one(a, k);
        lemma_sum_coeff_canonical(a, k);
    }
    lemma_canonical_unique(r, a);
}

} // verus!

verus! {

/// The integer that an element reads from the current and next rows.
pub open spec fn element_value(e: Element, curr: Seq<BaseFelt>, next: Seq<BaseFelt>) -> nat {
    match e {
        Element::Curr(i) => curr[i as int].value(),
        Element::Next(i) => next[i as int].value(),
    }
}

/// The value of a monomial on two rows, modulo `N`.
pub open spec fn monomial_value(vars: Seq<(Element, usize)>, curr: Seq<BaseFelt>, next: Seq<BaseFelt>) -> nat
    decreases vars.len(),
{
    if vars.len() == 0 {
        1
    } else {
        (monomial_value(vars.drop_last(), curr, next) * ((vstd::arithmetic::power::pow(
            element_value(vars.last().0, curr, next) as int,
            vars.last().1 as nat,
        ) % (modulus() as int)) as nat)) % modulus()
    }
}

/// The value of a polynomial on two rows, modulo `N`.
pub open spec fn poly_value(c: Seq<(nat, Seq<(Element, usize)>)>, curr: Seq<BaseFelt>, next: Seq<BaseFelt>) -> nat
    decreases c.len(),
{
    if c.len() == 0 {
        0
    } else {
        (poly_value(c.drop_last(), curr, next) + (c.last().0 * monomial_value(c.last().1, curr, next))
            % modulus()) % modulus()
    }
}

/// Every element that the variables read lies within rows of the given
/// widths.
pub open spec fn vars_within(vars: Seq<(Element, usize)>, curr_len: nat, next_len: nat) -> bool {
    forall|i: int|
        0 <= i < vars.len() ==> match #[trigger] vars[i].0 {
            Element::Curr(c) => c < curr_len,
            Element::Next(c) => c < next_len,
        }
}

pub open spec fn poly_within(c: Seq<(nat, Seq<(Element, usize)>)>, curr_len: nat, next_len: nat) -> bool {
    forall|i: int| 0 <= i < c.len() ==> vars_within((#[trigger] c[i]).1, curr_len, next_len)
}

pub open spec fn row_wf(row: Seq<BaseFelt>) -> bool {
    forall|i: int| 0 <= i < row.len() ==> (#[trigger] row[i]).wf()
}

fn element_read(e: Element, curr: &Vec<BaseFelt>, next: &Vec<BaseFelt>) -> (r: BaseFelt)
    requires
        row_wf(curr@),
        row_wf(next@),
        match e {
            Element::Curr(c) => c < curr.len(),
            Element::Next(c) => c < next.len(),
        },
    ensures
        r.wf(),
        r.value() == element_value(e, curr@, next@),
{
    match e {
        Element::Curr(c) => curr[c],
        Element::Next(c) => next[c],
    }
}

impl Variables {
    /// The value of the monomial on a current and a next row.
    pub fn evaluate(&self, curr: &Vec<BaseFelt>, next: &Vec<BaseFelt>) -> (r: BaseFelt)
        requires
            row_wf(curr@),
            row_wf(next@),
            vars_within(self@, curr.len() as nat, next.len() as nat),
        ensures
            r.wf(),
            r.value() == monomial_value(self@, curr@, next@),
    {
        let mut acc = BaseFelt::one();
        let mut i: usize = 0;
        proof {
            assert(self@.take(0) =~= Seq::<(Element, usize)>::empty());
        }
        while i < self.0.len()
            invariant
                i <= self.0.len(),
                row_wf(curr@),
                row_wf(next@),
                vars_within(self@, curr.len() as nat, next.len() as nat),
                acc.wf(),
                acc.value() == monomial_value(self@.take(i as int), curr@, next@),
            decreases self.0.len() - i,
        {
            let (e, x) = self.0[i];
            proof {
                assert(self@[i as int] == (e, x));
                assert(self@.take(i + 1).drop_last() =~= self@.take(i as int));
            }
            let v = element_read(e, curr, next);
            let p = v.pow(crate::u256::U256 { high: 0, low: x as u128 });
            acc = acc.mul(p);
            i = i + 1;
        }
        proof {
            assert(self@.take(i as int) =~= self@);
        }
        acc
    }
}

impl Constraint {
    /// The value of the polynomial on a current and a next row.
    pub fn evaluate(&self, curr: &Vec<BaseFelt>, next: &Vec<BaseFelt>) -> (r: BaseFelt)
        requires
            self.wf(),
            row_wf(curr@),
            row_wf(next@),
            poly_within(self@, curr.len() as nat, next.len() as nat),
        ensures
            r.wf(),
            r.value() == poly_value(self@, curr@, next@),
    {
        let mut acc = BaseFelt::zero();
        let mut i: usize = 0;
        proof {
            assert(self@.take(0) =~= Seq::<(nat, Seq<(Element, usize)>)>::empty());
        }
        while i < self.0.len()
            invariant
                i <= self.0.len(),
                self.wf(),
                row_wf(curr@),
                row_wf(next@),
                poly_within(self@, curr.len() as nat, next.len() as nat),
                acc.wf(),
                acc.value() == poly_value(self@.take(i as int), curr@, next@),
            decreases self.0.len() - i,
        {
            proof {
                assert(self@[i as int] == term_view(self.0@[i as int]));
                assert(self@.take(i + 1).drop_last() =~= self@.take(i as int));
                assert(vars_within(self@[i as int].1, curr.len() as nat, next.len() as nat));
            }
            let m = self.0[i].1.evaluate(curr, next);
            let t = self.0[i].0.mul(m);
            acc = acc.add(t);
            i = i + 1;
        }
        proof {
            assert(self@.take(i as int) =~= self@);
        }
        acc
    }
}

} // verus!

verus! {

/// The value of one element to its power, modulo `N`.
pub open spec fn power_value(h: (Element, usize), curr: Seq<BaseFelt>, next: Seq<BaseFelt>) -> nat {
    ((vstd::arithmetic::power::pow(element_value(h.0, curr, next) as int, h.1 as nat) % (modulus() as int)) as nat)
}

proof fn lemma_power_value_bound(h: (Element, usize), curr: Seq<BaseFelt>, next: Seq<BaseFelt>)
    ensures
        power_value(h, curr, next) < modulus(),
        power_value(h, curr, next) as int == vstd::arithmetic::power::pow(element_value(h.0, curr, next) as int, h.1 as nat) % (modulus() as int),
{
    lemma_constants();
    vstd::arithmetic::div_mod::lemma_mod_bound(
        vstd::arithmetic::power::pow(element_value(h.0, curr, next) as int, h.1 as nat),
        modulus() as int,
    );
}

proof fn lemma_monomial_value_bound(s: Seq<(Element, usize)>, curr: Seq<BaseFelt>, next: Seq<BaseFelt>)
    ensures
        monomial_value(s, curr, next) < modulus(),
    decreases s.len(),
{
    lemma_constants();
    if s.len() > 0 {
        vstd::arithmetic::div_mod::lemma_mod_pos_bound(
            (monomial_value(s.drop_last(), curr, next) * power_value(s.last(), curr, next)) as int,
            modulus() as int,
        );
    }
}

/// `(a * ((b * c) mod N)) mod N == (a * b * c) mod N`, and the same with the
/// reduction on the left.
proof fn lemma_mod_mul3(a: int, b: int, c: int)
    ensures
        (a * ((b * c) % (modulus() as int))) % (modulus() as int) == (a * b * c) % (modulus() as int),
        (((a * b) % (modulus() as int)) * c) % (modulus() as int) == (a * b * c) % (modulus() as int),
{
    let p = modulus() as int;
    lemma_constants();
    vstd::arithmetic::div_mod::lemma_mul_mod_noop_right(a, b * c, p);
    vstd::arithmetic::mul::lemma_mul_is_associative(a, b, c);
    vstd::arithmetic::div_mod::lemma_mul_mod_noop_left(a * b, c, p);
}

/// The value of a monomial, taken from its first element.
proof fn lemma_monomial_value_cons(h: (Element, usize), t: Seq<(Element, usize)>, curr: Seq<BaseFelt>, next: Seq<BaseFelt>)
    ensures
        monomial_value(seq![h] + t, curr, next) == (power_value(h, curr, next) * monomial_value(t, curr, next)) % modulus(),
    decreases t.len(),
{
    let p = modulus() as int;
    let s = seq![h] + t;
    lemma_constants();
    lemma_power_value_bound(h, curr, next);
    if t.len() == 0 {
        assert(s.drop_last() =~= Seq::<(Element, usize)>::empty());
        assert(s.last() == h);
        vstd::arithmetic::mul::lemma_mul_basics(power_value(h, curr, next) as int);
        vstd::arithmetic::div_mod::lemma_small_mod(power_value(h, curr, next), modulus());
        assert(monomial_value(Seq::<(Element, usize)>::empty(), curr, next) == 1);
        assert(monomial_value(s, curr, next) == (monomial_value(s.drop_last(), curr, next) * power_value(s.last(), curr, next)) % modulus());
    } else {
        assert(s.drop_last() =~= seq![h] + t.drop_last());
        assert(s.last() == t.last());
        lemma_monomial_value_cons(h, t.drop_last(), curr, next);
        let a = power_value(h, curr, next) as int;
        let b = monomial_value(t.drop_last(), curr, next) as int;
        let c = power_value(t.last(), curr, next) as int;
        lemma_mod_mul3(a, b, c);
        assert(monomial_value(s, curr, next) == (monomial_value(s.drop_last(), curr, next) * power_value(s.last(), curr, next)) % modulus());
        assert(monomial_value(t, curr, next) == (monomial_value(t.drop_last(), curr, next) * power_value(t.last(), curr, next)) % modulus());
    }
}

proof fn lemma_mod_four(px: int, py: int, mx: int, my: int, ph: int)
    requires
        ph == (px * py) % (modulus() as int),
    ensures
        (ph * ((mx * my) % (modulus() as int))) % (modulus() as int) == (((px * mx) % (modulus() as int)) * ((py * my)
            % (modulus() as int))) % (modulus() as int),
{
    let p = modulus() as int;
    lemma_constants();
    lemma_mod_mul3(ph, mx, my);
    vstd::arithmetic::mul::lemma_mul_is_associative(ph, mx, my);
    vstd::arithmetic::div_mod::lemma_mul_mod_noop_left(px * py, mx * my, p);
    vstd::arithmetic::div_mod::lemma_mul_mod_noop(px * mx, py * my, p);
    assert(px * py * (mx * my) == (px * mx) * (py * my)) by {
        broadcast use vstd::arithmetic::mul::group_mul_properties;

    }
}

proof fn lemma_mod_swap(a: int, b: int, c: int)
    ensures
        (a * ((b * c) % (modulus() as int))) % (modulus() as int) == (b * ((a * c) % (modulus() as int))) % (modulus() as int),
{
    lemma_mod_mul3(a, b, c);
    lemma_mod_mul3(b, a, c);
    assert(a * b * c == b * a * c) by {
        vstd::arithmetic::mul::lemma_mul_is_commutative(a, b);
    }
}

proof fn lemma_mod_shift(a: int, b: int, c: int)
    ensures
        (a * ((b * c) % (modulus() as int))) % (modulus() as int) == (((a * b) % (modulus() as int)) * c) % (modulus() as int),
{
    lemma_mod_mul3(a, b, c);
}

/// The value of a product of monomials is the product of their values.
pub proof fn lemma_monomial_value_mul(x: Seq<(Element, usize)>, y: Seq<(Element, usize)>, curr: Seq<BaseFelt>, next: Seq<BaseFelt>)
    requires
        degree_of(x) + degree_of(y) <= usize::MAX,
    ensures
        monomial_value(vars_mul(x, y), curr, next) == (monomial_value(x, curr, next) * monomial_value(y, curr, next))
            % modulus(),
    decreases x.len() + y.len(),
{
    lemma_constants();
    lemma_monomial_value_bound(x, curr, next);
    lemma_monomial_value_bound(y, curr, next);
    if x.len() == 0 {
        vstd::arithmetic::div_mod::lemma_small_mod(monomial_value(y, curr, next), modulus());
    } else if y.len() == 0 {
        vstd::arithmetic::div_mod::lemma_small_mod(monomial_value(x, curr, next), modulus());
    } else {
        let xt = x.drop_first();
        let yt = y.drop_first();
        assert(x =~= seq![x[0]] + xt);
        assert(y =~= seq![y[0]] + yt);
        lemma_monomial_value_cons(x[0], xt, curr, next);
        lemma_monomial_value_cons(y[0], yt, curr, next);
        if x[0].0 == y[0].0 {
            let h = (x[0].0, (x[0].1 + y[0].1) as usize);
            lemma_monomial_value_mul(xt, yt, curr, next);
            lemma_monomial_value_cons(h, vars_mul(xt, yt), curr, next);
            let v = element_value(x[0].0, curr, next) as int;
            vstd::arithmetic::power::lemma_pow_adds(v, x[0].1 as nat, y[0].1 as nat);
            lemma_power_value_bound(h, curr, next);
            lemma_power_value_bound(x[0], curr, next);
            lemma_power_value_bound(y[0], curr, next);
            vstd::arithmetic::div_mod::lemma_mul_mod_noop(
                vstd::arithmetic::power::pow(v, x[0].1 as nat),
                vstd::arithmetic::power::pow(v, y[0].1 as nat),
                modulus() as int,
            );
            lemma_mod_four(
                power_value(x[0], curr, next) as int,
                power_value(y[0], curr, next) as int,
                monomial_value(xt, curr, next) as int,
                monomial_value(yt, curr, next) as int,
                power_value(h, curr, next) as int,
            );
        } else if element_lt(x[0].0, y[0].0) {
            lemma_monomial_value_mul(xt, y, curr, next);
            lemma_monomial_value_cons(x[0], vars_mul(xt, y), curr, next);
            lemma_mod_shift(
                power_value(x[0], curr, next) as int,
                monomial_value(xt, curr, next) as int,
                monomial_value(y, curr, next) as int,
            );
        } else {
            lemma_monomial_value_mul(x, yt, curr, next);
            lemma_monomial_value_cons(y[0], vars_mul(x, yt), curr, next);
            lemma_mod_swap(
                power_value(y[0], curr, next) as int,
                monomial_value(x, curr, next) as int,
                monomial_value(yt, curr, next) as int,
            );
        }
    }
}

} // verus!

verus! {

pub proof fn lemma_value_push(
    c: Seq<(nat, Seq<(Element, usize)>)>,
    t: (nat, Seq<(Element, usize)>),
    curr: Seq<BaseFelt>,
    next: Seq<BaseFelt>,
)
    ensures
        poly_value(c.push(t), curr, next) == (poly_value(c, curr, next) + (t.0 * monomial_value(t.1, curr, next))
            % modulus()) % modulus(),
{
    assert(c.push(t).drop_last() =~= c);
}

/// `((a + b) + t) mod N`, regrouped.
proof fn lemma_mod_regroup(a: int, b: int, t: int)
    ensures
        ((a + b) % (modulus() as int) + t) % (modulus() as int) == ((a + t) % (modulus() as int) + b) % (modulus() as int),
        ((a + b) % (modulus() as int) + t) % (modulus() as int) == (a + (b + t) % (modulus() as int)) % (modulus() as int),
{
    let p = modulus() as int;
    lemma_constants();
    vstd::arithmetic::div_mod::lemma_add_mod_noop_right(t, a + b, p);
    vstd::arithmetic::div_mod::lemma_add_mod_noop_right(b, a + t, p);
    vstd::arithmetic::div_mod::lemma_add_mod_noop_right(a, b + t, p);
    assert((a + b) % p + t == t + (a + b) % p);
    assert((a + t) % p + b == b + (a + t) % p);
}

/// Two terms with one monomial, merged: the value of the merged term is the
/// sum of theirs.
proof fn lemma_mod_merge(a: int, b: int, ta: int, tb: int, m: int)
    ensures
        ((a + b) % (modulus() as int) + ((((ta + tb) % (modulus() as int)) * m) % (modulus() as int))) % (modulus() as int)
            == ((a + (ta * m) % (modulus() as int)) % (modulus() as int) + (b + (tb * m) % (modulus() as int)) % (
        modulus() as int)) % (modulus() as int),
{
    let p = modulus() as int;
    lemma_constants();
    vstd::arithmetic::div_mod::lemma_mul_mod_noop_left(ta + tb, m, p);
    vstd::arithmetic::mul::lemma_mul_is_distributive_add_other_way(m, ta, tb);
    // left: (a + b + ta*m + tb*m) mod N
    vstd::arithmetic::div_mod::lemma_add_mod_noop(a + b, ta * m + tb * m, p);
    // right
    vstd::arithmetic::div_mod::lemma_add_mod_noop_right(a, ta * m, p);
    vstd::arithmetic::div_mod::lemma_add_mod_noop_right(b, tb * m, p);
    vstd::arithmetic::div_mod::lemma_add_mod_noop(a + ta * m, b + tb * m, p);
    vstd::arithmetic::div_mod::lemma_mod_twice(a + b, p);
    vstd::arithmetic::div_mod::lemma_add_mod_noop((a + b) % p, (ta * m + tb * m) % p, p);
    vstd::arithmetic::div_mod::lemma_mod_twice(ta * m + tb * m, p);
    assert(a + b + (ta * m + tb * m) == (a + ta * m) + (b + tb * m));
}

} // verus!

verus! {

/// Negating a term before adding it: `-(A + t) == -A + (-t)` modulo `N`.
proof fn lemma_mod_neg_step(a: int, c: int, m: int)
    ensures
        ((modulus() - a) % (modulus() as int) + (((modulus() - c) * m) % (modulus() as int))) % (modulus() as int) == (
        modulus() - (a + (c * m) % (modulus() as int)) % (modulus() as int)) % (modulus() as int),
{
    let p = modulus() as int;
    lemma_constants();
    // left == (p - a + (p - c) * m) mod p == (-a - c * m) mod p
    vstd::arithmetic::div_mod::lemma_add_mod_noop(p - a, (p - c) * m, p);
    vstd::arithmetic::mul::lemma_mul_is_distributive_sub_other_way(m, p, c);
    assert(p - a + (p * m - c * m) == (-a - c * m) + (1 + m) * p) by {
        vstd::arithmetic::mul::lemma_mul_is_distributive_add_other_way(p, 1, m);
        vstd::arithmetic::mul::lemma_mul_is_commutative(p, m);
    }
    vstd::arithmetic::div_mod::lemma_mod_multiples_vanish(1 + m, -a - c * m, p);
    // right == (p - (a + c * m)) mod p == (-a - c * m) mod p
    vstd::arithmetic::div_mod::lemma_add_mod_noop_right(a, c * m, p);
    vstd::arithmetic::div_mod::lemma_sub_mod_noop(p, a + c * m, p);
    vstd::arithmetic::div_mod::lemma_mod_self_0(p);
    vstd::arithmetic::div_mod::lemma_mod_twice(a + c * m, p);
    vstd::arithmetic::div_mod::lemma_sub_mod_noop(p, (a + c * m) % p, p);
    vstd::arithmetic::div_mod::lemma_mod_multiples_vanish(1, -a - c * m, p);
}

pub proof fn lemma_poly_value_bound(c: Seq<(nat, Seq<(Element, usize)>)>, curr: Seq<BaseFelt>, next: Seq<BaseFelt>)
    ensures
        poly_value(c, curr, next) < modulus(),
{
    lemma_constants();
    if c.len() > 0 {
        vstd::arithmetic::div_mod::lemma_mod_pos_bound(
            (poly_value(c.drop_last(), curr, next) + (c.last().0 * monomial_value(c.last().1, curr, next)) % modulus()) as int,
            modulus() as int,
        );
    }
}

/// Products of term values: `t * ((b + u) mod N) == t*b + t*u` modulo `N`.
proof fn lemma_mod_row_step(x: int, t: int, b: int, u: int, s: int)
    requires
        s % (modulus() as int) == (t * u) % (modulus() as int),
    ensures
        ((x + t * b) % (modulus() as int) + s) % (modulus() as int) == (x + t * ((b + u) % (modulus() as int)))
            % (modulus() as int),
{
    let p = modulus() as int;
    lemma_constants();
    // right == (x + t*b + t*u) mod N
    vstd::arithmetic::div_mod::lemma_mul_mod_noop_right(t, b + u, p);
    vstd::arithmetic::mul::lemma_mul_is_distributive_add(t, b, u);
    vstd::arithmetic::div_mod::lemma_add_mod_noop_right(x, t * ((b + u) % p), p);
    vstd::arithmetic::div_mod::lemma_add_mod_noop_right(x, t * b + t * u, p);
    // left == (x + t*b + s) mod N == (x + t*b + t*u) mod N
    vstd::arithmetic::div_mod::lemma_add_mod_noop_right(s, x + t * b, p);
    assert(s + (x + t * b) % p == (x + t * b) % p + s);
    assert(s + (x + t * b) == (x + t * b) + s);
    vstd::arithmetic::div_mod::lemma_add_mod_noop_right(x + t * b, s, p);
    vstd::arithmetic::div_mod::lemma_add_mod_noop_right(x + t * b, t * u, p);
    assert(x + t * b + t * u == x + (t * b + t * u));
}

/// The value of a product term: `(a0 * b0 mod N) * (ma * mb mod N)` is the
/// product of the two term values.
proof fn lemma_mod_term_product(a0: int, b0: int, ma: int, mb: int)
    ensures
        (((a0 * b0) % (modulus() as int)) * ((ma * mb) % (modulus() as int))) % (modulus() as int)
            == (((a0 * ma) % (modulus() as int)) * (b0 * mb)) % (modulus() as int),
{
    let p = modulus() as int;
    lemma_constants();
    vstd::arithmetic::div_mod::lemma_mul_mod_noop(a0 * b0, ma * mb, p);
    vstd::arithmetic::div_mod::lemma_mul_mod_noop_left(a0 * ma, b0 * mb, p);
    assert((a0 * b0) * (ma * mb) == (a0 * ma) * (b0 * mb)) by {
        broadcast use vstd::arithmetic::mul::group_mul_properties;

    }
}

/// The outer step of the product: `((a + t) mod N) * b == a*b + t*b`.
proof fn lemma_mod_outer_step(a: int, t: int, b: int)
    ensures
        (a * b + t * b) % (modulus() as int) == (((a + t) % (modulus() as int)) * b) % (modulus() as int),
{
    let p = modulus() as int;
    lemma_constants();
    vstd::arithmetic::div_mod::lemma_mul_mod_noop_left(a + t, b, p);
    vstd::arithmetic::mul::lemma_mul_is_distributive_add_other_way(b, a, t);
}

} // verus!

verus! {

proof fn lemma_row_coeff_support(t: (nat, Seq<(Element, usize)>), b: Seq<(nat, Seq<(Element, usize)>)>, k: Seq<(Element, usize)>)
    requires
        row_coeff(t, b, k) != 0,
    ensures
        exists|j: int| 0 <= j < b.len() && vars_mul(t.1, #[trigger] b[j].1) == k,
    decreases b.len(),
{
    lemma_constants();
    let d = b.drop_last();
    if vars_mul(t.1, b.last().1) == k {
        assert(vars_mul(t.1, b[b.len() - 1].1) == k);
    } else {
        if row_coeff(t, d, k) == 0 {
            vstd::arithmetic::div_mod::lemma_small_mod(0, modulus());
        }
        lemma_row_coeff_support(t, d, k);
        let j = choose|j: int| 0 <= j < d.len() && vars_mul(t.1, #[trigger] d[j].1) == k;
        assert(d[j] == b[j]);
    }
}

proof fn lemma_product_coeff_support(a: Seq<(nat, Seq<(Element, usize)>)>, b: Seq<(nat, Seq<(Element, usize)>)>, k: Seq<(Element, usize)>)
    requires
        product_coeff(a, b, k) != 0,
    ensures
        exists|i: int, j: int|
            0 <= i < a.len() && 0 <= j < b.len() && vars_mul(#[trigger] a[i].1, #[trigger] b[j].1) == k,
    decreases a.len(),
{
    lemma_constants();
    let d = a.drop_last();
    if row_coeff(a.last(), b, k) != 0 {
        lemma_row_coeff_support(a.last(), b, k);
        let j = choose|j: int| 0 <= j < b.len() && vars_mul(a.last().1, #[trigger] b[j].1) == k;
        assert(vars_mul(a[a.len() - 1].1, b[j].1) == k);
    } else {
        if product_coeff(d, b, k) == 0 {
            vstd::arithmetic::div_mod::lemma_small_mod(0, modulus());
        }
        lemma_product_coeff_support(d, b, k);
        let (i, j) = choose|i: int, j: int|
            0 <= i < d.len() && 0 <= j < b.len() && vars_mul(#[trigger] d[i].1, #[trigger] b[j].1) == k;
        assert(d[i] == a[i]);
        assert(vars_mul(a[i].1, b[j].1) == k);
    }
}

proof fn lemma_max_degree_at_most(c: Seq<(nat, Seq<(Element, usize)>)>, bound: nat)
    requires
        forall|i: int| 0 <= i < c.len() ==> degree_of((#[trigger] c[i]).1) <= bound,
    ensures
        max_degree(c) <= bound,
    decreases c.len(),
{
    if c.len() > 0 {
        let d = c.drop_last();
        assert forall|i: int| 0 <= i < d.len() implies degree_of((#[trigger] d[i]).1) <= bound by {
            assert(d[i] == c[i]);
        }
        lemma_max_degree_at_most(d, bound);
        assert(degree_of(c[c.len() - 1].1) <= bound);
    }
}

/// The degree of a product is at most the sum of the degrees.
pub proof fn lemma_mul_degree_at_most(
    a: Seq<(nat, Seq<(Element, usize)>)>,
    b: Seq<(nat, Seq<(Element, usize)>)>,
    r: Seq<(nat, Seq<(Element, usize)>)>,
)
    requires
        poly_wf(a),
        poly_wf(b),
        poly_wf(r),
        max_degree(a) + max_degree(b) <= usize::MAX,
        forall|k: Seq<(Element, usize)>| #[trigger] coeff(r, k) == product_coeff(a, b, k),
    ensures
        max_degree(r) <= max_degree(a) + max_degree(b),
{
    assert forall|m: int| 0 <= m < r.len() implies degree_of((#[trigger] r[m]).1) <= max_degree(a) + max_degree(b) by {
        lemma_coeff_present(r, m);
        assert(coeff(r, r[m].1) == product_coeff(a, b, r[m].1));
        lemma_product_coeff_support(a, b, r[m].1);
        let (i, j) = choose|i: int, j: int|
            0 <= i < a.len() && 0 <= j < b.len() && vars_mul(#[trigger] a[i].1, #[trigger] b[j].1) == r[m].1;
        lemma_max_degree_bounds(a, i);
        lemma_max_degree_bounds(b, j);
        lemma_vars_mul_wf(a[i].1, b[j].1);
    }
    lemma_max_degree_at_most(r, max_degree(a) + max_degree(b));
}

} // verus!

verus! {

/// The exponent of element `e` in a list of variables.
pub open spec fn exponent_of(x: Seq<(Element, usize)>, e: Element) -> nat
    decreases x.len(),
{
    if x.len() == 0 {
        0
    } else if x[0].0 == e {
        x[0].1 as nat + exponent_of(x.drop_first(), e)
    } else {
        exponent_of(x.drop_first(), e)
    }
}

proof fn lemma_exponent_absent(x: Seq<(Element, usize)>, e: Element)
    requires
        forall|i: int| 0 <= i < x.len() ==> (#[trigger] x[i]).0 != e,
    ensures
        exponent_of(x, e) == 0,
    decreases x.len(),
{
    if x.len() > 0 {
        let t = x.drop_first();
        assert(x[0].0 != e);
        assert forall|i: int| 0 <= i < t.len() implies (#[trigger] t[i]).0 != e by {
            assert(t[i] == x[i + 1]);
        }
        lemma_exponent_absent(t, e);
    }
}

proof fn lemma_exponent_below(x: Seq<(Element, usize)>, e: Element, f: Element)
    requires
        elements_above(f, x),
        element_lt(e, f) || e == f,
    ensures
        exponent_of(x, e) == 0,
{
    assert forall|i: int| 0 <= i < x.len() implies (#[trigger] x[i]).0 != e by {
        lemma_element_order(e, f, x[i].0);
        lemma_element_order(x[i].0, x[i].0, x[i].0);
    }
    lemma_exponent_absent(x, e);
}

/// Exponents add up in a product of monomials.
proof fn lemma_exponent_mul(x: Seq<(Element, usize)>, y: Seq<(Element, usize)>, e: Element)
    requires
        degree_of(x) + degree_of(y) <= usize::MAX,
    ensures
        exponent_of(vars_mul(x, y), e) == exponent_of(x, e) + exponent_of(y, e),
    decreases x.len() + y.len(),
{
    if x.len() > 0 && y.len() > 0 {
        let xt = x.drop_first();
        let yt = y.drop_first();
        if x[0].0 == y[0].0 {
            lemma_exponent_mul(xt, yt, e);
            let m = seq![(x[0].0, (x[0].1 + y[0].1) as usize)] + vars_mul(xt, yt);
            assert(m.drop_first() =~= vars_mul(xt, yt));
        } else if element_lt(x[0].0, y[0].0) {
            lemma_exponent_mul(xt, y, e);
            let m = seq![x[0]] + vars_mul(xt, y);
            assert(m.drop_first() =~= vars_mul(xt, y));
        } else {
            lemma_exponent_mul(x, yt, e);
            let m = seq![y[0]] + vars_mul(x, yt);
            assert(m.drop_first() =~= vars_mul(x, yt));
        }
    }
}

/// Where `x` sorts below `y` at equal degree, some element has a smaller
/// exponent in `x`, and every element before it the same one.
proof fn lemma_lex_witness(x: Seq<(Element, usize)>, y: Seq<(Element, usize)>) -> (e: Element)
    requires
        vars_wf(x),
        vars_wf(y),
        lex_lt(x, y),
    ensures
        exponent_of(x, e) < exponent_of(y, e),
        forall|f: Element| element_lt(f, e) ==> #[trigger] exponent_of(x, f) == exponent_of(y, f),
    decreases x.len(),
{
    let xt = x.drop_first();
    let yt = y.drop_first();
    lemma_vars_tail(x);
    lemma_vars_tail(y);
    lemma_head_below_rest(x);
    lemma_head_below_rest(y);
    if x[0].0 == y[0].0 && x[0].1 != y[0].1 {
        let e = x[0].0;
        lemma_exponent_below(xt, e, e);
        lemma_exponent_below(yt, e, e);
        assert forall|f: Element| element_lt(f, e) implies #[trigger] exponent_of(x, f) == exponent_of(y, f) by {
            lemma_exponent_below(xt, f, e);
            lemma_exponent_below(yt, f, e);
            lemma_element_order(f, e, f);
        }
        e
    } else if x[0].0 == y[0].0 {
        let e = lemma_lex_witness(xt, yt);
        let h = x[0].0;
        if e == h {
            lemma_exponent_below(yt, e, h);
        }
        assert(e != h);
        assert forall|f: Element| element_lt(f, e) implies #[trigger] exponent_of(x, f) == exponent_of(y, f) by {
            if f == h {
                lemma_exponent_below(xt, f, h);
                lemma_exponent_below(yt, f, h);
            } else {
                assert(exponent_of(xt, f) == exponent_of(yt, f));
            }
        }
        e
    } else {
        let e = y[0].0;
        assert(element_lt(e, x[0].0));
        lemma_exponent_below(x.drop_first(), e, x[0].0);
        lemma_element_order(e, x[0].0, e);
        lemma_exponent_below(yt, e, e);
        assert forall|f: Element| element_lt(f, e) implies #[trigger] exponent_of(x, f) == exponent_of(y, f) by {
            lemma_element_order(f, e, x[0].0);
            lemma_exponent_below(xt, f, x[0].0);
            lemma_exponent_below(yt, f, e);
        }
        e
    }
}

} // verus!

verus! {

/// The last term of a canonical polynomial has the largest degree, and any
/// other term of that degree sorts below it in `lex_lt`.
proof fn lemma_last_leads(c: Seq<(nat, Seq<(Element, usize)>)>, i: int)
    requires
        poly_wf(c),
        0 <= i < c.len(),
    ensures
        degree_of(c.last().1) == max_degree(c),
        degree_of(c[i].1) <= degree_of(c.last().1),
        i != c.len() - 1 && degree_of(c[i].1) == degree_of(c.last().1) ==> lex_lt(c[i].1, c.last().1),
{
    let l = c.len() - 1;
    assert forall|m: int| 0 <= m < c.len() implies degree_of((#[trigger] c[m]).1) <= degree_of(c.last().1) by {
        if m < l {
            assert(vars_lt(c[m].1, c[l].1));
        }
    }
    let d = c.drop_last();
    assert forall|m: int| 0 <= m < d.len() implies degree_of((#[trigger] d[m]).1) <= degree_of(c.last().1) by {
        assert(d[m] == c[m]);
    }
    lemma_max_degree_at_most(d, degree_of(c.last().1));
    if i < l {
        assert(vars_lt(c[i].1, c[l].1));
    }
}

/// Only the two leading terms multiply to the product of the leading
/// monomials.
proof fn lemma_only_leading_pair(a: Seq<(nat, Seq<(Element, usize)>)>, b: Seq<(nat, Seq<(Element, usize)>)>, i: int, j: int)
    requires
        poly_wf(a),
        poly_wf(b),
        max_degree(a) + max_degree(b) <= usize::MAX,
        0 <= i < a.len(),
        0 <= j < b.len(),
        vars_mul(a[i].1, b[j].1) == vars_mul(a.last().1, b.last().1),
    ensures
        i == a.len() - 1 && j == b.len() - 1,
{
    let la = a.len() - 1;
    let lb = b.len() - 1;
    let (x, xl, y, yl) = (a[i].1, a[la].1, b[j].1, b[lb].1);
    lemma_last_leads(a, i);
    lemma_last_leads(b, j);
    lemma_vars_mul_wf(x, y);
    lemma_vars_mul_wf(xl, yl);
    assert(degree_of(x) == degree_of(xl) && degree_of(y) == degree_of(yl));
    assert forall|e: Element| #[trigger] exponent_of(x, e) + exponent_of(y, e) == exponent_of(xl, e) + exponent_of(yl, e) by {
        lemma_exponent_mul(x, y, e);
        lemma_exponent_mul(xl, yl, e);
    }
    if i != la {
        let e1 = lemma_lex_witness(x, xl);
        assert(exponent_of(x, e1) + exponent_of(y, e1) == exponent_of(xl, e1) + exponent_of(yl, e1));
        if j != lb {
            let e2 = lemma_lex_witness(y, yl);
            assert(exponent_of(x, e2) + exponent_of(y, e2) == exponent_of(xl, e2) + exponent_of(yl, e2));
            lemma_element_order(e1, e2, e1);
            if element_lt(e1, e2) {
                assert(exponent_of(y, e1) == exponent_of(yl, e1));
            } else if element_lt(e2, e1) {
                assert(exponent_of(x, e2) == exponent_of(xl, e2));
            }
        }
    } else if j != lb {
        let e2 = lemma_lex_witness(y, yl);
        assert(exponent_of(x, e2) + exponent_of(y, e2) == exponent_of(xl, e2) + exponent_of(yl, e2));
    }
}

/// The coefficient of the leading product is the product of the leading
/// coefficients.
proof fn lemma_leading_coeff(a: Seq<(nat, Seq<(Element, usize)>)>, b: Seq<(nat, Seq<(Element, usize)>)>)
    requires
        poly_wf(a),
        poly_wf(b),
        a.len() > 0,
        b.len() > 0,
        max_degree(a) + max_degree(b) <= usize::MAX,
    ensures
        product_coeff(a, b, vars_mul(a.last().1, b.last().1)) == (a.last().0 * b.last().0) % modulus(),
{
    let k = vars_mul(a.last().1, b.last().1);
    let da = a.drop_last();
    let db = b.drop_last();
    lemma_constants();
    if product_coeff(da, b, k) != 0 {
        lemma_product_coeff_support(da, b, k);
        let (i, j) = choose|i: int, j: int|
            0 <= i < da.len() && 0 <= j < b.len() && vars_mul(#[trigger] da[i].1, #[trigger] b[j].1) == k;
        assert(da[i] == a[i]);
        lemma_only_leading_pair(a, b, i, j);
    }
    if row_coeff(a.last(), db, k) != 0 {
        lemma_row_coeff_support(a.last(), db, k);
        let j = choose|j: int| 0 <= j < db.len() && vars_mul(a.last().1, #[trigger] db[j].1) == k;
        assert(db[j] == b[j]);
        assert(a.last() == a[a.len() - 1]);
        lemma_only_leading_pair(a, b, a.len() - 1, j);
    }
    vstd::arithmetic::div_mod::lemma_mod_twice((a.last().0 * b.last().0) as int, modulus() as int);
}

/// With `N` prime, the degree of a product of nonzero constraints is the sum
/// of their degrees.
pub proof fn lemma_mul_degree(
    a: Seq<(nat, Seq<(Element, usize)>)>,
    b: Seq<(nat, Seq<(Element, usize)>)>,
    r: Seq<(nat, Seq<(Element, usize)>)>,
)
    requires
        modulus_is_prime(),
        poly_wf(a),
        poly_wf(b),
        poly_wf(r),
        a.len() > 0,
        b.len() > 0,
        max_degree(a) + max_degree(b) <= usize::MAX,
        forall|k: Seq<(Element, usize)>| #[trigger] coeff(r, k) == product_coeff(a, b, k),
    ensures
        max_degree(r) == max_degree(a) + max_degree(b),
{
    let k = vars_mul(a.last().1, b.last().1);
    lemma_mul_degree_at_most(a, b, r);
    lemma_leading_coeff(a, b);
    lemma_last_leads(a, 0);
    lemma_last_leads(b, 0);
    assert(a.last() == a[a.len() - 1] && b.last() == b[b.len() - 1]);
    assert(0 < a.last().0 < modulus() && 0 < b.last().0 < modulus());
    if (a.last().0 * b.last().0) % modulus() == 0 {
        lemma_prime_no_zero_divisors(a.last().0, b.last().0);
    }
    assert(coeff(r, k) != 0);
    if forall|m: int| 0 <= m < r.len() ==> (#[trigger] r[m]).1 != k {
        lemma_coeff_absent(r, k);
    }
    let m = choose|m: int| 0 <= m < r.len() && (#[trigger] r[m]).1 == k;
    lemma_max_degree_bounds(r, m);
    lemma_vars_mul_wf(a.last().1, b.last().1);
}

} // verus!
