//! Expressions: pure, side-effect-free computations over a scope,
//! used where a pattern needs a dynamic parameter such as an array
//! length. An expression is a literal value, a reference to a scope
//! key, or an n-ary addition of sub-expressions.

use vstd::prelude::*;

use crate::context::Scope;
use crate::data::data_view;
use crate::data::Data;
use crate::parser::ParseError;
use crate::semantics::eval_add;
use crate::semantics::eval_expr;
use crate::semantics::i64_wrap;
use crate::semantics::ExprView;

verus! {

/// A pure computation over a scope, producing a value.
pub enum Expr {
    /// A literal value.
    Lit(Data),
    /// The value bound to a key in the current frame.
    Var(i64),
    /// The sum of the parts, all integers, with 64-bit wrapping.
    Add(Vec<Expr>),
}

pub open spec fn expr_view(e: Expr) -> ExprView
    decreases e, 1nat,
{
    match e {
        Expr::Lit(d) => ExprView::Lit(data_view(d)),
        Expr::Var(k) => ExprView::Var(k),
        Expr::Add(parts) => ExprView::Add(exprs_view(parts@)),
    }
}

/// The views of a list of expressions, element-wise.
pub open spec fn exprs_view(s: Seq<Expr>) -> Seq<ExprView>
    decreases s, 0nat,
{
    if s.len() == 0 {
        Seq::empty()
    } else {
        seq![expr_view(s[0])] + exprs_view(s.subrange(1, s.len() as int))
    }
}

impl View for Expr {
    type V = ExprView;

    open spec fn view(&self) -> ExprView {
        expr_view(*self)
    }
}

/// `exprs_view` is the element-wise view.
pub proof fn lemma_exprs_view(s: Seq<Expr>)
    ensures
        exprs_view(s).len() == s.len(),
        forall|i: int| 0 <= i < s.len() ==> #[trigger] exprs_view(s)[i] == expr_view(s[i]),
    decreases s.len(),
{
    if s.len() > 0 {
        let rest = s.subrange(1, s.len() as int);
        lemma_exprs_view(rest);
        assert forall|i: int| 0 <= i < s.len() implies exprs_view(s)[i] == expr_view(s[i]) by {
            if i > 0 {
                assert(exprs_view(s)[i] == exprs_view(rest)[i - 1]);
                assert(rest[i - 1] == s[i]);
            }
        }
    }
}

/// Wrapping a value before adding to it changes nothing modulo 2^64.
pub proof fn lemma_i64_wrap_add(a: int, b: int)
    ensures
        i64_wrap(i64_wrap(a) as int + b) == i64_wrap(a + b),
{
    let m = 0x1_0000_0000_0000_0000;
    let wa = i64_wrap(a) as int;
    vstd::arithmetic::div_mod::lemma_mod_bound(a, m);
    vstd::arithmetic::div_mod::lemma_mod_bound(a + b, m);
    vstd::arithmetic::div_mod::lemma_mod_bound(wa + b, m);
    assert(wa == a % m || wa == a % m - m);
    vstd::arithmetic::div_mod::lemma_mod_multiples_vanish(-1, a % m, m);
    assert((a % m - m) % m == a % m) by {
        assert(m * -1 + a % m == a % m - m);
    }
    vstd::arithmetic::div_mod::lemma_mod_twice(a, m);
    assert(wa % m == a % m);
    vstd::arithmetic::div_mod::lemma_add_mod_noop(wa, b, m);
    vstd::arithmetic::div_mod::lemma_add_mod_noop(a, b, m);
    vstd::arithmetic::div_mod::lemma_mod_twice(b, m);
    assert((wa + b) % m == (a + b) % m);
}

impl Expr {
    /// Evaluates this expression against the scope: exactly the value
    /// or error that `eval_expr` names.
    #[verifier::loop_isolation(false)]
    pub fn eval(&self, scope: &Scope) -> (r: Result<Data, ParseError>)
        ensures
            match (r, eval_expr(self@, scope@)) {
                (Ok(d), Ok(dv)) => d@ == dv,
                (Err(e), Err(ev)) => e == ev,
                _ => false,
            },
        decreases self,
    {
        match self {
            Expr::Lit(d) => Ok(d.dup()),
            Expr::Var(k) => match scope.get(*k) {
                Some(d) => Ok(d.dup()),
                None => Err(ParseError::Unbound),
            },
            Expr::Add(parts) => {
                let ghost evs = exprs_view(parts@);
                proof {
                    lemma_exprs_view(parts@);
                }
                let n = parts.len();
                proof {
                    assert(evs.subrange(0, n as int) =~= evs);
                }
                let mut total: i64 = 0;
                let ghost mut gsum: int = 0;
                let mut j: usize = 0;
                while j < n
                    invariant
                        j <= n,
                        n == parts@.len(),
                        total == i64_wrap(gsum),
                        (match eval_add(evs.subrange(j as int, n as int), scope@) {
                            Ok(rest) => eval_add(evs, scope@) == Ok::<int, ParseError>(gsum + rest),
                            Err(e) => eval_add(evs, scope@) == Err::<int, ParseError>(e),
                        }),
                    decreases n - j,
                {
                    proof {
                        assert(decreases_to!(*self => self->Add_0));
                        assert(self->Add_0 == *parts);
                        assert(decreases_to!(*parts => parts@));
                        assert(decreases_to!(parts@ => parts@[j as int]));
                        assert(evs.subrange(j as int, n as int)[0] == expr_view(parts@[j as int]));
                        assert(evs.subrange(j as int, n as int).subrange(
                            1,
                            (n - j) as int,
                        ) =~= evs.subrange(j + 1, n as int));
                    }
                    match (&parts[j]).eval(scope) {
                        Err(e) => {
                            return Err(e);
                        },
                        Ok(d) => {
                            match d.i64() {
                                Some(i) => {
                                    proof {
                                        lemma_i64_wrap_add(gsum, i as int);
                                    }
                                    total = total.wrapping_add(i);
                                    proof {
                                        gsum = gsum + i;
                                    }
                                },
                                None => {
                                    return Err(ParseError::TypeError);
                                },
                            }
                        },
                    }
                    j = j + 1;
                }
                proof {
                    assert(evs.subrange(n as int, n as int) =~= Seq::<ExprView>::empty());
                    assert(eval_add(evs, scope@) == Ok::<int, ParseError>(gsum));
                }
                Ok(Data::Int(total))
            },
        }
    }
}

} // verus!
