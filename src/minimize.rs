//! Reduces an expression to a smallest set of accepted requirements that
//! satisfies it.
//!
//! A leaf is selected when the policy accepts it; `AND` takes the union of
//! both sides; `OR` takes the side that needs fewer requirements, the left
//! one on a tie. The selection is then pruned: each requirement, in order, is
//! dropped when the expression still holds without it, so that no proper
//! subset of the result satisfies the expression.
use vstd::prelude::*;
use crate::expr::{Expr, LicenseExpr, LicenseError, eval, texts_of, contains_text};

verus! {

/// `x` followed by the elements of `y` that it does not already hold.
pub open spec fn union_texts(x: Seq<Seq<char>>, y: Seq<Seq<char>>) -> Seq<Seq<char>>
    decreases y.len(),
{
    if y.len() == 0 {
        x
    } else {
        let u = union_texts(x, y.drop_last());
        if u.contains(y.last()) {
            u
        } else {
            u.push(y.last())
        }
    }
}

/// The requirements selected for `e` under `policy`, before pruning; `None`
/// when no accepted requirements satisfy `e`.
pub open spec fn select(e: Expr, policy: Seq<Seq<char>>) -> Option<Seq<Seq<char>>>
    decreases e,
{
    match e {
        Expr::Req(r) => if policy.contains(r) {
            Some(seq![r])
        } else {
            None
        },
        Expr::And(a, b) => match (select(*a, policy), select(*b, policy)) {
            (Some(x), Some(y)) => Some(union_texts(x, y)),
            _ => None,
        },
        Expr::Or(a, b) => match (select(*a, policy), select(*b, policy)) {
            (Some(x), Some(y)) => if y.len() < x.len() {
                Some(y)
            } else {
                Some(x)
            },
            (Some(x), None) => Some(x),
            (None, Some(y)) => Some(y),
            (None, None) => None,
        },
    }
}

/// Drops, from position `i` on and in order, each requirement of `c` without
/// which `e` still holds.
pub open spec fn prune(e: Expr, c: Seq<Seq<char>>, i: nat) -> Seq<Seq<char>>
    decreases c.len() - i,
{
    if i >= c.len() {
        c
    } else if eval(e, c.remove(i as int).to_set()) {
        prune(e, c.remove(i as int), i)
    } else {
        prune(e, c, i + 1)
    }
}

/// The minimized requirements of `e` under `policy`.
pub open spec fn minimized(e: Expr, policy: Seq<Seq<char>>) -> Option<Seq<Seq<char>>> {
    match select(e, policy) {
        Some(r) => Some(prune(e, r, 0)),
        None => None,
    }
}

proof fn lemma_eval_monotone(e: Expr, s1: Set<Seq<char>>, s2: Set<Seq<char>>)
    requires
        s1.subset_of(s2),
        eval(e, s1),
    ensures
        eval(e, s2),
    decreases e,
{
    match e {
        Expr::Req(_) => {},
        Expr::And(a, b) => {
            lemma_eval_monotone(*a, s1, s2);
            lemma_eval_monotone(*b, s1, s2);
        },
        Expr::Or(a, b) => {
            if eval(*a, s1) {
                lemma_eval_monotone(*a, s1, s2);
            } else {
                lemma_eval_monotone(*b, s1, s2);
            }
        },
    }
}

proof fn lemma_union(x: Seq<Seq<char>>, y: Seq<Seq<char>>)
    requires
        x.no_duplicates(),
    ensures
        union_texts(x, y).to_set() == x.to_set().union(y.to_set()),
        union_texts(x, y).no_duplicates(),
    decreases y.len(),
{
    if y.len() == 0 {
        assert(x.to_set().union(y.to_set()) =~= x.to_set());
    } else {
        let u = union_texts(x, y.drop_last());
        lemma_union(x, y.drop_last());
        assert(y.to_set() =~= y.drop_last().to_set().insert(y.last())) by {
            assert forall|a| y.to_set().contains(a) implies y.drop_last().to_set().insert(y.last()).contains(a) by {
                let k = choose|k: int| 0 <= k < y.len() && y[k] == a;
                if k < y.len() - 1 {
                    assert(y.drop_last()[k] == a);
                }
            }
            assert forall|a| y.drop_last().to_set().insert(y.last()).contains(a) implies y.to_set().contains(a) by {
                if a != y.last() {
                    let k = choose|k: int| 0 <= k < y.len() - 1 && y.drop_last()[k] == a;
                    assert(y[k] == a);
                } else {
                    assert(y[y.len() - 1] == a);
                }
            }
        }
        if !u.contains(y.last()) {
            assert(u.push(y.last()).to_set() =~= u.to_set().insert(y.last())) by {
                assert forall|a| u.push(y.last()).to_set().contains(a) implies u.to_set().insert(y.last()).contains(a) by {
                    let k = choose|k: int| 0 <= k < u.len() + 1 && u.push(y.last())[k] == a;
                    if k < u.len() {
                        assert(u[k] == a);
                    }
                }
                assert forall|a| u.to_set().insert(y.last()).contains(a) implies u.push(y.last()).to_set().contains(a) by {
                    if a == y.last() {
                        assert(u.push(y.last())[u.len() as int] == a);
                    } else {
                        let k = choose|k: int| 0 <= k < u.len() && u[k] == a;
                        assert(u.push(y.last())[k] == a);
                    }
                }
            }
        }
        assert(union_texts(x, y).to_set() =~= x.to_set().union(y.to_set()));
    }
}

proof fn lemma_select_sound(e: Expr, policy: Seq<Seq<char>>)
    requires
        select(e, policy) is Some,
    ensures
        eval(e, select(e, policy)->Some_0.to_set()),
        select(e, policy)->Some_0.to_set().subset_of(policy.to_set()),
        select(e, policy)->Some_0.no_duplicates(),
    decreases e,
{
    match e {
        Expr::Req(r) => {
            assert(seq![r][0] == r);
        },
        Expr::And(a, b) => {
            let x = select(*a, policy)->Some_0;
            let y = select(*b, policy)->Some_0;
            lemma_select_sound(*a, policy);
            lemma_select_sound(*b, policy);
            lemma_union(x, y);
            let u = union_texts(x, y).to_set();
            lemma_eval_monotone(*a, x.to_set(), u);
            lemma_eval_monotone(*b, y.to_set(), u);
        },
        Expr::Or(a, b) => {
            if select(*a, policy) is Some {
                lemma_select_sound(*a, policy);
            }
            if select(*b, policy) is Some {
                lemma_select_sound(*b, policy);
            }
        },
    }
}

proof fn lemma_remove_set(c: Seq<Seq<char>>, j: int)
    requires
        c.no_duplicates(),
        0 <= j < c.len(),
    ensures
        c.remove(j).to_set() == c.to_set().remove(c[j]),
        c.remove(j).no_duplicates(),
{
    let r = c.remove(j);
    assert forall|a| r.to_set().contains(a) implies c.to_set().remove(c[j]).contains(a) by {
        let k = choose|k: int| 0 <= k < r.len() && r[k] == a;
        if k < j {
            assert(c[k] == a);
        } else {
            assert(c[k + 1] == a);
        }
    }
    assert forall|a| c.to_set().remove(c[j]).contains(a) implies r.to_set().contains(a) by {
        let k = choose|k: int| 0 <= k < c.len() && c[k] == a;
        if k < j {
            assert(r[k] == a);
        } else {
            assert(r[k - 1] == a);
        }
    }
    assert(r.to_set() =~= c.to_set().remove(c[j]));
    assert forall|p: int, q: int| 0 <= p < r.len() && 0 <= q < r.len() && p != q implies r[p] != r[q] by {
        let pp = if p < j { p } else { p + 1 };
        let qq = if q < j { q } else { q + 1 };
        assert(r[p] == c[pp] && r[q] == c[qq]);
    }
}

proof fn lemma_prune(e: Expr, c: Seq<Seq<char>>, i: nat)
    requires
        c.no_duplicates(),
        eval(e, c.to_set()),
        i <= c.len(),
        forall|j: int| 0 <= j < i ==> !eval(e, #[trigger] c.remove(j).to_set()),
    ensures
        eval(e, prune(e, c, i).to_set()),
        prune(e, c, i).to_set().subset_of(c.to_set()),
        prune(e, c, i).no_duplicates(),
        forall|j: int| 0 <= j < prune(e, c, i).len() ==> !eval(e, #[trigger] prune(e, c, i).remove(j).to_set()),
    decreases c.len() - i,
{
    if i >= c.len() {
    } else if eval(e, c.remove(i as int).to_set()) {
        let d = c.remove(i as int);
        lemma_remove_set(c, i as int);
        assert forall|j: int| 0 <= j < i implies !eval(e, #[trigger] d.remove(j).to_set()) by {
            lemma_remove_set(c, j);
            lemma_remove_set(d, j);
            assert(d[j] == c[j]);
            assert(d.remove(j).to_set().subset_of(c.remove(j).to_set()));
            if eval(e, d.remove(j).to_set()) {
                lemma_eval_monotone(e, d.remove(j).to_set(), c.remove(j).to_set());
            }
        }
        lemma_prune(e, d, i);
    } else {
        lemma_prune(e, c, i + 1);
    }
}

/// Whatever the policy accepts, a successful minimization selects only
/// accepted requirements, and the expression holds when exactly those are
/// satisfied.
pub proof fn lemma_minimized_sound(e: Expr, policy: Seq<Seq<char>>)
    requires
        minimized(e, policy) is Some,
    ensures
        eval(e, minimized(e, policy)->Some_0.to_set()),
        minimized(e, policy)->Some_0.to_set().subset_of(policy.to_set()),
{
    let r = select(e, policy)->Some_0;
    lemma_select_sound(e, policy);
    lemma_prune(e, r, 0);
}

/// No proper subset of a minimization's result satisfies the expression.
pub proof fn lemma_minimized_minimal(e: Expr, policy: Seq<Seq<char>>, s: Set<Seq<char>>)
    requires
        minimized(e, policy) is Some,
        s.subset_of(minimized(e, policy)->Some_0.to_set()),
        s != minimized(e, policy)->Some_0.to_set(),
    ensures
        !eval(e, s),
{
    let r = minimized(e, policy)->Some_0;
    lemma_select_sound(e, policy);
    lemma_prune(e, select(e, policy)->Some_0, 0);
    assert(exists|x| r.to_set().contains(x) && !s.contains(x)) by {
        if !(exists|x| r.to_set().contains(x) && !s.contains(x)) {
            assert(s =~= r.to_set());
        }
    }
    let x = choose|x| r.to_set().contains(x) && !s.contains(x);
    let j = choose|j: int| 0 <= j < r.len() && r[j] == x;
    lemma_remove_set(r, j);
    assert(s.subset_of(r.remove(j).to_set()));
    if eval(e, s) {
        lemma_eval_monotone(e, s, r.remove(j).to_set());
    }
}

/// Minimizing the same expression under the same policy twice gives the same
/// requirements.
pub proof fn lemma_minimized_deterministic(e1: Expr, p1: Seq<Seq<char>>, e2: Expr, p2: Seq<Seq<char>>)
    requires
        e1 == e2,
        p1 == p2,
    ensures
        minimized(e1, p1) == minimized(e2, p2),
{
}

fn copy_texts(v: &Vec<String>) -> (r: Vec<String>)
    ensures
        texts_of(r@) == texts_of(v@),
{
    let mut r: Vec<String> = Vec::new();
    let mut i: usize = 0;
    while i < v.len()
        invariant
            0 <= i <= v.len(),
            r.len() == i,
            texts_of(r@) == texts_of(v@).take(i as int),
        decreases v.len() - i,
    {
        let ghost before = r@;
        let t = v[i].clone();
        r.push(t);
        assert(r@ == before.push(t));
        assert(t@ == texts_of(v@)[i as int]);
        assert forall|k: int| 0 <= k < i + 1 implies texts_of(r@)[k] == texts_of(v@).take(i + 1)[k] by {
            if k < i {
                assert(texts_of(before)[k] == texts_of(v@).take(i as int)[k]);
            }
        }
        assert(texts_of(r@) =~= texts_of(v@).take(i + 1));
        i = i + 1;
    }
    assert(texts_of(v@).take(i as int) =~= texts_of(v@));
    r
}

fn union_into(x: &mut Vec<String>, y: Vec<String>)
    ensures
        texts_of(final(x)@) == union_texts(texts_of(old(x)@), texts_of(y@)),
{
    let ghost x0 = texts_of(x@);
    let mut j: usize = 0;
    while j < y.len()
        invariant
            0 <= j <= y.len(),
            texts_of(x@) == union_texts(x0, texts_of(y@).take(j as int)),
        decreases y.len() - j,
    {
        assert(texts_of(y@).take(j + 1).drop_last() =~= texts_of(y@).take(j as int));
        if !contains_text(x, &y[j]) {
            x.push(y[j].clone());
            assert(texts_of(x@) =~= union_texts(x0, texts_of(y@).take(j as int)).push(y@[j as int]@));
        }
        j = j + 1;
    }
    assert(texts_of(y@).take(j as int) =~= texts_of(y@));
}

fn select_exec(e: &LicenseExpr, policy: &Vec<String>) -> (r: Option<Vec<String>>)
    ensures
        match r {
            Some(v) => select(e@, texts_of(policy@)) == Some(texts_of(v@)),
            None => select(e@, texts_of(policy@)) is None,
        },
    decreases e,
{
    match e {
        LicenseExpr::Req(s) => {
            if contains_text(policy, s) {
                let v = vec![s.clone()];
                assert(texts_of(v@) =~= seq![s@]);
                Some(v)
            } else {
                None
            }
        },
        LicenseExpr::And(a, b) => {
            match select_exec(a, policy) {
                Some(mut x) => match select_exec(b, policy) {
                    Some(y) => {
                        union_into(&mut x, y);
                        Some(x)
                    },
                    None => None,
                },
                None => None,
            }
        },
        LicenseExpr::Or(a, b) => {
            let sa = select_exec(a, policy);
            let sb = select_exec(b, policy);
            match sa {
                Some(x) => match sb {
                    Some(y) => if y.len() < x.len() {
                        Some(y)
                    } else {
                        Some(x)
                    },
                    None => Some(x),
                },
                None => sb,
            }
        },
    }
}

fn prune_exec(e: &LicenseExpr, c: Vec<String>) -> (r: Vec<String>)
    ensures
        texts_of(r@) == prune(e@, texts_of(c@), 0),
{
    let ghost target = prune(e@, texts_of(c@), 0);
    let mut c = c;
    let mut i: usize = 0;
    while i < c.len()
        invariant
            0 <= i <= c.len(),
            prune(e@, texts_of(c@), i as nat) == target,
        decreases c.len() - i,
    {
        let mut cand = copy_texts(&c);
        cand.remove(i);
        assert(texts_of(cand@) =~= texts_of(c@).remove(i as int));
        if e.satisfied_by(&cand) {
            c = cand;
        } else {
            i = i + 1;
        }
    }
    c
}

impl LicenseExpr {
    /// The smallest set of accepted requirements that satisfies the
    /// expression, each once; `UnsatisfiableLicense` when there is none.
    pub fn minimized_requirements(&self, accepted: &Vec<String>) -> (r: Result<Vec<String>, LicenseError>)
        ensures
            match minimized(self@, texts_of(accepted@)) {
                Some(m) => r is Ok && texts_of(r->Ok_0@) == m,
                None => r matches Err(LicenseError::UnsatisfiableLicense),
            },
    {
        match select_exec(self, accepted) {
            Some(c) => Ok(prune_exec(self, c)),
            None => Err(LicenseError::UnsatisfiableLicense),
        }
    }
}

} // verus!
