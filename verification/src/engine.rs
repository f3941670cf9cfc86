//! The unification engine: a worklist of equality constraints is drained one
//! constraint at a time; variable constraints become bindings that are
//! propagated into the remaining queue, compound constraints are decomposed
//! argument by argument, and an occurs-check failure or a symbol clash ends
//! the run with no unifier.

use crate::term::{
    args_model, args_size, lemma_args_model, lemma_args_size_ge, lemma_args_vars_contains,
    lemma_size_pos, lemma_subst_args, lemma_subst_no_occurs, lemma_subst_vars,
    lemma_term_vars_finite, occurs, size, subst, subst_args, term_vars, SpecTerm, Term, VarTerm,
};
use std::collections::VecDeque;
use vstd::prelude::*;
use vstd::set_lib::lemma_len_subset;

verus! {

/// An equality constraint: the two terms must be made identical.
pub type Equality = (Term, Term);

/// A first-in-first-out queue of pending constraints.
pub type Constraints = VecDeque<Equality>;

/// An ordered list of accepted bindings.
pub type Unifier = Vec<VarTerm>;

/// The model of a binding: a variable name and the term it stands for.
pub type SpecBinding = (Seq<char>, SpecTerm);

/// The model of a constraint: an ordered pair of term models.
pub type SpecConstraint = (SpecTerm, SpecTerm);

/// The model of a constraint queue.
pub open spec fn queue_model(q: Seq<Equality>) -> Seq<SpecConstraint> {
    q.map(|i: int, c: Equality| (c.0@, c.1@))
}

/// The model of a unifier.
pub open spec fn unifier_model(u: Seq<VarTerm>) -> Seq<SpecBinding> {
    u.map(|i: int, b: VarTerm| (b.0@, b.1@))
}

/// Apply the bindings `bs` to `t`, first binding first, exactly as the
/// engine hands them out.
pub open spec fn apply_bindings(bs: Seq<SpecBinding>, t: SpecTerm) -> SpecTerm
    decreases bs.len(),
{
    if bs.len() == 0 {
        t
    } else {
        apply_bindings(bs.drop_first(), subst(t, bs[0].0, bs[0].1))
    }
}

/// [`apply_bindings`] on each element of an argument list.
pub open spec fn apply_args(bs: Seq<SpecBinding>, args: Seq<SpecTerm>) -> Seq<SpecTerm> {
    args.map(|i: int, a: SpecTerm| apply_bindings(bs, a))
}

/// The bindings `bs` settle the constraint `c`: applied to both sides they
/// give the same term.
pub open spec fn equalizes(bs: Seq<SpecBinding>, c: SpecConstraint) -> bool {
    apply_bindings(bs, c.0) == apply_bindings(bs, c.1)
}

/// The bindings `bs` settle every constraint in `cs`.
pub open spec fn equalizes_all(bs: Seq<SpecBinding>, cs: Seq<SpecConstraint>) -> bool {
    forall|i: int| 0 <= i < cs.len() ==> equalizes(bs, #[trigger] cs[i])
}

/// Some ordered list of bindings settles every constraint in `cs`: a unifier
/// exists.
pub open spec fn unifiable(cs: Seq<SpecConstraint>) -> bool {
    exists|bs: Seq<SpecBinding>| equalizes_all(bs, cs)
}

/// Every constraint in `cs` already has identical sides.
pub open spec fn all_reflexive(cs: Seq<SpecConstraint>) -> bool {
    forall|i: int| 0 <= i < cs.len() ==> (#[trigger] cs[i]).0 == cs[i].1
}

/// [`subst`] applied to both sides of every constraint in `cs`.
pub open spec fn subst_queue(cs: Seq<SpecConstraint>, x: Seq<char>, r: SpecTerm) -> Seq<
    SpecConstraint,
> {
    cs.map(|i: int, c: SpecConstraint| (subst(c.0, x, r), subst(c.1, x, r)))
}

/// The variable names that occur anywhere in the constraints `cs[i..]`.
spec fn queue_vars(cs: Seq<SpecConstraint>, i: int) -> Set<Seq<char>>
    decreases cs.len() - i,
{
    if i < 0 || i >= cs.len() {
        Set::empty()
    } else {
        term_vars(cs[i].0).union(term_vars(cs[i].1)).union(queue_vars(cs, i + 1))
    }
}

/// The total node count of the constraints `cs[i..]`.
spec fn queue_size(cs: Seq<SpecConstraint>, i: int) -> nat
    decreases cs.len() - i,
{
    if i < 0 || i >= cs.len() {
        0
    } else {
        size(cs[i].0) + size(cs[i].1) + queue_size(cs, i + 1)
    }
}

/// Applying `seq![b] + bs` is applying `b` first and then `bs`.
proof fn lemma_apply_bindings_cons(b: SpecBinding, bs: Seq<SpecBinding>, t: SpecTerm)
    ensures
        apply_bindings(seq![b] + bs, t) == apply_bindings(bs, subst(t, b.0, b.1)),
{
    let s = seq![b] + bs;
    assert(s[0] == b);
    assert(s.drop_first() =~= bs);
    assert(apply_bindings(s, t) == apply_bindings(s.drop_first(), subst(t, s[0].0, s[0].1)));
}

/// Applying bindings to a compound term applies them to each argument and
/// keeps the symbol and the arity.
proof fn lemma_apply_bindings_func(bs: Seq<SpecBinding>, f: Seq<char>, args: Seq<SpecTerm>)
    ensures
        apply_bindings(bs, SpecTerm::Func(f, args)) == SpecTerm::Func(f, apply_args(bs, args)),
    decreases bs.len(),
{
    if bs.len() == 0 {
        assert(apply_args(bs, args) =~= args);
    } else {
        let x = bs[0].0;
        let r = bs[0].1;
        lemma_subst_args(args, x, r, 0);
        let sargs = subst_args(args, x, r, 0);
        lemma_apply_bindings_func(bs.drop_first(), f, sargs);
        assert forall|j: int| 0 <= j < args.len() implies apply_args(bs.drop_first(), sargs)[j]
            == apply_args(bs, args)[j] by {
            assert(apply_bindings(bs, args[j]) == apply_bindings(
                bs.drop_first(),
                subst(args[j], x, r),
            ));
        }
        assert(apply_args(bs.drop_first(), sargs) =~= apply_args(bs, args));
    }
}

/// If `x` occurs inside `t` and `t` is not the variable `x` itself, then
/// however bindings are applied, the image of `t` stays strictly larger than
/// the image of `x`: the two can never be made identical.
proof fn lemma_apply_size(bs: Seq<SpecBinding>, t: SpecTerm, x: Seq<char>)
    requires
        occurs(t, x),
        t != SpecTerm::Var(x),
    ensures
        size(apply_bindings(bs, t)) > size(apply_bindings(bs, SpecTerm::Var(x))),
    decreases t,
{
    match t {
        SpecTerm::Var(s) => {
            assert(false);
        },
        SpecTerm::Func(f, args) => {
            lemma_args_vars_contains(args, 0, x);
            let j = choose|j: int| 0 <= j < args.len() && occurs(#[trigger] args[j], x);
            lemma_apply_bindings_func(bs, f, args);
            let mapped = apply_args(bs, args);
            lemma_args_size_ge(mapped, 0, j);
            if args[j] == SpecTerm::Var(x) {
                lemma_size_pos(apply_bindings(bs, SpecTerm::Var(x)));
            } else {
                lemma_apply_size(bs, args[j], x);
            }
        },
    }
}

/// No ordered list of bindings can settle a constraint between a variable
/// and a different term in which that variable occurs.
pub proof fn lemma_occurs_unsolvable(x: Seq<char>, t: SpecTerm)
    requires
        occurs(t, x),
        t != SpecTerm::Var(x),
    ensures
        forall|bs: Seq<SpecBinding>| !equalizes(bs, (SpecTerm::Var(x), t)),
        forall|bs: Seq<SpecBinding>| !equalizes(bs, (t, SpecTerm::Var(x))),
{
    assert forall|bs: Seq<SpecBinding>| !equalizes(bs, (SpecTerm::Var(x), t)) by {
        lemma_apply_size(bs, t, x);
    }
    assert forall|bs: Seq<SpecBinding>| !equalizes(bs, (t, SpecTerm::Var(x))) by {
        lemma_apply_size(bs, t, x);
    }
}

/// No ordered list of bindings can settle a constraint between compounds
/// whose symbols or arities differ.
pub proof fn lemma_clash_unsolvable(f: Seq<char>, a: Seq<SpecTerm>, g: Seq<char>, b: Seq<SpecTerm>)
    requires
        f != g || a.len() != b.len(),
    ensures
        forall|bs: Seq<SpecBinding>| !equalizes(bs, (SpecTerm::Func(f, a), SpecTerm::Func(g, b))),
{
    assert forall|bs: Seq<SpecBinding>|
        !equalizes(bs, (SpecTerm::Func(f, a), SpecTerm::Func(g, b))) by {
        lemma_apply_bindings_func(bs, f, a);
        lemma_apply_bindings_func(bs, g, b);
        assert(apply_args(bs, a).len() == a.len());
        assert(apply_args(bs, b).len() == b.len());
    }
}

/// A constraint between compounds with one symbol and arity is settled
/// exactly when every pair of corresponding arguments is settled.
proof fn lemma_decompose_equalizes(
    bs: Seq<SpecBinding>,
    f: Seq<char>,
    a: Seq<SpecTerm>,
    b: Seq<SpecTerm>,
)
    requires
        a.len() == b.len(),
    ensures
        equalizes(bs, (SpecTerm::Func(f, a), SpecTerm::Func(f, b))) <==> forall|k: int|
            0 <= k < a.len() ==> apply_bindings(bs, #[trigger] a[k]) == apply_bindings(bs, b[k]),
{
    lemma_apply_bindings_func(bs, f, a);
    lemma_apply_bindings_func(bs, f, b);
    if forall|k: int|
        0 <= k < a.len() ==> apply_bindings(bs, #[trigger] a[k]) == apply_bindings(bs, b[k]) {
        assert(apply_args(bs, a) =~= apply_args(bs, b));
    }
    if equalizes(bs, (SpecTerm::Func(f, a), SpecTerm::Func(f, b))) {
        assert forall|k: int|
            0 <= k < a.len() implies apply_bindings(bs, #[trigger] a[k]) == apply_bindings(
            bs,
            b[k],
        ) by {
            assert(apply_args(bs, a)[k] == apply_args(bs, b)[k]);
        }
    }
}

/// If bindings make `x` and `t` identical, substituting `t` for `x` before
/// applying them changes nothing.
proof fn lemma_apply_subst_id(bs: Seq<SpecBinding>, s: SpecTerm, x: Seq<char>, t: SpecTerm)
    requires
        apply_bindings(bs, SpecTerm::Var(x)) == apply_bindings(bs, t),
    ensures
        apply_bindings(bs, subst(s, x, t)) == apply_bindings(bs, s),
    decreases s,
{
    match s {
        SpecTerm::Var(y) => {},
        SpecTerm::Func(f, args) => {
            lemma_subst_args(args, x, t, 0);
            let sargs = subst_args(args, x, t, 0);
            lemma_apply_bindings_func(bs, f, args);
            lemma_apply_bindings_func(bs, f, sargs);
            assert forall|j: int| 0 <= j < args.len() implies apply_args(bs, sargs)[j]
                == apply_args(bs, args)[j] by {
                lemma_apply_subst_id(bs, args[j], x, t);
            }
            assert(apply_args(bs, sargs) =~= apply_args(bs, args));
        },
    }
}

/// Soundness of a binding step: if `ext` settles the propagated remainder of
/// the queue, then the accepted binding followed by `ext` settles the whole
/// queue, its head included.
proof fn lemma_bind_sound(
    w0: Seq<SpecConstraint>,
    x: Seq<char>,
    t: SpecTerm,
    ext: Seq<SpecBinding>,
)
    requires
        w0.len() > 0,
        w0[0] == (SpecTerm::Var(x), t) || w0[0] == (t, SpecTerm::Var(x)),
        !occurs(t, x),
        equalizes_all(ext, subst_queue(w0.drop_first(), x, t)),
    ensures
        equalizes_all(seq![(x, t)] + ext, w0),
{
    let b: SpecBinding = (x, t);
    lemma_subst_no_occurs(t, x, t);
    assert forall|i: int| 0 <= i < w0.len() implies equalizes(seq![b] + ext, #[trigger] w0[i]) by {
        lemma_apply_bindings_cons(b, ext, w0[i].0);
        lemma_apply_bindings_cons(b, ext, w0[i].1);
        if i == 0 {
            assert(subst(SpecTerm::Var(x), x, t) == t);
        } else {
            let rest = w0.drop_first();
            assert(rest[i - 1] == w0[i]);
            assert(equalizes(ext, subst_queue(rest, x, t)[i - 1]));
        }
    }
}

/// Completeness of a binding step: whatever settles the whole queue also
/// settles the propagated remainder.
proof fn lemma_bind_complete(
    w0: Seq<SpecConstraint>,
    x: Seq<char>,
    t: SpecTerm,
    ext: Seq<SpecBinding>,
)
    requires
        w0.len() > 0,
        w0[0] == (SpecTerm::Var(x), t) || w0[0] == (t, SpecTerm::Var(x)),
        equalizes_all(ext, w0),
    ensures
        equalizes_all(ext, subst_queue(w0.drop_first(), x, t)),
{
    let rest = w0.drop_first();
    assert(equalizes(ext, w0[0]));
    assert forall|i: int| 0 <= i < rest.len() implies equalizes(
        ext,
        #[trigger] subst_queue(rest, x, t)[i],
    ) by {
        assert(rest[i] == w0[i + 1]);
        assert(equalizes(ext, w0[i + 1]));
        lemma_apply_subst_id(ext, rest[i].0, x, t);
        lemma_apply_subst_id(ext, rest[i].1, x, t);
    }
}

/// The variable set of a constraint queue is finite.
proof fn lemma_queue_vars_finite(cs: Seq<SpecConstraint>, i: int)
    ensures
        queue_vars(cs, i).finite(),
    decreases cs.len() - i,
{
    if 0 <= i < cs.len() {
        lemma_term_vars_finite(cs[i].0);
        lemma_term_vars_finite(cs[i].1);
        lemma_queue_vars_finite(cs, i + 1);
    } else {
        assert(queue_vars(cs, i) == Set::<Seq<char>>::empty());
    }
}

/// A name is among the variables of `cs[i..]` exactly when it occurs on some
/// side of one of those constraints.
proof fn lemma_queue_vars_contains(cs: Seq<SpecConstraint>, i: int, x: Seq<char>)
    requires
        0 <= i <= cs.len(),
    ensures
        queue_vars(cs, i).contains(x) <==> exists|j: int|
            i <= j < cs.len() && (occurs((#[trigger] cs[j]).0, x) || occurs(cs[j].1, x)),
    decreases cs.len() - i,
{
    if i < cs.len() {
        lemma_queue_vars_contains(cs, i + 1, x);
        if occurs(cs[i].0, x) || occurs(cs[i].1, x) {
            assert(i <= i < cs.len() && (occurs(cs[i].0, x) || occurs(cs[i].1, x)));
        }
    }
}

/// Queues with the same constraints from `i` and `j` on have one total size.
proof fn lemma_queue_size_shift(
    a: Seq<SpecConstraint>,
    i: int,
    b: Seq<SpecConstraint>,
    j: int,
)
    requires
        0 <= i <= a.len(),
        0 <= j <= b.len(),
        a.len() - i == b.len() - j,
        forall|k: int| 0 <= k < a.len() - i ==> #[trigger] a[i + k] == b[j + k],
    ensures
        queue_size(a, i) == queue_size(b, j),
    decreases a.len() - i,
{
    if i < a.len() {
        assert(a[i + 0] == b[j + 0]);
        assert forall|k: int| 0 <= k < a.len() - i - 1 implies #[trigger] a[i + 1 + k] == b[j + 1 + k] by {
            assert(a[i + (k + 1)] == b[j + (k + 1)]);
        }
        lemma_queue_size_shift(a, i + 1, b, j + 1);
    }
}

/// The size of a concatenation, measured from a point inside the first part.
proof fn lemma_queue_size_concat(a: Seq<SpecConstraint>, b: Seq<SpecConstraint>, i: int)
    requires
        0 <= i <= a.len(),
    ensures
        queue_size(a + b, i) == queue_size(a, i) + queue_size(b, 0),
    decreases a.len() - i,
{
    if i < a.len() {
        assert((a + b)[i] == a[i]);
        lemma_queue_size_concat(a, b, i + 1);
    } else {
        assert forall|k: int| 0 <= k < b.len() - 0 implies #[trigger] (a + b)[i + k] == b[0 + k] by {
            assert((a + b)[a.len() + k] == b[k]);
        }
        lemma_queue_size_shift(a + b, i, b, 0);
    }
}

/// A queue of argument pairs weighs as much as the two argument lists
/// together.
proof fn lemma_queue_size_zip(
    p: Seq<SpecConstraint>,
    a: Seq<SpecTerm>,
    b: Seq<SpecTerm>,
    i: int,
)
    requires
        p.len() == a.len(),
        a.len() == b.len(),
        forall|k: int| 0 <= k < p.len() ==> #[trigger] p[k] == (a[k], b[k]),
        0 <= i <= p.len(),
    ensures
        queue_size(p, i) == args_size(a, i) + args_size(b, i),
    decreases p.len() - i,
{
    if i < p.len() {
        lemma_queue_size_zip(p, a, b, i + 1);
    }
}

/// Propagating a binding cannot bring new variables into a queue: whatever
/// remains was already there apart from `x`, or comes from `t`.
proof fn lemma_subst_queue_vars(cs: Seq<SpecConstraint>, x: Seq<char>, t: SpecTerm)
    ensures
        queue_vars(subst_queue(cs, x, t), 0).subset_of(
            queue_vars(cs, 0).remove(x).union(term_vars(t)),
        ),
{
    let sq = subst_queue(cs, x, t);
    assert forall|y: Seq<char>| queue_vars(sq, 0).contains(y) implies queue_vars(
        cs,
        0,
    ).remove(x).union(term_vars(t)).contains(y) by {
        lemma_queue_vars_contains(sq, 0, y);
        let j = choose|j: int|
            0 <= j < sq.len() && (occurs((#[trigger] sq[j]).0, y) || occurs(sq[j].1, y));
        lemma_subst_vars(cs[j].0, x, t);
        lemma_subst_vars(cs[j].1, x, t);
        lemma_queue_vars_contains(cs, 0, y);
        assert(term_vars(cs[j].0).remove(x).union(term_vars(t)).contains(y) || term_vars(
            cs[j].1,
        ).remove(x).union(term_vars(t)).contains(y));
    }
}

/// Drain the queue from the front and rebuild it with the binding `u`
/// applied to both sides of every pending constraint.
#[verifier::loop_isolation(false)]
pub fn unify(constraints: &mut Constraints, u: &VarTerm) -> (r: Constraints)
    ensures
        final(constraints)@.len() == 0,
        queue_model(r@) == subst_queue(queue_model(old(constraints)@), u.0@, u.1@),
{
    let ghost cs0: Seq<Equality> = constraints@;
    let mut unified_constraints: Constraints = VecDeque::new();
    while constraints.len() > 0
        invariant
            unified_constraints@.len() + constraints@.len() == cs0.len(),
            forall|j: int|
                0 <= j < constraints@.len() ==> #[trigger] constraints@[j] == cs0[unified_constraints@.len() + j],
            forall|j: int|
                0 <= j < unified_constraints@.len() ==> (#[trigger] unified_constraints@[j]).0@
                    == subst(cs0[j].0@, u.0@, u.1@) && unified_constraints@[j].1@ == subst(
                    cs0[j].1@,
                    u.0@,
                    u.1@,
                ),
        decreases constraints@.len(),
    {
        let constraint = constraints.pop_front().unwrap();
        unified_constraints.push_back((constraint.0.unify(u), constraint.1.unify(u)));
    }
    proof {
        assert(queue_model(unified_constraints@) =~= subst_queue(queue_model(cs0), u.0@, u.1@));
    }
    unified_constraints
}



/// The queue of argument pairs a decomposition step pushes.
spec fn zip_pairs(a: Seq<SpecTerm>, b: Seq<SpecTerm>) -> Seq<SpecConstraint> {
    Seq::new(a.len(), |k: int| (a[k], b[k]))
}

/// The engine's soundness invariant: any bindings that settle the pending
/// queue `w`, appended to the bindings `um` accepted so far, settle the
/// original constraints.
#[verifier::opaque]
spec fn extends_to(
    um: Seq<SpecBinding>,
    w: Seq<SpecConstraint>,
    orig: Seq<SpecConstraint>,
) -> bool {
    forall|ext: Seq<SpecBinding>| #[trigger]
        equalizes_all(ext, w) ==> equalizes_all(um + ext, orig)
}

/// The engine's completeness invariant: any bindings that settle the
/// original constraints still settle the pending queue `w`.
#[verifier::opaque]
spec fn preserves_solutions(orig: Seq<SpecConstraint>, w: Seq<SpecConstraint>) -> bool {
    forall|ext: Seq<SpecBinding>| #[trigger] equalizes_all(ext, orig) ==> equalizes_all(ext, w)
}

/// The engine's generality invariant: the bindings `um` accepted so far
/// commit to nothing beyond what every solution of `orig` already commits
/// to — running any settling bindings after `um` acts on every term exactly
/// as running them alone.
#[verifier::opaque]
spec fn factors_through(um: Seq<SpecBinding>, orig: Seq<SpecConstraint>) -> bool {
    forall|ext: Seq<SpecBinding>, s: SpecTerm|
        equalizes_all(ext, orig) ==> #[trigger] apply_bindings(um + ext, s) == apply_bindings(
            ext,
            s,
        )
}

/// At the start the pending queue is the original queue and the loop
/// invariants hold with no bindings accepted.
proof fn lemma_invariants_init(orig: Seq<SpecConstraint>)
    ensures
        extends_to(Seq::empty(), orig, orig),
        preserves_solutions(orig, orig),
        factors_through(Seq::empty(), orig),
{
    reveal(extends_to);
    reveal(preserves_solutions);
    reveal(factors_through);
    assert forall|ext: Seq<SpecBinding>| #[trigger]
        equalizes_all(ext, orig) implies equalizes_all(Seq::empty() + ext, orig) by {
        assert(Seq::<SpecBinding>::empty() + ext =~= ext);
    }
    assert forall|ext: Seq<SpecBinding>, s: SpecTerm|
        equalizes_all(ext, orig) implies #[trigger] apply_bindings(Seq::empty() + ext, s)
        == apply_bindings(ext, s) by {
        assert(Seq::<SpecBinding>::empty() + ext =~= ext);
    }
}

/// At the end the queue is empty, so the accepted bindings settle the
/// original constraints, and the generality invariant becomes the most
/// general unifier property.
proof fn lemma_invariants_done(
    orig: Seq<SpecConstraint>,
    w: Seq<SpecConstraint>,
    um: Seq<SpecBinding>,
)
    requires
        w.len() == 0,
        extends_to(um, w, orig),
        factors_through(um, orig),
    ensures
        equalizes_all(um, orig),
        forall|ext: Seq<SpecBinding>, s: SpecTerm|
            equalizes_all(ext, orig) ==> #[trigger] apply_bindings(um + ext, s) == apply_bindings(
                ext,
                s,
            ),
{
    reveal(extends_to);
    reveal(factors_through);
    let e: Seq<SpecBinding> = Seq::empty();
    assert(equalizes_all(e, w));
    assert(equalizes_all(um + e, orig));
    assert(um + e =~= um);
}

/// Dropping a constraint whose sides are identical keeps the engine's loop
/// invariants: solvability is unchanged, no variable is added, and the queue
/// shrinks by two nodes.
proof fn lemma_step_trivial(orig: Seq<SpecConstraint>, w0: Seq<SpecConstraint>, um0: Seq<SpecBinding>)
    requires
        w0.len() > 0,
        w0[0].0 == w0[0].1,
        extends_to(um0, w0, orig),
        preserves_solutions(orig, w0),
        queue_vars(w0, 0).finite(),
    ensures
        extends_to(um0, w0.drop_first(), orig),
        preserves_solutions(orig, w0.drop_first()),
        queue_vars(w0.drop_first(), 0).finite(),
        queue_vars(w0.drop_first(), 0).len() <= queue_vars(w0, 0).len(),
        queue_size(w0.drop_first(), 0) < queue_size(w0, 0),
        all_reflexive(w0) ==> all_reflexive(w0.drop_first()),
{
    reveal(extends_to);
    reveal(preserves_solutions);
    let wrest = w0.drop_first();
    assert forall|ext: Seq<SpecBinding>| #[trigger]
        equalizes_all(ext, wrest) implies equalizes_all(um0 + ext, orig) by {
        assert forall|i: int| 0 <= i < w0.len() implies equalizes(ext, #[trigger] w0[i]) by {
            if i > 0 {
                assert(wrest[i - 1] == w0[i]);
                assert(equalizes(ext, wrest[i - 1]));
            }
        }
        assert(equalizes_all(ext, w0));
    }
    assert forall|ext: Seq<SpecBinding>| #[trigger]
        equalizes_all(ext, orig) implies equalizes_all(ext, wrest) by {
        assert(equalizes_all(ext, w0));
        assert forall|i: int| 0 <= i < wrest.len() implies equalizes(ext, #[trigger] wrest[i]) by {
            assert(wrest[i] == w0[i + 1]);
        }
    }
    assert forall|y: Seq<char>| queue_vars(wrest, 0).contains(y) implies queue_vars(
        w0,
        0,
    ).contains(y) by {
        lemma_queue_vars_contains(wrest, 0, y);
        lemma_queue_vars_contains(w0, 0, y);
        let j = choose|j: int|
            0 <= j < wrest.len() && (occurs((#[trigger] wrest[j]).0, y) || occurs(wrest[j].1, y));
        assert(w0[j + 1] == wrest[j]);
    }
    lemma_len_subset(queue_vars(wrest, 0), queue_vars(w0, 0));
    lemma_queue_size_shift(w0, 1, wrest, 0);
    lemma_size_pos(w0[0].0);
    lemma_size_pos(w0[0].1);
    if all_reflexive(w0) {
        assert forall|i: int| 0 <= i < wrest.len() implies (#[trigger] wrest[i]).0
            == wrest[i].1 by {
            assert(wrest[i] == w0[i + 1]);
        }
    }
}

/// An accepted binding keeps the engine's loop invariants: extending the
/// unifier by the binding preserves soundness, propagation preserves
/// solvability, and the bound variable leaves the queue for good, so the
/// queue's variable count drops.
proof fn lemma_step_bind(
    orig: Seq<SpecConstraint>,
    w0: Seq<SpecConstraint>,
    um0: Seq<SpecBinding>,
    x: Seq<char>,
    t: SpecTerm,
)
    requires
        w0.len() > 0,
        w0[0] == (SpecTerm::Var(x), t) || w0[0] == (t, SpecTerm::Var(x)),
        !occurs(t, x),
        t != SpecTerm::Var(x),
        extends_to(um0, w0, orig),
        preserves_solutions(orig, w0),
        factors_through(um0, orig),
        queue_vars(w0, 0).finite(),
    ensures
        extends_to(um0.push((x, t)), subst_queue(w0.drop_first(), x, t), orig),
        preserves_solutions(orig, subst_queue(w0.drop_first(), x, t)),
        factors_through(um0.push((x, t)), orig),
        queue_vars(subst_queue(w0.drop_first(), x, t), 0).finite(),
        queue_vars(subst_queue(w0.drop_first(), x, t), 0).len() < queue_vars(w0, 0).len(),
        !all_reflexive(w0),
{
    reveal(extends_to);
    reveal(preserves_solutions);
    reveal(factors_through);
    let b: SpecBinding = (x, t);
    let wnew = subst_queue(w0.drop_first(), x, t);
    assert forall|ext: Seq<SpecBinding>, s: SpecTerm|
        equalizes_all(ext, orig) implies #[trigger] apply_bindings(um0.push(b) + ext, s)
        == apply_bindings(ext, s) by {
        // whatever settles the originals settles the head constraint, so it
        // makes `x` and `t` identical and substitution changes nothing
        assert(equalizes_all(ext, w0));
        assert(equalizes(ext, w0[0]));
        assert forall|i: int| 0 <= i < orig.len() implies equalizes(
            seq![b] + ext,
            #[trigger] orig[i],
        ) by {
            lemma_apply_bindings_cons(b, ext, orig[i].0);
            lemma_apply_bindings_cons(b, ext, orig[i].1);
            lemma_apply_subst_id(ext, orig[i].0, x, t);
            lemma_apply_subst_id(ext, orig[i].1, x, t);
        }
        assert(equalizes_all(seq![b] + ext, orig));
        assert(apply_bindings(um0 + (seq![b] + ext), s) == apply_bindings(seq![b] + ext, s));
        lemma_apply_bindings_cons(b, ext, s);
        lemma_apply_subst_id(ext, s, x, t);
        assert(um0.push(b) + ext =~= um0 + (seq![b] + ext));
    }
    assert forall|ext: Seq<SpecBinding>| #[trigger]
        equalizes_all(ext, wnew) implies equalizes_all(um0.push(b) + ext, orig) by {
        lemma_bind_sound(w0, x, t, ext);
        assert(equalizes_all(seq![b] + ext, w0));
        assert(equalizes_all(um0 + (seq![b] + ext), orig));
        assert(um0.push(b) + ext =~= um0 + (seq![b] + ext));
    }
    assert forall|ext: Seq<SpecBinding>| #[trigger]
        equalizes_all(ext, orig) implies equalizes_all(ext, wnew) by {
        assert(equalizes_all(ext, w0));
        lemma_bind_complete(w0, x, t, ext);
    }
    assert(w0[0].0 != w0[0].1);
    let vs0 = queue_vars(w0, 0);
    let vsn = queue_vars(wnew, 0);
    let df = w0.drop_first();
    lemma_subst_queue_vars(df, x, t);
    lemma_queue_vars_contains(w0, 0, x);
    assert(occurs(SpecTerm::Var(x), x));
    assert(vs0.contains(x));
    assert forall|y: Seq<char>| vsn.contains(y) implies vs0.remove(x).contains(y) by {
        assert(queue_vars(df, 0).remove(x).union(term_vars(t)).contains(y));
        lemma_queue_vars_contains(w0, 0, y);
        if queue_vars(df, 0).contains(y) {
            lemma_queue_vars_contains(df, 0, y);
            let j = choose|j: int|
                0 <= j < df.len() && (occurs((#[trigger] df[j]).0, y) || occurs(df[j].1, y));
            assert(w0[j + 1] == df[j]);
            assert(vs0.contains(y));
        } else {
            assert(term_vars(t).contains(y));
            assert(occurs(t, y));
            assert(y != x);
            assert(vs0.contains(y));
        }
    }
    lemma_len_subset(vsn, vs0.remove(x));
    assert(vs0.remove(x).len() == vs0.len() - 1);
}

/// Decomposing a compound constraint into its argument pairs keeps the
/// engine's loop invariants: solvability and reflexivity carry over in both
/// directions, no variable is added, and the queue loses the two symbol
/// nodes.
proof fn lemma_step_decompose(
    orig: Seq<SpecConstraint>,
    w0: Seq<SpecConstraint>,
    um0: Seq<SpecBinding>,
    f: Seq<char>,
    a: Seq<SpecTerm>,
    b: Seq<SpecTerm>,
)
    requires
        w0.len() > 0,
        w0[0] == (SpecTerm::Func(f, a), SpecTerm::Func(f, b)),
        a.len() == b.len(),
        extends_to(um0, w0, orig),
        preserves_solutions(orig, w0),
        queue_vars(w0, 0).finite(),
    ensures
        extends_to(um0, w0.drop_first() + zip_pairs(a, b), orig),
        preserves_solutions(orig, w0.drop_first() + zip_pairs(a, b)),
        queue_vars(w0.drop_first() + zip_pairs(a, b), 0).finite(),
        queue_vars(w0.drop_first() + zip_pairs(a, b), 0).len() <= queue_vars(w0, 0).len(),
        queue_size(w0.drop_first() + zip_pairs(a, b), 0) < queue_size(w0, 0),
        all_reflexive(w0) ==> all_reflexive(w0.drop_first() + zip_pairs(a, b)),
{
    reveal(extends_to);
    reveal(preserves_solutions);
    let df = w0.drop_first();
    let p = zip_pairs(a, b);
    let wnew = df + p;
    assert forall|ext: Seq<SpecBinding>| #[trigger]
        equalizes_all(ext, wnew) implies equalizes_all(um0 + ext, orig) by {
        lemma_decompose_equalizes(ext, f, a, b);
        assert forall|k: int| 0 <= k < a.len() implies apply_bindings(ext, #[trigger] a[k])
            == apply_bindings(ext, b[k]) by {
            assert(wnew[df.len() + k] == (a[k], b[k]));
            assert(equalizes(ext, wnew[df.len() + k]));
        }
        assert(equalizes(ext, w0[0]));
        assert forall|i: int| 0 <= i < w0.len() implies equalizes(ext, #[trigger] w0[i]) by {
            if i > 0 {
                assert(wnew[i - 1] == w0[i]);
                assert(equalizes(ext, wnew[i - 1]));
            }
        }
        assert(equalizes_all(ext, w0));
    }
    assert forall|ext: Seq<SpecBinding>| #[trigger]
        equalizes_all(ext, orig) implies equalizes_all(ext, wnew) by {
        assert(equalizes_all(ext, w0));
        assert(equalizes(ext, w0[0]));
        lemma_decompose_equalizes(ext, f, a, b);
        assert forall|i: int| 0 <= i < wnew.len() implies equalizes(ext, #[trigger] wnew[i]) by {
            if i < df.len() {
                assert(wnew[i] == w0[i + 1]);
            } else {
                assert(wnew[i] == (a[i - df.len()], b[i - df.len()]));
            }
        }
    }
    if all_reflexive(w0) {
        assert forall|i: int| 0 <= i < wnew.len() implies (#[trigger] wnew[i]).0 == wnew[i].1 by {
            if i < df.len() {
                assert(wnew[i] == w0[i + 1]);
            } else {
                assert(wnew[i] == (a[i - df.len()], b[i - df.len()]));
                assert(SpecTerm::Func(f, a) == SpecTerm::Func(f, b));
            }
        }
    }
    assert forall|y: Seq<char>| queue_vars(wnew, 0).contains(y) implies queue_vars(
        w0,
        0,
    ).contains(y) by {
        lemma_queue_vars_contains(wnew, 0, y);
        lemma_queue_vars_contains(w0, 0, y);
        let j = choose|j: int|
            0 <= j < wnew.len() && (occurs((#[trigger] wnew[j]).0, y) || occurs(wnew[j].1, y));
        if j < df.len() {
            assert(w0[j + 1] == wnew[j]);
        } else {
            lemma_args_vars_contains(a, 0, y);
            lemma_args_vars_contains(b, 0, y);
            assert(wnew[j] == (a[j - df.len()], b[j - df.len()]));
            assert(occurs(a[j - df.len()], y) || occurs(b[j - df.len()], y));
            assert(occurs(w0[0].0, y) || occurs(w0[0].1, y));
        }
    }
    lemma_len_subset(queue_vars(wnew, 0), queue_vars(w0, 0));
    lemma_queue_size_concat(df, p, 0);
    lemma_queue_size_zip(p, a, b, 0);
    lemma_queue_size_shift(w0, 1, df, 0);
    assert(queue_size(wnew, 0) == queue_size(df, 0) + args_size(a, 0) + args_size(b, 0));
    assert(queue_size(w0, 0) == size(w0[0].0) + size(w0[0].1) + queue_size(df, 0));
}

/// When no bindings at all can settle the constraint at the head of the
/// queue, the whole run is unsolvable.
proof fn lemma_step_fail(orig: Seq<SpecConstraint>, w0: Seq<SpecConstraint>)
    requires
        w0.len() > 0,
        forall|bs: Seq<SpecBinding>| !equalizes(bs, w0[0]),
        preserves_solutions(orig, w0),
    ensures
        !unifiable(orig),
{
    reveal(preserves_solutions);
    assert forall|bs: Seq<SpecBinding>| !#[trigger] equalizes_all(bs, orig) by {
        if equalizes_all(bs, orig) {
            assert(equalizes_all(bs, w0));
            assert(equalizes(bs, w0[0]));
        }
    }
}

/// One step of the engine: remove the head constraint and settle it.  On
/// `true` the loop invariants are maintained and the queue measure shrinks;
/// on `false` the whole run has no unifier.
#[verifier::loop_isolation(false)]
fn mgu_step(
    work: &mut Constraints,
    unifier: &mut Unifier,
    Ghost(orig): Ghost<Seq<SpecConstraint>>,
) -> (ok: bool)
    requires
        old(work)@.len() > 0,
        queue_vars(queue_model(old(work)@), 0).finite(),
        extends_to(unifier_model(old(unifier)@), queue_model(old(work)@), orig),
        preserves_solutions(orig, queue_model(old(work)@)),
        factors_through(unifier_model(old(unifier)@), orig),
        forall|i: int|
            0 <= i < old(unifier)@.len() ==> !occurs(
                (#[trigger] unifier_model(old(unifier)@)[i]).1,
                unifier_model(old(unifier)@)[i].0,
            ),
        all_reflexive(orig) ==> old(unifier)@.len() == 0 && all_reflexive(
            queue_model(old(work)@),
        ),
    ensures
        !ok ==> !unifiable(orig),
        ok ==> queue_vars(queue_model(final(work)@), 0).finite(),
        ok ==> extends_to(unifier_model(final(unifier)@), queue_model(final(work)@), orig),
        ok ==> preserves_solutions(orig, queue_model(final(work)@)),
        ok ==> factors_through(unifier_model(final(unifier)@), orig),
        ok ==> forall|i: int|
            0 <= i < final(unifier)@.len() ==> !occurs(
                (#[trigger] unifier_model(final(unifier)@)[i]).1,
                unifier_model(final(unifier)@)[i].0,
            ),
        ok ==> (all_reflexive(orig) ==> final(unifier)@.len() == 0 && all_reflexive(
            queue_model(final(work)@),
        )),
        ok ==> queue_vars(queue_model(final(work)@), 0).len() < queue_vars(
            queue_model(old(work)@),
            0,
        ).len() || (queue_vars(queue_model(final(work)@), 0).len() == queue_vars(
            queue_model(old(work)@),
            0,
        ).len() && queue_size(queue_model(final(work)@), 0) < queue_size(
            queue_model(old(work)@),
            0,
        )),
{
    let ghost w0 = queue_model(work@);
    let ghost um0 = unifier_model(unifier@);
    let constraint = work.pop_front().unwrap();
    proof {
        assert(queue_model(work@) =~= w0.drop_first());
    }
    match constraint {
        (Term::Var(x), t) | (t, Term::Var(x)) => {
            proof {
                assert(w0[0] == (SpecTerm::Var(x@), t@) || w0[0] == (t@, SpecTerm::Var(x@)));
            }
            let same = match &t {
                Term::Var(s) => *s == x,
                _ => false,
            };
            if same {
                proof {
                    assert(t@ == SpecTerm::Var(x@));
                    assert(w0[0].0 == w0[0].1);
                    lemma_step_trivial(orig, w0, um0);
                }
                true
            } else if t.appear(&x) {
                proof {
                    assert(t@ != SpecTerm::Var(x@));
                    lemma_occurs_unsolvable(x@, t@);
                    assert forall|bs: Seq<SpecBinding>| !equalizes(bs, w0[0]) by {
                        assert(!equalizes(bs, (SpecTerm::Var(x@), t@)));
                        assert(!equalizes(bs, (t@, SpecTerm::Var(x@))));
                    }
                    lemma_step_fail(orig, w0);
                }
                false
            } else {
                let u: VarTerm = (x, t);
                let ghost xv = u.0@;
                let ghost tv = u.1@;
                let new_work = unify(work, &u);
                *work = new_work;
                unifier.push(u);
                proof {
                    assert(tv != SpecTerm::Var(xv));
                    lemma_step_bind(orig, w0, um0, xv, tv);
                    assert(queue_model(work@) == subst_queue(w0.drop_first(), xv, tv));
                    let um1 = unifier_model(unifier@);
                    assert(um1 =~= um0.push((xv, tv)));
                    assert forall|i: int| 0 <= i < unifier@.len() implies !occurs(
                        (#[trigger] um1[i]).1,
                        um1[i].0,
                    ) by {
                        if i < um0.len() {
                            assert(um1[i] == um0[i]);
                        } else {
                            assert(um1[i] == (xv, tv));
                        }
                    }
                }
                true
            }
        },
        (Term::Func(f1, v1), Term::Func(f2, v2)) => {
            proof {
                lemma_args_model(v1@, 0);
                lemma_args_model(v2@, 0);
            }
            let ghost am = args_model(v1@, 0);
            let ghost bm = args_model(v2@, 0);
            proof {
                assert(w0[0] == (SpecTerm::Func(f1@, am), SpecTerm::Func(f2@, bm)));
            }
            if f1 == f2 && v1.len() == v2.len() {
                let ghost df = w0.drop_first();
                let mut i: usize = 0;
                while i < v1.len()
                    invariant
                        i <= v1.len(),
                        v1@.len() == v2@.len(),
                        queue_model(work@).len() == df.len() + i,
                        forall|j: int|
                            0 <= j < df.len() ==> #[trigger] queue_model(work@)[j] == df[j],
                        forall|j: int|
                            0 <= j < i ==> #[trigger] queue_model(work@)[df.len() + j] == (
                            am[j],
                            bm[j],
                            ),
                    decreases v1@.len() - i,
                {
                    let ghost wq0 = work@;
                    work.push_back((v1[i].clone(), v2[i].clone()));
                    proof {
                        assert(queue_model(work@) =~= queue_model(wq0).push(
                            (am[i as int], bm[i as int]),
                        ));
                    }
                    i = i + 1;
                }
                proof {
                    let p = zip_pairs(am, bm);
                    let wq = queue_model(work@);
                    assert forall|j: int| 0 <= j < wq.len() implies wq[j] == (df + p)[j] by {
                        if j < df.len() {
                            assert((df + p)[j] == df[j]);
                        } else {
                            assert((df + p)[j] == p[j - df.len()]);
                            assert(wq[df.len() + (j - df.len())] == (
                                am[j - df.len()],
                                bm[j - df.len()],
                            ));
                        }
                    }
                    assert(wq =~= df + p);
                    lemma_step_decompose(orig, w0, um0, f1@, am, bm);
                }
                true
            } else {
                proof {
                    assert(f1@ != f2@ || am.len() != bm.len());
                    lemma_clash_unsolvable(f1@, am, f2@, bm);
                    assert forall|bs: Seq<SpecBinding>| !equalizes(bs, w0[0]) by {
                        assert(!equalizes(bs, (SpecTerm::Func(f1@, am), SpecTerm::Func(f2@, bm))));
                    }
                    lemma_step_fail(orig, w0);
                }
                false
            }
        },
    }
}

/// Robinson's unification algorithm over a worklist of constraints.
///
/// On success the returned unifier, applied binding by binding in order,
/// makes the two sides of every initial constraint identical, no bound
/// variable occurs in the term it is bound to, and a queue whose sides were
/// already identical yields an empty unifier.  The unifier is most general:
/// any bindings that settle the constraints act, run after the returned
/// bindings, on every term exactly as they do alone.  `None` is returned
/// exactly when no ordered list of bindings whatsoever can settle the
/// constraints.
#[verifier::loop_isolation(false)]
pub fn calculate_mgu(constraints: &Constraints) -> (r: Option<Unifier>)
    ensures
        match r {
            Some(u) => {
                &&& equalizes_all(unifier_model(u@), queue_model(constraints@))
                &&& forall|i: int|
                    0 <= i < u@.len() ==> !occurs(
                        (#[trigger] unifier_model(u@)[i]).1,
                        unifier_model(u@)[i].0,
                    )
                &&& all_reflexive(queue_model(constraints@)) ==> u@.len() == 0
                &&& forall|ext: Seq<SpecBinding>, s: SpecTerm|
                    equalizes_all(ext, queue_model(constraints@)) ==> #[trigger] apply_bindings(
                        unifier_model(u@) + ext,
                        s,
                    ) == apply_bindings(ext, s)
            },
            None => !unifiable(queue_model(constraints@)),
        },
{
    let ghost orig: Seq<SpecConstraint> = queue_model(constraints@);
    let mut work: Constraints = VecDeque::new();
    let n: usize = constraints.len();
    let mut k: usize = 0;
    while k < n
        invariant
            k <= n,
            n == constraints@.len(),
            work@.len() == k,
            forall|j: int|
                0 <= j < k ==> (#[trigger] work@[j]).0@ == constraints@[j].0@ && work@[j].1@
                    == constraints@[j].1@,
        decreases n - k,
    {
        let c = &constraints[k];
        work.push_back((c.0.clone(), c.1.clone()));
        k = k + 1;
    }
    proof {
        assert(queue_model(work@) =~= orig);
        lemma_queue_vars_finite(orig, 0);
        lemma_invariants_init(orig);
        assert(unifier_model(Seq::empty()) =~= Seq::<SpecBinding>::empty());
    }
    let mut unifier: Unifier = Vec::new();
    while work.len() > 0
        invariant
            queue_vars(queue_model(work@), 0).finite(),
            extends_to(unifier_model(unifier@), queue_model(work@), orig),
            preserves_solutions(orig, queue_model(work@)),
            factors_through(unifier_model(unifier@), orig),
            forall|i: int|
                0 <= i < unifier@.len() ==> !occurs(
                    (#[trigger] unifier_model(unifier@)[i]).1,
                    unifier_model(unifier@)[i].0,
                ),
            all_reflexive(orig) ==> unifier@.len() == 0 && all_reflexive(queue_model(work@)),
        decreases queue_vars(queue_model(work@), 0).len(), queue_size(queue_model(work@), 0),
    {
        let ok = mgu_step(&mut work, &mut unifier, Ghost(orig));
        if !ok {
            return None;
        }
    }
    proof {
        lemma_invariants_done(orig, queue_model(work@), unifier_model(unifier@));
    }
    Some(unifier)
}

/// Unification is symmetric: an ordered list of bindings settles the
/// constraint `(a, b)` exactly when it settles `(b, a)`, so the one-element
/// queue on `(a, b)` has a unifier exactly when the flipped queue has one.
pub proof fn lemma_symmetry(a: SpecTerm, b: SpecTerm)
    ensures
        forall|bs: Seq<SpecBinding>| #[trigger]
            equalizes(bs, (a, b)) <==> #[trigger] equalizes(bs, (b, a)),
        unifiable(seq![(a, b)]) <==> unifiable(seq![(b, a)]),
{
    assert(seq![(a, b)][0] == (a, b));
    assert(seq![(b, a)][0] == (b, a));
    if unifiable(seq![(a, b)]) {
        let bs = choose|bs: Seq<SpecBinding>| equalizes_all(bs, seq![(a, b)]);
        assert(equalizes(bs, seq![(a, b)][0]));
        assert forall|i: int| 0 <= i < seq![(b, a)].len() implies equalizes(
            bs,
            #[trigger] seq![(b, a)][i],
        ) by {}
        assert(equalizes_all(bs, seq![(b, a)]));
    }
    if unifiable(seq![(b, a)]) {
        let bs = choose|bs: Seq<SpecBinding>| equalizes_all(bs, seq![(b, a)]);
        assert(equalizes(bs, seq![(b, a)][0]));
        assert forall|i: int| 0 <= i < seq![(a, b)].len() implies equalizes(
            bs,
            #[trigger] seq![(a, b)][i],
        ) by {}
        assert(equalizes_all(bs, seq![(a, b)]));
    }
}

/// Unification is reflexive: a constraint between a term and itself is
/// settled by no bindings at all, so the queue holding it alone has a
/// unifier, the empty one.
pub proof fn lemma_reflexivity(a: SpecTerm)
    ensures
        equalizes_all(Seq::empty(), seq![(a, a)]),
        unifiable(seq![(a, a)]),
{
    let e: Seq<SpecBinding> = Seq::empty();
    assert forall|i: int| 0 <= i < seq![(a, a)].len() implies equalizes(
        e,
        #[trigger] seq![(a, a)][i],
    ) by {}
    assert(equalizes_all(e, seq![(a, a)]));
}

/// The occurs-check rejects exactly the cyclic bindings: a constraint
/// between the variable `x` and a different term in which `x` occurs has no
/// unifier, in either orientation.
pub proof fn lemma_occurs_check_rejection(x: Seq<char>, t: SpecTerm)
    requires
        occurs(t, x),
        t != SpecTerm::Var(x),
    ensures
        !unifiable(seq![(SpecTerm::Var(x), t)]),
        !unifiable(seq![(t, SpecTerm::Var(x))]),
{
    lemma_occurs_unsolvable(x, t);
    assert forall|bs: Seq<SpecBinding>| !#[trigger] equalizes_all(
        bs,
        seq![(SpecTerm::Var(x), t)],
    ) by {
        if equalizes_all(bs, seq![(SpecTerm::Var(x), t)]) {
            assert(equalizes(bs, seq![(SpecTerm::Var(x), t)][0]));
        }
    }
    assert forall|bs: Seq<SpecBinding>| !#[trigger] equalizes_all(
        bs,
        seq![(t, SpecTerm::Var(x))],
    ) by {
        if equalizes_all(bs, seq![(t, SpecTerm::Var(x))]) {
            assert(equalizes(bs, seq![(t, SpecTerm::Var(x))][0]));
        }
    }
}

/// A clash is final: a constraint between compounds whose symbols or
/// arities differ has no unifier.
pub proof fn lemma_clash_rejection(f: Seq<char>, a: Seq<SpecTerm>, g: Seq<char>, b: Seq<SpecTerm>)
    requires
        f != g || a.len() != b.len(),
    ensures
        !unifiable(seq![(SpecTerm::Func(f, a), SpecTerm::Func(g, b))]),
{
    lemma_clash_unsolvable(f, a, g, b);
    assert forall|bs: Seq<SpecBinding>| !#[trigger] equalizes_all(
        bs,
        seq![(SpecTerm::Func(f, a), SpecTerm::Func(g, b))],
    ) by {
        if equalizes_all(bs, seq![(SpecTerm::Func(f, a), SpecTerm::Func(g, b))]) {
            assert(equalizes(bs, seq![(SpecTerm::Func(f, a), SpecTerm::Func(g, b))][0]));
        }
    }
}

} // verus!
