//! The term data model: variables and function applications, together with
//! substitution of a single binding and the occurs-check.

use vstd::prelude::*;

verus! {

/// The mathematical model of a term.  A variable is identified by its name,
/// a compound term by its symbol and the ordered sequence of its arguments;
/// a compound with no arguments is a constant.  Names are sequences of
/// characters, so two model terms are equal exactly when their structure and
/// all their names agree by value.
#[verifier::ext_equal]
pub enum SpecTerm {
    Var(Seq<char>),
    Func(Seq<char>, Seq<SpecTerm>),
}

/// A symbolic expression: either a variable or a named application of a
/// symbol to zero or more argument terms.  Terms are never mutated in place;
/// every transformation builds a new value.
#[derive(Debug, PartialEq)]
pub enum Term {
    Var(String),
    Func(String, Vec<Term>),
}

/// The models of the arguments `args[i..]`, in order.
pub open spec fn args_model(args: Seq<Term>, i: int) -> Seq<SpecTerm>
    decreases args, args.len() - i,
{
    if i < 0 || i >= args.len() {
        Seq::empty()
    } else {
        seq![args[i]@] + args_model(args, i + 1)
    }
}

impl View for Term {
    type V = SpecTerm;

    open spec fn view(&self) -> SpecTerm
        decreases self, 0int,
    {
        match self {
            Term::Var(s) => SpecTerm::Var(s@),
            Term::Func(s, args) => SpecTerm::Func(s@, args_model(args@, 0)),
        }
    }
}

/// Length and contents of [`args_model`]: it models each argument in place.
pub proof fn lemma_args_model(args: Seq<Term>, i: int)
    requires
        0 <= i <= args.len(),
    ensures
        args_model(args, i).len() == args.len() - i,
        forall|j: int|
            0 <= j < args.len() - i ==> args_model(args, i)[j] == args[i + j]@,
    decreases args.len() - i,
{
    if i >= args.len() {
        assert(args_model(args, i) == Seq::<SpecTerm>::empty());
    } else {
        lemma_args_model(args, i + 1);
        assert(args_model(args, i) == seq![args[i]@] + args_model(args, i + 1));
        assert(args_model(args, i).len() == args.len() - i);
        assert forall|j: int|
            0 <= j < args.len() - i implies args_model(args, i)[j] == args[i + j]@ by {
            if j == 0 {
                assert((seq![args[i]@] + args_model(args, i + 1))[0] == args[i]@);
            } else {
                assert((seq![args[i]@] + args_model(args, i + 1))[j]
                    == args_model(args, i + 1)[j - 1]);
            }
        }
    }
}

/// `subst(t, x, r)` replaces every variable named `x` inside `t` by `r` and
/// leaves every other node unchanged.
pub open spec fn subst(t: SpecTerm, x: Seq<char>, r: SpecTerm) -> SpecTerm
    decreases t, 0int,
{
    match t {
        SpecTerm::Var(s) => if s == x {
            r
        } else {
            SpecTerm::Var(s)
        },
        SpecTerm::Func(f, args) => SpecTerm::Func(f, subst_args(args, x, r, 0)),
    }
}

/// [`subst`] applied to each of the arguments `args[i..]`, in order.
pub open spec fn subst_args(args: Seq<SpecTerm>, x: Seq<char>, r: SpecTerm, i: int) -> Seq<
    SpecTerm,
>
    decreases args, args.len() - i,
{
    if i < 0 || i >= args.len() {
        Seq::empty()
    } else {
        seq![subst(args[i], x, r)] + subst_args(args, x, r, i + 1)
    }
}

/// Length and contents of [`subst_args`]: it substitutes into each argument
/// in place.
pub proof fn lemma_subst_args(args: Seq<SpecTerm>, x: Seq<char>, r: SpecTerm, i: int)
    requires
        0 <= i <= args.len(),
    ensures
        subst_args(args, x, r, i).len() == args.len() - i,
        forall|j: int|
            0 <= j < args.len() - i ==> subst_args(args, x, r, i)[j] == subst(args[i + j], x, r),
    decreases args.len() - i,
{
    if i >= args.len() {
        assert(subst_args(args, x, r, i) == Seq::<SpecTerm>::empty());
    } else {
        lemma_subst_args(args, x, r, i + 1);
        assert(subst_args(args, x, r, i) == seq![subst(args[i], x, r)] + subst_args(
            args,
            x,
            r,
            i + 1,
        ));
        assert forall|j: int|
            0 <= j < args.len() - i implies subst_args(args, x, r, i)[j] == subst(
            args[i + j],
            x,
            r,
        ) by {
            if j == 0 {
                assert((seq![subst(args[i], x, r)] + subst_args(args, x, r, i + 1))[0] == subst(
                    args[i],
                    x,
                    r,
                ));
            } else {
                assert((seq![subst(args[i], x, r)] + subst_args(args, x, r, i + 1))[j]
                    == subst_args(args, x, r, i + 1)[j - 1]);
            }
        }
    }
}

/// The set of variable names that occur anywhere inside `t`.
pub open spec fn term_vars(t: SpecTerm) -> Set<Seq<char>>
    decreases t, 0int,
{
    match t {
        SpecTerm::Var(s) => Set::empty().insert(s),
        SpecTerm::Func(f, args) => args_vars(args, 0),
    }
}

/// The variables of all the arguments `args[i..]` taken together.
pub open spec fn args_vars(args: Seq<SpecTerm>, i: int) -> Set<Seq<char>>
    decreases args, args.len() - i,
{
    if i < 0 || i >= args.len() {
        Set::empty()
    } else {
        term_vars(args[i]).union(args_vars(args, i + 1))
    }
}

/// `occurs(t, x)` holds exactly when a variable named `x` stands somewhere
/// inside `t`; this is the condition the occurs-check decides.
pub open spec fn occurs(t: SpecTerm, x: Seq<char>) -> bool {
    term_vars(t).contains(x)
}

/// A variable set is finite.
pub proof fn lemma_term_vars_finite(t: SpecTerm)
    ensures
        term_vars(t).finite(),
    decreases t, 0int,
{
    match t {
        SpecTerm::Var(s) => {},
        SpecTerm::Func(f, args) => {
            lemma_args_vars_finite(args, 0);
        },
    }
}

/// The variable set of a suffix of an argument list is finite.
pub proof fn lemma_args_vars_finite(args: Seq<SpecTerm>, i: int)
    ensures
        args_vars(args, i).finite(),
    decreases args, args.len() - i,
{
    if 0 <= i < args.len() {
        lemma_term_vars_finite(args[i]);
        lemma_args_vars_finite(args, i + 1);
    } else {
        assert(args_vars(args, i) == Set::<Seq<char>>::empty());
    }
}

/// A name is among the variables of `args[i..]` exactly when it occurs in one
/// of those arguments.
pub proof fn lemma_args_vars_contains(args: Seq<SpecTerm>, i: int, x: Seq<char>)
    requires
        0 <= i <= args.len(),
    ensures
        args_vars(args, i).contains(x) <==> exists|j: int|
            i <= j < args.len() && occurs(#[trigger] args[j], x),
    decreases args.len() - i,
{
    if i < args.len() {
        lemma_args_vars_contains(args, i + 1, x);
        if term_vars(args[i]).contains(x) {
            assert(i <= i < args.len() && occurs(args[i], x));
        }
    }
}

/// The number of nodes in `t`; always at least one.
pub open spec fn size(t: SpecTerm) -> nat
    decreases t, 0int,
{
    match t {
        SpecTerm::Var(s) => 1,
        SpecTerm::Func(f, args) => 1 + args_size(args, 0),
    }
}

/// The node count of the arguments `args[i..]` taken together.
pub open spec fn args_size(args: Seq<SpecTerm>, i: int) -> nat
    decreases args, args.len() - i,
{
    if i < 0 || i >= args.len() {
        0
    } else {
        size(args[i]) + args_size(args, i + 1)
    }
}

/// An argument list is at least as large as each of its members.
pub proof fn lemma_args_size_ge(args: Seq<SpecTerm>, i: int, j: int)
    requires
        0 <= i <= j < args.len(),
    ensures
        args_size(args, i) >= size(args[j]),
    decreases j - i,
{
    if i < j {
        lemma_args_size_ge(args, i + 1, j);
    }
}

/// Every term has at least one node.
pub proof fn lemma_size_pos(t: SpecTerm)
    ensures
        size(t) >= 1,
{
    match t {
        SpecTerm::Var(s) => {},
        SpecTerm::Func(f, args) => {},
    }
}

/// Substituting for a variable that does not occur in a term leaves the term
/// unchanged.
pub proof fn lemma_subst_no_occurs(t: SpecTerm, x: Seq<char>, r: SpecTerm)
    requires
        !occurs(t, x),
    ensures
        subst(t, x, r) == t,
    decreases t,
{
    match t {
        SpecTerm::Var(s) => {},
        SpecTerm::Func(f, args) => {
            lemma_subst_args(args, x, r, 0);
            lemma_args_vars_contains(args, 0, x);
            assert forall|j: int| 0 <= j < args.len() implies subst_args(args, x, r, 0)[j]
                == args[j] by {
                assert(!occurs(args[j], x));
                lemma_subst_no_occurs(args[j], x, r);
            }
            assert(subst_args(args, x, r, 0) =~= args);
        },
    }
}

/// The variables of `subst(t, x, r)` are among the variables of `t` other
/// than `x`, together with the variables of `r`.
pub proof fn lemma_subst_vars(t: SpecTerm, x: Seq<char>, r: SpecTerm)
    ensures
        term_vars(subst(t, x, r)).subset_of(term_vars(t).remove(x).union(term_vars(r))),
    decreases t,
{
    match t {
        SpecTerm::Var(s) => {},
        SpecTerm::Func(f, args) => {
            lemma_subst_args(args, x, r, 0);
            let sargs = subst_args(args, x, r, 0);
            lemma_args_vars_contains(args, 0, x);
            assert forall|y: Seq<char>| term_vars(subst(t, x, r)).contains(y) implies term_vars(
                t,
            ).remove(x).union(term_vars(r)).contains(y) by {
                lemma_args_vars_contains(sargs, 0, y);
                let j = choose|j: int| 0 <= j < sargs.len() && occurs(#[trigger] sargs[j], y);
                lemma_subst_vars(args[j], x, r);
                lemma_args_vars_contains(args, 0, y);
                assert(term_vars(args[j]).remove(x).union(term_vars(r)).contains(y));
            }
        },
    }
}

/// The canonical text of a term: a variable is its name, a compound with no
/// arguments its bare symbol, and any other compound is
/// `symbol(arg1,arg2,...)` with the arguments rendered recursively and
/// joined by commas.
pub open spec fn render(t: SpecTerm) -> Seq<char>
    decreases t, 0int,
{
    match t {
        SpecTerm::Var(s) => s,
        SpecTerm::Func(s, args) => if args.len() == 0 {
            s
        } else {
            s + seq!['('] + render_prefix(args, args.len() as int) + seq![')']
        },
    }
}

/// The renderings of the first `i` arguments, comma-separated.
pub open spec fn render_prefix(args: Seq<SpecTerm>, i: int) -> Seq<char>
    decreases args, i,
{
    if i <= 0 || i > args.len() {
        Seq::empty()
    } else if i == 1 {
        render(args[0])
    } else {
        render_prefix(args, i - 1) + seq![','] + render(args[i - 1])
    }
}

/// A binding: the variable named by the first component is replaced by the
/// second component.
pub type VarTerm = (String, Term);

impl Clone for Term {
    /// A structural copy with the same model as the original.
    #[verifier::loop_isolation(false)]
    fn clone(&self) -> (res: Self)
        ensures
            res@ == self@,
        decreases self,
    {
        match self {
            Term::Var(s) => Term::Var(s.clone()),
            Term::Func(s, args) => {
                let mut copied: Vec<Term> = Vec::new();
                let mut i: usize = 0;
                while i < args.len()
                    invariant
                        i <= args.len(),
                        copied@.len() == i,
                        forall|j: int| 0 <= j < i ==> #[trigger] copied@[j]@ == args@[j]@,
                    decreases args.len() - i,
                {
                    copied.push(args[i].clone());
                    i = i + 1;
                }
                proof {
                    lemma_args_model(args@, 0);
                    lemma_args_model(copied@, 0);
                    assert(args_model(copied@, 0) =~= args_model(args@, 0));
                }
                Term::Func(s.clone(), copied)
            },
        }
    }
}

impl Term {
    /// The canonical text of this term; see [`render`].
    #[verifier::loop_isolation(false)]
    pub fn to_string(&self) -> (r: String)
        ensures
            r@ == render(self@),
        decreases self,
    {
        match self {
            Term::Var(s) => s.clone(),
            Term::Func(s, args) => {
                if args.len() == 0 {
                    s.clone()
                } else {
                    proof {
                        reveal_strlit("(");
                        reveal_strlit(")");
                        reveal_strlit(",");
                        lemma_args_model(args@, 0);
                        assert("("@ =~= seq!['(']);
                        assert(")"@ =~= seq![')']);
                        assert(","@ =~= seq![',']);
                    }
                    let ghost m: Seq<SpecTerm> = args_model(args@, 0);
                    let mut r = s.clone();
                    r.append("(");
                    proof {
                        assert(render_prefix(m, 0) == Seq::<char>::empty());
                        assert(r@ =~= s@ + seq!['('] + render_prefix(m, 0));
                    }
                    let mut i: usize = 0;
                    while i < args.len()
                        invariant
                            i <= args.len(),
                            r@ == s@ + seq!['('] + render_prefix(m, i as int),
                        decreases args.len() - i,
                    {
                        if i > 0 {
                            r.append(",");
                        }
                        let piece = args[i].to_string();
                        r.append(piece.as_str());
                        proof {
                            if i == 0 {
                                assert(render_prefix(m, 1) == render(m[0]));
                                assert(r@ =~= s@ + seq!['('] + render_prefix(m, 1));
                            } else {
                                assert(render_prefix(m, i as int + 1) == render_prefix(m, i as int)
                                    + seq![','] + render(m[i as int]));
                                assert(r@ =~= s@ + seq!['('] + render_prefix(m, i as int + 1));
                            }
                        }
                        i = i + 1;
                    }
                    r.append(")");
                    proof {
                        assert(r@ =~= s@ + seq!['('] + render_prefix(m, m.len() as int) + seq![
                            ')',
                        ]);
                    }
                    r
                }
            },
        }
    }

    /// Depth-first search with early exit: does a variable named `x` stand
    /// anywhere inside `self`?
    #[verifier::loop_isolation(false)]
    pub fn appear(&self, x: &String) -> (r: bool)
        ensures
            r == occurs(self@, x@),
        decreases self,
    {
        match self {
            Term::Var(s) => *s == *x,
            Term::Func(s, args) => {
                let mut i: usize = 0;
                while i < args.len()
                    invariant
                        i <= args.len(),
                        forall|j: int| 0 <= j < i ==> !occurs(#[trigger] args@[j]@, x@),
                    decreases args.len() - i,
                {
                    if args[i].appear(x) {
                        proof {
                            lemma_args_model(args@, 0);
                            lemma_args_vars_contains(args_model(args@, 0), 0, x@);
                            assert(occurs(args_model(args@, 0)[i as int], x@));
                        }
                        return true;
                    }
                    i = i + 1;
                }
                proof {
                    lemma_args_model(args@, 0);
                    lemma_args_vars_contains(args_model(args@, 0), 0, x@);
                }
                false
            },
        }
    }

    /// Apply the binding `u` to `self`: every variable named `u.0` becomes a
    /// copy of `u.1`, every other node is copied unchanged.
    #[verifier::loop_isolation(false)]
    pub fn unify(&self, u: &VarTerm) -> (r: Self)
        ensures
            r@ == subst(self@, u.0@, u.1@),
        decreases self,
    {
        match self {
            Term::Var(s) => if *s == u.0 {
                u.1.clone()
            } else {
                self.clone()
            },
            Term::Func(s, args) => {
                let mut mapped: Vec<Term> = Vec::new();
                let mut i: usize = 0;
                while i < args.len()
                    invariant
                        i <= args.len(),
                        mapped@.len() == i,
                        forall|j: int|
                            0 <= j < i ==> #[trigger] mapped@[j]@ == subst(args@[j]@, u.0@, u.1@),
                    decreases args.len() - i,
                {
                    mapped.push(args[i].unify(u));
                    i = i + 1;
                }
                proof {
                    lemma_args_model(args@, 0);
                    lemma_args_model(mapped@, 0);
                    lemma_subst_args(args_model(args@, 0), u.0@, u.1@, 0);
                    assert(args_model(mapped@, 0) =~= subst_args(
                        args_model(args@, 0),
                        u.0@,
                        u.1@,
                        0,
                    ));
                }
                Term::Func(s.clone(), mapped)
            },
        }
    }
}

} // verus!
