//! Which argument of a call supplies each parameter of a user-defined module
//! or function.
//!
//! A parameter takes the last argument passed under its name; failing that,
//! the next positional argument not yet taken; failing that, its default
//! value when it has one. Named arguments that match no parameter are
//! ignored, and so are positional arguments left over.
use vstd::prelude::*;
use crate::ast::{args_view, params_view, Arg, ArgV, Param, ParamV};

verus! {

/// What supplies the value of one parameter.
#[derive(Clone, Copy, Debug, PartialEq, Eq, Structural)]
pub enum Binding {
    /// The argument at this index of the call's argument list.
    Arg(usize),
    /// The parameter's own default expression.
    Default,
    /// Nothing: the parameter stays unbound.
    Unbound,
}

/// The index of the last of `args[0..k]` passed under the name `name`.
pub open spec fn last_named(args: Seq<ArgV>, name: Seq<char>, k: nat) -> Option<nat>
    decreases k,
{
    if k == 0 {
        None
    } else if args[k - 1] matches ArgV::Named(n, _) && n == name {
        Some((k - 1) as nat)
    } else {
        last_named(args, name, (k - 1) as nat)
    }
}

/// The indices of the positional arguments among `args[0..k]`, in order.
pub open spec fn positional(args: Seq<ArgV>, k: nat) -> Seq<nat>
    decreases k,
{
    if k == 0 {
        Seq::empty()
    } else if args[k - 1] is Positional {
        positional(args, (k - 1) as nat).push((k - 1) as nat)
    } else {
        positional(args, (k - 1) as nat)
    }
}

/// The binding of `params[i..]`, when `used` positional arguments are
/// already taken.
pub open spec fn bind_from(params: Seq<ParamV>, args: Seq<ArgV>, i: nat, used: nat) -> Seq<Binding>
    decreases params.len() - i,
{
    if i >= params.len() {
        Seq::empty()
    } else {
        let pos = positional(args, args.len());
        match last_named(args, params[i as int].name, args.len()) {
            Some(j) => seq![Binding::Arg(j as usize)] + bind_from(params, args, i + 1, used),
            None => if used < pos.len() {
                seq![Binding::Arg(pos[used as int] as usize)] + bind_from(
                    params,
                    args,
                    i + 1,
                    used + 1,
                )
            } else if params[i as int].default is Some {
                seq![Binding::Default] + bind_from(params, args, i + 1, used)
            } else {
                seq![Binding::Unbound] + bind_from(params, args, i + 1, used)
            },
        }
    }
}

/// The binding of all the parameters.
pub open spec fn bind_spec(params: Seq<ParamV>, args: Seq<ArgV>) -> Seq<Binding> {
    bind_from(params, args, 0, 0)
}

/// The index of the last argument passed under the name `name`, if any.
pub fn find_named(args: &Vec<Arg>, name: &String) -> (r: Option<usize>)
    ensures
        match last_named(args_view(args@), name@, args@.len()) {
            Some(j) => r == Some(j as usize),
            None => r is None,
        },
{
    let ghost av = args_view(args@);
    let mut k = args.len();
    while k > 0
        invariant
            k <= args@.len(),
            av == args_view(args@),
            last_named(av, name@, args@.len()) == last_named(av, name@, k as nat),
        decreases k,
    {
        assert(av[k - 1] == args@[k - 1].view_arg());
        if let Arg::Named(n, _) = &args[k - 1] {
            if (*n).eq(name) {
                return Some(k - 1);
            }
        }
        k = k - 1;
    }
    None
}

/// The indices of the positional arguments, in order.
pub fn positional_indices(args: &Vec<Arg>) -> (r: Vec<usize>)
    ensures
        r@.len() == positional(args_view(args@), args@.len()).len(),
        forall|i: int|
            0 <= i < r@.len() ==> r@[i] as nat == #[trigger] positional(
                args_view(args@),
                args@.len(),
            )[i],
{
    let ghost av = args_view(args@);
    let mut r: Vec<usize> = Vec::new();
    let mut k: usize = 0;
    while k < args.len()
        invariant
            k <= args@.len(),
            av == args_view(args@),
            r@.len() == positional(av, k as nat).len(),
            forall|i: int| 0 <= i < r@.len() ==> r@[i] as nat == #[trigger] positional(av, k as nat)[i],
        decreases args@.len() - k,
    {
        assert(av[k as int] == args@[k as int].view_arg());
        if let Arg::Positional(_) = &args[k] {
            r.push(k);
        }
        k = k + 1;
        assert(positional(av, k as nat) == if av[k - 1] is Positional {
            positional(av, (k - 1) as nat).push((k - 1) as nat)
        } else {
            positional(av, (k - 1) as nat)
        });
    }
    r
}

/// Binds each parameter to what supplies its value: the last argument of
/// its name, else the next positional argument, else its default.
pub fn bind_params(params: &Vec<Param>, args: &Vec<Arg>) -> (b: Vec<Binding>)
    ensures
        b@ == bind_spec(params_view(params@), args_view(args@)),
{
    let ghost pv = params_view(params@);
    let ghost av = args_view(args@);
    let pos = positional_indices(args);
    let mut out: Vec<Binding> = Vec::new();
    let mut used: usize = 0;
    let mut i: usize = 0;
    while i < params.len()
        invariant
            i <= params@.len(),
            used <= pos@.len(),
            pv == params_view(params@),
            av == args_view(args@),
            pos@.len() == positional(av, av.len()).len(),
            forall|k: int| 0 <= k < pos@.len() ==> pos@[k] as nat == #[trigger] positional(av, av.len())[k],
            out@ + bind_from(pv, av, i as nat, used as nat) == bind_spec(pv, av),
        decreases params@.len() - i,
    {
        let ghost before = out@;
        let ghost used0 = used as nat;
        let p = &params[i];
        let next = match find_named(args, &p.name) {
            Some(j) => Binding::Arg(j),
            None => if used < pos.len() {
                let j = pos[used];
                used = used + 1;
                Binding::Arg(j)
            } else if p.default.is_some() {
                Binding::Default
            } else {
                Binding::Unbound
            },
        };
        assert(pv[i as int] == p.view_param());
        let ghost rest = bind_from(pv, av, (i + 1) as nat, used as nat);
        assert(bind_from(pv, av, i as nat, used0) == seq![next] + rest);
        out.push(next);
        i = i + 1;
        assert(out@ + rest =~= before + (seq![next] + rest));
    }
    out
}

/// Argument `j` exists and may supply the parameter `p`: it is positional,
/// or passed under `p`'s name.
pub open spec fn arg_fits(p: ParamV, args: Seq<ArgV>, j: int) -> bool {
    &&& 0 <= j < args.len()
    &&& args[j] is Named ==> args[j]->Named_0 == p.name
}

/// `b` binds to a positional argument of the call.
pub open spec fn takes_positional(args: Seq<ArgV>, b: Binding) -> bool {
    &&& b is Arg
    &&& (b->Arg_0 as int) < args.len()
    &&& args[b->Arg_0 as int] is Positional
}

/// The positional arguments are found at positional indices, in increasing
/// order.
proof fn lemma_positional(args: Seq<ArgV>, k: nat)
    requires
        k <= args.len(),
    ensures
        forall|i: int|
            0 <= i < positional(args, k).len() ==> #[trigger] positional(args, k)[i] < k
                && args[positional(args, k)[i] as int] is Positional,
        forall|i: int, j: int|
            0 <= i < j < positional(args, k).len() ==> #[trigger] positional(args, k)[i]
                < #[trigger] positional(args, k)[j],
    decreases k,
{
    if k > 0 {
        lemma_positional(args, (k - 1) as nat);
    }
}

/// The last argument of a name is one passed under that name.
proof fn lemma_last_named(args: Seq<ArgV>, name: Seq<char>, k: nat)
    requires
        k <= args.len(),
    ensures
        last_named(args, name, k) is Some ==> {
            let j = last_named(args, name, k)->Some_0;
            j < k && args[j as int] is Named && args[j as int]->Named_0 == name
        },
    decreases k,
{
    if k > 0 {
        lemma_last_named(args, name, (k - 1) as nat);
    }
}

/// Every parameter gets one binding; a parameter bound to an argument is
/// bound to one that the call passes, positionally or under the
/// parameter's own name; and positional arguments are taken in the order
/// they are passed, none twice.
pub proof fn lemma_bind_sound(params: Seq<ParamV>, args: Seq<ArgV>)
    requires
        args.len() <= usize::MAX,
    ensures
        bind_spec(params, args).len() == params.len(),
        forall|i: int|
            0 <= i < params.len() && (#[trigger] bind_spec(params, args)[i]) is Arg ==> arg_fits(
                params[i],
                args,
                bind_spec(params, args)[i]->Arg_0 as int,
            ),
        forall|i: int, k: int|
            0 <= i < k < params.len() && takes_positional(args, #[trigger] bind_spec(params, args)[i])
                && takes_positional(args, #[trigger] bind_spec(params, args)[k]) ==> bind_spec(
                params,
                args,
            )[i]->Arg_0 < bind_spec(params, args)[k]->Arg_0,
{
    lemma_bind_from(params, args, 0, 0);
    assert forall|i: int| 0 <= i < params.len() && (#[trigger] bind_spec(params, args)[i]) is Arg implies arg_fits(
        params[i],
        args,
        bind_spec(params, args)[i]->Arg_0 as int,
    ) by {
        assert(0 + i == i);
    }
}

/// What `lemma_bind_sound` states, for the parameters from `i` on when
/// `used` positional arguments are already taken; the positional arguments
/// bound are then among those from `used` on.
proof fn lemma_bind_from(params: Seq<ParamV>, args: Seq<ArgV>, i: nat, used: nat)
    requires
        args.len() <= usize::MAX,
    ensures
        bind_from(params, args, i, used).len() == if i <= params.len() {
            params.len() - i
        } else {
            0
        },
        forall|k: int|
            0 <= k < bind_from(params, args, i, used).len() && (#[trigger] bind_from(
                params,
                args,
                i,
                used,
            )[k]) is Arg ==> arg_fits(params[i + k], args, bind_from(params, args, i, used)[k]->Arg_0 as int),
        forall|k: int|
            0 <= k < bind_from(params, args, i, used).len() && takes_positional(
                args,
                #[trigger] bind_from(params, args, i, used)[k],
            ) ==> exists|u: int|
                used <= u < positional(args, args.len()).len() && #[trigger] positional(
                    args,
                    args.len(),
                )[u] == bind_from(params, args, i, used)[k]->Arg_0 as nat,
        forall|x: int, y: int|
            0 <= x < y < bind_from(params, args, i, used).len() && takes_positional(
                args,
                #[trigger] bind_from(params, args, i, used)[x],
            ) && takes_positional(args, #[trigger] bind_from(params, args, i, used)[y])
                ==> bind_from(params, args, i, used)[x]->Arg_0 < bind_from(params, args, i, used)[y]->Arg_0,
    decreases params.len() - i,
{
    let pos = positional(args, args.len());
    lemma_positional(args, args.len());
    if i < params.len() {
        let name = params[i as int].name;
        lemma_last_named(args, name, args.len());
        let named = last_named(args, name, args.len());
        let rest_used = if named is Some {
            used
        } else if used < pos.len() {
            used + 1
        } else {
            used
        };
        lemma_bind_from(params, args, i + 1, rest_used);
        let b = bind_from(params, args, i, used);
        let r = bind_from(params, args, i + 1, rest_used);
        assert(b =~= seq![b[0]] + r);
        assert forall|k: int| 0 < k < b.len() implies #[trigger] b[k] == r[k - 1] by {}
        if named is None && used < pos.len() {
            assert(b[0] == Binding::Arg(pos[used as int] as usize));
        }
        assert forall|k: int| 0 <= k < b.len() && (#[trigger] b[k]) is Arg implies arg_fits(
            params[i + k],
            args,
            b[k]->Arg_0 as int,
        ) by {
            if k > 0 {
                assert(r[k - 1] == b[k]);
                assert((i + 1) + (k - 1) == i + k);
            }
        }
        assert forall|k: int| 0 <= k < b.len() && takes_positional(args, #[trigger] b[k]) implies exists|u: int|
            used <= u < pos.len() && #[trigger] pos[u] == b[k]->Arg_0 as nat by {
            if k > 0 {
                assert(r[k - 1] == b[k]);
                let u = choose|u: int| rest_used <= u < pos.len() && #[trigger] pos[u] == r[k - 1]->Arg_0 as nat;
                assert(pos[u] == b[k]->Arg_0 as nat);
            } else {
                assert(pos[used as int] == b[0]->Arg_0 as nat);
            }
        }
        assert forall|x: int, y: int|
            0 <= x < y < b.len() && takes_positional(args, #[trigger] b[x]) && takes_positional(args, #[trigger] b[y])
                implies b[x]->Arg_0 < b[y]->Arg_0 by {
            assert(r[y - 1] == b[y]);
            if x > 0 {
                assert(r[x - 1] == b[x]);
            } else {
                let u = choose|u: int| rest_used <= u < pos.len() && #[trigger] pos[u] == r[y - 1]->Arg_0 as nat;
                assert(pos[used as int] < pos[u]);
            }
        }
    }
}

} // verus!
