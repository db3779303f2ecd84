//! The line that is logged when guest code calls a native function: the
//! function's name and, for each argument, its name and a place for its value
//! in hexadecimal.

use vstd::prelude::*;
use vstd::string::StringExecFns;

verus! {

/// What is logged for one argument: its name, a colon and the place for its
/// value.
pub open spec fn arg_format(arg: Seq<char>) -> Seq<char> {
    arg + seq![':', '{', ':', 'x', '?', '}']
}

/// What is logged for the first `k` arguments, separated by a comma and a
/// space.
pub open spec fn args_format(args: Seq<String>, k: int) -> Seq<char>
    decreases k,
{
    if k <= 0 {
        Seq::empty()
    } else if k == 1 {
        arg_format(args[0]@)
    } else {
        args_format(args, k - 1) + seq![',', ' '] + arg_format(args[k - 1]@)
    }
}

/// The format of the line for the function `name` with the arguments `args`.
pub open spec fn trace_format(name: Seq<char>, args: Seq<String>) -> Seq<char> {
    name + seq!['('] + args_format(args, args.len() as int) + seq![')']
}

/// Builds the format of the line that is logged for a call of `name`.
pub fn format_for(name: &String, args: &Vec<String>) -> (fmt: String)
    ensures
        fmt@ == trace_format(name@, args@),
{
    proof {
        reveal_strlit("(");
        reveal_strlit(")");
        reveal_strlit(", ");
        reveal_strlit(":{:x?}");
    }
    let mut fmt = name.clone();
    fmt.append("(");
    assert(fmt@ =~= name@ + seq!['(']);
    let mut k: usize = 0;
    while k < args.len()
        invariant
            0 <= k <= args@.len(),
            fmt@ == name@ + seq!['('] + args_format(args@, k as int),
            ", "@ == seq![',', ' '],
            ":{:x?}"@ == seq![':', '{', ':', 'x', '?', '}'],
        decreases args@.len() - k,
    {
        let ghost before = fmt@;
        if k > 0 {
            fmt.append(", ");
        }
        fmt.append(args[k].as_str());
        fmt.append(":{:x?}");
        k = k + 1;
        assert(fmt@ =~= name@ + seq!['('] + args_format(args@, k as int));
    }
    fmt.append(")");
    fmt
}

} // verus!
