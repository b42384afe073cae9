//! Command-line arguments.
use crate::text::texts;
use vstd::prelude::*;

verus! {

/// The position of the first argument equal to `flag`, or the number of
/// arguments.
pub open spec fn flag_position(args: Seq<Seq<char>>, flag: Seq<char>) -> nat
    decreases args.len(),
{
    if args.len() == 0 || args[0] == flag {
        0
    } else {
        1 + flag_position(args.skip(1), flag)
    }
}

/// The argument after the first occurrence of `flag`, if there is one.
pub open spec fn flag_value(args: Seq<Seq<char>>, flag: Seq<char>) -> Option<Seq<char>> {
    let i = flag_position(args, flag);
    if i + 1 < args.len() {
        Some(args[i as int + 1])
    } else {
        None
    }
}

proof fn lemma_flag_position(args: Seq<Seq<char>>, flag: Seq<char>, n: nat)
    requires
        n <= args.len(),
        forall|j: int| 0 <= j < n ==> #[trigger] args[j] != flag,
    ensures
        flag_position(args, flag) == n + flag_position(args.skip(n as int), flag),
    decreases n,
{
    if n > 0 {
        let rest = args.skip(1);
        assert forall|j: int| 0 <= j < n - 1 implies #[trigger] rest[j] != flag by {
            assert(rest[j] == args[j + 1]);
        }
        assert(args[0] != flag);
        lemma_flag_position(rest, flag, (n - 1) as nat);
        assert(rest.skip(n - 1) =~= args.skip(n as int));
    } else {
        assert(args.skip(0) =~= args);
    }
}

/// The value of a flag is the argument behind its first occurrence: it is
/// there exactly if the flag occurs before the last argument.
pub proof fn law_flag_value(args: Seq<Seq<char>>, flag: Seq<char>, value: Seq<char>)
    ensures
        flag_value(args, flag) == Some(value) <==> exists|i: int|
            0 <= i && i + 1 < args.len() && #[trigger] args[i] == flag && args[i + 1] == value
                && !args.take(i).contains(flag),
{
    let n = flag_position(args, flag);
    lemma_flag_position_is_first(args, flag);
    if flag_value(args, flag) == Some(value) {
        assert(args[n as int] == flag);
    }
    if exists|i: int|
        0 <= i && i + 1 < args.len() && #[trigger] args[i] == flag && args[i + 1] == value
            && !args.take(i).contains(flag) {
        let i = choose|i: int|
            0 <= i && i + 1 < args.len() && #[trigger] args[i] == flag && args[i + 1] == value
                && !args.take(i).contains(flag);
        if n < i {
            assert(args.take(i)[n as int] == flag);
        } else if i < n {
            assert(args.take(n as int)[i] == flag);
        }
    }
}

proof fn lemma_flag_position_is_first(args: Seq<Seq<char>>, flag: Seq<char>)
    ensures
        flag_position(args, flag) <= args.len(),
        flag_position(args, flag) < args.len() ==> args[flag_position(args, flag) as int] == flag,
        !args.take(flag_position(args, flag) as int).contains(flag),
    decreases args.len(),
{
    let n = flag_position(args, flag) as int;
    if args.len() > 0 && args[0] != flag {
        let rest = args.skip(1);
        lemma_flag_position_is_first(rest, flag);
        if args.take(n).contains(flag) {
            let i = args.take(n).index_of(flag);
            assert(rest.take(n - 1)[i - 1] == flag);
        }
    }
}

/// The argument after the first occurrence of `flag`, if there is one.
pub fn find_flag<'a>(args: &'a [String], flag: &str) -> (value: Option<&'a str>)
    ensures
        value is Some <==> flag_value(texts(args@), flag@) is Some,
        value matches Some(v) ==> flag_value(texts(args@), flag@) == Some(v@),
{
    let wanted: String = flag.to_owned();
    let ghost list = texts(args@);
    let mut i: usize = 0;
    while i < args.len() && i + 1 < args.len()
        invariant
            i <= args@.len(),
            list == texts(args@),
            wanted@ == flag@,
            forall|j: int| 0 <= j < i ==> #[trigger] list[j] != flag@,
        decreases args@.len() - i,
    {
        assert(list[i as int] == args@[i as int]@);
        if args[i] == wanted {
            proof {
                lemma_flag_position(list, flag@, i as nat);
                assert(list[i + 1] == args@[i + 1]@);
            }
            return Some(args[i + 1].as_str());
        }
        i += 1;
    }
    proof {
        lemma_flag_position(list, flag@, i as nat);
    }
    None
}

/// Whether `flag` is among the arguments.
pub fn has_flag(args: &[String], flag: &str) -> (r: bool)
    ensures
        r == texts(args@).contains(flag@),
{
    let wanted: String = flag.to_owned();
    let ghost list = texts(args@);
    let mut i: usize = 0;
    while i < args.len()
        invariant
            i <= args@.len(),
            list == texts(args@),
            wanted@ == flag@,
            forall|j: int| 0 <= j < i ==> #[trigger] list[j] != flag@,
        decreases args@.len() - i,
    {
        assert(list[i as int] == args@[i as int]@);
        if args[i] == wanted {
            return true;
        }
        i += 1;
    }
    false
}

} // verus!
