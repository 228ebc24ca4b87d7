//! Where the daemon's binary is looked for.
use crate::text::str_eq;
use vstd::prelude::*;

verus! {

/// The name of the daemon's binary.
pub fn daemon_binary_name(windows: bool) -> (r: &'static str)
    ensures
        r@ == (if windows {
            "cadenza-daemon.exe"@
        } else {
            "cadenza-daemon"@
        }),
{
    if windows {
        "cadenza-daemon.exe"
    } else {
        "cadenza-daemon"
    }
}

/// Whether a directory is one that builds are put in.
pub open spec fn is_build_dir(name: Option<String>) -> bool {
    name matches Some(n) && (n@ == "debug"@ || n@ == "release"@)
}

/// The positions of the build directories among the first `n` names.
pub open spec fn build_dirs(names: Seq<Option<String>>, n: nat) -> Seq<usize>
    decreases n,
{
    if n == 0 {
        Seq::empty()
    } else {
        let rest = build_dirs(names, (n - 1) as nat);
        if is_build_dir(names[n - 1]) {
            rest.push((n - 1) as usize)
        } else {
            rest
        }
    }
}

/// The order in which directories are searched: the executable's own, then every
/// build directory from there upwards.
pub open spec fn search_order(names: Seq<Option<String>>) -> Seq<usize> {
    if names.len() == 0 {
        Seq::empty()
    } else {
        seq![0usize] + build_dirs(names, names.len())
    }
}

/// The order in which to look for the daemon, as positions in `names`: the name of
/// the executable's directory and of each one above it. One without a name that is
/// text has `None`.
pub fn daemon_search_order(names: &Vec<Option<String>>) -> (r: Vec<usize>)
    ensures
        r@ == search_order(names@),
{
    let mut out: Vec<usize> = Vec::new();
    if names.len() == 0 {
        return out;
    }
    out.push(0);
    assert(out@ == seq![0usize] + build_dirs(names@, 0));
    for i in 0..names.len()
        invariant
            out@ == seq![0usize] + build_dirs(names@, i as nat),
    {
        let here = match &names[i] {
            Some(n) => str_eq(n.as_str(), "debug") || str_eq(n.as_str(), "release"),
            None => false,
        };
        let ghost before = out@;
        if here {
            out.push(i);
            assert(out@ == seq![0usize] + build_dirs(names@, i as nat).push(i));
        }
    }
    out
}

/// A place to look in: the first one that holds the binary is taken, and one that was
/// named by the user comes before all others.
pub open spec fn first_held(held: Seq<bool>) -> Option<int>
    decreases held.len(),
{
    if held.len() == 0 {
        None
    } else if held[0] {
        Some(0)
    } else {
        match first_held(held.drop_first()) {
            Some(i) => Some(i + 1),
            None => None,
        }
    }
}

proof fn lemma_first_held(held: Seq<bool>, n: int)
    requires
        0 <= n <= held.len(),
        forall|i: int| 0 <= i < n ==> !(#[trigger] held[i]),
        n < held.len() ==> held[n],
    ensures
        first_held(held) == (if n < held.len() {
            Some(n)
        } else {
            None
        }),
    decreases held.len(),
{
    if held.len() > 0 && !held[0] {
        let rest = held.drop_first();
        assert forall|i: int| 0 <= i < n - 1 implies !(#[trigger] rest[i]) by {
            assert(rest[i] == held[i + 1]);
        }
        lemma_first_held(rest, n - 1);
    }
}

/// The place from which to run the daemon: the first of them that holds it.
pub fn first_place(held: &Vec<bool>) -> (r: Option<usize>)
    ensures
        r matches Some(i) ==> first_held(held@) == Some(i as int),
        r is None ==> first_held(held@) is None,
{
    let mut n: usize = 0;
    while n < held.len() && !held[n]
        invariant
            n <= held@.len(),
            forall|i: int| 0 <= i < n ==> !(#[trigger] held@[i]),
        decreases held@.len() - n,
    {
        n = n + 1;
    }
    proof {
        lemma_first_held(held@, n as int);
    }
    if n < held.len() {
        Some(n)
    } else {
        None
    }
}

/// The daemon is run from the first place that holds it.
pub proof fn first_place_that_holds_it(held: Seq<bool>, n: int)
    requires
        0 <= n <= held.len(),
        forall|i: int| 0 <= i < n ==> !(#[trigger] held[i]),
        n < held.len() ==> held[n],
    ensures
        first_held(held) == (if n < held.len() {
            Some(n)
        } else {
            None
        }),
{
    lemma_first_held(held, n);
}

/// The search begins beside the executable and goes on upwards through the directories
/// that builds are put in, `debug` and `release`, all of them and no others.
pub proof fn search_goes_upwards_through_builds(names: Seq<Option<String>>, i: int)
    requires
        0 < names.len() <= usize::MAX,
        0 <= i < names.len(),
    ensures
        search_order(names)[0] == 0,
        names[i] matches Some(n) ==> (n@ == "debug"@ || n@ == "release"@) ==> search_order(
            names,
        ).skip(1).contains(i as usize),
        !(names[i] matches Some(n) && (n@ == "debug"@ || n@ == "release"@)) ==> !search_order(
            names,
        ).skip(1).contains(i as usize),
        forall|j: int, k: int|
            1 <= j < k < search_order(names).len() ==> (#[trigger] search_order(names)[j]) < (
            #[trigger] search_order(names)[k]),
        search_order(Seq::empty()).len() == 0,
{
    let b = build_dirs(names, names.len());
    let s = search_order(names);
    assert(s.skip(1) == b);
    lemma_build_dirs(names, names.len(), i);
    assert forall|j: int, k: int| 1 <= j < k < s.len() implies (#[trigger] s[j]) < (
    #[trigger] s[k]) by {
        assert(s[j] == b[j - 1] && s[k] == b[k - 1]);
    }
}

proof fn lemma_build_dirs(names: Seq<Option<String>>, n: nat, i: int)
    requires
        n <= names.len() <= usize::MAX,
        0 <= i < names.len(),
    ensures
        build_dirs(names, n).contains(i as usize) <==> i < n && is_build_dir(names[i]),
        forall|j: int| 0 <= j < build_dirs(names, n).len() ==> (#[trigger] build_dirs(names, n)[j]) < n,
        forall|j: int, k: int|
            0 <= j < k < build_dirs(names, n).len() ==> (#[trigger] build_dirs(names, n)[j]) < (
            #[trigger] build_dirs(names, n)[k]),
    decreases n,
{
    if n > 0 {
        let rest = build_dirs(names, (n - 1) as nat);
        lemma_build_dirs(names, (n - 1) as nat, i);
        let b = build_dirs(names, n);
        if is_build_dir(names[n - 1]) {
            assert(b == rest.push((n - 1) as usize));
            assert(b[rest.len() as int] == n - 1);
            if rest.contains(i as usize) {
                let j = choose|j: int| 0 <= j < rest.len() && rest[j] == i as usize;
                assert(b[j] == i as usize);
            }
            if b.contains(i as usize) && i != n - 1 {
                let j = choose|j: int| 0 <= j < b.len() && b[j] == i as usize;
                assert(rest[j] == i as usize);
            }
        }
    }
}

} // verus!
