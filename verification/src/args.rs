//! Parsing of `key=value` argument strings into a string map.

use vstd::prelude::*;

use crate::assoc::{key_index, lemma_assoc_contains, lemma_key_index};
use crate::error::{ConfigError, ErrorModel};
use crate::maps::StringMap;

verus! {

/// Whether `i` is the place `s` splits: the one `=`, with nonempty text on
/// both sides.
pub open spec fn arg_split_at(s: Seq<char>, i: int) -> bool {
    &&& 1 <= i <= s.len() - 2
    &&& s[i] == '='
    &&& forall|j: int| 0 <= j < s.len() && j != i ==> s[j] != '='
}

/// A well-formed argument: exactly one `=`, and a nonempty key and value
/// around it.
pub open spec fn arg_ok(s: Seq<char>) -> bool {
    exists|i: int| arg_split_at(s, i)
}

pub open spec fn arg_split_pos(s: Seq<char>) -> int {
    choose|i: int| arg_split_at(s, i)
}

pub open spec fn arg_key(s: Seq<char>) -> Seq<char> {
    s.take(arg_split_pos(s))
}

pub open spec fn arg_val(s: Seq<char>) -> Seq<char> {
    s.skip(arg_split_pos(s) + 1)
}

/// The views of a sequence of strings.
pub open spec fn arg_views(a: Seq<String>) -> Seq<Seq<char>> {
    a.map_values(|s: String| s@)
}

/// Whether the argument at `i` is accepted: it splits, and unless
/// duplicates are allowed no earlier argument used its key.
pub open spec fn args_entry_ok(av: Seq<Seq<char>>, i: int, allow_duplicates: bool) -> bool {
    &&& arg_ok(av[i])
    &&& (allow_duplicates || forall|j: int| 0 <= j < i ==> arg_key(#[trigger] av[j]) != arg_key(
        av[i],
    ))
}

/// The key the error for argument `i` names: the whole argument when it
/// does not split, its key part when it is a duplicate.
pub open spec fn args_entry_err_key(av: Seq<Seq<char>>, i: int) -> Seq<char> {
    if !arg_ok(av[i]) {
        av[i]
    } else {
        arg_key(av[i])
    }
}

pub open spec fn args_entry_why(av: Seq<Seq<char>>, i: int) -> Seq<char> {
    if !arg_ok(av[i]) {
        "is a badly formed argument"@
    } else {
        "duplicate parameter"@
    }
}

/// The error reports the first argument that is rejected.
pub open spec fn is_first_arg_err(
    av: Seq<Seq<char>>,
    allow_duplicates: bool,
    e: ErrorModel,
) -> bool {
    exists|i: int|
        {
            &&& 0 <= i < av.len()
            &&& !args_entry_ok(av, i, allow_duplicates)
            &&& (forall|j: int| 0 <= j < i ==> args_entry_ok(av, j, allow_duplicates))
            &&& e.key == args_entry_err_key(av, i)
            &&& e.why == args_entry_why(av, i)
        }
}

/// The string map the arguments build, argument by argument; a later
/// occurrence of a key overwrites the earlier one in place.
pub open spec fn args_fold(av: Seq<Seq<char>>) -> Seq<(Seq<char>, Seq<char>)>
    decreases av.len(),
{
    if av.len() == 0 {
        Seq::empty()
    } else {
        let prev = args_fold(av.drop_last());
        let k = arg_key(av.last());
        let v = arg_val(av.last());
        if key_index(prev, k) >= 0 {
            prev.update(key_index(prev, k), (k, v))
        } else {
            prev.push((k, v))
        }
    }
}

/// Splits an argument at its `=`, exactly as [`arg_ok`] and friends
/// describe.
fn split_arg(s: &str) -> (r: Option<(String, String)>)
    ensures
        (r is Some) == arg_ok(s@),
        r matches Some(kv) ==> kv.0@ == arg_key(s@) && kv.1@ == arg_val(s@),
{
    let len = s.unicode_len();
    let mut num_found: usize = 0;
    let mut pos1: usize = 0;
    let ghost mut pos2: int = 0;
    let mut i: usize = 0;
    while i < len
        invariant
            i <= len,
            len == s@.len(),
            num_found <= 2,
            num_found == 0 ==> forall|j: int| 0 <= j < i ==> s@[j] != '=',
            num_found == 1 ==> pos1 < i && s@[pos1 as int] == '=' && forall|j: int|
                0 <= j < i && j != pos1 ==> s@[j] != '=',
            num_found == 2 ==> 0 <= pos1 < pos2 < len && s@[pos1 as int] == '=' && s@[pos2] == '=',
        decreases len - i,
    {
        let c = s.get_char(i);
        if c == '=' {
            if num_found == 0 {
                num_found = 1;
                pos1 = i;
            } else if num_found == 1 {
                num_found = 2;
                proof {
                    pos2 = i as int;
                }
            }
        }
        i += 1;
    }
    if num_found != 1 {
        proof {
            assert(!arg_ok(s@)) by {
                if arg_ok(s@) {
                    let p = arg_split_pos(s@);
                    assert(arg_split_at(s@, p));
                    if num_found == 0 {
                        assert(s@[p] != '=');
                    } else {
                        if p != pos1 {
                            assert(s@[pos1 as int] != '=');
                        } else {
                            assert(s@[pos2] != '=');
                        }
                    }
                }
            }
        }
        return None;
    }
    if pos1 == 0 || pos1 + 1 == len {
        proof {
            assert(!arg_ok(s@)) by {
                if arg_ok(s@) {
                    let p = arg_split_pos(s@);
                    assert(arg_split_at(s@, p));
                    if p != pos1 {
                        assert(s@[pos1 as int] != '=');
                    }
                }
            }
        }
        return None;
    }
    proof {
        assert(arg_split_at(s@, pos1 as int));
        let p = arg_split_pos(s@);
        assert(arg_split_at(s@, p));
        if p != pos1 {
            assert(s@[pos1 as int] != '=');
        }
    }
    let key = s.substring_char(0, pos1).to_owned();
    let val = s.substring_char(pos1 + 1, len).to_owned();
    proof {
        assert(key@ =~= arg_key(s@));
        assert(val@ =~= arg_val(s@));
    }
    Some((key, val))
}

/// With every prefix argument accepted, the folded map has an entry for
/// `k` exactly when some argument's key is `k`.
proof fn lemma_args_fold_keys(av: Seq<Seq<char>>, k: Seq<char>)
    requires
        forall|i: int| 0 <= i < av.len() ==> arg_ok(#[trigger] av[i]),
    ensures
        crate::assoc::distinct_keys(args_fold(av)),
        (exists|i: int| 0 <= i < av.len() && arg_key(#[trigger] av[i]) == k) <==> (exists|j: int|
            0 <= j < args_fold(av).len() && (#[trigger] args_fold(av)[j]).0 == k),
    decreases av.len(),
{
    if av.len() > 0 {
        assert(forall|i: int| 0 <= i < av.drop_last().len() ==> #[trigger] av.drop_last()[i]
            == av[i]);
        lemma_args_fold_keys(av.drop_last(), k);
        let prev = args_fold(av.drop_last());
        let k0 = arg_key(av.last());
        let v0 = arg_val(av.last());
        let cur = args_fold(av);
        lemma_key_index(prev, k0);
        if key_index(prev, k0) >= 0 {
            assert(cur == prev.update(key_index(prev, k0), (k0, v0)));
            assert(cur[key_index(prev, k0)].0 == k0);
            assert(forall|j: int| 0 <= j < cur.len() ==> (#[trigger] cur[j]).0 == prev[j].0);
            assert(crate::assoc::distinct_keys(cur));
            if exists|i: int| 0 <= i < av.len() && arg_key(#[trigger] av[i]) == k {
                let i = choose|i: int| 0 <= i < av.len() && arg_key(#[trigger] av[i]) == k;
                if i < av.len() - 1 {
                    assert(arg_key(av.drop_last()[i]) == k);
                    let j = choose|j: int| 0 <= j < prev.len() && (#[trigger] prev[j]).0 == k;
                    assert(cur[j].0 == k);
                } else {
                    assert(cur[key_index(prev, k0)].0 == k);
                }
            }
            if exists|j: int| 0 <= j < cur.len() && (#[trigger] cur[j]).0 == k {
                let j = choose|j: int| 0 <= j < cur.len() && (#[trigger] cur[j]).0 == k;
                assert(prev[j].0 == k);
                let i = choose|i: int|
                    0 <= i < av.drop_last().len() && arg_key(#[trigger] av.drop_last()[i]) == k;
                assert(arg_key(av[i]) == k);
            }
        } else {
            assert(cur == prev.push((k0, v0)));
            assert(forall|j: int| 0 <= j < prev.len() ==> #[trigger] cur[j] == prev[j]);
            assert(cur[cur.len() - 1] == (k0, v0));
            assert(forall|j: int| 0 <= j < prev.len() ==> (#[trigger] prev[j]).0 != k0);
            assert(crate::assoc::distinct_keys(cur));
            if exists|i: int| 0 <= i < av.len() && arg_key(#[trigger] av[i]) == k {
                let i = choose|i: int| 0 <= i < av.len() && arg_key(#[trigger] av[i]) == k;
                if i < av.len() - 1 {
                    assert(arg_key(av.drop_last()[i]) == k);
                    let j = choose|j: int| 0 <= j < prev.len() && (#[trigger] prev[j]).0 == k;
                    assert(cur[j].0 == k);
                } else {
                    assert(cur[cur.len() - 1].0 == k);
                }
            }
            if exists|j: int| 0 <= j < cur.len() && (#[trigger] cur[j]).0 == k {
                let j = choose|j: int| 0 <= j < cur.len() && (#[trigger] cur[j]).0 == k;
                if j < cur.len() - 1 {
                    assert(prev[j].0 == k);
                    let i = choose|i: int|
                        0 <= i < av.drop_last().len() && arg_key(#[trigger] av.drop_last()[i])
                            == k;
                    assert(arg_key(av[i]) == k);
                } else {
                    assert(arg_key(av[av.len() - 1]) == k);
                }
            }
        }
    }
}

/// Turns `key=value` arguments into a string map, rejecting or absorbing
/// repeated keys as `allow_duplicates` says.
pub fn to_string_map_from_key_val_pairs_general(args: &Vec<String>, allow_duplicates: bool) -> (r:
    Result<StringMap, ConfigError>)
    ensures
        (r is Ok) == (forall|i: int|
            0 <= i < args@.len() ==> args_entry_ok(arg_views(args@), i, allow_duplicates)),
        r matches Ok(m) ==> m.wf() && m@ == args_fold(arg_views(args@)),
        r matches Err(e) ==> is_first_arg_err(arg_views(args@), allow_duplicates, e@),
{
    let ghost av = arg_views(args@);
    let mut res = StringMap::new();
    let n = args.len();
    let mut i: usize = 0;
    proof {
        assert(av.take(0) =~= Seq::<Seq<char>>::empty());
        assert(res@ =~= args_fold(av.take(0)));
    }
    while i < n
        invariant
            res.wf(),
            av == arg_views(args@),
            n == args@.len(),
            n == av.len(),
            i <= n,
            res@ == args_fold(av.take(i as int)),
            forall|j: int| 0 <= j < i ==> args_entry_ok(av, j, allow_duplicates),
        decreases n - i,
    {
        let arg = &args[i];
        proof {
            assert(av[i as int] == arg@);
            assert(forall|j: int| 0 <= j < i ==> #[trigger] av.take(i as int)[j] == av[j]);
            assert forall|j: int| 0 <= j < i implies arg_ok(#[trigger] av.take(i as int)[j]) by {
                assert(args_entry_ok(av, j, allow_duplicates));
                assert(av.take(i as int)[j] == av[j]);
            }
        }
        match split_arg(arg.as_str()) {
            None => {
                proof {
                    assert(!args_entry_ok(av, i as int, allow_duplicates));
                    assert(args_entry_err_key(av, i as int) == av[i as int]);
                    assert(args_entry_why(av, i as int) == "is a badly formed argument"@);
                }
                return Err(ConfigError::new(arg.as_str(), "is a badly formed argument"));
            },
            Some(kv) => {
                let ghost k = arg_key(av[i as int]);
                proof {
                    lemma_args_fold_keys(av.take(i as int), k);
                }
                if !allow_duplicates && res.contains_key(kv.0.as_str()) {
                    proof {
                        lemma_assoc_contains(res@, k);
                        let j = choose|j: int| 0 <= j < res@.len() && (#[trigger] res@[j]).0 == k;
                        let jj = choose|jj: int|
                            0 <= jj < av.take(i as int).len() && arg_key(
                                #[trigger] av.take(i as int)[jj],
                            ) == k;
                        assert(arg_key(av[jj]) == arg_key(av[i as int]));
                        assert(!args_entry_ok(av, i as int, allow_duplicates));
                        assert(args_entry_err_key(av, i as int) == k);
                        assert(args_entry_why(av, i as int) == "duplicate parameter"@);
                    }
                    return Err(ConfigError::new(kv.0.as_str(), "duplicate parameter"));
                }
                proof {
                    if !allow_duplicates {
                        lemma_assoc_contains(res@, k);
                        assert forall|j: int| 0 <= j < i implies arg_key(#[trigger] av[j])
                            != arg_key(av[i as int]) by {
                            if arg_key(av[j]) == k {
                                assert(arg_key(av.take(i as int)[j]) == k);
                                assert(exists|jj: int|
                                    0 <= jj < res@.len() && (#[trigger] res@[jj]).0 == k);
                            }
                        }
                    }
                    assert(args_entry_ok(av, i as int, allow_duplicates));
                }
                res.insert(kv.0.as_str(), kv.1.as_str());
                proof {
                    assert(av.take(i + 1).drop_last() =~= av.take(i as int));
                    assert(av.take(i + 1).last() == av[i as int]);
                    assert(res@ == args_fold(av.take(i + 1)));
                }
                i += 1;
            },
        }
    }
    proof {
        assert(av.take(n as int) =~= av);
    }
    Ok(res)
}

/// As [`to_string_map_from_key_val_pairs_general`] with repeated keys
/// rejected.
pub fn to_string_map_from_key_val_pairs(args: &Vec<String>) -> (r: Result<StringMap, ConfigError>)
    ensures
        (r is Ok) == (forall|i: int|
            0 <= i < args@.len() ==> args_entry_ok(arg_views(args@), i, false)),
        r matches Ok(m) ==> m.wf() && m@ == args_fold(arg_views(args@)),
        r matches Err(e) ==> is_first_arg_err(arg_views(args@), false, e@),
{
    to_string_map_from_key_val_pairs_general(args, false)
}

/// As [`to_string_map_from_key_val_pairs_general`] with a later value for
/// a repeated key replacing the earlier one.
pub fn to_string_map_from_key_val_pairs_allowing_duplicates(args: &Vec<String>) -> (r: Result<
    StringMap,
    ConfigError,
>)
    ensures
        (r is Ok) == (forall|i: int|
            0 <= i < args@.len() ==> args_entry_ok(arg_views(args@), i, true)),
        r matches Ok(m) ==> m.wf() && m@ == args_fold(arg_views(args@)),
        r matches Err(e) ==> is_first_arg_err(arg_views(args@), true, e@),
{
    to_string_map_from_key_val_pairs_general(args, true)
}

} // verus!
