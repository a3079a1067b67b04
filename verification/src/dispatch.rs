//! The dispatcher: greedily folds leading typed tokens into a command
//! identifier, as long as the identifier built so far is a literal prefix
//! of at least one registered template, and leaves the remaining tokens
//! as arguments.

use vstd::prelude::*;

use crate::strutil::is_prefix;
use crate::strutil::str_starts_with;
use crate::strutil::views;

verus! {

/// A token written `<...>` stands for a placeholder value and is never
/// part of a command identifier.
pub open spec fn is_placeholder_shaped(s: Seq<char>) -> bool {
    s.len() >= 1 && s[0] == '<' && s[s.len() - 1] == '>'
}

/// The identifier after folding one more token into it.
pub open spec fn extend_identifier(acc: Seq<char>, t: Seq<char>) -> Seq<char> {
    if acc.len() == 0 {
        t
    } else {
        acc + seq![' '] + t
    }
}

/// The templates whose text starts with `p`, in order.
pub open spec fn filter_by_prefix(cmds: Seq<Seq<char>>, p: Seq<char>) -> Seq<Seq<char>>
    decreases cmds.len(),
{
    if cmds.len() == 0 {
        Seq::empty()
    } else {
        let rest = filter_by_prefix(cmds.drop_first(), p);
        if is_prefix(p, cmds[0]) {
            seq![cmds[0]] + rest
        } else {
            rest
        }
    }
}

/// What the dispatcher decides: the resolved identifier, the tokens it
/// folded into the identifier, and the tokens left as arguments.
pub ghost struct DispatchOutcome {
    pub identifier: Seq<char>,
    pub taken: Seq<Seq<char>>,
    pub rest: Seq<Seq<char>>,
}

/// The greedy walk: skip empty tokens, stop at a placeholder-shaped
/// token, and otherwise consume the token exactly when the extended
/// identifier still prefixes some remaining template.
pub open spec fn dispatch_from(args: Seq<Seq<char>>, cmds: Seq<Seq<char>>, acc: Seq<char>) -> DispatchOutcome
    decreases args.len(),
{
    if args.len() == 0 {
        DispatchOutcome { identifier: acc, taken: Seq::empty(), rest: args }
    } else if is_placeholder_shaped(args[0]) {
        DispatchOutcome { identifier: acc, taken: Seq::empty(), rest: args }
    } else if args[0].len() == 0 {
        dispatch_from(args.drop_first(), cmds, acc)
    } else {
        let p = extend_identifier(acc, args[0]);
        let filtered = filter_by_prefix(cmds, p);
        if filtered.len() > 0 {
            let o = dispatch_from(args.drop_first(), filtered, p);
            DispatchOutcome {
                identifier: o.identifier,
                taken: seq![args[0]] + o.taken,
                rest: o.rest,
            }
        } else {
            DispatchOutcome { identifier: acc, taken: Seq::empty(), rest: args }
        }
    }
}

/// The dispatcher's decision on the typed tokens against the registered
/// templates, starting from an empty identifier.
pub open spec fn dispatch_spec(args: Seq<Seq<char>>, cmds: Seq<Seq<char>>) -> DispatchOutcome {
    dispatch_from(args, cmds, Seq::empty())
}

/// The identifier after folding a whole list of tokens into it, left to
/// right.
pub open spec fn extend_identifier_all(acc: Seq<char>, ts: Seq<Seq<char>>) -> Seq<char>
    decreases ts.len(),
{
    if ts.len() == 0 {
        acc
    } else {
        extend_identifier_all(extend_identifier(acc, ts[0]), ts.drop_first())
    }
}

/// The dispatcher never folds an empty token or a placeholder-shaped
/// token into the command identifier, and the identifier is exactly the
/// consumed tokens joined with single spaces onto the starting value.
pub proof fn lemma_identifier_tokens(args: Seq<Seq<char>>, cmds: Seq<Seq<char>>, acc: Seq<char>)
    ensures
        forall|i: int| 0 <= i < dispatch_from(args, cmds, acc).taken.len() ==> (#[trigger]
        dispatch_from(args, cmds, acc).taken[i]).len() > 0 && !is_placeholder_shaped(
            dispatch_from(args, cmds, acc).taken[i],
        ),
        dispatch_from(args, cmds, acc).identifier == extend_identifier_all(
            acc,
            dispatch_from(args, cmds, acc).taken,
        ),
    decreases args.len(),
{
    let o = dispatch_from(args, cmds, acc);
    if args.len() == 0 || is_placeholder_shaped(args[0]) {
    } else if args[0].len() == 0 {
        lemma_identifier_tokens(args.drop_first(), cmds, acc);
    } else {
        let p = extend_identifier(acc, args[0]);
        let filtered = filter_by_prefix(cmds, p);
        if filtered.len() > 0 {
            lemma_identifier_tokens(args.drop_first(), filtered, p);
            let inner = dispatch_from(args.drop_first(), filtered, p);
            assert(o.taken == seq![args[0]] + inner.taken);
            assert(o.taken.drop_first() =~= inner.taken);
            assert(forall|i: int| 0 <= i < o.taken.len() ==> (#[trigger] o.taken[i]) == (
            if i == 0 {
                args[0]
            } else {
                inner.taken[i - 1]
            }));
        }
    }
}

/// Copy the strings of `v` from index `k` on.
fn tail_clone(v: &Vec<String>, k: usize) -> (r: Vec<String>)
    requires
        k <= v@.len(),
    ensures
        views(r@) == views(v@).skip(k as int),
{
    let mut r: Vec<String> = Vec::new();
    let mut i: usize = k;
    while i < v.len()
        invariant
            k <= i <= v@.len(),
            views(r@) =~= views(v@).subrange(k as int, i as int),
        decreases v@.len() - i,
    {
        let ghost pre = views(r@);
        r.push(v[i].clone());
        proof {
            assert(views(r@) =~= pre.push(v@[i as int]@));
            assert(views(v@).subrange(k as int, i + 1) =~= views(v@).subrange(
                k as int,
                i as int,
            ).push(views(v@)[i as int]));
        }
        i += 1;
    }
    proof {
        assert(views(v@).subrange(k as int, v@.len() as int) =~= views(v@).skip(k as int));
    }
    r
}

/// The templates of `cmds` whose text starts with `p`, in order.
fn filter_prefixed(cmds: &Vec<String>, p: &String) -> (r: Vec<String>)
    ensures
        views(r@) == filter_by_prefix(views(cmds@), p@),
{
    let mut r: Vec<String> = Vec::new();
    let mut i: usize = 0;
    proof {
        assert(views(cmds@).skip(0) =~= views(cmds@));
        assert(views(r@) =~= Seq::<Seq<char>>::empty());
    }
    while i < cmds.len()
        invariant
            i <= cmds@.len(),
            filter_by_prefix(views(cmds@), p@) == views(r@) + filter_by_prefix(
                views(cmds@).skip(i as int),
                p@,
            ),
        decreases cmds@.len() - i,
    {
        let ghost pre = views(r@);
        let ghost suf = views(cmds@).skip(i as int);
        proof {
            assert(suf[0] == views(cmds@)[i as int]);
            assert(suf.drop_first() =~= views(cmds@).skip(i + 1));
        }
        if str_starts_with(cmds[i].as_str(), p.as_str()) {
            r.push(cmds[i].clone());
            proof {
                assert(views(r@) =~= pre.push(cmds@[i as int]@));
                assert(pre + filter_by_prefix(suf, p@) =~= views(r@) + filter_by_prefix(
                    views(cmds@).skip(i + 1),
                    p@,
                ));
            }
        } else {
            proof {
                assert(pre + filter_by_prefix(suf, p@) =~= views(r@) + filter_by_prefix(
                    views(cmds@).skip(i + 1),
                    p@,
                ));
            }
        }
        i += 1;
    }
    proof {
        assert(views(cmds@).skip(cmds@.len() as int) =~= Seq::<Seq<char>>::empty());
        assert(views(r@) + Seq::<Seq<char>>::empty() =~= views(r@));
    }
    r
}

/// Separate the typed tokens into a command identifier and its argument
/// tokens, per the greedy template-prefix walk.
pub fn dispatch(args: &Vec<String>, cmdlist: &Vec<String>) -> (r: (String, Vec<String>))
    ensures
        r.0@ == dispatch_spec(views(args@), views(cmdlist@)).identifier,
        views(r.1@) == dispatch_spec(views(args@), views(cmdlist@)).rest,
{
    let ghost full = dispatch_spec(views(args@), views(cmdlist@));
    let mut cmd = String::new();
    let mut cmds = tail_clone(cmdlist, 0);
    let mut k: usize = 0;
    proof {
        assert(views(cmdlist@).skip(0) =~= views(cmdlist@));
        assert(views(args@).skip(0) =~= views(args@));
    }
    loop
        invariant
            k <= args@.len(),
            full == dispatch_spec(views(args@), views(cmdlist@)),
            dispatch_from(views(args@).skip(k as int), views(cmds@), cmd@).identifier
                == full.identifier,
            dispatch_from(views(args@).skip(k as int), views(cmds@), cmd@).rest == full.rest,
        decreases args@.len() - k,
    {
        let ghost rem = views(args@).skip(k as int);
        proof {
            if k < args@.len() {
                assert(rem[0] == views(args@)[k as int]);
                assert(rem.drop_first() =~= views(args@).skip(k + 1));
            }
        }
        if k == args.len() {
            proof {
                assert(rem.len() == 0);
            }
            return (cmd, tail_clone(args, k));
        }
        let a = args[k].as_str();
        if str_starts_with(a, "<") && ends_with_gt(a) {
            // A placeholder value: it and everything after it are
            // arguments, never part of the command.
            proof {
                reveal_strlit("<");
                assert("<"@ =~= seq!['<']);
                assert(a@.subrange(0, 1)[0] == a@[0]);
                assert(is_placeholder_shaped(a@));
                assert(rem[0] == a@);
            }
            return (cmd, tail_clone(args, k));
        }
        if a.is_empty() {
            // Skip empty tokens without consuming them
            k += 1;
            continue;
        }
        proof {
            if is_placeholder_shaped(rem[0]) {
                reveal_strlit("<");
                assert("<"@ =~= seq!['<']);
                assert(a@.subrange(0, 1) =~= seq![a@[0]]);
                assert(is_prefix("<"@, a@));
            }
        }
        let p = if cmd.as_str().is_empty() {
            let ghost c = cmd@;
            proof {
                assert(c.len() == 0);
            }
            args[k].clone()
        } else {
            let mut ext = cmd.clone();
            ext.append(" ");
            ext.append(args[k].as_str());
            proof {
                reveal_strlit(" ");
                assert(" "@ =~= seq![' ']);
                assert(ext@ =~= extend_identifier(cmd@, a@));
            }
            ext
        };
        let filtered = filter_prefixed(&cmds, &p);
        if filtered.len() > 0 {
            cmd = p;
            cmds = filtered;
            k += 1;
        } else {
            return (cmd, tail_clone(args, k));
        }
    }
}

/// True iff the last character of `s` is `>`.
fn ends_with_gt(s: &str) -> (r: bool)
    ensures
        r == (s@.len() >= 1 && s@[s@.len() - 1] == '>'),
{
    let len = s.unicode_len();
    if len == 0 {
        return false;
    }
    s.get_char(len - 1) == '>'
}

} // verus!
