//! Filename expansion for a conventional path placeholder: split the
//! typed text into a directory part and a fragment, and keep the
//! directory entries whose names extend the fragment.  Reading the
//! directory itself is the caller's affair; the choices made here are
//! pure and proved.

use vstd::prelude::*;

use crate::strutil::is_prefix;
use crate::strutil::str_eq;
use crate::strutil::str_starts_with;

verus! {

/// The index of the last occurrence of `c` in `s`.
pub open spec fn rfind_char(s: Seq<char>, c: char) -> Option<int>
    decreases s.len(),
{
    if s.len() == 0 {
        None
    } else if s.last() == c {
        Some(s.len() - 1)
    } else {
        rfind_char(s.drop_last(), c)
    }
}

pub proof fn lemma_rfind_char(s: Seq<char>, c: char)
    ensures
        match rfind_char(s, c) {
            Some(i) => 0 <= i < s.len() && s[i] == c && forall|j: int|
                i < j < s.len() ==> s[j] != c,
            None => forall|j: int| 0 <= j < s.len() ==> s[j] != c,
        },
    decreases s.len(),
{
    if s.len() > 0 && s.last() != c {
        lemma_rfind_char(s.drop_last(), c);
        assert(forall|j: int| 0 <= j < s.len() - 1 ==> s.drop_last()[j] == s[j]);
    }
}

/// The index of the last occurrence of `c` in the view of `s`.
pub fn str_rfind(s: &str, c: char) -> (r: Option<usize>)
    ensures
        match r {
            Some(i) => rfind_char(s@, c) == Some(i as int) && i < s@.len(),
            None => rfind_char(s@, c) is None,
        },
{
    let len = s.unicode_len();
    let mut i: usize = len;
    while i > 0
        invariant
            i <= len,
            len as nat == s@.len(),
            forall|j: int| i <= j < s@.len() ==> s@[j] != c,
        decreases i,
    {
        i -= 1;
        if s.get_char(i) == c {
            proof {
                lemma_rfind_char(s@, c);
            }
            return Some(i);
        }
    }
    proof {
        lemma_rfind_char(s@, c);
    }
    None
}

/// Split the typed text of a path placeholder into the directory to
/// read, the directory text to keep in front of each candidate, and the
/// filename fragment to extend: text up to and including the last slash
/// is the directory; without any slash the current directory is read,
/// and `.` alone also stands for it.
pub fn split_path(path: &str) -> (r: (String, String, String))
    ensures
        match rfind_char(path@, '/') {
            Some(pos) => r.0@ == path@.subrange(0, pos + 1) && r.1@ == path@.subrange(
                0,
                pos + 1,
            ) && r.2@ == path@.subrange(pos + 1, path@.len() as int),
            None => r.0@ == "./"@ && (path@ == "."@ ==> r.1@ == "."@ && r.2@ =~= Seq::<
                char,
            >::empty()) && (path@ != "."@ ==> r.1@ =~= Seq::<char>::empty() && r.2@ == path@),
        },
{
    match str_rfind(path, '/') {
        Some(pos) => {
            let len = path.unicode_len();
            let dir = path.substring_char(0, pos + 1);
            let fpart = path.substring_char(pos + 1, len);
            (String::from_str(dir), String::from_str(dir), String::from_str(fpart))
        },
        None => {
            if str_eq(path, ".") {
                proof {
                    reveal_strlit("");
                }
                (String::from_str("./"), String::from_str("."), String::from_str(""))
            } else {
                proof {
                    reveal_strlit("");
                }
                (String::from_str("./"), String::from_str(""), String::from_str(path))
            }
        },
    }
}

/// The entry names, as (name, is-a-directory) pairs.
pub open spec fn entry_views(es: Seq<(String, bool)>) -> Seq<(Seq<char>, bool)> {
    es.map_values(|e: (String, bool)| (e.0@, e.1))
}

/// The candidates that the entries contribute: for each name extending
/// the fragment, the typed directory text, the name, and a trailing
/// slash when the entry is itself a directory.
pub open spec fn expanded_entries(
    dpart: Seq<char>,
    fpart: Seq<char>,
    entries: Seq<(Seq<char>, bool)>,
) -> Seq<Seq<char>>
    decreases entries.len(),
{
    if entries.len() == 0 {
        Seq::empty()
    } else {
        let rest = expanded_entries(dpart, fpart, entries.drop_first());
        if is_prefix(fpart, entries[0].0) {
            seq![
                dpart + entries[0].0 + if entries[0].1 {
                    seq!['/']
                } else {
                    Seq::empty()
                },
            ] + rest
        } else {
            rest
        }
    }
}

/// Keep the entries whose names extend the fragment, each rendered as a
/// full candidate path.
pub fn filter_entries(dpart: &str, fpart: &str, entries: &Vec<(String, bool)>) -> (r: Vec<
    String,
>)
    ensures
        crate::strutil::views(r@) == expanded_entries(dpart@, fpart@, entry_views(entries@)),
{
    let ghost evs = entry_views(entries@);
    let mut r: Vec<String> = Vec::new();
    let mut i: usize = 0;
    proof {
        assert(evs.skip(0) =~= evs);
        assert(crate::strutil::views(r@) =~= Seq::<Seq<char>>::empty());
    }
    while i < entries.len()
        invariant
            i <= entries@.len(),
            evs == entry_views(entries@),
            expanded_entries(dpart@, fpart@, evs) == crate::strutil::views(r@)
                + expanded_entries(dpart@, fpart@, evs.skip(i as int)),
        decreases entries@.len() - i,
    {
        let ghost pre = crate::strutil::views(r@);
        let ghost suf = evs.skip(i as int);
        proof {
            assert(suf[0] == evs[i as int]);
            assert(evs[i as int] == (entries@[i as int].0@, entries@[i as int].1));
            assert(suf.drop_first() =~= evs.skip(i + 1));
        }
        if str_starts_with(entries[i].0.as_str(), fpart) {
            let mut cand = String::from_str(dpart);
            cand.append(entries[i].0.as_str());
            if entries[i].1 {
                cand.append("/");
                proof {
                    reveal_strlit("/");
                    assert("/"@ =~= seq!['/']);
                }
            }
            r.push(cand);
            proof {
                assert(crate::strutil::views(r@) =~= pre.push(
                    dpart@ + entries@[i as int].0@ + if entries@[i as int].1 {
                        seq!['/']
                    } else {
                        Seq::<char>::empty()
                    },
                ));
                assert(pre + expanded_entries(dpart@, fpart@, suf) =~= crate::strutil::views(r@)
                    + expanded_entries(dpart@, fpart@, evs.skip(i + 1)));
            }
        } else {
            proof {
                assert(pre + expanded_entries(dpart@, fpart@, suf) =~= crate::strutil::views(r@)
                    + expanded_entries(dpart@, fpart@, evs.skip(i + 1)));
            }
        }
        i += 1;
    }
    proof {
        assert(evs.skip(evs.len() as int) =~= Seq::<(Seq<char>, bool)>::empty());
        assert(crate::strutil::views(r@) + Seq::<Seq<char>>::empty() =~= crate::strutil::views(
            r@,
        ));
    }
    r
}

} // verus!
