//! The completion engine: walks every registered template against the
//! typed tokens, asks the expansion provider for the valid values at each
//! part, and collects the values that extend the token being typed.  The
//! collected candidates are deduplicated by display text (first
//! occurrence wins) and kept sorted ascending.

use vstd::prelude::*;

use crate::line::has_error_tok;
use crate::line::line_tokens;
use crate::line::tokenize;
use crate::strutil::contains_char;
use crate::strutil::is_prefix;
use crate::strutil::lex_lt;
use crate::strutil::lemma_lex_lt_irrefl;
use crate::strutil::lemma_lex_lt_total;
use crate::strutil::lemma_lex_lt_trans;
use crate::strutil::str_eq;
use crate::strutil::str_lt;
use crate::token::CommandPart;

verus! {

/// The set of command templates and the valid values of each template
/// part, supplied by the embedding application.  `expand_keyword` is
/// given the template part and the rendered typed tokens up to and
/// including the one under that part.
pub trait KeywordExpander {
    fn command_list(&self) -> Vec<String>;

    fn expand_keyword(&self, cp: &CommandPart, parts: &Vec<String>) -> Vec<String>;
}

/// One completion on offer: the text shown in the candidate list, and
/// the full text that replaces the token being typed.
pub struct Candidate {
    pub display: String,
    pub replacement: String,
}

/// The canonical rendering of a well-quoted completion value: wrapped in
/// single quotes when it holds a space, bare otherwise.
pub open spec fn rendered_value(k: Seq<char>) -> Seq<char> {
    if contains_char(k, ' ') {
        seq!['\''] + k + seq!['\'']
    } else {
        k
    }
}

/// The candidate's display is the rendering of some value that the
/// partial token is a prefix of.
pub open spec fn display_extends(c: Candidate, partial: Seq<char>) -> bool {
    exists|k: Seq<char>| is_prefix(partial, k) && c.display@ == rendered_value(k)
}

/// The first `upto` typed parts rendered back to text, each followed by
/// one space: what stands in front of every candidate's replacement.
pub open spec fn rendered_prefix(parts: Seq<CommandPart>, upto: int) -> Seq<char>
    decreases upto,
{
    if upto <= 0 {
        Seq::empty()
    } else {
        rendered_prefix(parts, upto - 1) + parts[upto - 1].render() + seq![' ']
    }
}

/// What the engine offers: the display renders a value extending the
/// token being typed, and the replacement is the rendered settled parts,
/// then the display, then a separating space when the template goes on.
pub open spec fn candidate_shape(c: Candidate, parts: Seq<CommandPart>) -> bool {
    let pre = rendered_prefix(parts, parts.len() - 1);
    &&& display_extends(c, parts[parts.len() - 1].slice@)
    &&& (c.replacement@ == pre + c.display@ || c.replacement@ == pre + c.display@ + seq![' '])
}

/// Every candidate of `news` either already stood in `olds` or has the
/// shape the engine offers for these typed parts.
pub open spec fn olds_or_offered(news: Seq<Candidate>, olds: Seq<Candidate>, parts: Seq<CommandPart>) -> bool {
    forall|ci: int|
        0 <= ci < news.len() ==> (exists|cj: int| 0 <= cj < olds.len() && news[ci] == olds[cj])
            || candidate_shape(#[trigger] news[ci], parts)
}

/// What `complete` promises of every candidate, over the line's token
/// model alone: the display renders a value that the token being typed
/// is a prefix of, and the replacement re-joins the settled tokens in
/// front of the display, with or without a trailing separator.
pub open spec fn offered_for_line(c: Candidate, toks: Seq<crate::line::Tok>) -> bool {
    let pre = crate::line::rendered_prefix_toks(toks, toks.len() - 1);
    &&& display_extends(c, toks[toks.len() - 1].content)
    &&& (c.replacement@ == pre + c.display@ || c.replacement@ == pre + c.display@ + seq![' '])
}

/// On matching parts, the rendered prefix of the parts and of their
/// model tokens agree.
proof fn lemma_prefix_matches_model(
    parts: Seq<CommandPart>,
    toks: Seq<crate::line::Tok>,
    upto: int,
)
    requires
        crate::line::matches_tokens(parts, toks),
        0 <= upto <= parts.len(),
    ensures
        rendered_prefix(parts, upto) == crate::line::rendered_prefix_toks(toks, upto),
    decreases upto,
{
    if upto > 0 {
        lemma_prefix_matches_model(parts, toks, upto - 1);
        assert(toks[upto - 1] == crate::line::toks_of(parts)[upto - 1]);
        assert(parts[upto - 1].render() == crate::line::render_tok(toks[upto - 1]));
    }
}

/// Candidates in strictly ascending display order; strictness makes the
/// displays pairwise distinct.
pub open spec fn sorted_by_display(cs: Seq<Candidate>) -> bool {
    forall|i: int, j: int| 0 <= i < j < cs.len() ==> lex_lt(
        #[trigger] cs[i].display@,
        #[trigger] cs[j].display@,
    )
}

/// The index at which `c`'s display would stand: everything before it
/// orders strictly below `c`.
fn lower_bound_index(cs: &Vec<Candidate>, c: &Candidate) -> (r: usize)
    ensures
        r <= cs@.len(),
        forall|j: int| 0 <= j < r ==> lex_lt((#[trigger] cs@[j]).display@, c.display@),
        r < cs@.len() ==> !lex_lt(cs@[r as int].display@, c.display@),
{
    let mut i: usize = 0;
    while i < cs.len()
        invariant
            i <= cs@.len(),
            forall|j: int| 0 <= j < i ==> lex_lt((#[trigger] cs@[j]).display@, c.display@),
        decreases cs@.len() - i,
    {
        if !str_lt(cs[i].display.as_str(), c.display.as_str()) {
            return i;
        }
        i += 1;
    }
    i
}

/// Place `c` into the sorted candidate list unless its display is
/// already on offer: the first candidate of a display wins.
#[verifier::rlimit(100)]
#[verifier::spinoff_prover]
fn insert_candidate(cs: &mut Vec<Candidate>, c: Candidate)
    requires
        sorted_by_display(old(cs)@),
    ensures
        sorted_by_display(final(cs)@),
        (exists|i: int| 0 <= i < old(cs)@.len() && (#[trigger] old(cs)@[i]).display@
            == c.display@) ==> final(cs)@ == old(cs)@,
        !(exists|i: int| 0 <= i < old(cs)@.len() && (#[trigger] old(cs)@[i]).display@
            == c.display@) ==> exists|i: int| 0 <= i <= old(cs)@.len() && final(cs)@ == old(
            cs,
        )@.insert(i, c),
        forall|ci: int|
            0 <= ci < final(cs)@.len() ==> (#[trigger] final(cs)@[ci]) == c || exists|cj: int|
                0 <= cj < old(cs)@.len() && final(cs)@[ci] == old(cs)@[cj],
        exists|j: int|
            0 <= j < final(cs)@.len() && (#[trigger] final(cs)@[j]).display@ == c.display@,
        forall|i: int|
            0 <= i < old(cs)@.len() ==> exists|j: int|
                0 <= j < final(cs)@.len() && final(cs)@[j] == (#[trigger] old(cs)@[i]),
{
    let ghost orig = cs@;
    let i = lower_bound_index(cs, &c);
    if i < cs.len() && !str_lt(c.display.as_str(), cs[i].display.as_str()) {
        // Same display: keep the earlier candidate.
        proof {
            lemma_lex_lt_total(orig[i as int].display@, c.display@);
            assert(exists|k: int| 0 <= k < orig.len() && (#[trigger] orig[k]).display@
                == c.display@) by {
                assert(orig[i as int].display@ == c.display@);
            }
            assert(exists|j: int| 0 <= j < cs@.len() && (#[trigger] cs@[j]).display@
                == c.display@) by {
                assert(cs@[i as int].display@ == c.display@);
            }
            assert forall|k: int| 0 <= k < orig.len() implies exists|j: int|
                0 <= j < cs@.len() && cs@[j] == (#[trigger] orig[k]) by {
                assert(cs@[k] == orig[k]);
            }
        }
        return ;
    }
    proof {
        // c orders strictly below everything from i on, so its display
        // is new.
        assert forall|j: int| i <= j < orig.len() implies lex_lt(
            c.display@,
            (#[trigger] orig[j]).display@,
        ) by {
            if j > i {
                lemma_lex_lt_trans(c.display@, orig[i as int].display@, orig[j].display@);
            }
        }
        assert forall|j: int| 0 <= j < orig.len() implies (#[trigger] orig[j]).display@
            != c.display@ by {
            lemma_lex_lt_irrefl(c.display@);
        }
    }
    let ghost at = i as int;
    cs.insert(i, c);
    proof {
        orig.insert_ensures(at, c);
        assert(exists|k: int| 0 <= k <= orig.len() && cs@ == orig.insert(k, c)) by {
            assert(cs@ == orig.insert(at, c));
        }
        assert forall|a: int, b: int| 0 <= a < b < cs@.len() implies lex_lt(
            (#[trigger] cs@[a]).display@,
            (#[trigger] cs@[b]).display@,
        ) by {
            if a < at {
                assert(cs@[a] == orig[a]);
            } else if a > at {
                assert(cs@[a] == orig[a - 1]);
            }
            if b < at {
                assert(cs@[b] == orig[b]);
            } else if b > at {
                assert(cs@[b] == orig[b - 1]);
            }
        }
        assert forall|ci: int| 0 <= ci < cs@.len() implies (#[trigger] cs@[ci]) == c || exists|
            cj: int,
        | 0 <= cj < orig.len() && cs@[ci] == orig[cj] by {
            if ci < at {
                assert(cs@[ci] == orig[ci]);
            } else if ci > at {
                assert(cs@[ci] == orig[ci - 1]);
            }
        }
        assert(exists|j: int| 0 <= j < cs@.len() && (#[trigger] cs@[j]).display@ == c.display@)
            by {
            assert(cs@[at] == c);
        }
        assert forall|k: int| 0 <= k < orig.len() implies exists|j: int|
            0 <= j < cs@.len() && cs@[j] == (#[trigger] orig[k]) by {
            if k < at {
                assert(cs@[k] == orig[k]);
            } else {
                assert(cs@[k + 1] == orig[k]);
            }
        }
    }
}

/// True iff the content of `cp` opens with `<`, the shape of a
/// placeholder part.
fn opens_placeholder(cp: &CommandPart) -> (r: bool)
    ensures
        r == (cp.slice@.len() >= 1 && cp.slice@[0] == '<'),
{
    let s = cp.as_str();
    if s.unicode_len() == 0 {
        false
    } else {
        s.get_char(0) == '<'
    }
}

/// True iff some key equals the content of `lpart`.
fn any_key_equals(keys: &Vec<String>, lpart: &CommandPart) -> (r: bool)
    ensures
        r == exists|i: int| 0 <= i < keys@.len() && (#[trigger] keys@[i])@ == lpart.slice@,
{
    let mut i: usize = 0;
    while i < keys.len()
        invariant
            i <= keys@.len(),
            forall|j: int| 0 <= j < i ==> (#[trigger] keys@[j])@ != lpart.slice@,
        decreases keys@.len() - i,
    {
        if str_eq(keys[i].as_str(), lpart.as_str()) {
            return true;
        }
        i += 1;
    }
    false
}

/// Computes completion candidates against the templates and values of
/// one expansion provider.
pub struct CommandCompleter<'a, E: KeywordExpander> {
    kw_exp: &'a E,
}

impl<'a, E: KeywordExpander> CommandCompleter<'a, E> {
    pub fn new(kw_exp: &'a E) -> Self {
        Self { kw_exp }
    }

    /// Walk one template against the typed tokens, adding the candidates
    /// it contributes.
    fn complete_template(
        &self,
        cmd: &str,
        lwords: &Vec<CommandPart>,
        pairs: &mut Vec<Candidate>,
    )
        requires
            sorted_by_display(old(pairs)@),
            forall|i: int| 0 <= i < lwords@.len() ==> (#[trigger] lwords@[i]).wf(),
            lwords@.len() >= 1,
        ensures
            sorted_by_display(final(pairs)@),
            olds_or_offered(final(pairs)@, old(pairs)@, lwords@),
    {
        let ghost orig_pairs = pairs@;
        let ghost partial = lwords@[lwords@.len() - 1].slice@;
        let cmd_vec = tokenize(cmd);
        let cmd_vec_len = cmd_vec.len();
        let mut prefix = String::new();
        let mut parts: Vec<String> = Vec::new();
        let mut i: usize = 0;
        while i < cmd_vec_len
            invariant
                sorted_by_display(pairs@),
                orig_pairs == old(pairs)@,
                partial == lwords@[lwords@.len() - 1].slice@,
                olds_or_offered(pairs@, orig_pairs, lwords@),
                prefix@ == rendered_prefix(lwords@, i as int),
                forall|k: int| 0 <= k < lwords@.len() ==> (#[trigger] lwords@[k]).wf(),
                lwords@.len() >= 1,
                cmd_vec_len == cmd_vec@.len(),
                i <= cmd_vec_len,
                i <= lwords@.len(),
                forall|k: int| 0 <= k < cmd_vec@.len() ==> (#[trigger] cmd_vec@[k]).wf(),
            decreases cmd_vec_len - i,
        {
            if i == lwords.len() {
                // Every typed token is already classified under an
                // earlier part of this template.
                return ;
            }
            let lpart = &lwords[i];
            parts.push(lpart.to_string());
            let keys = self.kw_exp.expand_keyword(&cmd_vec[i], &parts);
            if i + 1 == lwords.len() {
                // The token being typed: offer every value that extends
                // it, with the matched parts re-joined in front and a
                // separating space when the template goes on.
                let mut ki: usize = 0;
                while ki < keys.len()
                    invariant
                        sorted_by_display(pairs@),
                        orig_pairs == old(pairs)@,
                        partial == lwords@[lwords@.len() - 1].slice@,
                        olds_or_offered(pairs@, orig_pairs, lwords@),
                        prefix@ == rendered_prefix(lwords@, i as int),
                        forall|k: int| 0 <= k < lwords@.len() ==> (#[trigger] lwords@[k]).wf(),
                        i + 1 == lwords@.len(),
                        i < lwords@.len(),
                        ki <= keys@.len(),
                        i + 1 <= cmd_vec_len,
                    decreases keys@.len() - ki,
                {
                    let kp = CommandPart::new(keys[ki].as_str());
                    if kp.starts_with(&lwords[i]) {
                        let disp = kp.to_string();
                        let mut repl = prefix.clone();
                        repl.append(disp.as_str());
                        if cmd_vec_len > i + 1 {
                            repl.append(" ");
                        }
                        let cand = Candidate { display: disp, replacement: repl };
                        let ghost candg = cand;
                        let ghost mid = pairs@;
                        insert_candidate(pairs, cand);
                        proof {
                            reveal_strlit(" ");
                            assert(" "@ =~= seq![' ']);
                            assert(candg.display@ == rendered_value(keys@[ki as int]@));
                            assert(display_extends(candg, partial)) by {
                                assert(is_prefix(partial, keys@[ki as int]@) && candg.display@
                                    == rendered_value(keys@[ki as int]@));
                            }
                            assert(candidate_shape(candg, lwords@));
                            assert forall|ci: int| 0 <= ci < pairs@.len() implies (exists|cj: int|
                                0 <= cj < orig_pairs.len() && pairs@[ci] == orig_pairs[cj])
                                || candidate_shape(#[trigger] pairs@[ci], lwords@) by {
                                if pairs@[ci] != candg {
                                    let ck = choose|ck: int|
                                        0 <= ck < mid.len() && pairs@[ci] == mid[ck];
                                    assert((exists|cj: int| 0 <= cj < orig_pairs.len()
                                        && mid[ck] == orig_pairs[cj]) || candidate_shape(
                                        mid[ck],
                                        lwords@,
                                    ));
                                }
                            }
                        }
                    }
                    ki += 1;
                }
                return ;
            }
            // A fully typed token: a placeholder part accepts it
            // unconditionally; a literal part must be matched exactly by
            // one of the returned values.
            if !opens_placeholder(&cmd_vec[i]) {
                if !any_key_equals(&keys, lpart) {
                    return ;
                }
            }
            let rendered = lpart.to_string();
            prefix.append(rendered.as_str());
            prefix.append(" ");
            proof {
                reveal_strlit(" ");
                assert(" "@ =~= seq![' ']);
                assert(prefix@ =~= rendered_prefix(lwords@, i + 1));
            }
            i += 1;
        }
    }

    /// All candidates for the token being typed at the end of `line`,
    /// across every template, deduplicated by display text and sorted
    /// ascending.  A line with malformed quoting offers nothing.
    pub fn complete(&self, line: &str) -> (r: Vec<Candidate>)
        ensures
            sorted_by_display(r@),
            has_error_tok(line_tokens(line@)) ==> r@.len() == 0,
            forall|ci: int|
                0 <= ci < r@.len() ==> offered_for_line(#[trigger] r@[ci], line_tokens(line@)),
    {
        let lwords = tokenize(line);
        let mut i: usize = 0;
        while i < lwords.len()
            invariant
                i <= lwords@.len(),
                crate::line::matches_tokens(lwords@, line_tokens(line@)),
                forall|j: int| 0 <= j < i ==> !(#[trigger] lwords@[j]).is_error,
            decreases lwords@.len() - i,
        {
            if lwords[i].is_error {
                let r: Vec<Candidate> = Vec::new();
                return r;
            }
            i += 1;
        }
        proof {
            if has_error_tok(line_tokens(line@)) {
                let k = choose|k: int| 0 <= k < line_tokens(line@).len() && line_tokens(
                    line@,
                )[k].error;
                assert(lwords@[k].is_error);
            }
        }
        let ghost partial = lwords@[lwords@.len() - 1].slice@;
        let cmds = self.kw_exp.command_list();
        let mut pairs: Vec<Candidate> = Vec::new();
        let mut ci: usize = 0;
        while ci < cmds.len()
            invariant
                sorted_by_display(pairs@),
                partial == lwords@[lwords@.len() - 1].slice@,
                crate::line::matches_tokens(lwords@, line_tokens(line@)),
                forall|j: int| 0 <= j < lwords@.len() ==> (#[trigger] lwords@[j]).wf(),
                lwords@.len() >= 1,
                forall|k: int|
                    0 <= k < pairs@.len() ==> candidate_shape(#[trigger] pairs@[k], lwords@),
            decreases cmds@.len() - ci,
        {
            let ghost prev = pairs@;
            self.complete_template(cmds[ci].as_str(), &lwords, &mut pairs);
            proof {
                assert forall|k: int| 0 <= k < pairs@.len() implies candidate_shape(
                    #[trigger] pairs@[k],
                    lwords@,
                ) by {
                    if exists|cj: int| 0 <= cj < prev.len() && pairs@[k] == prev[cj] {
                        let cj = choose|cj: int| 0 <= cj < prev.len() && pairs@[k] == prev[cj];
                        assert(candidate_shape(prev[cj], lwords@));
                    }
                }
            }
            ci += 1;
        }
        proof {
            let toks = line_tokens(line@);
            assert(crate::line::toks_of(lwords@)[toks.len() - 1].content == lwords@[lwords@.len()
                - 1].slice@);
            lemma_prefix_matches_model(lwords@, toks, lwords@.len() - 1);
            assert forall|ci2: int| 0 <= ci2 < pairs@.len() implies offered_for_line(
                #[trigger] pairs@[ci2],
                toks,
            ) by {
                assert(candidate_shape(pairs@[ci2], lwords@));
            }
        }
        pairs
    }
}

/// A strictly sorted candidate list offers every display at most once.
pub proof fn lemma_sorted_displays_distinct(cs: Seq<Candidate>)
    requires
        sorted_by_display(cs),
    ensures
        forall|i: int, j: int|
            0 <= i < j < cs.len() ==> (#[trigger] cs[i].display@) != (#[trigger] cs[j].display@),
{
    assert forall|i: int, j: int| 0 <= i < j < cs.len() implies (#[trigger] cs[i].display@) != (
    #[trigger] cs[j].display@) by {
        lemma_lex_lt_irrefl(cs[i].display@);
    }
}

} // verus!
