//! The quote-aware tokenizer: a raw input line and the iterator that cuts
//! it into `CommandPart`s.  The scanning rules are stated once as spec
//! functions over the line's character sequence, and the executable
//! iterator is proved to follow them step for step.

use vstd::prelude::*;

use crate::strutil::contains_char;
use crate::token::CommandPart;

verus! {

/// The index of the first occurrence of `c` in `s` at or after `from`.
pub open spec fn find_char_from(s: Seq<char>, c: char, from: int) -> Option<int>
    decreases s.len() - from when 0 <= from <= s.len()
{
    if from >= s.len() {
        None
    } else if s[from] == c {
        Some(from)
    } else {
        find_char_from(s, c, from + 1)
    }
}

/// The index of the first occurrence of `c` in `s` within `[from, to)`.
pub open spec fn find_char_in(s: Seq<char>, c: char, from: int, to: int) -> Option<int>
    decreases to - from when from <= to <= s.len()
{
    if from >= to {
        None
    } else if s[from] == c {
        Some(from)
    } else {
        find_char_in(s, c, from + 1, to)
    }
}

pub proof fn lemma_find_char_from(s: Seq<char>, c: char, from: int)
    requires
        0 <= from <= s.len(),
    ensures
        match find_char_from(s, c, from) {
            Some(i) => from <= i < s.len() && s[i] == c && forall|j: int|
                from <= j < i ==> s[j] != c,
            None => forall|j: int| from <= j < s.len() ==> s[j] != c,
        },
    decreases s.len() - from,
{
    if from < s.len() && s[from] != c {
        lemma_find_char_from(s, c, from + 1);
    }
}

pub proof fn lemma_find_char_in(s: Seq<char>, c: char, from: int, to: int)
    requires
        0 <= from <= to <= s.len(),
    ensures
        match find_char_in(s, c, from, to) {
            Some(i) => from <= i < to && s[i] == c && forall|j: int|
                from <= j < i ==> s[j] != c,
            None => forall|j: int| from <= j < to ==> s[j] != c,
        },
    decreases to - from,
{
    if from < to && s[from] != c {
        lemma_find_char_in(s, c, from + 1, to);
    }
}

/// One token of the mathematical model: its content and its error flag.
pub ghost struct Tok {
    pub content: Seq<char>,
    pub error: bool,
}

/// One step of the scan: the token cut at the current position and the
/// position at which scanning resumes (one past the line length once the
/// line is exhausted).
pub ghost struct ScanStep {
    pub content: Seq<char>,
    pub error: bool,
    pub next: int,
}

/// The next token of `line` when scanning starts at `p`:
/// - at the very end, one empty token;
/// - at a quote, content up to the matching quote, which must be followed
///   by a space or the end of the line; a closing quote followed by any
///   other character marks an error token reaching up to that quote, and
///   a quote that never closes takes the rest of the line without error;
/// - otherwise, content up to the next space or the end of the line,
///   marked as an error when a stray quote occurs inside it.
pub open spec fn scan(line: Seq<char>, p: int) -> ScanStep
    recommends
        0 <= p <= line.len(),
{
    let l = line.len() as int;
    if p >= l {
        ScanStep { content: Seq::empty(), error: false, next: l + 1 }
    } else if line[p] == '\'' {
        match find_char_from(line, '\'', p + 1) {
            Some(q) => {
                if q + 1 == l {
                    ScanStep { content: line.subrange(p + 1, q), error: false, next: l + 1 }
                } else if line[q + 1] == ' ' {
                    ScanStep { content: line.subrange(p + 1, q), error: false, next: q + 2 }
                } else {
                    ScanStep { content: line.subrange(p, q), error: true, next: q + 1 }
                }
            },
            None => ScanStep { content: line.subrange(p + 1, l), error: false, next: l + 1 },
        }
    } else {
        match find_char_from(line, ' ', p) {
            Some(q) => ScanStep {
                content: line.subrange(p, q),
                error: find_char_in(line, '\'', p, q) is Some,
                next: q + 1,
            },
            None => ScanStep {
                content: line.subrange(p, l),
                error: find_char_from(line, '\'', p) is Some,
                next: l + 1,
            },
        }
    }
}

/// Scanning always moves right, so tokenization terminates.
pub proof fn lemma_scan_advances(line: Seq<char>, p: int)
    requires
        0 <= p <= line.len(),
    ensures
        p < scan(line, p).next,
        scan(line, p).next <= line.len() + 1,
{
    if p < line.len() {
        if line[p] == '\'' {
            lemma_find_char_from(line, '\'', p + 1);
        } else {
            lemma_find_char_from(line, ' ', p);
        }
    }
}

/// All tokens of `line` from position `p` on.  Scanning stops after the
/// step that moves past the end of the line, so a line always yields at
/// least one token.
pub open spec fn tokens_from(line: Seq<char>, p: int) -> Seq<Tok>
    decreases line.len() + 1 - p when 0 <= p <= line.len() via tokens_from_decreases
{
    let st = scan(line, p);
    let t = Tok { content: st.content, error: st.error };
    if st.next > line.len() {
        seq![t]
    } else {
        seq![t] + tokens_from(line, st.next)
    }
}

#[via_fn]
proof fn tokens_from_decreases(line: Seq<char>, p: int) {
    lemma_scan_advances(line, p);
}

/// All tokens of a whole line.
pub open spec fn line_tokens(line: Seq<char>) -> Seq<Tok> {
    tokens_from(line, 0)
}

/// The canonical rendering of a model token, matching
/// `CommandPart::render` on well-formed parts.
pub open spec fn render_tok(t: Tok) -> Seq<char> {
    if t.error {
        "Bad_command: "@ + t.content
    } else if contains_char(t.content, ' ') {
        seq!['\''] + t.content + seq!['\'']
    } else {
        t.content
    }
}

/// The first `upto` tokens rendered back to text, each followed by one
/// space: the text that a completion replaces the line's settled part
/// with.
pub open spec fn rendered_prefix_toks(toks: Seq<Tok>, upto: int) -> Seq<char>
    decreases upto,
{
    if upto <= 0 {
        Seq::empty()
    } else {
        rendered_prefix_toks(toks, upto - 1) + render_tok(toks[upto - 1]) + seq![' ']
    }
}

/// True iff some token records malformed quoting.
pub open spec fn has_error_tok(toks: Seq<Tok>) -> bool {
    exists|i: int| 0 <= i < toks.len() && toks[i].error
}

/// The model tokens that a sequence of parts stands for.
pub open spec fn toks_of(parts: Seq<CommandPart>) -> Seq<Tok> {
    parts.map_values(|p: CommandPart| Tok { content: p.slice@, error: p.is_error })
}

/// The parts carry exactly the given model tokens, and each is
/// well-formed.
pub open spec fn matches_tokens(parts: Seq<CommandPart>, toks: Seq<Tok>) -> bool {
    &&& toks_of(parts) == toks
    &&& forall|i: int| 0 <= i < parts.len() ==> (#[trigger] parts[i]).wf()
}

/// A raw input line.  Re-tokenizing it is pure and deterministic, so its
/// parts can be walked any number of times.
pub struct CommandLine {
    line: String,
}

impl View for CommandLine {
    type V = Seq<char>;

    closed spec fn view(&self) -> Seq<char> {
        self.line@
    }
}

impl CommandLine {
    pub fn new(line: String) -> (r: Self)
        ensures
            r@ == line@,
    {
        Self { line }
    }

    pub fn as_str(&self) -> (r: &str)
        ensures
            r@ == self@,
    {
        self.line.as_str()
    }

    pub fn parts(&self) -> (it: CommandLineIterator)
        ensures
            it.line@ == self@,
            it.position == 0,
            !it.done,
            it.wf(),
    {
        CommandLineIterator::new(self)
    }
}

/// Walks a `CommandLine`, cutting one `CommandPart` per call to `next`.
pub struct CommandLineIterator<'a> {
    pub line: &'a CommandLine,
    pub position: usize,
    pub done: bool,
}

impl<'a> CommandLineIterator<'a> {
    /// The position never runs past the line.
    pub open spec fn wf(self) -> bool {
        self.position <= self.line@.len()
    }

    pub fn new(line: &'a CommandLine) -> (r: Self)
        ensures
            r.line@ == line@,
            r.position == 0,
            !r.done,
            r.wf(),
    {
        Self { line, position: 0, done: false }
    }

    /// The character count of the line.
    pub fn len(&self) -> (r: usize)
        ensures
            r as nat == self.line@.len(),
    {
        self.line.as_str().unicode_len()
    }

    /// True iff the character at `pos` is `c`.
    pub fn char_is(&self, pos: usize, c: char) -> (r: bool)
        requires
            pos < self.line@.len(),
        ensures
            r == (self.line@[pos as int] == c),
    {
        self.line.as_str().get_char(pos) == c
    }

    /// The content of the line within `[from, to)`.
    pub fn slice(&self, from: usize, to: usize) -> (r: &'a str)
        requires
            from <= to <= self.line@.len(),
        ensures
            r@ == self.line@.subrange(from as int, to as int),
    {
        self.line.as_str().substring_char(from, to)
    }

    /// The content of the line from `from` to its end.
    pub fn slice_from(&self, from: usize) -> (r: &'a str)
        requires
            from <= self.line@.len(),
        ensures
            r@ == self.line@.subrange(from as int, self.line@.len() as int),
    {
        let len = self.len();
        self.line.as_str().substring_char(from, len)
    }

    /// The first occurrence of `c` at or after `start`.
    pub fn find_from(&self, start: usize, c: char) -> (r: Option<usize>)
        requires
            start <= self.line@.len(),
        ensures
            match r {
                Some(i) => find_char_from(self.line@, c, start as int) == Some(i as int)
                    && start <= i < self.line@.len(),
                None => find_char_from(self.line@, c, start as int) is None,
            },
    {
        let len = self.len();
        let mut i: usize = start;
        while i < len
            invariant
                len as nat == self.line@.len(),
                start <= i <= len,
                forall|j: int| start <= j < i ==> self.line@[j] != c,
            decreases len - i,
        {
            if self.char_is(i, c) {
                proof {
                    lemma_find_char_from(self.line@, c, start as int);
                }
                return Some(i);
            }
            i += 1;
        }
        proof {
            lemma_find_char_from(self.line@, c, start as int);
        }
        None
    }

    /// The first occurrence of `c` within `[start, end)`.
    pub fn find_from_to(&self, start: usize, end: usize, c: char) -> (r: Option<usize>)
        requires
            start <= end <= self.line@.len(),
        ensures
            match r {
                Some(i) => find_char_in(self.line@, c, start as int, end as int) == Some(
                    i as int,
                ) && start <= i < end,
                None => find_char_in(self.line@, c, start as int, end as int) is None,
            },
    {
        let mut i: usize = start;
        while i < end
            invariant
                start <= i <= end,
                end <= self.line@.len(),
                forall|j: int| start <= j < i ==> self.line@[j] != c,
            decreases end - i,
        {
            if self.char_is(i, c) {
                proof {
                    lemma_find_char_in(self.line@, c, start as int, end as int);
                }
                return Some(i);
            }
            i += 1;
        }
        proof {
            lemma_find_char_in(self.line@, c, start as int, end as int);
        }
        None
    }

    /// Cut the next token, following `scan` exactly; `None` once the line
    /// is exhausted.
    pub fn next(&mut self) -> (r: Option<CommandPart>)
        requires
            old(self).wf(),
        ensures
            final(self).wf(),
            final(self).line == old(self).line,
            old(self).done ==> r is None && *final(self) == *old(self),
            !old(self).done ==> {
                let st = scan(old(self).line@, old(self).position as int);
                &&& r matches Some(part)
                    && part.slice@ == st.content
                    && part.is_error == st.error
                    && part.wf()
                &&& st.next > old(self).line@.len() ==> final(self).done
                    && final(self).position as nat == old(self).line@.len()
                &&& st.next <= old(self).line@.len() ==> !final(self).done
                    && final(self).position == st.next
            },
    {
        if self.done {
            return None;
        }
        let pos = self.position;
        let len = self.len();

        // Exactly at the end of the line: a space closed the previous
        // part, so one empty final part remains.
        if pos == len {
            self.done = true;
            proof {
                reveal_strlit("");
                assert(""@ =~= Seq::<char>::empty());
            }
            return Some(CommandPart::new(""));
        }

        if self.char_is(pos, '\'') {
            // Quoted part
            match self.find_from(pos + 1, '\'') {
                Some(nextpos) => {
                    if nextpos + 1 != len {
                        if self.char_is(nextpos + 1, ' ') {
                            // Space after the closing quote
                            self.position = nextpos + 2;
                            Some(CommandPart::new(self.slice(pos + 1, nextpos)))
                        } else {
                            // No space after the closing quote: error
                            self.position = nextpos + 1;
                            Some(CommandPart::error(self.slice(pos, nextpos)))
                        }
                    } else {
                        // The closing quote ends the line
                        self.position = len;
                        self.done = true;
                        Some(CommandPart::new(self.slice(pos + 1, nextpos)))
                    }
                },
                None => {
                    // No closing quote: the rest of the line is the part
                    self.position = len;
                    self.done = true;
                    Some(CommandPart::new(self.slice_from(pos + 1)))
                },
            }
        } else {
            // Unquoted part
            match self.find_from(pos, ' ') {
                Some(nextpos) => {
                    self.position = nextpos + 1;
                    // A stray quote inside the part is an error
                    match self.find_from_to(pos, nextpos, '\'') {
                        Some(_) => Some(CommandPart::error(self.slice(pos, nextpos))),
                        None => Some(CommandPart::new(self.slice(pos, nextpos))),
                    }
                },
                None => {
                    self.position = len;
                    self.done = true;
                    match self.find_from(pos, '\'') {
                        Some(_) => Some(CommandPart::error(self.slice_from(pos))),
                        None => Some(CommandPart::new(self.slice_from(pos))),
                    }
                },
            }
        }
    }
}

/// Tokens joined with single spaces, the canonical line for a token
/// list.
pub open spec fn join_tokens(ts: Seq<Seq<char>>) -> Seq<char>
    decreases ts.len(),
{
    if ts.len() == 0 {
        Seq::empty()
    } else if ts.len() == 1 {
        ts[0]
    } else {
        ts[0] + seq![' '] + join_tokens(ts.drop_first())
    }
}

/// A token content free of spaces and quotes.
pub open spec fn token_clean(t: Seq<char>) -> bool {
    forall|i: int| 0 <= i < t.len() ==> t[i] != ' ' && t[i] != '\''
}

/// Tokenizing a line whose suffix from `p` is clean tokens joined with
/// single spaces yields exactly those tokens, none in error.
proof fn lemma_join_from(ts: Seq<Seq<char>>, line: Seq<char>, p: int)
    requires
        ts.len() >= 1,
        forall|i: int| 0 <= i < ts.len() ==> token_clean(#[trigger] ts[i]),
        0 <= p <= line.len(),
        line.subrange(p, line.len() as int) == join_tokens(ts),
    ensures
        tokens_from(line, p).len() == ts.len(),
        forall|i: int|
            0 <= i < ts.len() ==> (#[trigger] tokens_from(line, p)[i]).content == ts[i]
                && !tokens_from(line, p)[i].error,
    decreases ts.len(),
{
    let l = line.len() as int;
    let suffix = line.subrange(p, l);
    let t0 = ts[0];
    assert(forall|j: int| p <= j < l ==> line[j] == suffix[j - p]);
    if ts.len() == 1 {
        assert(suffix =~= t0);
        if t0.len() == 0 {
            assert(p == l);
            assert(tokens_from(line, p) =~= seq![
                Tok { content: Seq::empty(), error: false },
            ]);
        } else {
            assert(p < l);
            assert(line[p] == t0[0]);
            lemma_find_char_from(line, ' ', p);
            lemma_find_char_from(line, '\'', p);
            if find_char_from(line, ' ', p) is Some {
                let q = find_char_from(line, ' ', p)->Some_0;
                assert(line[q] == ' ' && t0[q - p] == ' ');
                assert(false);
            }
            if find_char_from(line, '\'', p) is Some {
                let q = find_char_from(line, '\'', p)->Some_0;
                assert(t0[q - p] == '\'');
                assert(false);
            }
            assert(scan(line, p).content =~= t0);
            assert(tokens_from(line, p).len() == 1);
        }
    } else {
        let rest = ts.drop_first();
        assert(suffix == t0 + seq![' '] + join_tokens(rest));
        assert(forall|j: int| 0 <= j < t0.len() ==> suffix[j] == t0[j]);
        assert(suffix[t0.len() as int] == ' ');
        assert(p + t0.len() < l);
        let q = p + t0.len() as int;
        assert(line[q] == ' ');
        assert(forall|j: int| p <= j < q ==> line[j] == t0[j - p] && line[j] != ' ' && line[j]
            != '\'');
        assert(line[p] != '\'' || t0.len() == 0);
        if t0.len() == 0 {
            assert(line[p] == ' ');
        }
        lemma_find_char_from(line, ' ', p);
        if find_char_from(line, ' ', p) is None {
            assert(line[q] != ' ');
            assert(false);
        }
        let qq = find_char_from(line, ' ', p)->Some_0;
        assert(qq == q);
        lemma_find_char_in(line, '\'', p, q);
        if find_char_in(line, '\'', p, q) is Some {
            let e = find_char_in(line, '\'', p, q)->Some_0;
            assert(line[e] != '\'');
            assert(false);
        }
        let st = scan(line, p);
        assert(st.content =~= t0);
        assert(!st.error);
        assert(st.next == q + 1 <= l);
        assert(line.subrange(q + 1, l) =~= join_tokens(rest)) by {
            let tail = line.subrange(q + 1, l);
            let joined = join_tokens(rest);
            assert(forall|j: int| 0 <= j < tail.len() ==> tail[j] == suffix[t0.len() + 1 + j]);
            assert(forall|j: int|
                0 <= j < joined.len() ==> suffix[t0.len() + 1 + j] == #[trigger] joined[j]);
        }
        assert(forall|i: int| 0 <= i < rest.len() ==> token_clean(#[trigger] rest[i])) by {
            assert(forall|i: int| 0 <= i < rest.len() ==> rest[i] == ts[i + 1]);
        }
        lemma_join_from(rest, line, q + 1);
        let full = tokens_from(line, p);
        assert(full == seq![Tok { content: st.content, error: st.error }] + tokens_from(
            line,
            q + 1,
        ));
        assert(full.len() == ts.len());
        assert(forall|i: int| 1 <= i < ts.len() ==> full[i] == tokens_from(line, q + 1)[i - 1]
            && ts[i] == rest[i - 1]);
    }
}

/// Joining clean tokens with single spaces and re-tokenizing reproduces
/// the list exactly, with no token in error.  (A list with no tokens at
/// all joins to the empty line, which tokenizes to one empty token
/// instead.)
pub proof fn lemma_join_round_trip(ts: Seq<Seq<char>>)
    requires
        ts.len() >= 1,
        forall|i: int| 0 <= i < ts.len() ==> token_clean(#[trigger] ts[i]),
    ensures
        line_tokens(join_tokens(ts)).len() == ts.len(),
        forall|i: int|
            0 <= i < ts.len() ==> (#[trigger] line_tokens(join_tokens(ts))[i]).content == ts[i]
                && !line_tokens(join_tokens(ts))[i].error,
{
    let line = join_tokens(ts);
    assert(line.subrange(0, line.len() as int) =~= line);
    lemma_join_from(ts, line, 0);
}

/// A token whose content holds a space renders single-quoted, and
/// tokenizing that rendering alone gives back one token with the
/// original content, not in error.  (Tokenizer output never holds a
/// quote character inside a token, so none is required here.)
pub proof fn lemma_quoted_render_round_trip(part: CommandPart)
    requires
        part.wf(),
        !part.is_error,
        contains_char(part.slice@, ' '),
        !contains_char(part.slice@, '\''),
    ensures
        part.render() == seq!['\''] + part.slice@ + seq!['\''],
        line_tokens(part.render()).len() == 1,
        line_tokens(part.render())[0].content == part.slice@,
        !line_tokens(part.render())[0].error,
{
    let c = part.slice@;
    let line = seq!['\''] + c + seq!['\''];
    let l = line.len() as int;
    assert(l == c.len() + 2);
    assert(line[0] == '\'' && line[l - 1] == '\'');
    assert(forall|j: int| 1 <= j < l - 1 ==> line[j] == c[j - 1]);
    assert(forall|j: int| 1 <= j < l - 1 ==> line[j] != '\'');
    lemma_find_char_from(line, '\'', 1);
    if find_char_from(line, '\'', 1) is None {
        assert(line[l - 1] != '\'');
        assert(false);
    }
    let q = find_char_from(line, '\'', 1)->Some_0;
    assert(q == l - 1);
    let st = scan(line, 0);
    assert(st.content =~= c);
    assert(st.next == l + 1);
    assert(line_tokens(line).len() == 1);
}

/// A token that is not in error never holds a quote character: quoted
/// content ends at the next quote, and an unquoted part with a stray
/// quote is marked as an error.  This is why re-quoting a token's
/// content never needs escaping.
pub proof fn lemma_tokens_quote_free(line: Seq<char>, p: int)
    requires
        0 <= p <= line.len(),
    ensures
        forall|i: int|
            0 <= i < tokens_from(line, p).len() && !(#[trigger] tokens_from(line, p)[i]).error
                ==> !contains_char(tokens_from(line, p)[i].content, '\''),
    decreases line.len() + 1 - p,
{
    let l = line.len() as int;
    let st = scan(line, p);
    lemma_scan_advances(line, p);
    assert(!st.error ==> !contains_char(st.content, '\'')) by {
        if p < l {
            if line[p] == '\'' {
                lemma_find_char_from(line, '\'', p + 1);
            } else {
                lemma_find_char_from(line, ' ', p);
                match find_char_from(line, ' ', p) {
                    Some(q) => {
                        lemma_find_char_in(line, '\'', p, q);
                    },
                    None => {
                        lemma_find_char_from(line, '\'', p);
                    },
                }
            }
        }
    }
    if st.next <= l {
        lemma_tokens_quote_free(line, st.next);
        assert(forall|i: int|
            1 <= i < tokens_from(line, p).len() ==> tokens_from(line, p)[i] == tokens_from(
                line,
                st.next,
            )[i - 1]);
    }
}

/// A wholly empty line yields exactly one empty token.  (A line of only
/// spaces yields one empty token per space, and then the final empty
/// token.)
pub proof fn lemma_empty_line(line: Seq<char>)
    requires
        line.len() == 0,
    ensures
        line_tokens(line).len() == 1,
        line_tokens(line)[0].content.len() == 0,
        !line_tokens(line)[0].error,
{
}

/// An opening quote that never closes takes the whole rest of the line
/// as one token, without error.
pub proof fn lemma_unterminated_quote(line: Seq<char>)
    requires
        line.len() >= 1,
        line[0] == '\'',
        forall|j: int| 1 <= j < line.len() ==> line[j] != '\'',
    ensures
        line_tokens(line).len() == 1,
        line_tokens(line)[0].content == line.subrange(1, line.len() as int),
        !line_tokens(line)[0].error,
{
    lemma_find_char_from(line, '\'', 1);
    if find_char_from(line, '\'', 1) is Some {
        let q = find_char_from(line, '\'', 1)->Some_0;
        assert(line[q] != '\'');
        assert(false);
    }
}

/// A closing quote followed by a character that is neither a space nor
/// the end of the line marks an error token reaching from the opening
/// quote up to the character before the closing quote, and scanning
/// resumes right after the closing quote.
pub proof fn lemma_quote_error_resume(line: Seq<char>, p: int, q: int)
    requires
        0 <= p < line.len(),
        line[p] == '\'',
        p < q < line.len(),
        line[q] == '\'',
        forall|j: int| p + 1 <= j < q ==> line[j] != '\'',
        q + 1 < line.len(),
        line[q + 1] != ' ',
    ensures
        scan(line, p) == (ScanStep { content: line.subrange(p, q), error: true, next: q + 1 }),
{
    lemma_find_char_from(line, '\'', p + 1);
    if find_char_from(line, '\'', p + 1) is None {
        assert(line[q] != '\'');
        assert(false);
    }
    let qq = find_char_from(line, '\'', p + 1)->Some_0;
    assert(qq == q);
}

/// Cut a whole line into its parts.
pub fn tokenize(line: &str) -> (r: Vec<CommandPart>)
    ensures
        matches_tokens(r@, line_tokens(line@)),
{
    let cl = CommandLine::new(String::from_str(line));
    let mut it = cl.parts();
    let mut out: Vec<CommandPart> = Vec::new();
    proof {
        assert(toks_of(out@) =~= Seq::<Tok>::empty());
    }
    while !it.done
        invariant
            it.wf(),
            it.line@ == line@,
            forall|i: int| 0 <= i < out@.len() ==> (#[trigger] out@[i]).wf(),
            !it.done ==> toks_of(out@) + tokens_from(line@, it.position as int) == line_tokens(
                line@,
            ),
            it.done ==> toks_of(out@) == line_tokens(line@),
        decreases line@.len() + 1 - it.position + (if it.done { 0int } else { 1int }),
    {
        let ghost prev = it;
        let ghost prev_out = out@;
        let p = it.next();
        proof {
            lemma_scan_advances(line@, prev.position as int);
        }
        match p {
            Some(part) => {
                out.push(part);
                proof {
                    let st = scan(line@, prev.position as int);
                    let t = Tok { content: st.content, error: st.error };
                    assert(toks_of(out@) =~= toks_of(prev_out).push(t));
                    assert(tokens_from(line@, prev.position as int) == seq![t] + (if st.next
                        > line@.len() {
                        Seq::<Tok>::empty()
                    } else {
                        tokens_from(line@, st.next)
                    }));
                    if st.next > line@.len() {
                        assert(toks_of(prev_out) + tokens_from(line@, prev.position as int)
                            =~= toks_of(out@));
                    } else {
                        assert(toks_of(prev_out) + tokens_from(line@, prev.position as int)
                            =~= toks_of(out@) + tokens_from(line@, st.next));
                    }
                }
            },
            None => {
                proof {
                    assert(false);
                }
            },
        }
    }
    out
}

} // verus!
