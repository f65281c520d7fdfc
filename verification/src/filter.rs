//! Label filters: glob atoms, the legacy `,` (OR) / `+` (AND) syntax, and the
//! boolean grammar with `&&`, `||`, `!` and parentheses.
use vstd::prelude::*;
use crate::text::{contains_seq, has_substring, string_from, string_of, chars_of, contains_char, has_char, split_char, split_on, trim, trim_chars, join, occurs_at, unicode_space, trim_start, trim_end, lemma_trim_padding, lemma_split_join, lemma_join_has_char};

verus! {

// ============================================================================
// Glob matching
// ============================================================================

/// `text` matches the wildcard pattern `pattern`, where `*` matches any run
/// of characters (the empty run included) and every other character matches
/// itself.
pub open spec fn wildcard(pattern: Seq<char>, text: Seq<char>) -> bool
    decreases pattern.len() + text.len(),
{
    if pattern.len() == 0 {
        text.len() == 0
    } else if pattern[0] == '*' {
        wildcard(pattern.drop_first(), text) || (text.len() > 0 && wildcard(pattern, text.drop_first()))
    } else {
        text.len() > 0 && pattern[0] == text[0] && wildcard(pattern.drop_first(), text.drop_first())
    }
}

/// The suffixes of pattern and text from positions `i` and `j` match.
pub open spec fn glob_from(p: Seq<char>, t: Seq<char>, i: int, j: int) -> bool {
    wildcard(p.skip(i), t.skip(j))
}

/// The pattern from `i` matches the text from some position at or after `j`.
pub open spec fn matches_later(p: Seq<char>, t: Seq<char>, i: int, j: int) -> bool {
    exists|k: int| j <= k <= t.len() && #[trigger] glob_from(p, t, i, k)
}

/// One step of `wildcard` at positions `i`, `j`.
proof fn lemma_glob_step(p: Seq<char>, t: Seq<char>, i: int, j: int)
    requires
        0 <= i <= p.len(),
        0 <= j <= t.len(),
    ensures
        glob_from(p, t, i, j) == (if i == p.len() {
            j == t.len()
        } else if p[i] == '*' {
            glob_from(p, t, i + 1, j) || (j < t.len() && glob_from(p, t, i, j + 1))
        } else {
            j < t.len() && p[i] == t[j] && glob_from(p, t, i + 1, j + 1)
        }),
{
    let ps = p.skip(i);
    let ts = t.skip(j);
    if i < p.len() {
        assert(ps.drop_first() =~= p.skip(i + 1));
        assert(ps[0] == p[i]);
    }
    if j < t.len() {
        assert(ts.drop_first() =~= t.skip(j + 1));
        assert(ts[0] == t[j]);
    }
}

/// A `*` at `i` absorbs any run of text: the match from `(i, j)` holds exactly
/// when the rest of the pattern matches from some later text position.
proof fn lemma_star(p: Seq<char>, t: Seq<char>, i: int, j: int)
    requires
        0 <= i < p.len(),
        0 <= j <= t.len(),
        p[i] == '*',
    ensures
        glob_from(p, t, i, j) == matches_later(p, t, i + 1, j),
    decreases t.len() - j,
{
    lemma_glob_step(p, t, i, j);
    let i1 = i + 1;
    if j < t.len() {
        lemma_star(p, t, i, j + 1);
        if glob_from(p, t, i, j) {
            if !glob_from(p, t, i + 1, j) {
                let k = choose|k: int| j + 1 <= k <= t.len() && #[trigger] glob_from(p, t, i1, k);
                assert(j <= k <= t.len() && glob_from(p, t, i + 1, k));
            } else {
                assert(j <= j <= t.len() && glob_from(p, t, i + 1, j));
            }
        }
        if matches_later(p, t, i + 1, j) {
            let k = choose|k: int| j <= k <= t.len() && #[trigger] glob_from(p, t, i1, k);
            if k > j {
                assert(j + 1 <= k <= t.len() && glob_from(p, t, i + 1, k));
            }
        }
    } else {
        if matches_later(p, t, i + 1, j) {
            let k = choose|k: int| j <= k <= t.len() && #[trigger] glob_from(p, t, i1, k);
            assert(k == j);
        }
    }
}

/// A star-free stretch `p[a..b]` matches only the identical stretch of text.
proof fn lemma_literal(p: Seq<char>, t: Seq<char>, a: int, b: int, k: int)
    requires
        0 <= a <= b <= p.len(),
        0 <= k <= t.len(),
        forall|x: int| a <= x < b ==> p[x] != '*',
    ensures
        glob_from(p, t, a, k) == (k + (b - a) <= t.len() && t.subrange(k, k + (b - a))
            == p.subrange(a, b) && glob_from(p, t, b, k + (b - a))),
    decreases b - a,
{
    if a < b {
        lemma_glob_step(p, t, a, k);
        if k < t.len() {
            lemma_literal(p, t, a + 1, b, k + 1);
            if k + (b - a) <= t.len() {
                if t.subrange(k, k + (b - a)) == p.subrange(a, b) {
                    assert(t.subrange(k, k + (b - a))[0] == t[k]);
                    assert(t.subrange(k + 1, k + (b - a)) =~= t.subrange(k, k + (b - a)).drop_first());
                    assert(p.subrange(a + 1, b) =~= p.subrange(a, b).drop_first());
                } else if p[a] == t[k] && t.subrange(k + 1, k + (b - a)) == p.subrange(a + 1, b) {
                    assert(t.subrange(k, k + (b - a)) =~= p.subrange(a, b)) by {
                        assert forall|x: int| 0 <= x < b - a implies t.subrange(k, k + (b - a))[x]
                            == p.subrange(a, b)[x] by {
                            if x > 0 {
                                assert(t.subrange(k + 1, k + (b - a))[x - 1] == t[k + x]);
                                assert(p.subrange(a + 1, b)[x - 1] == p[a + x]);
                            }
                        }
                    }
                }
            }
        }
    } else {
        assert(t.subrange(k, k) =~= p.subrange(a, b));
    }
}

/// The rest of the pattern from `i` matches the exhausted text exactly when it
/// is all stars.
proof fn lemma_glob_empty_text(p: Seq<char>, t: Seq<char>, i: int)
    requires
        0 <= i <= p.len(),
    ensures
        glob_from(p, t, i, t.len() as int) == (forall|x: int| i <= x < p.len() ==> p[x] == '*'),
    decreases p.len() - i,
{
    lemma_glob_step(p, t, i, t.len() as int);
    if i < p.len() {
        lemma_glob_empty_text(p, t, i + 1);
    }
}

/// Whether `text` matches the glob `pattern`: `*` is a wildcard for any run
/// of characters, every other character (`?` included) matches only itself,
/// and the match spans the whole text. A `*` in the pattern is always a
/// wildcard, also against a `*` in the text.
pub fn glob_match_chars(pattern: &Vec<char>, text: &Vec<char>) -> (r: bool)
    ensures
        r == wildcard(pattern@, text@),
{
    let ghost p = pattern@;
    let ghost t = text@;
    let mut pi: usize = 0;
    let mut ti: usize = 0;
    let mut star: Option<usize> = None;
    let mut mark: usize = 0;
    assert(p.skip(0) =~= p && t.skip(0) =~= t);
    while ti < text.len()
        invariant
            p == pattern@,
            t == text@,
            pi <= p.len(),
            ti <= t.len(),
            mark <= ti,
            star matches Some(s) ==> s < p.len(),
            match star {
                None => wildcard(p, t) == glob_from(p, t, pi as int, ti as int),
                Some(s) => {
                    &&& s < pi
                    &&& p[s as int] == '*'
                    &&& ti - mark == pi - s - 1
                    &&& forall|x: int| s < x < pi ==> p[x] != '*'
                    &&& t.subrange(mark as int, ti as int) == p.subrange(s + 1, pi as int)
                    &&& wildcard(p, t) == matches_later(p, t, s + 1, mark as int)
                },
            },
        decreases t.len() - mark, t.len() - ti, p.len() - pi,
    {
        if pi < pattern.len() && pattern[pi] == '*' {
            proof {
                {
                    lemma_star(p, t, pi as int, ti as int);
                    match star {
                        None => {},
                        Some(s) => {
                            let s1 = s + 1;
                            let p1 = pi + 1;
                            lemma_literal(p, t, s + 1, pi as int, mark as int);
                            let l = pi - s - 1;
                            if matches_later(p, t, s + 1, mark as int) {
                                let k = choose|k: int| mark <= k <= t.len() && #[trigger] glob_from(p, t, s1, k);
                                lemma_literal(p, t, s + 1, pi as int, k);
                                lemma_star(p, t, pi as int, k + l);
                                let k2 = choose|k2: int| k + l <= k2 <= t.len() && #[trigger] glob_from(p, t, p1, k2);
                                assert(ti <= k2 <= t.len() && glob_from(p, t, pi + 1, k2));
                            }
                            if matches_later(p, t, pi + 1, ti as int) {
                                assert(glob_from(p, t, pi as int, ti as int));
                                assert(mark <= mark <= t.len() && glob_from(p, t, s + 1, mark as int));
                            }
                        },
                    }
                }
            }
            star = Some(pi);
            mark = ti;
            pi = pi + 1;
            assert(t.subrange(mark as int, ti as int) =~= p.subrange(pi as int, pi as int));
        } else if pi < pattern.len() && pattern[pi] == text[ti] {
            proof {
                {
                    lemma_glob_step(p, t, pi as int, ti as int);
                    match star {
                        None => {},
                        Some(s) => {
                            assert(t.subrange(mark as int, ti + 1) =~= t.subrange(mark as int, ti as int).push(t[ti as int]));
                            assert(p.subrange(s + 1, pi + 1) =~= p.subrange(s + 1, pi as int).push(p[pi as int]));
                        },
                    }
                }
            }
            pi = pi + 1;
            ti = ti + 1;
        } else {
            match star {
                Some(s) => {
                    proof {
                        {
                            let s1 = s + 1;
                            lemma_literal(p, t, s + 1, pi as int, mark as int);
                            lemma_glob_step(p, t, pi as int, ti as int);
                            assert(!glob_from(p, t, s + 1, mark as int));
                            if matches_later(p, t, s + 1, mark as int) {
                                let k = choose|k: int| mark <= k <= t.len() && #[trigger] glob_from(p, t, s1, k);
                                assert(mark + 1 <= k <= t.len() && glob_from(p, t, s + 1, k));
                            }
                        }
                    }
                    pi = s + 1;
                    mark = mark + 1;
                    ti = mark;
                    assert(t.subrange(mark as int, ti as int) =~= p.subrange(s + 1, pi as int));
                },
                None => {
                    proof {
                        {
                            lemma_glob_step(p, t, pi as int, ti as int);
                        }
                    }
                    return false;
                },
            }
        }
    }
    proof {
        {
            match star {
                None => {},
                Some(s) => {
                    let s1 = s + 1;
                    lemma_literal(p, t, s + 1, pi as int, mark as int);
                    if matches_later(p, t, s + 1, mark as int) {
                        let k = choose|k: int| mark <= k <= t.len() && #[trigger] glob_from(p, t, s1, k);
                        lemma_literal(p, t, s + 1, pi as int, k);
                        assert(k == mark);
                    }
                },
            }
            lemma_glob_empty_text(p, t, pi as int);
        }
    }
    let ghost pi0 = pi;
    while pi < pattern.len() && pattern[pi] == '*'
        invariant
            pi0 <= pi <= p.len(),
            p == pattern@,
            forall|x: int| pi0 <= x < pi ==> p[x] == '*',
        decreases p.len() - pi,
    {
        pi = pi + 1;
    }
    pi == pattern.len()
}


/// The characters of each label.
pub open spec fn seqs(v: Seq<Vec<char>>) -> Seq<Seq<char>> {
    v.map_values(|x: Vec<char>| x@)
}

/// The characters of each label given as `&str`.
pub open spec fn str_seqs(v: Seq<&str>) -> Seq<Seq<char>> {
    v.map_values(|x: &str| x@)
}

/// Some label matches the glob `pattern`.
pub open spec fn atom_in(pattern: Seq<char>, labels: Seq<Seq<char>>) -> bool {
    exists|i: int| 0 <= i < labels.len() && #[trigger] wildcard(pattern, labels[i])
}

/// Whether any of `labels` matches the (possibly glob) `pattern`.
pub fn atom_present(pattern: &Vec<char>, labels: &Vec<Vec<char>>) -> (r: bool)
    ensures
        r == atom_in(pattern@, seqs(labels@)),
{
    let mut i: usize = 0;
    while i < labels.len()
        invariant
            i <= labels.len(),
            forall|k: int| 0 <= k < i ==> !wildcard(pattern@, #[trigger] seqs(labels@)[k]),
        decreases labels.len() - i,
    {
        if glob_match_chars(pattern, &labels[i]) {
            assert(wildcard(pattern@, seqs(labels@)[i as int]));
            return true;
        }
        i = i + 1;
    }
    false
}

/// The characters of every label.
pub fn label_chars(labels: &[&str]) -> (r: Vec<Vec<char>>)
    ensures
        seqs(r@) == str_seqs(labels@),
{
    let mut r: Vec<Vec<char>> = Vec::new();
    let mut i: usize = 0;
    while i < labels.len()
        invariant
            i <= labels@.len(),
            seqs(r@) == str_seqs(labels@).take(i as int),
        decreases labels@.len() - i,
    {
        let c = chars_of(labels[i]);
        let ghost old_r = r@;
        r.push(c);
        assert(r@ == old_r.push(c));
        assert(seqs(r@) =~= seqs(old_r).push(c@));
        assert(str_seqs(labels@).take(i + 1) =~= str_seqs(labels@).take(i as int).push(labels@[i as int]@));
        i = i + 1;
    }
    assert(str_seqs(labels@).take(labels@.len() as int) =~= str_seqs(labels@));
    r
}

// ============================================================================
// Legacy syntax: `a,b` (OR), `a+b` (AND), `!a` (exclusion)
// ============================================================================

/// A (trimmed) term written with a leading `!`.
pub open spec fn is_negated(t: Seq<char>) -> bool {
    t.len() > 0 && t[0] == '!'
}

/// An AND-term holds: its atom is present, or absent when negated.
pub open spec fn term_holds(term: Seq<char>, labels: Seq<Seq<char>>) -> bool {
    let t = trim(term);
    if is_negated(t) {
        !atom_in(t.drop_first(), labels)
    } else {
        atom_in(t, labels)
    }
}

/// An OR-list term that is a negation whose atom is present.
pub open spec fn excludes(term: Seq<char>, labels: Seq<Seq<char>>) -> bool {
    let t = trim(term);
    is_negated(t) && atom_in(t.drop_first(), labels)
}

/// An OR-list term that is positive.
pub open spec fn is_positive(term: Seq<char>) -> bool {
    !is_negated(trim(term))
}

/// An OR-list term that is positive and whose atom is present.
pub open spec fn selects(term: Seq<char>, labels: Seq<Seq<char>>) -> bool {
    is_positive(term) && atom_in(trim(term), labels)
}

/// The legacy filter `f` accepts `labels`:
/// - mixing `+` and `,` is rejected (matches nothing);
/// - with `+`, every term must hold;
/// - otherwise no negative term may be present, and when there are positive
///   terms at least one of them must be present.
pub open spec fn legacy_match(labels: Seq<Seq<char>>, f: Seq<char>) -> bool {
    if has_char(f, '+') && has_char(f, ',') {
        false
    } else if has_char(f, '+') {
        let ts = split_char(f, '+');
        forall|k: int| 0 <= k < ts.len() ==> #[trigger] term_holds(ts[k], labels)
    } else {
        let ts = split_char(f, ',');
        &&& forall|k: int| 0 <= k < ts.len() ==> !#[trigger] excludes(ts[k], labels)
        &&& (forall|k: int| 0 <= k < ts.len() ==> !#[trigger] is_positive(ts[k])) || exists|k: int|
            0 <= k < ts.len() && #[trigger] selects(ts[k], labels)
    }
}

/// The term with a leading `!` removed, if it has one.
fn strip_bang(t: &Vec<char>) -> (r: Option<Vec<char>>)
    ensures
        is_negated(t@) ==> (r matches Some(x) && x@ == t@.drop_first()),
        !is_negated(t@) ==> r is None,
{
    if t.len() > 0 && t[0] == '!' {
        let mut x: Vec<char> = Vec::new();
        let mut i: usize = 1;
        while i < t.len()
            invariant
                1 <= i <= t.len(),
                x@ == t@.subrange(1, i as int),
            decreases t.len() - i,
        {
            x.push(t[i]);
            assert(t@.subrange(1, i as int).push(t@[i as int]) =~= t@.subrange(1, i + 1));
            i = i + 1;
        }
        assert(t@.subrange(1, t.len() as int) =~= t@.drop_first());
        Some(x)
    } else {
        None
    }
}

/// Check if labels match a legacy filter string.
///
/// - `integration` — matches if any label equals "integration"
/// - `!slow` — excludes if any label equals "slow"
/// - `integration,smoke` — OR: matches if any positive term matches
/// - `integration+fast` — AND: all terms must match (`integration+!slow` too)
///
/// Mixing `+` and `,` is ambiguous and matches nothing.
pub fn labels_match_filter_chars(labels: &Vec<Vec<char>>, filter: &Vec<char>) -> (r: bool)
    ensures
        r == legacy_match(seqs(labels@), filter@),
{
    let ghost ls = seqs(labels@);
    let has_plus = contains_char(filter, '+');
    let has_comma = contains_char(filter, ',');
    if has_plus && has_comma {
        return false;
    }
    if has_plus {
        let terms = split_on(filter, '+');
        let mut i: usize = 0;
        while i < terms.len()
            invariant
                i <= terms.len(),
                ls == seqs(labels@),
                has_char(filter@, '+') && !has_char(filter@, ','),
                terms@.len() == split_char(filter@, '+').len(),
                forall|k: int| 0 <= k < terms@.len() ==> #[trigger] terms@[k]@ == split_char(filter@, '+')[k],
                forall|k: int| 0 <= k < i ==> #[trigger] term_holds(split_char(filter@, '+')[k], ls),
            decreases terms.len() - i,
        {
            let term = trim_chars(&terms[i]);
            assert(terms@[i as int]@ == split_char(filter@, '+')[i as int]);
            let ok = match strip_bang(&term) {
                Some(neg) => !atom_present(&neg, labels),
                None => atom_present(&term, labels),
            };
            if !ok {
                assert(!term_holds(split_char(filter@, '+')[i as int], ls));
                assert(has_char(filter@, '+') && !has_char(filter@, ','));
                assert(!legacy_match(ls, filter@));
                return false;
            }
            i = i + 1;
        }
        return true;
    }
    let terms = split_on(filter, ',');
    let mut has_positive = false;
    let mut positive_match = false;
    let mut i: usize = 0;
    while i < terms.len()
        invariant
            i <= terms.len(),
            ls == seqs(labels@),
            !has_char(filter@, '+'),
            terms@.len() == split_char(filter@, ',').len(),
            forall|k: int| 0 <= k < terms@.len() ==> #[trigger] terms@[k]@ == split_char(filter@, ',')[k],
            forall|k: int| 0 <= k < i ==> !#[trigger] excludes(split_char(filter@, ',')[k], ls),
            has_positive == exists|k: int| 0 <= k < i && #[trigger] is_positive(split_char(filter@, ',')[k]),
            positive_match == exists|k: int| 0 <= k < i && #[trigger] selects(split_char(filter@, ',')[k], ls),
        decreases terms.len() - i,
    {
        let ghost tk = split_char(filter@, ',')[i as int];
        assert(terms@[i as int]@ == tk);
        let term = trim_chars(&terms[i]);
        match strip_bang(&term) {
            Some(neg) => {
                if atom_present(&neg, labels) {
                    assert(excludes(tk, ls));
                    assert(!has_char(filter@, '+'));
                    assert(!legacy_match(ls, filter@));
                    return false;
                }
                assert(!is_positive(tk));
            },
            None => {
                assert(is_positive(tk));
                has_positive = true;
                if atom_present(&term, labels) {
                    assert(selects(tk, ls));
                    positive_match = true;
                }
            },
        }
        i = i + 1;
    }
    !has_positive || positive_match
}


// ============================================================================
// Boolean grammar: `&&`, `||`, `!`, parentheses, glob atoms
// ============================================================================

/// A token of the boolean label-filter grammar.
#[derive(Debug)]
pub enum FilterTok {
    And,
    Or,
    Not,
    LParen,
    RParen,
    Atom(Vec<char>),
}

/// The mathematical value of a token.
pub enum Tok {
    And,
    Or,
    Not,
    LParen,
    RParen,
    Atom(Seq<char>),
}

impl View for FilterTok {
    type V = Tok;

    open spec fn view(&self) -> Tok {
        match self {
            FilterTok::And => Tok::And,
            FilterTok::Or => Tok::Or,
            FilterTok::Not => Tok::Not,
            FilterTok::LParen => Tok::LParen,
            FilterTok::RParen => Tok::RParen,
            FilterTok::Atom(a) => Tok::Atom(a@),
        }
    }
}

/// The values of a token vector.
pub open spec fn toks(v: Seq<FilterTok>) -> Seq<Tok> {
    v.map_values(|t: FilterTok| t@)
}

/// Characters that end an atom: whitespace, parentheses and operator characters.
pub open spec fn is_delim(c: char) -> bool {
    c == ' ' || c == '\t' || c == '(' || c == ')' || c == '!' || c == '&' || c == '|'
}

/// The end of the maximal run of non-delimiter characters starting at `i`.
pub open spec fn atom_end(s: Seq<char>, i: int) -> int
    decreases s.len() - i,
{
    if 0 <= i < s.len() && !is_delim(s[i]) {
        atom_end(s, i + 1)
    } else {
        i
    }
}

pub proof fn lemma_atom_end(s: Seq<char>, i: int)
    requires
        0 <= i <= s.len(),
    ensures
        i <= atom_end(s, i) <= s.len(),
        forall|x: int| i <= x < atom_end(s, i) ==> !is_delim(s[x]),
        atom_end(s, i) < s.len() ==> is_delim(s[atom_end(s, i)]),
    decreases s.len() - i,
{
    if i < s.len() && !is_delim(s[i]) {
        lemma_atom_end(s, i + 1);
    }
}

/// `t` in front of the tokens of a successful lexing; errors pass through.
pub open spec fn prepend(t: Tok, r: Result<Seq<Tok>, char>) -> Result<Seq<Tok>, char> {
    match r {
        Ok(ts) => Ok(seq![t] + ts),
        Err(c) => Err(c),
    }
}

/// The tokens of `s` from position `i`; `Err(c)` names the operator character
/// (`&` or `|`) that was not doubled.
pub open spec fn lex(s: Seq<char>, i: int) -> Result<Seq<Tok>, char>
    decreases s.len() - i,
{
    if i < 0 || i >= s.len() {
        Ok(Seq::<Tok>::empty())
    } else {
        let c = s[i];
        if c == ' ' || c == '\t' {
            lex(s, i + 1)
        } else if c == '(' {
            prepend(Tok::LParen, lex(s, i + 1))
        } else if c == ')' {
            prepend(Tok::RParen, lex(s, i + 1))
        } else if c == '!' {
            prepend(Tok::Not, lex(s, i + 1))
        } else if c == '&' {
            if i + 1 < s.len() && s[i + 1] == '&' {
                prepend(Tok::And, lex(s, i + 2))
            } else {
                Err('&')
            }
        } else if c == '|' {
            if i + 1 < s.len() && s[i + 1] == '|' {
                prepend(Tok::Or, lex(s, i + 2))
            } else {
                Err('|')
            }
        } else {
            proof {
                lemma_atom_end(s, i + 1);
            }
            prepend(Tok::Atom(s.subrange(i, atom_end(s, i))), lex(s, atom_end(s, i)))
        }
    }
}

/// The message for a lexing error at the undoubled operator `c`.
pub open spec fn lex_msg(c: char) -> Seq<char> {
    if c == '&' {
        "expected `&&`"@
    } else {
        "expected `||`"@
    }
}

/// `prefix` in front of a successful result; errors pass through.
pub open spec fn after(prefix: Seq<Tok>, r: Result<Seq<Tok>, char>) -> Result<Seq<Tok>, char> {
    match r {
        Ok(ts) => Ok(prefix + ts),
        Err(c) => Err(c),
    }
}

proof fn lemma_after_prepend(prefix: Seq<Tok>, t: Tok, r: Result<Seq<Tok>, char>)
    ensures
        after(prefix, prepend(t, r)) == after(prefix.push(t), r),
{
    match r {
        Ok(ts) => {
            assert(prefix + (seq![t] + ts) =~= prefix.push(t) + ts);
        },
        Err(_) => {},
    }
}

/// Tokenize a boolean label filter. Atoms are maximal runs of non-operator,
/// non-whitespace characters, so `pg:edge-*` is a single atom.
pub fn tokenize_filter(s: &Vec<char>) -> (r: Result<Vec<FilterTok>, String>)
    ensures
        match lex(s@, 0) {
            Ok(ts) => r matches Ok(v) && toks(v@) == ts,
            Err(c) => r matches Err(m) && m@ == lex_msg(c),
        },
{
    let mut out: Vec<FilterTok> = Vec::new();
    let mut i: usize = 0;
    assert(Seq::<Tok>::empty() + lex(s@, 0)->Ok_0 =~= lex(s@, 0)->Ok_0);
    while i < s.len()
        invariant
            i <= s.len(),
            lex(s@, 0) == after(toks(out@), lex(s@, i as int)),
        decreases s.len() - i,
    {
        let c = s[i];
        let ghost prev = toks(out@);
        if c == ' ' || c == '\t' {
            i = i + 1;
        } else if c == '(' || c == ')' || c == '!' {
            let t = if c == '(' {
                FilterTok::LParen
            } else if c == ')' {
                FilterTok::RParen
            } else {
                FilterTok::Not
            };
            proof {
                lemma_after_prepend(prev, t@, lex(s@, i + 1));
            }
            out.push(t);
            assert(toks(out@) =~= prev.push(t@));
            i = i + 1;
        } else if c == '&' || c == '|' {
            if i + 1 < s.len() && s[i + 1] == c {
                let t = if c == '&' {
                    FilterTok::And
                } else {
                    FilterTok::Or
                };
                proof {
                    lemma_after_prepend(prev, t@, lex(s@, i + 2));
                }
                out.push(t);
                assert(toks(out@) =~= prev.push(t@));
                i = i + 2;
            } else {
                if c == '&' {
                    return Err(string_from("expected `&&`"));
                } else {
                    return Err(string_from("expected `||`"));
                }
            }
        } else {
            let start = i;
            proof {
                lemma_atom_end(s@, i + 1);
            }
            while i < s.len() && !(s[i] == ' ' || s[i] == '\t' || s[i] == '(' || s[i] == ')'
                || s[i] == '!' || s[i] == '&' || s[i] == '|')
                invariant
                    start < i <= s.len() || (start == i && !is_delim(s@[start as int])),
                    start < s.len(),
                    atom_end(s@, start as int) == atom_end(s@, i as int),
                decreases s.len() - i,
            {
                i = i + 1;
            }
            proof {
                lemma_atom_end(s@, i as int);
            }
            let mut a: Vec<char> = Vec::new();
            let mut k: usize = start;
            while k < i
                invariant
                    start <= k <= i <= s.len(),
                    a@ == s@.subrange(start as int, k as int),
                decreases i - k,
            {
                a.push(s[k]);
                assert(s@.subrange(start as int, k as int).push(s@[k as int]) =~= s@.subrange(
                    start as int,
                    k + 1,
                ));
                k = k + 1;
            }
            let t = FilterTok::Atom(a);
            proof {
                lemma_after_prepend(prev, t@, lex(s@, i as int));
            }
            out.push(t);
            assert(toks(out@) =~= prev.push(t@));
        }
    }
    assert(toks(out@) + Seq::<Tok>::empty() =~= toks(out@));
    Ok(out)
}


/// Why a token sequence is not an expression.
pub enum ParseErr {
    /// The tokens ran out where an operand was expected.
    End,
    /// An operator or `)` stood where an operand was expected.
    Unexpected(Tok),
    /// An opening parenthesis was not closed.
    NoRParen,
}

/// The name a token is printed with in an error message.
pub open spec fn tok_name(t: Tok) -> Seq<char> {
    match t {
        Tok::And => "And"@,
        Tok::Or => "Or"@,
        Tok::Not => "Not"@,
        Tok::LParen => "LParen"@,
        Tok::RParen => "RParen"@,
        Tok::Atom(a) => "Atom("@ + a + ")"@,
    }
}

/// The message for a parse error.
pub open spec fn parse_msg(e: ParseErr) -> Seq<char> {
    match e {
        ParseErr::End => "unexpected end of filter"@,
        ParseErr::NoRParen => "expected `)`"@,
        ParseErr::Unexpected(t) => "unexpected token `"@ + tok_name(t) + "`"@,
    }
}

/// The value of the `||`-expression at `pos` and the position after it.
/// Precedence: `!` (tightest) > `&&` > `||`.
pub open spec fn p_or(t: Seq<Tok>, pos: int, ls: Seq<Seq<char>>) -> Result<(bool, int), ParseErr>
    decreases t.len() - pos, 5int,
{
    match p_and(t, pos, ls) {
        Ok((v, q)) => if q <= pos || q > t.len() {
            Err(ParseErr::End)
        } else {
            p_or_rest(t, q, v, ls)
        },
        Err(e) => Err(e),
    }
}

/// `acc || …` for each further `|| operand` at `pos`.
pub open spec fn p_or_rest(t: Seq<Tok>, pos: int, acc: bool, ls: Seq<Seq<char>>) -> Result<
    (bool, int),
    ParseErr,
>
    decreases t.len() - pos, 4int,
{
    if 0 <= pos < t.len() && t[pos] is Or {
        match p_and(t, pos + 1, ls) {
            Ok((v, q)) => if q <= pos || q > t.len() {
                Err(ParseErr::End)
            } else {
                p_or_rest(t, q, acc || v, ls)
            },
            Err(e) => Err(e),
        }
    } else {
        Ok((acc, pos))
    }
}

/// The value of the `&&`-expression at `pos` and the position after it.
pub open spec fn p_and(t: Seq<Tok>, pos: int, ls: Seq<Seq<char>>) -> Result<(bool, int), ParseErr>
    decreases t.len() - pos, 3int,
{
    match p_unary(t, pos, ls) {
        Ok((v, q)) => if q <= pos || q > t.len() {
            Err(ParseErr::End)
        } else {
            p_and_rest(t, q, v, ls)
        },
        Err(e) => Err(e),
    }
}

/// `acc && …` for each further `&& operand` at `pos`.
pub open spec fn p_and_rest(t: Seq<Tok>, pos: int, acc: bool, ls: Seq<Seq<char>>) -> Result<
    (bool, int),
    ParseErr,
>
    decreases t.len() - pos, 2int,
{
    if 0 <= pos < t.len() && t[pos] is And {
        match p_unary(t, pos + 1, ls) {
            Ok((v, q)) => if q <= pos || q > t.len() {
                Err(ParseErr::End)
            } else {
                p_and_rest(t, q, acc && v, ls)
            },
            Err(e) => Err(e),
        }
    } else {
        Ok((acc, pos))
    }
}

/// The value of `!`* applied to a primary at `pos`.
pub open spec fn p_unary(t: Seq<Tok>, pos: int, ls: Seq<Seq<char>>) -> Result<(bool, int), ParseErr>
    decreases t.len() - pos, 1int,
{
    if 0 <= pos < t.len() && t[pos] is Not {
        match p_unary(t, pos + 1, ls) {
            Ok((v, q)) => Ok((!v, q)),
            Err(e) => Err(e),
        }
    } else {
        p_primary(t, pos, ls)
    }
}

/// The value of an atom or a parenthesized expression at `pos`.
pub open spec fn p_primary(t: Seq<Tok>, pos: int, ls: Seq<Seq<char>>) -> Result<(bool, int), ParseErr>
    decreases t.len() - pos, 0int,
{
    if pos < 0 || pos >= t.len() {
        Err(ParseErr::End)
    } else {
        match t[pos] {
            Tok::Atom(a) => Ok((atom_in(a, ls), pos + 1)),
            Tok::LParen => match p_or(t, pos + 1, ls) {
                Ok((v, q)) => if 0 <= q < t.len() && t[q] is RParen {
                    Ok((v, q + 1))
                } else {
                    Err(ParseErr::NoRParen)
                },
                Err(e) => Err(e),
            },
            other => Err(ParseErr::Unexpected(other)),
        }
    }
}

/// A successful parse ends between `lo` and `hi`.
pub open spec fn ends_within(r: Result<(bool, int), ParseErr>, lo: int, hi: int) -> bool {
    r matches Ok((_, q)) ==> lo <= q <= hi
}

/// Every successful parse consumes at least one token and stays in bounds.
proof fn lemma_progress(t: Seq<Tok>, pos: int, ls: Seq<Seq<char>>)
    requires
        0 <= pos <= t.len(),
    ensures
        ends_within(p_or(t, pos, ls), pos + 1, t.len() as int),
        ends_within(p_and(t, pos, ls), pos + 1, t.len() as int),
        ends_within(p_unary(t, pos, ls), pos + 1, t.len() as int),
        ends_within(p_primary(t, pos, ls), pos + 1, t.len() as int),
    decreases t.len() - pos, 1int,
{
    if pos < t.len() {
        lemma_progress(t, pos + 1, ls);
        if let Ok((v, q)) = p_unary(t, pos, ls) {
            if pos < q <= t.len() {
                lemma_and_rest_progress(t, q, v, ls);
            }
        }
        if let Ok((v, q)) = p_and(t, pos, ls) {
            if pos < q <= t.len() {
                lemma_or_rest_progress(t, q, v, ls);
            }
        }
    }
}

proof fn lemma_or_rest_progress(t: Seq<Tok>, pos: int, acc: bool, ls: Seq<Seq<char>>)
    requires
        0 <= pos <= t.len(),
    ensures
        ends_within(p_or_rest(t, pos, acc, ls), pos, t.len() as int),
    decreases t.len() - pos, 0int,
{
    if pos < t.len() && t[pos] is Or {
        lemma_progress(t, pos + 1, ls);
        if let Ok((v, q)) = p_and(t, pos + 1, ls) {
            lemma_or_rest_progress(t, q, acc || v, ls);
        }
    }
}

proof fn lemma_and_rest_progress(t: Seq<Tok>, pos: int, acc: bool, ls: Seq<Seq<char>>)
    requires
        0 <= pos <= t.len(),
    ensures
        ends_within(p_and_rest(t, pos, acc, ls), pos, t.len() as int),
    decreases t.len() - pos, 0int,
{
    if pos < t.len() && t[pos] is And {
        lemma_progress(t, pos + 1, ls);
        if let Ok((v, q)) = p_unary(t, pos + 1, ls) {
            lemma_and_rest_progress(t, q, acc && v, ls);
        }
    }
}

/// The exec form of a parse result: the value and the position after it, or
/// the error message.
pub open spec fn parse_out(spec_r: Result<(bool, int), ParseErr>, r: Result<bool, String>, pos: usize) -> bool {
    match spec_r {
        Ok((v, q)) => r matches Ok(b) && b == v && pos == q,
        Err(e) => r matches Err(m) && m@ == parse_msg(e),
    }
}

/// Recursive-descent evaluator over a token vector.
pub struct FilterParser<'a> {
    pub toks: &'a Vec<FilterTok>,
    pub pos: usize,
    pub labels: &'a Vec<Vec<char>>,
}

impl<'a> FilterParser<'a> {
    /// The tokens' values.
    pub open spec fn tv(&self) -> Seq<Tok> {
        toks(self.toks@)
    }

    /// The labels' characters.
    pub open spec fn lv(&self) -> Seq<Seq<char>> {
        seqs(self.labels@)
    }

    fn unexpected(t: &FilterTok) -> (m: String)
        ensures
            m@ == parse_msg(ParseErr::Unexpected(t@)),
    {
        let mut m = string_from("unexpected token `");
        match t {
            FilterTok::And => m.append("And"),
            FilterTok::Or => m.append("Or"),
            FilterTok::Not => m.append("Not"),
            FilterTok::LParen => m.append("LParen"),
            FilterTok::RParen => m.append("RParen"),
            FilterTok::Atom(a) => {
                m.append("Atom(");
                let s = string_of(a);
                m.append(s.as_str());
                m.append(")");
            },
        }
        m.append("`");
        m
    }

    /// Evaluate a `||`-expression.
    pub fn eval_or(&mut self) -> (r: Result<bool, String>)
        requires
            old(self).pos <= old(self).tv().len(),
        ensures
            final(self).toks == old(self).toks,
            final(self).labels == old(self).labels,
            parse_out(p_or(old(self).tv(), old(self).pos as int, old(self).lv()), r, final(self).pos),
        decreases old(self).tv().len() - old(self).pos, 5int,
    {
        proof {
            lemma_progress(self.tv(), self.pos as int, self.lv());
        }
        let ghost t = self.tv();
        let ghost ls = self.lv();
        let ghost pos0 = self.pos as int;
        let ghost toks0 = self.toks;
        let ghost labels0 = self.labels;
        let mut v = match self.eval_and() {
            Ok(b) => b,
            Err(e) => {
                return Err(e);
            },
        };
        while self.pos < self.toks.len() && matches!(self.toks[self.pos], FilterTok::Or)
            invariant
                t == self.tv(),
                ls == self.lv(),
                t == old(self).tv(),
                pos0 == old(self).pos,
                self.toks == toks0,
                self.labels == labels0,
                toks0 == old(self).toks,
                labels0 == old(self).labels,
                pos0 < self.pos <= t.len(),
                p_or(t, pos0, ls) == p_or_rest(t, self.pos as int, v, ls),
            decreases t.len() - self.pos,
        {
            assert(t[self.pos as int] == self.toks@[self.pos as int]@);
            proof {
                lemma_progress(t, self.pos + 1, ls);
            }
            self.pos = self.pos + 1;
            let rhs = match self.eval_and() {
                Ok(b) => b,
                Err(e) => {
                    return Err(e);
                },
            };
            v = v || rhs;
        }
        proof {
            if self.pos < t.len() {
                assert(t[self.pos as int] == self.toks@[self.pos as int]@);
            }
        }
        Ok(v)
    }

    /// Evaluate a `&&`-expression.
    pub fn eval_and(&mut self) -> (r: Result<bool, String>)
        requires
            old(self).pos <= old(self).tv().len(),
        ensures
            final(self).toks == old(self).toks,
            final(self).labels == old(self).labels,
            parse_out(p_and(old(self).tv(), old(self).pos as int, old(self).lv()), r, final(self).pos),
        decreases old(self).tv().len() - old(self).pos, 3int,
    {
        proof {
            lemma_progress(self.tv(), self.pos as int, self.lv());
        }
        let ghost t = self.tv();
        let ghost ls = self.lv();
        let ghost pos0 = self.pos as int;
        let ghost toks0 = self.toks;
        let ghost labels0 = self.labels;
        let mut v = match self.eval_unary() {
            Ok(b) => b,
            Err(e) => {
                return Err(e);
            },
        };
        while self.pos < self.toks.len() && matches!(self.toks[self.pos], FilterTok::And)
            invariant
                t == self.tv(),
                ls == self.lv(),
                t == old(self).tv(),
                pos0 == old(self).pos,
                self.toks == toks0,
                self.labels == labels0,
                toks0 == old(self).toks,
                labels0 == old(self).labels,
                pos0 < self.pos <= t.len(),
                p_and(t, pos0, ls) == p_and_rest(t, self.pos as int, v, ls),
            decreases t.len() - self.pos,
        {
            assert(t[self.pos as int] == self.toks@[self.pos as int]@);
            proof {
                lemma_progress(t, self.pos + 1, ls);
            }
            self.pos = self.pos + 1;
            let rhs = match self.eval_unary() {
                Ok(b) => b,
                Err(e) => {
                    return Err(e);
                },
            };
            v = v && rhs;
        }
        proof {
            if self.pos < t.len() {
                assert(t[self.pos as int] == self.toks@[self.pos as int]@);
            }
        }
        Ok(v)
    }

    /// Evaluate `!`* primary.
    pub fn eval_unary(&mut self) -> (r: Result<bool, String>)
        requires
            old(self).pos <= old(self).tv().len(),
        ensures
            final(self).toks == old(self).toks,
            final(self).labels == old(self).labels,
            parse_out(p_unary(old(self).tv(), old(self).pos as int, old(self).lv()), r, final(self).pos),
        decreases old(self).tv().len() - old(self).pos, 1int,
    {
        if self.pos < self.toks.len() && matches!(self.toks[self.pos], FilterTok::Not) {
            assert(self.tv()[self.pos as int] == self.toks@[self.pos as int]@);
            self.pos = self.pos + 1;
            match self.eval_unary() {
                Ok(b) => Ok(!b),
                Err(e) => Err(e),
            }
        } else {
            proof {
                if self.pos < self.tv().len() {
                    assert(self.tv()[self.pos as int] == self.toks@[self.pos as int]@);
                }
            }
            self.eval_primary()
        }
    }

    /// Evaluate an atom or a parenthesized expression.
    pub fn eval_primary(&mut self) -> (r: Result<bool, String>)
        requires
            old(self).pos <= old(self).tv().len(),
        ensures
            final(self).toks == old(self).toks,
            final(self).labels == old(self).labels,
            parse_out(p_primary(old(self).tv(), old(self).pos as int, old(self).lv()), r, final(self).pos),
        decreases old(self).tv().len() - old(self).pos, 0int,
    {
        let toks = self.toks;
        if self.pos >= toks.len() {
            return Err(string_from("unexpected end of filter"));
        }
        assert(self.tv()[self.pos as int] == toks@[self.pos as int]@);
        match &toks[self.pos] {
            FilterTok::Atom(a) => {
                let present = atom_present(a, self.labels);
                self.pos = self.pos + 1;
                Ok(present)
            },
            FilterTok::LParen => {
                self.pos = self.pos + 1;
                let v = match self.eval_or() {
                    Ok(b) => b,
                    Err(e) => {
                        return Err(e);
                    },
                };
                if self.pos < toks.len() && matches!(toks[self.pos], FilterTok::RParen) {
                    assert(self.tv()[self.pos as int] == toks@[self.pos as int]@);
                    self.pos = self.pos + 1;
                    Ok(v)
                } else {
                    proof {
                        if self.pos < toks.len() {
                            assert(self.tv()[self.pos as int] == toks@[self.pos as int]@);
                        }
                    }
                    Err(string_from("expected `)`"))
                }
            },
            other => Err(Self::unexpected(other)),
        }
    }
}


/// What the boolean filter `f` evaluates to over `ls`, or the message of why it
/// is malformed. An empty filter (no tokens) matches.
pub open spec fn bool_eval(f: Seq<char>, ls: Seq<Seq<char>>) -> Result<bool, Seq<char>> {
    match lex(f, 0) {
        Err(c) => Err(lex_msg(c)),
        Ok(ts) => if ts.len() == 0 {
            Ok(true)
        } else {
            match p_or(ts, 0, ls) {
                Err(e) => Err(parse_msg(e)),
                Ok((v, q)) => if q != ts.len() {
                    Err("trailing tokens after expression"@)
                } else {
                    Ok(v)
                },
            }
        },
    }
}

/// Evaluate the boolean grammar over `labels`.
pub fn eval_bool_filter(filter: &Vec<char>, labels: &Vec<Vec<char>>) -> (r: Result<bool, String>)
    ensures
        match bool_eval(filter@, seqs(labels@)) {
            Ok(v) => r matches Ok(b) && b == v,
            Err(m) => r matches Err(e) && e@ == m,
        },
{
    let tv = match tokenize_filter(filter) {
        Ok(t) => t,
        Err(e) => {
            return Err(e);
        },
    };
    if tv.len() == 0 {
        assert(toks(tv@).len() == 0);
        return Ok(true);
    }
    let mut parser = FilterParser { toks: &tv, pos: 0, labels };
    let v = match parser.eval_or() {
        Ok(b) => b,
        Err(e) => {
            return Err(e);
        },
    };
    if parser.pos != tv.len() {
        return Err(string_from("trailing tokens after expression"));
    }
    Ok(v)
}

/// The filter uses the boolean grammar: it holds `&&`, `||` or a parenthesis.
pub open spec fn is_bool_filter(f: Seq<char>) -> bool {
    has_substring(f, "&&"@) || has_substring(f, "||"@) || has_char(f, '(') || has_char(f, ')')
}

/// A spec's labels match the filter: no filter, or a blank one, matches all;
/// a boolean filter matches when it evaluates to true (a malformed one matches
/// nothing); any other filter follows the legacy syntax.
pub open spec fn filter_accepts(ls: Seq<Seq<char>>, filter: Option<Seq<char>>) -> bool {
    match filter {
        None => true,
        Some(f) => {
            let t = trim(f);
            if t.len() == 0 {
                true
            } else if is_bool_filter(t) {
                bool_eval(t, ls) == Ok::<bool, Seq<char>>(true)
            } else {
                legacy_match(ls, t)
            }
        },
    }
}

/// Evaluate a label filter against a spec's labels. `None`/empty matches all.
///
/// Routes to the boolean grammar (`&&`, `||`, `!`, parentheses, glob atoms) when
/// any boolean operator or paren is present, otherwise to the legacy `,` (OR) /
/// `+` (AND) syntax (also glob-aware). Invalid boolean expressions match nothing.
pub fn labels_match_chars(labels: &Vec<Vec<char>>, filter: Option<&Vec<char>>) -> (r: bool)
    ensures
        r == filter_accepts(
            seqs(labels@),
            match filter {
                Some(f) => Some(f@),
                None => None,
            },
        ),
{
    let f = match filter {
        None => {
            return true;
        },
        Some(f) => trim_chars(f),
    };
    if f.len() == 0 {
        return true;
    }
    let and_op = chars_of("&&");
    let or_op = chars_of("||");
    let is_bool = contains_seq(&f, &and_op) || contains_seq(&f, &or_op) || contains_char(&f, '(')
        || contains_char(&f, ')');
    if is_bool {
        match eval_bool_filter(&f, labels) {
            Ok(m) => m,
            Err(_) => false,
        }
    } else {
        labels_match_filter_chars(labels, &f)
    }
}

/// Evaluate a label filter against a spec's labels given as strings.
pub fn labels_match(labels: &[&str], filter: Option<&str>) -> (r: bool)
    ensures
        r == filter_accepts(
            str_seqs(labels@),
            match filter {
                Some(f) => Some(f@),
                None => None,
            },
        ),
{
    let ls = label_chars(labels);
    match filter {
        None => labels_match_chars(&ls, None),
        Some(f) => {
            let fc = chars_of(f);
            labels_match_chars(&ls, Some(&fc))
        },
    }
}

/// The legacy filter on labels given as strings.
pub fn labels_match_filter(labels: &[&str], filter: &str) -> (r: bool)
    ensures
        r == legacy_match(str_seqs(labels@), filter@),
{
    let ls = label_chars(labels);
    let fc = chars_of(filter);
    labels_match_filter_chars(&ls, &fc)
}

/// Glob-match a label `pattern` (supporting `*` wildcards, no `?`) against `text`.
pub fn glob_match(pattern: &str, text: &str) -> (r: bool)
    ensures
        r == wildcard(pattern@, text@),
{
    let p = chars_of(pattern);
    let t = chars_of(text);
    glob_match_chars(&p, &t)
}


/// No label filter, or a blank one, lets every spec through.
pub proof fn law_blank_filter_accepts_all(ls: Seq<Seq<char>>, f: Seq<char>)
    requires
        trim(f).len() == 0,
    ensures
        filter_accepts(ls, None),
        filter_accepts(ls, Some(f)),
{
}

/// A malformed boolean filter lets no spec through.
pub proof fn law_malformed_filter_rejects(ls: Seq<Seq<char>>, f: Seq<char>)
    requires
        trim(f).len() > 0,
        is_bool_filter(trim(f)),
        bool_eval(trim(f), ls) is Err,
    ensures
        !filter_accepts(ls, Some(f)),
{
}

/// Mixing `+` and `,` in a legacy filter lets no spec through.
pub proof fn law_mixed_legacy_filter_rejects(ls: Seq<Seq<char>>, f: Seq<char>)
    requires
        has_char(f, '+'),
        has_char(f, ','),
    ensures
        !legacy_match(ls, f),
{
}


// ----------------------------------------------------------------------------
// `||` chains
// ----------------------------------------------------------------------------

/// A word that lexes as a single atom: non-empty, with no whitespace, paren or
/// operator character in it.
pub open spec fn is_atom_text(x: Seq<char>) -> bool {
    x.len() > 0 && forall|k: int| 0 <= k < x.len() ==> !#[trigger] is_delim(x[k])
}

/// The tokens `Atom(x0) op Atom(x1) op … Atom(xn)`.
pub open spec fn op_chain(xs: Seq<Seq<char>>, op: Tok) -> Seq<Tok> {
    Seq::new(
        (2 * xs.len() - 1) as nat,
        |k: int|
            if k % 2 == 0 {
                Tok::Atom(xs[k / 2])
            } else {
                op
            },
    )
}

/// The token that the doubled operator character `c` lexes to.
pub open spec fn op_tok(c: char) -> Tok {
    if c == '&' {
        Tok::And
    } else {
        Tok::Or
    }
}

/// Some atom of `xs`, from index `a` on, is present in `ls`.
pub open spec fn some_present(xs: Seq<Seq<char>>, ls: Seq<Seq<char>>, a: int) -> bool {
    exists|j: int| a <= j < xs.len() && #[trigger] atom_in(xs[j], ls)
}

proof fn lemma_chain_operand(xs: Seq<Seq<char>>, ls: Seq<Seq<char>>, i: int)
    requires
        0 <= i < xs.len(),
    ensures
        p_and(op_chain(xs, Tok::Or), 2 * i, ls) == Ok::<(bool, int), ParseErr>((atom_in(xs[i], ls), 2 * i + 1)),
{
    lemma_chain_atom(xs, ls, Tok::Or, i);
}

proof fn lemma_chain_rest(xs: Seq<Seq<char>>, ls: Seq<Seq<char>>, i: int, acc: bool)
    requires
        0 <= i < xs.len(),
    ensures
        p_or_rest(op_chain(xs, Tok::Or), 2 * i + 1, acc, ls) == Ok::<(bool, int), ParseErr>(
            (acc || some_present(xs, ls, i + 1), 2 * xs.len() - 1),
        ),
    decreases xs.len() - i,
{
    let t = op_chain(xs, Tok::Or);
    if i + 1 < xs.len() {
        assert((2 * i + 1) % 2 == 1);
        assert(t[2 * i + 1] == Tok::Or);
        lemma_chain_operand(xs, ls, i + 1);
        let a = atom_in(xs[i + 1], ls);
        lemma_chain_rest(xs, ls, i + 1, acc || a);
        if some_present(xs, ls, i + 1) {
            let j = choose|j: int| i + 1 <= j < xs.len() && #[trigger] atom_in(xs[j], ls);
            if j != i + 1 {
                assert(some_present(xs, ls, i + 2));
            }
        }
        assert(some_present(xs, ls, i + 1) == (a || some_present(xs, ls, i + 2)));
    } else {
        assert(!some_present(xs, ls, i + 1));
    }
}

/// Pieces joined with a separator start with the first piece, the separator
/// and the rest joined.
proof fn lemma_join_front(xs: Seq<Seq<char>>, sep: Seq<char>)
    requires
        xs.len() >= 2,
    ensures
        join(xs, sep) == xs[0] + sep + join(xs.drop_first(), sep),
    decreases xs.len(),
{
    let dl = xs.drop_last();
    let df = xs.drop_first();
    if xs.len() == 2 {
        assert(join(dl, sep) == xs[0]);
        assert(join(df, sep) == xs[1]);
        assert(join(xs, sep) == join(dl, sep) + sep + xs[1]);
    } else {
        lemma_join_front(dl, sep);
        assert(df.drop_last() =~= dl.drop_first());
        assert(df.last() == xs.last());
        assert(join(xs, sep) =~= xs[0] + sep + join(df, sep));
    }
}

proof fn lemma_atom_end_at(s: Seq<char>, i: int, e: int)
    requires
        0 <= i <= e <= s.len(),
        forall|k: int| i <= k < e ==> !#[trigger] is_delim(s[k]),
        e == s.len() || is_delim(s[e]),
    ensures
        atom_end(s, i) == e,
    decreases e - i,
{
    if i < e {
        lemma_atom_end_at(s, i + 1, e);
    }
}

proof fn lemma_atom_end_shift(p: Seq<char>, q: Seq<char>, j: int)
    requires
        0 <= j <= q.len(),
    ensures
        atom_end(p + q, p.len() + j) == p.len() + atom_end(q, j),
    decreases q.len() - j,
{
    if j < q.len() {
        assert((p + q)[p.len() + j] == q[j]);
        if !is_delim(q[j]) {
            lemma_atom_end_shift(p, q, j + 1);
        }
    }
}

/// Lexing does not look behind: the tokens of `p + q` from inside `q` are
/// those of `q`.
proof fn lemma_lex_shift(p: Seq<char>, q: Seq<char>, j: int)
    requires
        0 <= j <= q.len(),
    ensures
        lex(p + q, p.len() + j) == lex(q, j),
    decreases q.len() - j,
{
    let s = p + q;
    let i = p.len() + j;
    if j < q.len() {
        assert(s[i] == q[j]);
        let c = q[j];
        if c == ' ' || c == '\t' || c == '(' || c == ')' || c == '!' {
            lemma_lex_shift(p, q, j + 1);
        } else if c == '&' || c == '|' {
            if j + 1 < q.len() {
                assert(s[i + 1] == q[j + 1]);
                lemma_lex_shift(p, q, j + 2);
            }
        } else {
            lemma_atom_end(q, j + 1);
            lemma_atom_end_shift(p, q, j);
            let e = atom_end(q, j);
            assert(s.subrange(i, atom_end(s, i)) =~= q.subrange(j, e));
            lemma_lex_shift(p, q, e);
        }
    }
}

proof fn lemma_lex_chain(xs: Seq<Seq<char>>, c: char)
    requires
        c == '&' || c == '|',
        xs.len() >= 1,
        forall|j: int| 0 <= j < xs.len() ==> is_atom_text(#[trigger] xs[j]),
    ensures
        lex(join(xs, seq![' ', c, c, ' ']), 0) == Ok::<Seq<Tok>, char>(op_chain(xs, op_tok(c))),
    decreases xs.len(),
{
    let sep = seq![' ', c, c, ' '];
    let op = op_tok(c);
    let x = xs[0];
    assert(is_atom_text(x));
    if xs.len() == 1 {
        lemma_atom_end_at(x, 0, x.len() as int);
        assert(!is_delim(x[0]));
        assert(x.subrange(0, x.len() as int) =~= x);
        assert(lex(x, x.len() as int) == Ok::<Seq<Tok>, char>(Seq::<Tok>::empty()));
        assert(seq![Tok::Atom(x)] + Seq::<Tok>::empty() =~= seq![Tok::Atom(x)]);
        assert(lex(x, 0) == Ok::<Seq<Tok>, char>(seq![Tok::Atom(x)]));
        assert(op_chain(xs, op) =~= seq![Tok::Atom(x)]);
    } else {
        let df = xs.drop_first();
        assert forall|j: int| 0 <= j < df.len() implies is_atom_text(#[trigger] df[j]) by {
            assert(df[j] == xs[j + 1]);
        }
        lemma_join_front(xs, sep);
        let r = join(df, sep);
        lemma_lex_chain(df, c);
        let s = join(xs, sep);
        let n = x.len() as int;
        assert(s == (x + sep) + r);
        assert(s[n] == ' ' && s[n + 1] == c && s[n + 2] == c && s[n + 3] == ' ');
        assert forall|k: int| 0 <= k < n implies !#[trigger] is_delim(s[k]) by {
            assert(s[k] == x[k]);
        }
        lemma_atom_end_at(s, 0, n);
        assert(s.subrange(0, n) =~= x);
        lemma_lex_shift(x + sep, r, 0);
        assert((x + sep).len() == n + 4);
        assert(lex(s, n + 4) == Ok::<Seq<Tok>, char>(op_chain(df, op)));
        assert(lex(s, n + 3) == lex(s, n + 4));
        assert(lex(s, n + 1) == prepend(op, lex(s, n + 3)));
        assert(lex(s, n) == lex(s, n + 1));
        assert(lex(s, 0) == prepend(Tok::Atom(x), lex(s, n)));
        assert(op_chain(xs, op) =~= seq![Tok::Atom(x), op] + op_chain(df, op));
        assert(seq![Tok::Atom(x)] + (seq![op] + op_chain(df, op)) =~= seq![Tok::Atom(x), op] + op_chain(df, op));
    }
}

/// An `||` chain of atoms `x0 || x1 || … || xn` is the disjunction of its
/// operands: it evaluates, without error, to whether some operand's atom is
/// present among the labels, and its parse consumes every token.
pub proof fn law_or_chain_is_disjunction(xs: Seq<Seq<char>>, ls: Seq<Seq<char>>)
    requires
        xs.len() >= 1,
        forall|j: int| 0 <= j < xs.len() ==> is_atom_text(#[trigger] xs[j]),
    ensures
        p_or(op_chain(xs, Tok::Or), 0, ls) == Ok::<(bool, int), ParseErr>(
            (some_present(xs, ls, 0), 2 * xs.len() - 1),
        ),
        bool_eval(join(xs, " || "@), ls) == Ok::<bool, Seq<char>>(
            exists|j: int| 0 <= j < xs.len() && #[trigger] atom_in(xs[j], ls),
        ),
{
    let t = op_chain(xs, Tok::Or);
    lemma_chain_operand(xs, ls, 0);
    lemma_chain_rest(xs, ls, 0, atom_in(xs[0], ls));
    if some_present(xs, ls, 0) {
        let j = choose|j: int| 0 <= j < xs.len() && #[trigger] atom_in(xs[j], ls);
        if j != 0 {
            assert(some_present(xs, ls, 1));
        }
    }
    assert(some_present(xs, ls, 0) == (atom_in(xs[0], ls) || some_present(xs, ls, 1)));
    reveal_strlit(" || ");
    assert(" || "@ =~= seq![' ', '|', '|', ' ']);
    lemma_lex_chain(xs, '|');
}

/// A label filter that is an `||` chain of two or more plain words accepts a
/// spec exactly when one of the words matches one of its labels.
pub proof fn law_or_chain_filter(xs: Seq<Seq<char>>, ls: Seq<Seq<char>>)
    requires
        xs.len() >= 2,
        forall|j: int| 0 <= j < xs.len() ==> is_atom_text(#[trigger] xs[j]),
        forall|j: int, k: int| 0 <= j < xs.len() && 0 <= k < xs[j].len() ==> !unicode_space(#[trigger] xs[j][k]),
    ensures
        filter_accepts(ls, Some(join(xs, " || "@))) == exists|j: int|
            0 <= j < xs.len() && #[trigger] atom_in(xs[j], ls),
{
    law_or_chain_is_disjunction(xs, ls);
    reveal_strlit(" || ");
    reveal_strlit("||");
    let sep = " || "@;
    let f = join(xs, sep);
    lemma_join_front(xs, sep);
    let x = xs[0];
    assert(is_atom_text(x));
    let n = x.len() as int;
    assert(f[0] == x[0]);
    assert(!unicode_space(f[0]));
    assert(trim_start(f) == f);
    let l = xs.last();
    assert(is_atom_text(l));
    assert(f == join(xs.drop_last(), sep) + sep + l);
    assert(f.last() == l[l.len() - 1]);
    assert(!unicode_space(xs[xs.len() - 1][l.len() - 1]));
    assert(trim_end(f) == f);
    assert(trim(f) == f);
    assert(f.subrange(n + 1, n + 3) =~= "||"@);
    assert(occurs_at(f, "||"@, n + 1));
    assert(is_bool_filter(f));
}


/// Every atom of `xs`, from index `a` on, is present in `ls`.
pub open spec fn all_present(xs: Seq<Seq<char>>, ls: Seq<Seq<char>>, a: int) -> bool {
    forall|j: int| a <= j < xs.len() ==> #[trigger] atom_in(xs[j], ls)
}

proof fn lemma_chain_atom(xs: Seq<Seq<char>>, ls: Seq<Seq<char>>, op: Tok, i: int)
    requires
        0 <= i < xs.len(),
    ensures
        p_unary(op_chain(xs, op), 2 * i, ls) == Ok::<(bool, int), ParseErr>((atom_in(xs[i], ls), 2 * i + 1)),
        2 * i + 1 < op_chain(xs, op).len() ==> op_chain(xs, op)[2 * i + 1] == op,
{
    let t = op_chain(xs, op);
    assert((2 * i) % 2 == 0 && (2 * i) / 2 == i);
    assert(2 * i < t.len());
    assert(t[2 * i] == Tok::Atom(xs[i]));
    assert(!(t[2 * i] is Not));
    assert(p_primary(t, 2 * i, ls) == Ok::<(bool, int), ParseErr>((atom_in(xs[i], ls), 2 * i + 1)));
    if 2 * i + 1 < t.len() {
        assert((2 * i + 1) % 2 == 1);
    }
}

proof fn lemma_and_chain_rest(xs: Seq<Seq<char>>, ls: Seq<Seq<char>>, i: int, acc: bool)
    requires
        0 <= i < xs.len(),
    ensures
        p_and_rest(op_chain(xs, Tok::And), 2 * i + 1, acc, ls) == Ok::<(bool, int), ParseErr>(
            (acc && all_present(xs, ls, i + 1), 2 * xs.len() - 1),
        ),
    decreases xs.len() - i,
{
    let t = op_chain(xs, Tok::And);
    lemma_chain_atom(xs, ls, Tok::And, i);
    if i + 1 < xs.len() {
        lemma_chain_atom(xs, ls, Tok::And, i + 1);
        let a = atom_in(xs[i + 1], ls);
        lemma_and_chain_rest(xs, ls, i + 1, acc && a);
        assert(all_present(xs, ls, i + 1) == (a && all_present(xs, ls, i + 2)));
    }
}

/// An `&&` chain of atoms `x0 && x1 && … && xn` is the conjunction of its
/// operands: it evaluates, without error, to whether every operand's atom is
/// present among the labels, and its parse consumes every token.
pub proof fn law_and_chain_is_conjunction(xs: Seq<Seq<char>>, ls: Seq<Seq<char>>)
    requires
        xs.len() >= 1,
        forall|j: int| 0 <= j < xs.len() ==> is_atom_text(#[trigger] xs[j]),
    ensures
        p_or(op_chain(xs, Tok::And), 0, ls) == Ok::<(bool, int), ParseErr>(
            (all_present(xs, ls, 0), 2 * xs.len() - 1),
        ),
        bool_eval(join(xs, " && "@), ls) == Ok::<bool, Seq<char>>(
            forall|j: int| 0 <= j < xs.len() ==> #[trigger] atom_in(xs[j], ls),
        ),
{
    let t = op_chain(xs, Tok::And);
    lemma_chain_atom(xs, ls, Tok::And, 0);
    lemma_and_chain_rest(xs, ls, 0, atom_in(xs[0], ls));
    assert(all_present(xs, ls, 0) == (atom_in(xs[0], ls) && all_present(xs, ls, 1)));
    assert(p_and(t, 0, ls) == Ok::<(bool, int), ParseErr>((all_present(xs, ls, 0), 2 * xs.len() - 1)));
    reveal_strlit(" && ");
    assert(" && "@ =~= seq![' ', '&', '&', ' ']);
    lemma_lex_chain(xs, '&');
}

/// A label filter that is an `&&` chain of two or more plain words accepts a
/// spec exactly when every word matches one of its labels.
pub proof fn law_and_chain_filter(xs: Seq<Seq<char>>, ls: Seq<Seq<char>>)
    requires
        xs.len() >= 2,
        forall|j: int| 0 <= j < xs.len() ==> is_atom_text(#[trigger] xs[j]),
        forall|j: int, k: int| 0 <= j < xs.len() && 0 <= k < xs[j].len() ==> !unicode_space(#[trigger] xs[j][k]),
    ensures
        filter_accepts(ls, Some(join(xs, " && "@))) == forall|j: int|
            0 <= j < xs.len() ==> #[trigger] atom_in(xs[j], ls),
{
    law_and_chain_is_conjunction(xs, ls);
    reveal_strlit(" && ");
    reveal_strlit("&&");
    let sep = " && "@;
    let f = join(xs, sep);
    lemma_join_front(xs, sep);
    let x = xs[0];
    assert(is_atom_text(x));
    let n = x.len() as int;
    assert(f[0] == x[0]);
    assert(!unicode_space(f[0]));
    assert(trim_start(f) == f);
    let l = xs.last();
    assert(is_atom_text(l));
    assert(f == join(xs.drop_last(), sep) + sep + l);
    assert(f.last() == l[l.len() - 1]);
    assert(!unicode_space(xs[xs.len() - 1][l.len() - 1]));
    assert(trim_end(f) == f);
    assert(trim(f) == f);
    assert(f.subrange(n + 1, n + 3) =~= "&&"@);
    assert(occurs_at(f, "&&"@, n + 1));
    assert(is_bool_filter(f));
}

/// Lexing at an atom `x` that stands at `i` and is followed by a delimiter or
/// the end gives `x` and then the tokens after it.
proof fn lemma_lex_atom_at(s: Seq<char>, i: int, x: Seq<char>)
    requires
        0 <= i,
        i + x.len() <= s.len(),
        is_atom_text(x),
        s.subrange(i, i + x.len()) == x,
        i + x.len() == s.len() || is_delim(s[i + x.len()]),
    ensures
        lex(s, i) == prepend(Tok::Atom(x), lex(s, i + x.len())),
{
    assert forall|k: int| i <= k < i + x.len() implies !#[trigger] is_delim(s[k]) by {
        assert(s[k] == s.subrange(i, i + x.len())[k - i]);
    }
    lemma_atom_end_at(s, i, i + x.len());
    assert(s[i] == s.subrange(i, i + x.len())[0]);
    assert(!is_delim(x[0]));
}

/// The tokens of `x op1 y op2 z`, each operator written doubled between single
/// spaces.
proof fn lemma_lex_three(x: Seq<char>, c1: char, y: Seq<char>, c2: char, z: Seq<char>)
    requires
        is_atom_text(x),
        is_atom_text(y),
        is_atom_text(z),
        c1 == '&' || c1 == '|',
        c2 == '&' || c2 == '|',
    ensures
        lex(x + seq![' ', c1, c1, ' '] + y + seq![' ', c2, c2, ' '] + z, 0) == Ok::<Seq<Tok>, char>(
            seq![Tok::Atom(x), op_tok(c1), Tok::Atom(y), op_tok(c2), Tok::Atom(z)],
        ),
{
    let s1 = seq![' ', c1, c1, ' '];
    let s2 = seq![' ', c2, c2, ' '];
    let s = x + s1 + y + s2 + z;
    let a = x.len() as int;
    let b = a + 4;
    let c = b + y.len() + 4;
    assert(s.len() == c + z.len());
    assert(s.subrange(0, a) =~= x);
    assert(s.subrange(b, b + y.len()) =~= y);
    assert(s.subrange(c, c + z.len()) =~= z);
    assert(s[a] == ' ' && s[a + 1] == c1 && s[a + 2] == c1 && s[a + 3] == ' ');
    let e = b + y.len();
    assert(s[e] == ' ' && s[e + 1] == c2 && s[e + 2] == c2 && s[e + 3] == ' ');
    lemma_lex_atom_at(s, c, z);
    assert(lex(s, c + z.len()) == Ok::<Seq<Tok>, char>(Seq::<Tok>::empty()));
    assert(lex(s, c) == Ok::<Seq<Tok>, char>(seq![Tok::Atom(z)]));
    assert(lex(s, e + 3) == lex(s, c));
    assert(lex(s, e + 1) == prepend(op_tok(c2), lex(s, e + 3)));
    assert(lex(s, e) == lex(s, e + 1));
    lemma_lex_atom_at(s, b, y);
    assert(lex(s, a + 3) == lex(s, b));
    assert(lex(s, a + 1) == prepend(op_tok(c1), lex(s, a + 3)));
    assert(lex(s, a) == lex(s, a + 1));
    lemma_lex_atom_at(s, 0, x);
    assert(seq![Tok::Atom(x)] + (seq![op_tok(c1)] + (seq![Tok::Atom(y)] + (seq![op_tok(c2)] + seq![Tok::Atom(z)])))
        =~= seq![Tok::Atom(x), op_tok(c1), Tok::Atom(y), op_tok(c2), Tok::Atom(z)]);
}

proof fn lemma_parse_or_and(x: Seq<char>, y: Seq<char>, z: Seq<char>, ls: Seq<Seq<char>>)
    ensures
        p_or(seq![Tok::Atom(x), Tok::Or, Tok::Atom(y), Tok::And, Tok::Atom(z)], 0, ls) == Ok::<
            (bool, int),
            ParseErr,
        >((atom_in(x, ls) || (atom_in(y, ls) && atom_in(z, ls)), 5)),
{
    let va = atom_in(x, ls);
    let vb = atom_in(y, ls);
    let vc = atom_in(z, ls);
    let t = seq![Tok::Atom(x), Tok::Or, Tok::Atom(y), Tok::And, Tok::Atom(z)];
    assert(p_unary(t, 0, ls) == Ok::<(bool, int), ParseErr>((va, 1)));
    assert(p_and(t, 0, ls) == Ok::<(bool, int), ParseErr>((va, 1)));
    assert(p_unary(t, 2, ls) == Ok::<(bool, int), ParseErr>((vb, 3)));
    assert(p_unary(t, 4, ls) == Ok::<(bool, int), ParseErr>((vc, 5)));
    assert(p_and_rest(t, 5, vb && vc, ls) == Ok::<(bool, int), ParseErr>((vb && vc, 5)));
    assert(p_and_rest(t, 3, vb, ls) == Ok::<(bool, int), ParseErr>((vb && vc, 5)));
    assert(p_and(t, 2, ls) == Ok::<(bool, int), ParseErr>((vb && vc, 5)));
    assert(p_or_rest(t, 5, va || (vb && vc), ls) == Ok::<(bool, int), ParseErr>((va || (vb && vc), 5)));
    assert(p_or_rest(t, 1, va, ls) == Ok::<(bool, int), ParseErr>((va || (vb && vc), 5)));
}

proof fn lemma_parse_and_or(x: Seq<char>, y: Seq<char>, z: Seq<char>, ls: Seq<Seq<char>>)
    ensures
        p_or(seq![Tok::Atom(x), Tok::And, Tok::Atom(y), Tok::Or, Tok::Atom(z)], 0, ls) == Ok::<
            (bool, int),
            ParseErr,
        >(((atom_in(x, ls) && atom_in(y, ls)) || atom_in(z, ls), 5)),
{
    let va = atom_in(x, ls);
    let vb = atom_in(y, ls);
    let vc = atom_in(z, ls);
    let u = seq![Tok::Atom(x), Tok::And, Tok::Atom(y), Tok::Or, Tok::Atom(z)];
    assert(p_unary(u, 0, ls) == Ok::<(bool, int), ParseErr>((va, 1)));
    assert(p_unary(u, 2, ls) == Ok::<(bool, int), ParseErr>((vb, 3)));
    assert(p_and_rest(u, 3, va && vb, ls) == Ok::<(bool, int), ParseErr>((va && vb, 3)));
    assert(p_and_rest(u, 1, va, ls) == Ok::<(bool, int), ParseErr>((va && vb, 3)));
    assert(p_and(u, 0, ls) == Ok::<(bool, int), ParseErr>((va && vb, 3)));
    assert(p_unary(u, 4, ls) == Ok::<(bool, int), ParseErr>((vc, 5)));
    assert(p_and(u, 4, ls) == Ok::<(bool, int), ParseErr>((vc, 5)));
    assert(p_or_rest(u, 5, (va && vb) || vc, ls) == Ok::<(bool, int), ParseErr>(((va && vb) || vc, 5)));
    assert(p_or_rest(u, 3, va && vb, ls) == Ok::<(bool, int), ParseErr>(((va && vb) || vc, 5)));
}

/// `&&` binds tighter than `||`: `x || y && z` is `x || (y && z)` and
/// `x && y || z` is `(x && y) || z`, and neither is an error.
pub proof fn law_and_binds_tighter(x: Seq<char>, y: Seq<char>, z: Seq<char>, ls: Seq<Seq<char>>)
    requires
        is_atom_text(x),
        is_atom_text(y),
        is_atom_text(z),
    ensures
        bool_eval(x + " || "@ + y + " && "@ + z, ls) == Ok::<bool, Seq<char>>(
            atom_in(x, ls) || (atom_in(y, ls) && atom_in(z, ls)),
        ),
        bool_eval(x + " && "@ + y + " || "@ + z, ls) == Ok::<bool, Seq<char>>(
            (atom_in(x, ls) && atom_in(y, ls)) || atom_in(z, ls),
        ),
{
    reveal_strlit(" || ");
    reveal_strlit(" && ");
    assert(" || "@ =~= seq![' ', '|', '|', ' ']);
    assert(" && "@ =~= seq![' ', '&', '&', ' ']);
    lemma_lex_three(x, '|', y, '&', z);
    lemma_parse_or_and(x, y, z, ls);
    lemma_lex_three(x, '&', y, '|', z);
    lemma_parse_and_or(x, y, z, ls);
}

proof fn lemma_lex_grouped(x: Seq<char>, y: Seq<char>, z: Seq<char>)
    requires
        is_atom_text(x),
        is_atom_text(y),
        is_atom_text(z),
    ensures
        lex(seq!['('] + x + seq![' ', '|', '|', ' '] + y + seq![')', ' ', '&', '&', ' '] + z, 0) == Ok::<
            Seq<Tok>,
            char,
        >(seq![Tok::LParen, Tok::Atom(x), Tok::Or, Tok::Atom(y), Tok::RParen, Tok::And, Tok::Atom(z)]),
{
    let s = seq!['('] + x + seq![' ', '|', '|', ' '] + y + seq![')', ' ', '&', '&', ' '] + z;
    let a = 1 + x.len() as int;
    let b = a + 4;
    let e = b + y.len();
    let c = e + 5;
    assert(s.len() == c + z.len());
    assert(s[0] == '(');
    assert(s.subrange(1, a) =~= x);
    assert(s.subrange(b, e) =~= y);
    assert(s.subrange(c, c + z.len()) =~= z);
    assert(s[a] == ' ' && s[a + 1] == '|' && s[a + 2] == '|' && s[a + 3] == ' ');
    assert(s[e] == ')' && s[e + 1] == ' ' && s[e + 2] == '&' && s[e + 3] == '&' && s[e + 4] == ' ');
    lemma_lex_atom_at(s, c, z);
    assert(lex(s, c + z.len()) == Ok::<Seq<Tok>, char>(Seq::<Tok>::empty()));
    assert(lex(s, e + 4) == lex(s, c));
    assert(lex(s, e + 2) == prepend(Tok::And, lex(s, e + 4)));
    assert(lex(s, e + 1) == lex(s, e + 2));
    assert(lex(s, e) == prepend(Tok::RParen, lex(s, e + 1)));
    lemma_lex_atom_at(s, b, y);
    assert(lex(s, a + 3) == lex(s, b));
    assert(lex(s, a + 1) == prepend(Tok::Or, lex(s, a + 3)));
    assert(lex(s, a) == lex(s, a + 1));
    lemma_lex_atom_at(s, 1, x);
    assert(lex(s, 0) == prepend(Tok::LParen, lex(s, 1)));
    assert(seq![Tok::LParen] + (seq![Tok::Atom(x)] + (seq![Tok::Or] + (seq![Tok::Atom(y)] + (seq![Tok::RParen]
        + (seq![Tok::And] + (seq![Tok::Atom(z)] + Seq::<Tok>::empty())))))) =~= seq![
        Tok::LParen,
        Tok::Atom(x),
        Tok::Or,
        Tok::Atom(y),
        Tok::RParen,
        Tok::And,
        Tok::Atom(z),
    ]);
}

proof fn lemma_parse_grouped(x: Seq<char>, y: Seq<char>, z: Seq<char>, ls: Seq<Seq<char>>)
    ensures
        p_or(seq![Tok::LParen, Tok::Atom(x), Tok::Or, Tok::Atom(y), Tok::RParen, Tok::And, Tok::Atom(z)], 0, ls)
            == Ok::<(bool, int), ParseErr>(((atom_in(x, ls) || atom_in(y, ls)) && atom_in(z, ls), 7)),
{
    let va = atom_in(x, ls);
    let vb = atom_in(y, ls);
    let vc = atom_in(z, ls);
    let t = seq![Tok::LParen, Tok::Atom(x), Tok::Or, Tok::Atom(y), Tok::RParen, Tok::And, Tok::Atom(z)];
    assert(p_unary(t, 1, ls) == Ok::<(bool, int), ParseErr>((va, 2)));
    assert(p_and(t, 1, ls) == Ok::<(bool, int), ParseErr>((va, 2)));
    assert(p_unary(t, 3, ls) == Ok::<(bool, int), ParseErr>((vb, 4)));
    assert(p_and(t, 3, ls) == Ok::<(bool, int), ParseErr>((vb, 4)));
    assert(p_or_rest(t, 4, va || vb, ls) == Ok::<(bool, int), ParseErr>((va || vb, 4)));
    assert(p_or_rest(t, 2, va, ls) == Ok::<(bool, int), ParseErr>((va || vb, 4)));
    assert(p_or(t, 1, ls) == Ok::<(bool, int), ParseErr>((va || vb, 4)));
    assert(p_primary(t, 0, ls) == Ok::<(bool, int), ParseErr>((va || vb, 5)));
    assert(p_unary(t, 0, ls) == Ok::<(bool, int), ParseErr>((va || vb, 5)));
    assert(p_unary(t, 6, ls) == Ok::<(bool, int), ParseErr>((vc, 7)));
    assert(p_and_rest(t, 7, (va || vb) && vc, ls) == Ok::<(bool, int), ParseErr>(((va || vb) && vc, 7)));
    assert(p_and_rest(t, 5, va || vb, ls) == Ok::<(bool, int), ParseErr>(((va || vb) && vc, 7)));
    assert(p_and(t, 0, ls) == Ok::<(bool, int), ParseErr>(((va || vb) && vc, 7)));
}

/// Parentheses group: `(x || y) && z` is `(x || y) && z`, not `x || (y && z)`;
/// and an opening parenthesis that is never closed makes the filter malformed.
pub proof fn law_parens_group(x: Seq<char>, y: Seq<char>, z: Seq<char>, ls: Seq<Seq<char>>)
    requires
        is_atom_text(x),
        is_atom_text(y),
        is_atom_text(z),
    ensures
        bool_eval(seq!['('] + x + " || "@ + y + ") && "@ + z, ls) == Ok::<bool, Seq<char>>(
            (atom_in(x, ls) || atom_in(y, ls)) && atom_in(z, ls),
        ),
        bool_eval(seq!['('] + x, ls) == Err::<bool, Seq<char>>("expected `)`"@),
{
    reveal_strlit(" || ");
    reveal_strlit(") && ");
    assert(" || "@ =~= seq![' ', '|', '|', ' ']);
    assert(") && "@ =~= seq![')', ' ', '&', '&', ' ']);
    lemma_lex_grouped(x, y, z);
    lemma_parse_grouped(x, y, z, ls);
    let s = seq!['('] + x;
    assert(s.subrange(1, 1 + x.len() as int) =~= x);
    lemma_lex_atom_at(s, 1, x);
    assert(lex(s, 1 + x.len() as int) == Ok::<Seq<Tok>, char>(Seq::<Tok>::empty()));
    assert(lex(s, 0) == prepend(Tok::LParen, lex(s, 1)));
    let t = seq![Tok::LParen, Tok::Atom(x)];
    assert(seq![Tok::LParen] + (seq![Tok::Atom(x)] + Seq::<Tok>::empty()) =~= t);
    assert(p_unary(t, 1, ls) == Ok::<(bool, int), ParseErr>((atom_in(x, ls), 2)));
    assert(p_and(t, 1, ls) == Ok::<(bool, int), ParseErr>((atom_in(x, ls), 2)));
    assert(p_or(t, 1, ls) == Ok::<(bool, int), ParseErr>((atom_in(x, ls), 2)));
    assert(p_primary(t, 0, ls) == Err::<(bool, int), ParseErr>(ParseErr::NoRParen));
    assert(p_or(t, 0, ls) == Err::<(bool, int), ParseErr>(ParseErr::NoRParen));
}

/// `!x` holds exactly when the atom `x` is absent.
pub proof fn law_not_negates(x: Seq<char>, ls: Seq<Seq<char>>)
    requires
        is_atom_text(x),
    ensures
        bool_eval(seq!['!'] + x, ls) == Ok::<bool, Seq<char>>(!atom_in(x, ls)),
{
    let s = seq!['!'] + x;
    assert(s.subrange(1, 1 + x.len() as int) =~= x);
    lemma_lex_atom_at(s, 1, x);
    assert(lex(s, 1 + x.len() as int) == Ok::<Seq<Tok>, char>(Seq::<Tok>::empty()));
    assert(lex(s, 0) == prepend(Tok::Not, lex(s, 1)));
    let t = seq![Tok::Not, Tok::Atom(x)];
    assert(seq![Tok::Not] + (seq![Tok::Atom(x)] + Seq::<Tok>::empty()) =~= t);
    let v = atom_in(x, ls);
    assert(p_unary(t, 1, ls) == Ok::<(bool, int), ParseErr>((v, 2)));
    assert(p_unary(t, 0, ls) == Ok::<(bool, int), ParseErr>((!v, 2)));
    assert(p_and(t, 0, ls) == Ok::<(bool, int), ParseErr>((!v, 2)));
    assert(p_or(t, 0, ls) == Ok::<(bool, int), ParseErr>((!v, 2)));
}

// ----------------------------------------------------------------------------
// Whitespace in legacy filters
// ----------------------------------------------------------------------------

/// Each term `ts[k]` with the whitespace `pre[k]` before it and `post[k]` after.
pub open spec fn padded(pre: Seq<Seq<char>>, ts: Seq<Seq<char>>, post: Seq<Seq<char>>) -> Seq<Seq<char>> {
    Seq::new(ts.len(), |k: int| pre[k] + ts[k] + post[k])
}

/// Every character of every piece is whitespace.
pub open spec fn all_space(ws: Seq<Seq<char>>) -> bool {
    forall|k: int, i: int| 0 <= k < ws.len() && 0 <= i < ws[k].len() ==> unicode_space(#[trigger] ws[k][i])
}

/// A legacy term reads the same whatever whitespace surrounds it.
pub proof fn law_term_padding_ignored(a: Seq<char>, t: Seq<char>, b: Seq<char>, ls: Seq<Seq<char>>)
    requires
        forall|k: int| 0 <= k < a.len() ==> unicode_space(#[trigger] a[k]),
        forall|k: int| 0 <= k < b.len() ==> unicode_space(#[trigger] b[k]),
    ensures
        term_holds(a + t + b, ls) == term_holds(t, ls),
        excludes(a + t + b, ls) == excludes(t, ls),
        is_positive(a + t + b) == is_positive(t),
        selects(a + t + b, ls) == selects(t, ls),
{
    lemma_trim_padding(a, t, b);
}

/// Whitespace around the terms of a legacy filter does not matter: a `,` list
/// or a `+` list whose terms are padded with whitespace accepts exactly what
/// the list of the bare terms accepts (`"a, b"` behaves as `"a,b"`).
pub proof fn law_legacy_padding_ignored(
    ls: Seq<Seq<char>>,
    pre: Seq<Seq<char>>,
    ts: Seq<Seq<char>>,
    post: Seq<Seq<char>>,
    sep: char,
)
    requires
        sep == ',' || sep == '+',
        ts.len() >= 1,
        pre.len() == ts.len(),
        post.len() == ts.len(),
        forall|k: int| 0 <= k < ts.len() ==> !has_char(#[trigger] ts[k], ',') && !has_char(ts[k], '+'),
        all_space(pre),
        all_space(post),
    ensures
        legacy_match(ls, join(padded(pre, ts, post), seq![sep])) == legacy_match(ls, join(ts, seq![sep])),
{
    let ps = padded(pre, ts, post);
    assert forall|k: int| 0 <= k < ts.len() implies {
        &&& !has_char(#[trigger] ps[k], ',')
        &&& !has_char(ps[k], '+')
        &&& term_holds(ps[k], ls) == term_holds(ts[k], ls)
        &&& excludes(ps[k], ls) == excludes(ts[k], ls)
        &&& is_positive(ps[k]) == is_positive(ts[k])
        &&& selects(ps[k], ls) == selects(ts[k], ls)
    } by {
        let a = pre[k];
        let b = post[k];
        let t = ts[k];
        assert forall|i: int| 0 <= i < a.len() implies unicode_space(#[trigger] a[i]) by {
            assert(unicode_space(pre[k][i]));
        }
        assert forall|i: int| 0 <= i < b.len() implies unicode_space(#[trigger] b[i]) by {
            assert(unicode_space(post[k][i]));
        }
        law_term_padding_ignored(a, t, b, ls);
        let p = a + t + b;
        assert(ps[k] == p);
        assert forall|c: char| (c == ',' || c == '+') implies !has_char(p, c) by {
            if has_char(p, c) {
                let i = choose|i: int| 0 <= i < p.len() && p[i] == c;
                if i < a.len() {
                    assert(p[i] == a[i]);
                    assert(unicode_space(a[i]));
                } else if i < a.len() + t.len() {
                    assert(p[i] == t[i - a.len()]);
                    assert(has_char(t, c));
                } else {
                    assert(p[i] == b[i - a.len() - t.len()]);
                    assert(unicode_space(b[i - a.len() - t.len()]));
                }
            }
        }
    }
    lemma_join_has_char(ts, sep, ',');
    lemma_join_has_char(ts, sep, '+');
    lemma_join_has_char(ps, sep, ',');
    lemma_join_has_char(ps, sep, '+');
    lemma_split_join(ts, sep);
    lemma_split_join(ps, sep);
    let f = join(ts, seq![sep]);
    let g = join(ps, seq![sep]);
    if sep == '+' && ts.len() >= 2 {
        assert(split_char(g, '+') == ps);
        assert(split_char(f, '+') == ts);
        if legacy_match(ls, f) {
            assert forall|k: int| 0 <= k < ps.len() implies #[trigger] term_holds(ps[k], ls) by {
                assert(term_holds(ts[k], ls));
            }
        }
        if legacy_match(ls, g) {
            assert forall|k: int| 0 <= k < ts.len() implies #[trigger] term_holds(ts[k], ls) by {
                assert(term_holds(ps[k], ls));
            }
        }
    } else {
        let sf = split_char(f, ',');
        let sg = split_char(g, ',');
        if sep == ',' {
            assert(sg == ps && sf == ts);
        } else {
            // a single `+` term: the whole text is one `,` piece
            assert(ts.len() == 1);
            assert(f == ts[0]);
            assert(g == ps[0]);
            lemma_split_join(seq![ts[0]], ',');
            lemma_split_join(seq![ps[0]], ',');
            assert(join(seq![ts[0]], seq![',']) == ts[0]);
            assert(join(seq![ps[0]], seq![',']) == ps[0]);
            assert(sf == seq![ts[0]]);
            assert(sg == seq![ps[0]]);
        }
        assert(sf.len() == sg.len());
        assert forall|k: int| 0 <= k < sf.len() implies {
            &&& excludes(#[trigger] sf[k], ls) == excludes(sg[k], ls)
            &&& is_positive(sf[k]) == is_positive(sg[k])
            &&& selects(sf[k], ls) == selects(sg[k], ls)
        } by {
            if sep == ',' {
                assert(sf[k] == ts[k] && sg[k] == ps[k]);
            } else {
                assert(sf[k] == ts[0] && sg[k] == ps[0]);
            }
        }
        if legacy_match(ls, f) {
            assert forall|k: int| 0 <= k < sg.len() implies !#[trigger] excludes(sg[k], ls) by {
                assert(!excludes(sf[k], ls));
            }
            if exists|k: int| 0 <= k < sf.len() && #[trigger] selects(sf[k], ls) {
                let k = choose|k: int| 0 <= k < sf.len() && #[trigger] selects(sf[k], ls);
                assert(selects(sg[k], ls));
            } else {
                assert forall|k: int| 0 <= k < sg.len() implies !#[trigger] is_positive(sg[k]) by {
                    assert(!is_positive(sf[k]));
                }
            }
        }
        if legacy_match(ls, g) {
            assert forall|k: int| 0 <= k < sf.len() implies !#[trigger] excludes(sf[k], ls) by {
                assert(!excludes(sg[k], ls));
            }
            if exists|k: int| 0 <= k < sg.len() && #[trigger] selects(sg[k], ls) {
                let k = choose|k: int| 0 <= k < sg.len() && #[trigger] selects(sg[k], ls);
                assert(selects(sf[k], ls));
            } else {
                assert forall|k: int| 0 <= k < sf.len() implies !#[trigger] is_positive(sf[k]) by {
                    assert(!is_positive(sg[k]));
                }
            }
        }
    }
}


/// A legacy term written plainly: no separator, no surrounding whitespace and
/// no leading `!`.
pub open spec fn plain_term(t: Seq<char>) -> bool {
    !has_char(t, ',') && !has_char(t, '+') && trim(t) == t && !is_negated(t)
}

/// A `,` list of plain terms accepts a spec when some term matches one of its
/// labels; a `+` list of two or more plain terms accepts it when every term
/// matches one.
pub proof fn law_legacy_lists(ls: Seq<Seq<char>>, ts: Seq<Seq<char>>)
    requires
        ts.len() >= 1,
        forall|k: int| 0 <= k < ts.len() ==> plain_term(#[trigger] ts[k]),
    ensures
        legacy_match(ls, join(ts, seq![','])) == exists|k: int| 0 <= k < ts.len() && #[trigger] atom_in(ts[k], ls),
        ts.len() >= 2 ==> (legacy_match(ls, join(ts, seq!['+'])) == forall|k: int|
            0 <= k < ts.len() ==> #[trigger] atom_in(ts[k], ls)),
{
    assert forall|k: int| 0 <= k < ts.len() implies !has_char(#[trigger] ts[k], ',') && !has_char(ts[k], '+') by {
        assert(plain_term(ts[k]));
    }
    lemma_join_has_char(ts, ',', ',');
    lemma_join_has_char(ts, ',', '+');
    lemma_split_join(ts, ',');
    assert forall|k: int| 0 <= k < ts.len() implies {
        &&& !excludes(#[trigger] ts[k], ls)
        &&& is_positive(ts[k])
        &&& selects(ts[k], ls) == atom_in(ts[k], ls)
        &&& term_holds(ts[k], ls) == atom_in(ts[k], ls)
    } by {
        assert(plain_term(ts[k]));
    }
    assert(is_positive(ts[0]));
    if exists|k: int| 0 <= k < ts.len() && #[trigger] atom_in(ts[k], ls) {
        let k = choose|k: int| 0 <= k < ts.len() && #[trigger] atom_in(ts[k], ls);
        assert(selects(ts[k], ls));
    }
    if ts.len() >= 2 {
        lemma_join_has_char(ts, '+', ',');
        lemma_join_has_char(ts, '+', '+');
        lemma_split_join(ts, '+');
    }
}

/// In a `,` list, a negated term whose word matches a label rejects the spec,
/// whatever the other terms say.
pub proof fn law_legacy_exclusion_wins(ls: Seq<Seq<char>>, ts: Seq<Seq<char>>, k: int, x: Seq<char>)
    requires
        0 <= k < ts.len(),
        forall|j: int| 0 <= j < ts.len() ==> !has_char(#[trigger] ts[j], ',') && !has_char(ts[j], '+'),
        ts[k] == seq!['!'] + x,
        x.len() > 0,
        !unicode_space(x[x.len() - 1]),
        atom_in(x, ls),
    ensures
        !legacy_match(ls, join(ts, seq![','])),
{
    let t = ts[k];
    assert(!unicode_space(t[0]));
    assert(trim_start(t) == t);
    assert(t.last() == x[x.len() - 1]);
    assert(trim_end(t) == t);
    assert(t.drop_first() =~= x);
    assert(excludes(t, ls));
    lemma_join_has_char(ts, ',', '+');
    lemma_split_join(ts, ',');
    assert(excludes(split_char(join(ts, seq![',']), ',')[k], ls));
}


/// A `,` list made only of exclusions `!x` accepts a spec exactly when none of
/// the excluded words matches one of its labels.
pub proof fn law_legacy_only_exclusions(ls: Seq<Seq<char>>, xs: Seq<Seq<char>>)
    requires
        xs.len() >= 1,
        forall|k: int| 0 <= k < xs.len() ==> plain_term(#[trigger] xs[k]) && xs[k].len() > 0,
    ensures
        legacy_match(ls, join(Seq::new(xs.len(), |k: int| seq!['!'] + xs[k]), seq![','])) == forall|k: int|
            0 <= k < xs.len() ==> !#[trigger] atom_in(xs[k], ls),
{
    let ts = Seq::new(xs.len(), |k: int| seq!['!'] + xs[k]);
    assert forall|k: int| 0 <= k < ts.len() implies {
        &&& !has_char(#[trigger] ts[k], ',')
        &&& !has_char(ts[k], '+')
        &&& excludes(ts[k], ls) == atom_in(xs[k], ls)
        &&& !is_positive(ts[k])
    } by {
        let x = xs[k];
        let t = ts[k];
        assert(plain_term(x));
        assert(t == seq!['!'] + x);
        assert forall|c: char| (c == ',' || c == '+') implies !has_char(t, c) by {
            if has_char(t, c) {
                let i = choose|i: int| 0 <= i < t.len() && t[i] == c;
                if i > 0 {
                    assert(t[i] == x[i - 1]);
                    assert(has_char(x, c));
                }
            }
        }
        assert(!unicode_space(t[0]));
        assert(trim_start(t) == t);
        assert(trim_end(trim_start(x)) == x);
        assert(x.len() > 0 && !unicode_space(x.last())) by {
            if unicode_space(x.last()) {
                if !unicode_space(x[0]) {
                    assert(trim_start(x) == x);
                    assert(trim_end(x) == trim_end(x.drop_last()));
                    assert(trim_end(x.drop_last()).len() <= x.drop_last().len()) by {
                        lemma_trim_end_shorter(x.drop_last());
                    }
                } else {
                    assert(trim_start(x) == trim_start(x.drop_first()));
                    lemma_trim_start_shorter(x.drop_first());
                    lemma_trim_end_shorter(trim_start(x.drop_first()));
                }
            }
        }
        assert(t.last() == x.last());
        assert(trim_end(t) == t);
        assert(t.drop_first() =~= x);
    }
    lemma_join_has_char(ts, ',', '+');
    lemma_split_join(ts, ',');
    let f = join(ts, seq![',']);
    assert(!has_char(f, '+'));
    let sf = split_char(f, ',');
    assert(sf == ts);
    assert forall|k: int| 0 <= k < sf.len() implies !#[trigger] is_positive(sf[k]) by {
        assert(!is_positive(ts[k]));
    }
    if forall|k: int| 0 <= k < xs.len() ==> !#[trigger] atom_in(xs[k], ls) {
        assert forall|k: int| 0 <= k < sf.len() implies !#[trigger] excludes(sf[k], ls) by {
            assert(excludes(ts[k], ls) == atom_in(xs[k], ls));
        }
        assert(legacy_match(ls, f));
    }
    if legacy_match(ls, f) {
        assert forall|k: int| 0 <= k < xs.len() implies !#[trigger] atom_in(xs[k], ls) by {
            assert(!excludes(sf[k], ls));
            assert(excludes(ts[k], ls) == atom_in(xs[k], ls));
        }
    }
}

proof fn lemma_trim_start_shorter(s: Seq<char>)
    ensures
        trim_start(s).len() <= s.len(),
    decreases s.len(),
{
    if s.len() > 0 && unicode_space(s[0]) {
        lemma_trim_start_shorter(s.drop_first());
    }
}

proof fn lemma_trim_end_shorter(s: Seq<char>)
    ensures
        trim_end(s).len() <= s.len(),
    decreases s.len(),
{
    if s.len() > 0 && unicode_space(s.last()) {
        lemma_trim_end_shorter(s.drop_last());
    }
}

} // verus!
