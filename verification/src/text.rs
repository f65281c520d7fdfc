//! Character-sequence helpers shared by the filter, the tree walk and the runner.
//!
//! All of the library's string logic works on `Seq<char>` views; these helpers
//! convert between `&str`/`String` and `Vec<char>` and implement the handful of
//! text operations (split, trim, join, substring search) with exact contracts.
use vstd::prelude::*;

verus! {

/// The Unicode `White_Space` characters, which `char::is_whitespace`
/// answers for: tab, line feed, vertical tab, form feed, carriage return,
/// space, next line, no-break space, ogham space mark, the spaces from en
/// quad to hair space, line and paragraph separators, narrow no-break space,
/// medium mathematical space and ideographic space.
pub open spec fn unicode_space(c: char) -> bool {
    let n = c as u32;
    ||| 0x09 <= n <= 0x0D
    ||| n == 0x20
    ||| n == 0x85
    ||| n == 0xA0
    ||| n == 0x1680
    ||| 0x2000 <= n <= 0x200A
    ||| n == 0x2028
    ||| n == 0x2029
    ||| n == 0x202F
    ||| n == 0x205F
    ||| n == 0x3000
}

/// What `str::to_lowercase` returns for a string (Unicode lowercase mapping).
pub uninterp spec fn lowercase(s: Seq<char>) -> Seq<char>;

/// Whether `c` is a Unicode `White_Space` character (see
/// [`unicode_space`]), as `char::is_whitespace` answers.
pub(crate) fn is_space(c: char) -> (r: bool)
    ensures
        r == unicode_space(c),
{
    let n = c as u32;
    (0x09 <= n && n <= 0x0D) || n == 0x20 || n == 0x85 || n == 0xA0 || n == 0x1680 || (0x2000 <= n && n <= 0x200A)
        || n == 0x2028 || n == 0x2029 || n == 0x202F || n == 0x205F || n == 0x3000
}

/// Calls `str::to_lowercase` on the characters of `s`; the result is named by
/// `lowercase` applied to them.
#[verifier::external_body]
pub(crate) fn to_lower(s: &str) -> (r: String)
    ensures
        r@ == lowercase(s@),
{
    s.to_lowercase()
}

/// Calls `String::push`: the character is appended at the end.
#[verifier::external_body]
pub(crate) fn push_char(s: &mut String, c: char)
    ensures
        final(s)@ == old(s)@.push(c),
{
    s.push(c)
}

/// The characters of `s`, in order.
pub fn chars_of(s: &str) -> (r: Vec<char>)
    ensures
        r@ == s@,
{
    let mut v: Vec<char> = Vec::new();
    for ch in it: s.chars()
        invariant
            it.seq() == s@,
            v@ == it.seq().take(it.index() as int),
    {
        v.push(ch);
    }
    v
}

/// A `String` holding exactly the characters of `v`.
pub fn string_of(v: &Vec<char>) -> (r: String)
    ensures
        r@ == v@,
{
    let mut s = String::new();
    let mut i: usize = 0;
    while i < v.len()
        invariant
            i <= v.len(),
            s@ == v@.take(i as int),
        decreases v.len() - i,
    {
        push_char(&mut s, v[i]);
        assert(v@.take(i as int).push(v@[i as int]) =~= v@.take(i + 1));
        i = i + 1;
    }
    assert(v@.take(v.len() as int) =~= v@);
    s
}

/// A `String` holding the characters of `s`.
pub fn string_from(s: &str) -> (r: String)
    ensures
        r@ == s@,
{
    let mut r = String::new();
    r.append(s);
    r
}

/// `c` occurs in `s`.
pub open spec fn has_char(s: Seq<char>, c: char) -> bool {
    exists|i: int| 0 <= i < s.len() && s[i] == c
}

/// Whether `c` occurs in `s`.
pub fn contains_char(s: &Vec<char>, c: char) -> (r: bool)
    ensures
        r == has_char(s@, c),
{
    let mut i: usize = 0;
    while i < s.len()
        invariant
            i <= s.len(),
            forall|k: int| 0 <= k < i ==> s@[k] != c,
        decreases s.len() - i,
    {
        if s[i] == c {
            return true;
        }
        i = i + 1;
    }
    false
}

/// `needle` occurs in `hay` starting at index `i`.
pub open spec fn occurs_at(hay: Seq<char>, needle: Seq<char>, i: int) -> bool {
    0 <= i && i + needle.len() <= hay.len() && hay.subrange(i, i + needle.len()) == needle
}

/// `needle` occurs somewhere in `hay` (the empty needle occurs everywhere).
pub open spec fn has_substring(hay: Seq<char>, needle: Seq<char>) -> bool {
    exists|i: int| occurs_at(hay, needle, i)
}

/// Whether `needle` occurs in `hay`.
pub fn contains_seq(hay: &Vec<char>, needle: &Vec<char>) -> (r: bool)
    ensures
        r == has_substring(hay@, needle@),
{
    if needle.len() > hay.len() {
        assert forall|i: int| !occurs_at(hay@, needle@, i) by {}
        return false;
    }
    let mut i: usize = 0;
    while i <= hay.len() - needle.len()
        invariant
            needle.len() <= hay.len(),
            i <= hay.len() - needle.len() + 1,
            forall|k: int| 0 <= k < i ==> !occurs_at(hay@, needle@, k),
        decreases hay.len() - i,
    {
        let mut j: usize = 0;
        let mut same = true;
        while j < needle.len()
            invariant
                j <= needle.len(),
                i + needle.len() <= hay.len(),
                same == (forall|k: int| 0 <= k < j ==> hay@[i + k] == needle@[k]),
            decreases needle.len() - j,
        {
            if hay[i + j] != needle[j] {
                same = false;
            }
            j = j + 1;
        }
        if same {
            assert(hay@.subrange(i as int, i + needle.len()) =~= needle@);
            assert(occurs_at(hay@, needle@, i as int));
            return true;
        }
        assert(!occurs_at(hay@, needle@, i as int)) by {
            if occurs_at(hay@, needle@, i as int) {
                let k = choose|k: int| 0 <= k < needle.len() && hay@[i + k] != needle@[k];
                assert(hay@.subrange(i as int, i + needle.len())[k] == hay@[i + k]);
            }
        }
        i = i + 1;
    }
    assert forall|k: int| !occurs_at(hay@, needle@, k) by {
        if occurs_at(hay@, needle@, k) {
            assert(0 <= k < i);
        }
    }
    false
}

/// `s` split at every occurrence of `sep`, as `str::split` does: one more piece
/// than there are separators, empty pieces kept.
pub open spec fn split_char(s: Seq<char>, sep: char) -> Seq<Seq<char>>
    decreases s.len(),
{
    if s.len() == 0 {
        seq![Seq::<char>::empty()]
    } else {
        let r = split_char(s.drop_last(), sep);
        if s.last() == sep {
            r.push(Seq::<char>::empty())
        } else {
            r.update(r.len() - 1, r.last().push(s.last()))
        }
    }
}

/// `split_char` always yields at least one piece.
pub proof fn lemma_split_nonempty(s: Seq<char>, sep: char)
    ensures
        split_char(s, sep).len() >= 1,
    decreases s.len(),
{
    if s.len() > 0 {
        lemma_split_nonempty(s.drop_last(), sep);
    }
}

/// The pieces of `s` between occurrences of `sep`.
pub fn split_on(s: &Vec<char>, sep: char) -> (r: Vec<Vec<char>>)
    ensures
        r@.len() == split_char(s@, sep).len(),
        forall|k: int| 0 <= k < r@.len() ==> #[trigger] r@[k]@ == split_char(s@, sep)[k],
{
    let mut done: Vec<Vec<char>> = Vec::new();
    let mut cur: Vec<char> = Vec::new();
    let mut i: usize = 0;
    proof {
        assert(s@.take(0) =~= Seq::<char>::empty());
    }
    while i < s.len()
        invariant
            i <= s.len(),
            done@.len() + 1 == split_char(s@.take(i as int), sep).len(),
            forall|k: int| 0 <= k < done@.len() ==> #[trigger] done@[k]@ == split_char(
                s@.take(i as int),
                sep,
            )[k],
            cur@ == split_char(s@.take(i as int), sep).last(),
        decreases s.len() - i,
    {
        let ghost before = s@.take(i as int);
        assert(s@.take(i + 1).drop_last() =~= before);
        proof {
            lemma_split_nonempty(before, sep);
        }
        if s[i] == sep {
            done.push(cur);
            cur = Vec::new();
            assert(cur@ =~= Seq::<char>::empty());
        } else {
            cur.push(s[i]);
        }
        i = i + 1;
    }
    assert(s@.take(s.len() as int) =~= s@);
    done.push(cur);
    done
}

/// `s` with leading and trailing whitespace removed.
pub open spec fn trim(s: Seq<char>) -> Seq<char> {
    trim_end(trim_start(s))
}

/// `s` with leading whitespace removed.
pub open spec fn trim_start(s: Seq<char>) -> Seq<char>
    decreases s.len(),
{
    if s.len() > 0 && unicode_space(s[0]) {
        trim_start(s.drop_first())
    } else {
        s
    }
}

/// `s` with trailing whitespace removed.
pub open spec fn trim_end(s: Seq<char>) -> Seq<char>
    decreases s.len(),
{
    if s.len() > 0 && unicode_space(s.last()) {
        trim_end(s.drop_last())
    } else {
        s
    }
}

proof fn lemma_trim_start_skip(s: Seq<char>, i: int)
    requires
        0 <= i <= s.len(),
        forall|k: int| 0 <= k < i ==> unicode_space(s[k]),
    ensures
        trim_start(s) == trim_start(s.skip(i)),
    decreases i,
{
    if i > 0 {
        assert(s.drop_first().skip(i - 1) =~= s.skip(i));
        lemma_trim_start_skip(s.drop_first(), i - 1);
    } else {
        assert(s.skip(0) =~= s);
    }
}

proof fn lemma_trim_end_take(s: Seq<char>, j: int)
    requires
        0 <= j <= s.len(),
        forall|k: int| j <= k < s.len() ==> unicode_space(s[k]),
    ensures
        trim_end(s) == trim_end(s.take(j)),
    decreases s.len() - j,
{
    if j < s.len() {
        assert(s.drop_last().take(j) =~= s.take(j));
        lemma_trim_end_take(s.drop_last(), j);
    } else {
        assert(s.take(j) =~= s);
    }
}

proof fn lemma_trim_start_tail(t: Seq<char>, b: Seq<char>)
    requires
        forall|k: int| 0 <= k < b.len() ==> unicode_space(#[trigger] b[k]),
    ensures
        trim_end(trim_start(t + b)) == trim_end(trim_start(t)),
    decreases t.len(),
{
    if t.len() == 0 {
        assert(t + b =~= b);
        lemma_trim_start_skip(b, b.len() as int);
        assert(b.skip(b.len() as int) =~= Seq::<char>::empty());
    } else if unicode_space(t[0]) {
        assert((t + b)[0] == t[0]);
        assert((t + b).drop_first() =~= t.drop_first() + b);
        lemma_trim_start_tail(t.drop_first(), b);
    } else {
        assert((t + b)[0] == t[0]);
        assert forall|k: int| t.len() <= k < (t + b).len() implies unicode_space((t + b)[k]) by {
            assert((t + b)[k] == b[k - t.len()]);
        }
        lemma_trim_end_take(t + b, t.len() as int);
        assert((t + b).take(t.len() as int) =~= t);
    }
}

/// Whitespace added on either side of a string does not survive trimming.
pub proof fn lemma_trim_padding(a: Seq<char>, t: Seq<char>, b: Seq<char>)
    requires
        forall|k: int| 0 <= k < a.len() ==> unicode_space(#[trigger] a[k]),
        forall|k: int| 0 <= k < b.len() ==> unicode_space(#[trigger] b[k]),
    ensures
        trim(a + t + b) == trim(t),
{
    let s = a + t + b;
    assert forall|k: int| 0 <= k < a.len() implies unicode_space(s[k]) by {
        assert(s[k] == a[k]);
    }
    lemma_trim_start_skip(s, a.len() as int);
    assert(s.skip(a.len() as int) =~= t + b);
    lemma_trim_start_tail(t, b);
}

/// Appending a piece without the separator extends the last piece of a split.
proof fn lemma_split_tail(a: Seq<char>, b: Seq<char>, sep: char)
    requires
        forall|k: int| 0 <= k < b.len() ==> #[trigger] b[k] != sep,
    ensures
        split_char(a + b, sep) == split_char(a, sep).update(
            split_char(a, sep).len() - 1,
            split_char(a, sep).last() + b,
        ),
    decreases b.len(),
{
    lemma_split_nonempty(a, sep);
    let sa = split_char(a, sep);
    if b.len() > 0 {
        let b0 = b.drop_last();
        lemma_split_tail(a, b0, sep);
        assert((a + b).drop_last() =~= a + b0);
        assert((a + b).last() == b.last());
        assert(b.last() != sep);
        let r = split_char(a + b0, sep);
        assert(r.len() == sa.len());
        assert(r.last() == sa.last() + b0);
        assert(r.last().push(b.last()) =~= sa.last() + b);
        assert(split_char(a + b, sep) == r.update(r.len() - 1, r.last().push(b.last())));
        assert(r.update(r.len() - 1, r.last().push(b.last())) =~= sa.update(sa.len() - 1, sa.last() + b));
    } else {
        assert(a + b =~= a);
        assert(sa.last() + b =~= sa.last());
        assert(sa.update(sa.len() - 1, sa.last()) =~= sa);
    }
}

/// Splitting pieces joined with a one-character separator that none of them
/// holds gives the pieces back.
pub proof fn lemma_split_join(ts: Seq<Seq<char>>, sep: char)
    requires
        ts.len() >= 1,
        forall|j: int| 0 <= j < ts.len() ==> !has_char(#[trigger] ts[j], sep),
    ensures
        split_char(join(ts, seq![sep]), sep) == ts,
    decreases ts.len(),
{
    let l = ts.last();
    assert(!has_char(ts[ts.len() - 1], sep));
    assert forall|k: int| 0 <= k < l.len() implies #[trigger] l[k] != sep by {
        if l[k] == sep {
            assert(has_char(l, sep));
        }
    }
    if ts.len() == 1 {
        lemma_split_tail(Seq::<char>::empty(), l, sep);
        assert(Seq::<char>::empty() + l =~= l);
        assert(seq![Seq::<char>::empty()].update(0, Seq::<char>::empty() + l) =~= ts);
    } else {
        let dl = ts.drop_last();
        assert forall|j: int| 0 <= j < dl.len() implies !has_char(#[trigger] dl[j], sep) by {
            assert(dl[j] == ts[j]);
        }
        lemma_split_join(dl, sep);
        let a = join(dl, seq![sep]);
        let a2 = a + seq![sep];
        assert(a2.drop_last() =~= a);
        assert(split_char(a2, sep) == dl.push(Seq::<char>::empty()));
        lemma_split_tail(a2, l, sep);
        assert(join(ts, seq![sep]) == a2 + l);
        assert(dl.push(Seq::<char>::empty()).update(dl.len() as int, Seq::<char>::empty() + l) =~= ts);
    }
}

/// A joined string holds `c` exactly when `c` is the separator and there are
/// two pieces or more, provided no piece holds `c`.
pub proof fn lemma_join_has_char(ts: Seq<Seq<char>>, sep: char, c: char)
    requires
        ts.len() >= 1,
        forall|j: int| 0 <= j < ts.len() ==> !has_char(#[trigger] ts[j], c),
    ensures
        has_char(join(ts, seq![sep]), c) == (c == sep && ts.len() >= 2),
    decreases ts.len(),
{
    if ts.len() == 1 {
        assert(!has_char(ts[0], c));
    } else {
        let dl = ts.drop_last();
        assert forall|j: int| 0 <= j < dl.len() implies !has_char(#[trigger] dl[j], c) by {
            assert(dl[j] == ts[j]);
        }
        lemma_join_has_char(dl, sep, c);
        let a = join(dl, seq![sep]);
        let l = ts.last();
        assert(!has_char(ts[ts.len() - 1], c));
        let s = join(ts, seq![sep]);
        assert(s == a + seq![sep] + l);
        if c == sep {
            assert(s[a.len() as int] == sep);
        } else if has_char(s, c) {
            let i = choose|i: int| 0 <= i < s.len() && s[i] == c;
            if i < a.len() {
                assert(s[i] == a[i]);
                assert(has_char(a, c));
            } else if i > a.len() {
                assert(s[i] == l[i - a.len() - 1]);
                assert(has_char(l, c));
            }
        }
    }
}

/// `s` with leading and trailing whitespace removed (as `str::trim`).
pub fn trim_chars(s: &Vec<char>) -> (r: Vec<char>)
    ensures
        r@ == trim(s@),
{
    let mut a: usize = 0;
    while a < s.len() && is_space(s[a])
        invariant
            a <= s.len(),
            forall|k: int| 0 <= k < a ==> unicode_space(s@[k]),
        decreases s.len() - a,
    {
        a = a + 1;
    }
    proof {
        lemma_trim_start_skip(s@, a as int);
    }
    let ghost rest = s@.skip(a as int);
    assert(trim_start(rest) == rest);
    let mut b: usize = s.len();
    while b > a && is_space(s[b - 1])
        invariant
            a <= b <= s.len(),
            rest == s@.skip(a as int),
            forall|k: int| b <= k < s.len() ==> unicode_space(s@[k]),
        decreases b,
    {
        b = b - 1;
    }
    proof {
        assert forall|k: int| (b - a) <= k < rest.len() implies unicode_space(rest[k]) by {
            assert(rest[k] == s@[a + k]);
        }
        lemma_trim_end_take(rest, b - a);
    }
    let mut r: Vec<char> = Vec::new();
    let mut i: usize = a;
    while i < b
        invariant
            a <= i <= b <= s.len(),
            r@ == s@.subrange(a as int, i as int),
        decreases b - i,
    {
        r.push(s[i]);
        assert(s@.subrange(a as int, i as int).push(s@[i as int]) =~= s@.subrange(
            a as int,
            i + 1,
        ));
        i = i + 1;
    }
    assert(rest.take(b - a) =~= s@.subrange(a as int, b as int));
    proof {
        if b > a {
            assert(rest.take(b - a).last() == s@[b - 1]);
        }
        assert(trim_end(rest.take(b - a)) == rest.take(b - a));
    }
    r
}

/// The pieces of `parts` joined with `sep` between them (as `slice::join`).
pub open spec fn join(parts: Seq<Seq<char>>, sep: Seq<char>) -> Seq<char>
    decreases parts.len(),
{
    if parts.len() == 0 {
        Seq::<char>::empty()
    } else if parts.len() == 1 {
        parts[0]
    } else {
        join(parts.drop_last(), sep) + sep + parts.last()
    }
}

/// The view of each string of a vector.
pub open spec fn views(v: Seq<String>) -> Seq<Seq<char>> {
    v.map_values(|s: String| s@)
}

/// The pieces of `parts` joined with `sep` between them.
pub fn join_strings(parts: &Vec<String>, sep: &str) -> (r: String)
    ensures
        r@ == join(views(parts@), sep@),
{
    let mut r = String::new();
    let mut i: usize = 0;
    while i < parts.len()
        invariant
            i <= parts.len(),
            r@ == join(views(parts@).take(i as int), sep@),
        decreases parts.len() - i,
    {
        assert(views(parts@).take(i + 1).drop_last() =~= views(parts@).take(i as int));
        if i > 0 {
            r.append(sep);
        }
        r.append(parts[i].as_str());
        proof {
            if i == 0 {
                assert(views(parts@).take(0) =~= Seq::<Seq<char>>::empty());
                assert(r@ =~= views(parts@).take(1)[0]);
            }
        }
        i = i + 1;
    }
    assert(views(parts@).take(parts.len() as int) =~= views(parts@));
    r
}

} // verus!
