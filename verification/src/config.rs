//! The run's configuration from the command line and the environment, as
//! plain values: the arguments, the `RSSPEC_*` variables and the core count
//! are read by the caller and handed in.
use vstd::prelude::*;
use crate::runner::RunConfig;
use crate::text::{chars_of, string_from, string_of};

verus! {

/// The flags only libtest's own harness takes; seeing one means the suite
/// runs inside a `#[test]` function.
pub open spec fn libtest_flags() -> Seq<Seq<char>> {
    seq![
        "--format"@,
        "--test-threads"@,
        "--logfile"@,
        "--report-time"@,
        "--ensure-time"@,
        "--shuffle-seed"@,
        "--show-output"@,
        "-Zunstable-options"@,
    ]
}

/// The part of an argument before its first `=` (all of it when it has none).
pub open spec fn arg_name(a: Seq<char>) -> Seq<char>
    decreases a.len(),
{
    if a.len() == 0 {
        a
    } else if a[0] == '=' {
        Seq::<char>::empty()
    } else {
        seq![a[0]] + arg_name(a.drop_first())
    }
}

/// The argument is one of libtest's own flags (with or without `=value`).
pub open spec fn is_libtest_arg(a: Seq<char>) -> bool {
    libtest_flags().contains(arg_name(a))
}

proof fn lemma_arg_name(a: Seq<char>, i: int)
    requires
        0 <= i <= a.len(),
        forall|k: int| 0 <= k < i ==> a[k] != '=',
        i == a.len() || a[i] == '=',
    ensures
        arg_name(a) == a.take(i),
    decreases i,
{
    if i == 0 {
        assert(a.take(0) =~= Seq::<char>::empty());
        if a.len() > 0 {
            assert(a[0] == '=');
        }
    } else {
        let t = a.drop_first();
        assert forall|k: int| 0 <= k < i - 1 implies t[k] != '=' by {
            assert(t[k] == a[k + 1]);
        }
        if i < a.len() {
            assert(t[i - 1] == a[i]);
        }
        lemma_arg_name(t, i - 1);
        assert(a.take(i) =~= seq![a[0]] + t.take(i - 1));
    }
}

/// Whether two character vectors hold the same characters.
fn same_chars(a: &Vec<char>, b: &Vec<char>) -> (r: bool)
    ensures
        r == (a@ == b@),
{
    if a.len() != b.len() {
        return false;
    }
    let mut i: usize = 0;
    while i < a.len()
        invariant
            a@.len() == b@.len(),
            i <= a@.len(),
            forall|k: int| 0 <= k < i ==> a@[k] == b@[k],
        decreases a@.len() - i,
    {
        if a[i] != b[i] {
            return false;
        }
        i = i + 1;
    }
    assert(a@ =~= b@);
    true
}

/// The part of `a` before its first `=`.
fn name_of_arg(a: &Vec<char>) -> (r: Vec<char>)
    ensures
        r@ == arg_name(a@),
{
    let mut r: Vec<char> = Vec::new();
    let mut i: usize = 0;
    while i < a.len() && a[i] != '='
        invariant
            i <= a@.len(),
            forall|k: int| 0 <= k < i ==> a@[k] != '=',
            r@ == a@.take(i as int),
        decreases a@.len() - i,
    {
        r.push(a[i]);
        assert(a@.take(i + 1) =~= a@.take(i as int).push(a@[i as int]));
        i = i + 1;
    }
    proof {
        lemma_arg_name(a@, i as int);
    }
    r
}

/// Whether the argument is one of libtest's own flags.
fn libtest_arg(a: &String) -> (r: bool)
    ensures
        r == is_libtest_arg(a@),
{
    let name = name_of_arg(&chars_of(a.as_str()));
    assert(name@ == arg_name(a@));
    let flags: Vec<Vec<char>> = vec![
        chars_of("--format"),
        chars_of("--test-threads"),
        chars_of("--logfile"),
        chars_of("--report-time"),
        chars_of("--ensure-time"),
        chars_of("--shuffle-seed"),
        chars_of("--show-output"),
        chars_of("-Zunstable-options"),
    ];
    assert(flags@.map_values(|f: Vec<char>| f@) =~= libtest_flags());
    let mut i: usize = 0;
    while i < flags.len()
        invariant
            i <= flags@.len(),
            flags@.map_values(|f: Vec<char>| f@) == libtest_flags(),
            name@ == arg_name(a@),
            forall|k: int| 0 <= k < i ==> libtest_flags()[k] != name@,
        decreases flags@.len() - i,
    {
        if same_chars(&flags[i], &name) {
            assert(libtest_flags()[i as int] == flags@[i as int]@);
            assert(flags@.map_values(|f: Vec<char>| f@).len() == flags@.len());
            assert(libtest_flags().contains(name@));
            return true;
        }
        assert(libtest_flags()[i as int] == flags@[i as int]@);
        i = i + 1;
    }
    assert(flags@.map_values(|f: Vec<char>| f@).len() == flags@.len());
    assert(!libtest_flags().contains(name@));
    false
}

/// The first argument that only libtest's harness takes, if any: its
/// presence means the suite runs inside a `#[test]` function.
pub fn detect_libtest_args(args: &Vec<String>) -> (r: Option<String>)
    ensures
        match r {
            Some(a) => exists|i: int|
                0 <= i < args@.len() && #[trigger] is_libtest_arg(args@[i]@) && a@ == args@[i]@ && forall|k: int|
                    0 <= k < i ==> !is_libtest_arg(#[trigger] args@[k]@),
            None => forall|k: int| 0 <= k < args@.len() ==> !is_libtest_arg(#[trigger] args@[k]@),
        },
{
    let mut i: usize = 0;
    while i < args.len()
        invariant
            i <= args@.len(),
            forall|k: int| 0 <= k < i ==> !is_libtest_arg(#[trigger] args@[k]@),
        decreases args@.len() - i,
    {
        if libtest_arg(&args[i]) {
            return Some(string_of(&chars_of(args[i].as_str())));
        }
        i = i + 1;
    }
    None
}

/// The character's code with ASCII upper-case letters folded to lower case.
pub open spec fn fold_ascii(c: char) -> u32 {
    if 65 <= (c as u32) <= 90 {
        ((c as u32) + 32) as u32
    } else {
        c as u32
    }
}

/// `s` and `t` are equal up to ASCII case (as `str::eq_ignore_ascii_case`).
pub open spec fn eq_nocase(s: Seq<char>, t: Seq<char>) -> bool {
    &&& s.len() == t.len()
    &&& forall|i: int| 0 <= i < s.len() ==> #[trigger] fold_ascii(s[i]) == fold_ascii(t[i])
}

/// Whether `s` and `t` are equal up to ASCII case.
pub fn eq_ignore_ascii_case(s: &str, t: &str) -> (r: bool)
    ensures
        r == eq_nocase(s@, t@),
{
    let a = chars_of(s);
    let b = chars_of(t);
    if a.len() != b.len() {
        return false;
    }
    let mut i: usize = 0;
    while i < a.len()
        invariant
            a@ == s@,
            b@ == t@,
            a@.len() == b@.len(),
            i <= a@.len(),
            forall|k: int| 0 <= k < i ==> #[trigger] fold_ascii(a@[k]) == fold_ascii(b@[k]),
        decreases a@.len() - i,
    {
        let x = a[i] as u32;
        let y = b[i] as u32;
        let fx = if 65 <= x && x <= 90 {
            x + 32
        } else {
            x
        };
        let fy = if 65 <= y && y <= 90 {
            y + 32
        } else {
            y
        };
        if fx != fy {
            assert(fold_ascii(a@[i as int]) != fold_ascii(b@[i as int]));
            return false;
        }
        i = i + 1;
    }
    true
}

/// `c` is an ASCII digit.
pub open spec fn is_digit(c: char) -> bool {
    '0' <= c <= '9'
}

/// The value of the digit `c`.
pub open spec fn digit_of(c: char) -> nat {
    ((c as u32) - ('0' as u32)) as nat
}

/// The value of the decimal digits `s`.
pub open spec fn digits_value(s: Seq<char>) -> nat
    decreases s.len(),
{
    if s.len() == 0 {
        0
    } else {
        digits_value(s.drop_last()) * 10 + digit_of(s.last())
    }
}

/// The digits of an unsigned number's text: without its leading `+`.
pub open spec fn unsigned_digits(s: Seq<char>) -> Seq<char> {
    if s.len() > 0 && s[0] == '+' {
        s.drop_first()
    } else {
        s
    }
}

/// Every character of `d` is an ASCII digit.
pub open spec fn all_digits(d: Seq<char>) -> bool {
    forall|i: int| 0 <= i < d.len() ==> #[trigger] is_digit(d[i])
}

/// What `str::parse::<usize>` gives: an optional `+` and then one or more
/// ASCII digits whose value fits in a `usize`; anything else is refused.
pub open spec fn parse_usize(s: Seq<char>) -> Option<nat> {
    let d = unsigned_digits(s);
    if d.len() > 0 && all_digits(d) && digits_value(d) <= usize::MAX {
        Some(digits_value(d))
    } else {
        None
    }
}

proof fn lemma_digits_prefix(s: Seq<char>, i: int)
    requires
        0 <= i <= s.len(),
    ensures
        digits_value(s.take(i)) <= digits_value(s),
    decreases s.len() - i,
{
    if i < s.len() {
        lemma_digits_prefix(s.drop_last(), i);
        assert(s.drop_last().take(i) =~= s.take(i));
    } else {
        assert(s.take(i) =~= s);
    }
}

/// Parse a `usize` as `str::parse` does (see [`parse_usize`]).
pub fn parse_usize_str(s: &str) -> (r: Option<usize>)
    ensures
        match r {
            Some(n) => parse_usize(s@) == Some(n as nat),
            None => parse_usize(s@) is None,
        },
{
    let c = chars_of(s);
    let start: usize = if c.len() > 0 && c[0] == '+' {
        1
    } else {
        0
    };
    let ghost d = unsigned_digits(s@);
    assert(d =~= c@.skip(start as int));
    if start >= c.len() {
        assert(d.len() == 0);
        return None;
    }
    let mut val: usize = 0;
    let mut i: usize = start;
    while i < c.len()
        invariant
            c@ == s@,
            start <= i <= c@.len(),
            d == c@.skip(start as int),
            d == unsigned_digits(s@),
            forall|k: int| start <= k < i ==> #[trigger] is_digit(c@[k]),
            val == digits_value(d.take(i - start)),
        decreases c@.len() - i,
    {
        let ch = c[i];
        assert(d[i - start] == ch);
        if !('0' <= ch && ch <= '9') {
            assert(!is_digit(d[i - start]));
            assert(!all_digits(d));
            return None;
        }
        let dv = (ch as u32 - '0' as u32) as usize;
        assert(d.take(i - start + 1).drop_last() =~= d.take(i - start));
        let next = match val.checked_mul(10) {
            Some(m) => m.checked_add(dv),
            None => None,
        };
        match next {
            Some(n) => {
                val = n;
            },
            None => {
                proof {
                    let k = i - start + 1;
                    assert(d.take(k).last() == ch);
                    assert(digits_value(d.take(k)) == val * 10 + digit_of(ch));
                    lemma_digits_prefix(d, k);
                }
                return None;
            },
        }
        i = i + 1;
    }
    assert(d.take(d.len() as int) =~= d);
    Some(val)
}

/// The argument names a worker count: `auto` (any case) or a `usize`.
pub open spec fn is_parallel_spec(a: Seq<char>) -> bool {
    eq_nocase(a, "auto"@) || parse_usize(a) is Some
}

/// A worker count from a spec: `auto` (any case) gives `cores`; an integer
/// gives itself, at least 1; anything else gives nothing.
pub open spec fn parallel_spec_value(s: Seq<char>, cores: usize) -> Option<nat> {
    if eq_nocase(s, "auto"@) {
        Some(if cores == 0 { 1 } else { cores as nat })
    } else {
        match parse_usize(s) {
            Some(n) => Some(if n == 0 { 1 } else { n }),
            None => None,
        }
    }
}

/// Parse a parallelism spec: a positive integer (0 counts as 1), or `auto`
/// for the detected core count `cores` (at least 1). Whatever it gives is at
/// least 1.
pub fn parse_parallel_spec(s: &str, cores: usize) -> (r: Option<usize>)
    ensures
        match r {
            Some(n) => parallel_spec_value(s@, cores) == Some(n as nat),
            None => parallel_spec_value(s@, cores) is None,
        },
        r matches Some(n) ==> n >= 1,
{
    if eq_ignore_ascii_case(s, "auto") {
        Some(if cores == 0 {
            1
        } else {
            cores
        })
    } else {
        match parse_usize_str(s) {
            Some(n) => Some(if n == 0 {
                1
            } else {
                n
            }),
            None => None,
        }
    }
}

/// The effective worker count for a requested one: at least 1.
pub fn clamp_parallelism(n: usize) -> (r: usize)
    ensures
        r == if n == 0 {
            1
        } else {
            n
        },
{
    if n == 0 {
        1
    } else {
        n
    }
}

/// The worker count spec in force: the command line's, else the
/// environment's (`RSSPEC_PARALLEL`) when it is not empty.
pub open spec fn chosen_spec(cli: Option<Seq<char>>, env: Option<Seq<char>>) -> Option<Seq<char>> {
    match cli {
        Some(c) => Some(c),
        None => match env {
            Some(e) => if e.len() > 0 {
                Some(e)
            } else {
                None
            },
            None => None,
        },
    }
}

/// The effective worker count: the spec in force (see [`chosen_spec`]),
/// parsed, else 1; at least 1.
pub open spec fn parallelism_for(cli: Option<Seq<char>>, env: Option<Seq<char>>, cores: usize) -> nat {
    let requested: nat = match chosen_spec(cli, env) {
        Some(sp) => match parallel_spec_value(sp, cores) {
            Some(n) => n,
            None => 1,
        },
        None => 1,
    };
    if requested == 0 {
        1
    } else {
        requested
    }
}

/// Resolve the effective worker count from the command line's spec, the
/// environment's and the core count.
pub fn resolve_parallelism(cli: Option<&str>, env: Option<&str>, cores: usize) -> (r: usize)
    ensures
        r as nat == parallelism_for(
            match cli {
                Some(c) => Some(c@),
                None => None,
            },
            match env {
                Some(e) => Some(e@),
                None => None,
            },
            cores,
        ),
{
    let chosen: Option<&str> = match cli {
        Some(c) => Some(c),
        None => match env {
            Some(e) => if e.is_empty() {
                None
            } else {
                Some(e)
            },
            None => None,
        },
    };
    let requested = match chosen {
        Some(sp) => match parse_parallel_spec(sp, cores) {
            Some(n) => n,
            None => 1,
        },
        None => 1,
    };
    clamp_parallelism(requested)
}

/// The focus guard's variable (`RSSPEC_FAIL_ON_FOCUS`) turns the guard on
/// when it is `1` or `true` (any case).
pub open spec fn guard_on(val: Option<Seq<char>>) -> bool {
    match val {
        Some(v) => v == "1"@ || eq_nocase(v, "true"@),
        None => false,
    }
}

/// Whether the focus guard's variable turns the guard on.
pub fn fail_on_focus_value(val: Option<&str>) -> (r: bool)
    ensures
        r == guard_on(
            match val {
                Some(v) => Some(v@),
                None => None,
            },
        ),
{
    match val {
        None => false,
        Some(v) => {
            let a = chars_of(v);
            let one = chars_of("1");
            same_chars(&a, &one) || eq_ignore_ascii_case(v, "true")
        },
    }
}

/// `p` begins `s`.
pub open spec fn starts_with(s: Seq<char>, p: Seq<char>) -> bool {
    p.len() <= s.len() && s.take(p.len() as int) == p
}

/// What the arguments from index `i` on set, starting from `st`: the path
/// filter, listing mode, whether ignored specs run, the worker count spec and
/// the label filter. `--list` lists; `--include-ignored` and `--ignored` run
/// ignored specs; `--parallel` takes the next argument when it is a worker
/// count spec, else means `auto`; `--parallel=SPEC` gives the spec;
/// `--label-filter EXPR` and `--label-filter=EXPR` give the label filter; an
/// argument not starting with `-` is the path filter (the last one wins);
/// other flags are ignored.
pub open spec fn scan_args(
    args: Seq<Seq<char>>,
    i: int,
    st: (Option<Seq<char>>, bool, bool, Option<Seq<char>>, Option<Seq<char>>),
) -> (Option<Seq<char>>, bool, bool, Option<Seq<char>>, Option<Seq<char>>)
    decreases args.len() - i,
{
    if i < 0 || i >= args.len() {
        st
    } else {
        let a = args[i];
        if a == "--list"@ {
            scan_args(args, i + 1, (st.0, true, st.2, st.3, st.4))
        } else if a == "--include-ignored"@ || a == "--ignored"@ {
            scan_args(args, i + 1, (st.0, st.1, true, st.3, st.4))
        } else if a == "--parallel"@ {
            if i + 1 < args.len() && is_parallel_spec(args[i + 1]) {
                scan_args(args, i + 2, (st.0, st.1, st.2, Some(args[i + 1]), st.4))
            } else {
                scan_args(args, i + 1, (st.0, st.1, st.2, Some("auto"@), st.4))
            }
        } else if starts_with(a, "--parallel="@) {
            scan_args(args, i + 1, (st.0, st.1, st.2, Some(a.skip("--parallel="@.len() as int)), st.4))
        } else if a == "--label-filter"@ {
            if i + 1 < args.len() {
                scan_args(args, i + 2, (st.0, st.1, st.2, st.3, Some(args[i + 1])))
            } else {
                scan_args(args, i + 1, st)
            }
        } else if starts_with(a, "--label-filter="@) {
            scan_args(args, i + 1, (st.0, st.1, st.2, st.3, Some(a.skip("--label-filter="@.len() as int))))
        } else if !(a.len() > 0 && a[0] == '-') {
            scan_args(args, i + 1, (Some(a), st.1, st.2, st.3, st.4))
        } else {
            scan_args(args, i + 1, st)
        }
    }
}

/// What the command line `args` (the program's name first) sets.
pub open spec fn args_scan(args: Seq<Seq<char>>) -> (Option<Seq<char>>, bool, bool, Option<Seq<char>>, Option<Seq<char>>) {
    scan_args(args, 1, (None, false, false, None, None))
}

/// Whether `a` holds exactly the characters of `lit`.
fn is_text(a: &Vec<char>, lit: &str) -> (r: bool)
    ensures
        r == (a@ == lit@),
{
    same_chars(a, &chars_of(lit))
}

/// Whether `a` begins with the characters of `p`.
fn has_prefix(a: &Vec<char>, p: &str) -> (r: bool)
    ensures
        r == starts_with(a@, p@),
{
    let pc = chars_of(p);
    if pc.len() > a.len() {
        return false;
    }
    let mut i: usize = 0;
    while i < pc.len()
        invariant
            pc@ == p@,
            pc@.len() <= a@.len(),
            i <= pc@.len(),
            forall|k: int| 0 <= k < i ==> a@[k] == pc@[k],
        decreases pc@.len() - i,
    {
        if a[i] != pc[i] {
            assert(a@.take(pc@.len() as int)[i as int] != pc@[i as int]);
            return false;
        }
        i = i + 1;
    }
    assert(a@.take(pc@.len() as int) =~= pc@);
    true
}

/// The characters of `a` from index `k` on, as a `String`.
fn tail_string(a: &Vec<char>, k: usize) -> (r: String)
    requires
        k <= a@.len(),
    ensures
        r@ == a@.skip(k as int),
{
    let mut v: Vec<char> = Vec::new();
    let mut i: usize = k;
    while i < a.len()
        invariant
            k <= i <= a@.len(),
            v@ == a@.subrange(k as int, i as int),
        decreases a@.len() - i,
    {
        v.push(a[i]);
        assert(a@.subrange(k as int, i + 1) =~= a@.subrange(k as int, i as int).push(a@[i as int]));
        i = i + 1;
    }
    assert(a@.subrange(k as int, a@.len() as int) =~= a@.skip(k as int));
    string_of(&v)
}

impl RunConfig {
    /// The configuration from the command line `args` (the program's name
    /// first; see [`scan_args`]), the `RSSPEC_PARALLEL` variable `env_parallel`
    /// and the core count `cores`. The focus guard is off.
    pub fn from_args(args: &Vec<String>, env_parallel: Option<&str>, cores: usize) -> (r: RunConfig)
        ensures
            match r.filter {
                Some(f) => args_scan(crate::text::views(args@)).0 == Some(f@),
                None => args_scan(crate::text::views(args@)).0 is None,
            },
            r.list == args_scan(crate::text::views(args@)).1,
            r.include_ignored == args_scan(crate::text::views(args@)).2,
            r.parallelism as nat == parallelism_for(
                args_scan(crate::text::views(args@)).3,
                match env_parallel {
                    Some(e) => Some(e@),
                    None => None,
                },
                cores,
            ),
            match r.label_filter {
                Some(f) => args_scan(crate::text::views(args@)).4 == Some(f@),
                None => args_scan(crate::text::views(args@)).4 is None,
            },
            !r.fail_on_focus,
    {
        let ghost av = crate::text::views(args@);
        let mut filter: Option<String> = None;
        let mut list = false;
        let mut include_ignored = false;
        let mut parallel_spec: Option<String> = None;
        let mut label_filter: Option<String> = None;
        let mut i: usize = 1;
        while i < args.len()
            invariant
                av == crate::text::views(args@),
                1 <= i,
                args_scan(av) == scan_args(
                    av,
                    i as int,
                    (
                        match filter {
                            Some(f) => Some(f@),
                            None => None,
                        },
                        list,
                        include_ignored,
                        match parallel_spec {
                            Some(p) => Some(p@),
                            None => None,
                        },
                        match label_filter {
                            Some(l) => Some(l@),
                            None => None,
                        },
                    ),
                ),
            decreases args@.len() - i,
        {
            let a = chars_of(args[i].as_str());
            assert(a@ == av[i as int]);
            if is_text(&a, "--list") {
                list = true;
            } else if is_text(&a, "--include-ignored") || is_text(&a, "--ignored") {
                include_ignored = true;
            } else if is_text(&a, "--parallel") {
                let next_is_spec = if i + 1 < args.len() {
                    let n = args[i + 1].as_str();
                    assert(n@ == av[i + 1]);
                    eq_ignore_ascii_case(n, "auto") || parse_usize_str(n).is_some()
                } else {
                    false
                };
                if next_is_spec {
                    parallel_spec = Some(string_of(&chars_of(args[i + 1].as_str())));
                    i = i + 1;
                } else {
                    parallel_spec = Some(string_from("auto"));
                }
            } else if has_prefix(&a, "--parallel=") {
                let skip_len = chars_of("--parallel=").len();
                parallel_spec = Some(tail_string(&a, skip_len));
            } else if is_text(&a, "--label-filter") {
                if i + 1 < args.len() {
                    assert(args[i + 1 as int]@ == av[i + 1]);
                    label_filter = Some(string_of(&chars_of(args[i + 1].as_str())));
                    i = i + 1;
                }
            } else if has_prefix(&a, "--label-filter=") {
                let skip_len = chars_of("--label-filter=").len();
                label_filter = Some(tail_string(&a, skip_len));
            } else if !(a.len() > 0 && a[0] == '-') {
                filter = Some(string_of(&a));
            }
            i = i + 1;
        }
        let cli: Option<&str> = match &parallel_spec {
            Some(p) => Some(p.as_str()),
            None => None,
        };
        let parallelism = resolve_parallelism(cli, env_parallel, cores);
        RunConfig { filter, list, include_ignored, parallelism, label_filter, fail_on_focus: false }
    }
}


/// `a` asks for ignored specs to run.
pub open spec fn is_ignore_flag(a: Seq<char>) -> bool {
    a == "--include-ignored"@ || a == "--ignored"@
}

/// The on/off setting `f` of a scan state: listing mode (1) or running
/// ignored specs (2).
pub open spec fn switch_of(
    st: (Option<Seq<char>>, bool, bool, Option<Seq<char>>, Option<Seq<char>>),
    f: int,
) -> bool {
    if f == 1 {
        st.1
    } else {
        st.2
    }
}

/// `a` turns the setting `f` on: `--list` for listing mode (1), an ignore flag
/// for running ignored specs (2).
pub open spec fn turns_on(a: Seq<char>, f: int) -> bool {
    if f == 1 {
        a == "--list"@
    } else {
        is_ignore_flag(a)
    }
}

proof fn lemma_switch_flag_facts(a: Seq<char>, f: int)
    requires
        f == 1 || f == 2,
        turns_on(a, f),
    ensures
        !is_parallel_spec(a),
        f == 2 ==> a != "--list"@,
{
    reveal_strlit("--include-ignored");
    reveal_strlit("--ignored");
    reveal_strlit("auto");
    reveal_strlit("--list");
    assert(a.len() > 4);
    assert(a[0] == '-');
    assert(unsigned_digits(a) == a);
    assert(!is_digit(a[0]));
    assert(!all_digits(a));
}

/// Once a setting is on, later arguments do not turn it off.
proof fn lemma_scan_keeps_switch(
    args: Seq<Seq<char>>,
    i: int,
    st: (Option<Seq<char>>, bool, bool, Option<Seq<char>>, Option<Seq<char>>),
    f: int,
)
    requires
        switch_of(st, f),
    ensures
        switch_of(scan_args(args, i, st), f),
    decreases args.len() - i,
{
    if 0 <= i < args.len() {
        let a = args[i];
        if a == "--list"@ {
            lemma_scan_keeps_switch(args, i + 1, (st.0, true, st.2, st.3, st.4), f);
        } else if a == "--include-ignored"@ || a == "--ignored"@ {
            lemma_scan_keeps_switch(args, i + 1, (st.0, st.1, true, st.3, st.4), f);
        } else if a == "--parallel"@ {
            if i + 1 < args.len() && is_parallel_spec(args[i + 1]) {
                lemma_scan_keeps_switch(args, i + 2, (st.0, st.1, st.2, Some(args[i + 1]), st.4), f);
            } else {
                lemma_scan_keeps_switch(args, i + 1, (st.0, st.1, st.2, Some("auto"@), st.4), f);
            }
        } else if starts_with(a, "--parallel="@) {
            lemma_scan_keeps_switch(
                args,
                i + 1,
                (st.0, st.1, st.2, Some(a.skip("--parallel="@.len() as int)), st.4),
                f,
            );
        } else if a == "--label-filter"@ {
            if i + 1 < args.len() {
                lemma_scan_keeps_switch(args, i + 2, (st.0, st.1, st.2, st.3, Some(args[i + 1])), f);
            } else {
                lemma_scan_keeps_switch(args, i + 1, st, f);
            }
        } else if starts_with(a, "--label-filter="@) {
            lemma_scan_keeps_switch(
                args,
                i + 1,
                (st.0, st.1, st.2, st.3, Some(a.skip("--label-filter="@.len() as int))),
                f,
            );
        } else if !(a.len() > 0 && a[0] == '-') {
            lemma_scan_keeps_switch(args, i + 1, (Some(a), st.1, st.2, st.3, st.4), f);
        } else {
            lemma_scan_keeps_switch(args, i + 1, st, f);
        }
    }
}

/// Without an argument from index `i` on that turns the setting on, the scan
/// leaves it as it was.
proof fn lemma_scan_without_switch(
    args: Seq<Seq<char>>,
    i: int,
    st: (Option<Seq<char>>, bool, bool, Option<Seq<char>>, Option<Seq<char>>),
    f: int,
)
    requires
        0 <= i,
        f == 1 || f == 2,
        forall|k: int| i <= k < args.len() ==> !turns_on(#[trigger] args[k], f),
    ensures
        switch_of(scan_args(args, i, st), f) == switch_of(st, f),
    decreases args.len() - i,
{
    if i < args.len() {
        let a = args[i];
        assert(!turns_on(args[i], f));
        if a == "--list"@ {
            lemma_scan_without_switch(args, i + 1, (st.0, true, st.2, st.3, st.4), f);
        } else if a == "--include-ignored"@ || a == "--ignored"@ {
            lemma_scan_without_switch(args, i + 1, (st.0, st.1, true, st.3, st.4), f);
        } else if a == "--parallel"@ {
            if i + 1 < args.len() && is_parallel_spec(args[i + 1]) {
                lemma_scan_without_switch(args, i + 2, (st.0, st.1, st.2, Some(args[i + 1]), st.4), f);
            } else {
                lemma_scan_without_switch(args, i + 1, (st.0, st.1, st.2, Some("auto"@), st.4), f);
            }
        } else if starts_with(a, "--parallel="@) {
            lemma_scan_without_switch(
                args,
                i + 1,
                (st.0, st.1, st.2, Some(a.skip("--parallel="@.len() as int)), st.4),
                f,
            );
        } else if a == "--label-filter"@ {
            if i + 1 < args.len() {
                lemma_scan_without_switch(args, i + 2, (st.0, st.1, st.2, st.3, Some(args[i + 1])), f);
            } else {
                lemma_scan_without_switch(args, i + 1, st, f);
            }
        } else if starts_with(a, "--label-filter="@) {
            lemma_scan_without_switch(
                args,
                i + 1,
                (st.0, st.1, st.2, st.3, Some(a.skip("--label-filter="@.len() as int))),
                f,
            );
        } else if !(a.len() > 0 && a[0] == '-') {
            lemma_scan_without_switch(args, i + 1, (Some(a), st.1, st.2, st.3, st.4), f);
        } else {
            lemma_scan_without_switch(args, i + 1, st, f);
        }
    }
}

/// A scan from `i` that has not passed the flag at `k` reaches it, unless the
/// flag is the value of a `--label-filter` just before it.
proof fn lemma_scan_reaches_switch(
    args: Seq<Seq<char>>,
    i: int,
    st: (Option<Seq<char>>, bool, bool, Option<Seq<char>>, Option<Seq<char>>),
    k: int,
    f: int,
)
    requires
        f == 1 || f == 2,
        1 <= i <= k < args.len(),
        turns_on(args[k], f),
        k == 1 || args[k - 1] != "--label-filter"@,
    ensures
        switch_of(scan_args(args, i, st), f),
    decreases k - i,
{
    lemma_switch_flag_facts(args[k], f);
    let a = args[i];
    if a == "--list"@ {
        if i == k {
            lemma_scan_keeps_switch(args, i + 1, (st.0, true, st.2, st.3, st.4), f);
        } else {
            lemma_scan_reaches_switch(args, i + 1, (st.0, true, st.2, st.3, st.4), k, f);
        }
    } else if a == "--include-ignored"@ || a == "--ignored"@ {
        if i == k {
            lemma_scan_keeps_switch(args, i + 1, (st.0, st.1, true, st.3, st.4), f);
        } else {
            lemma_scan_reaches_switch(args, i + 1, (st.0, st.1, true, st.3, st.4), k, f);
        }
    } else if a == "--parallel"@ {
        if i + 1 < args.len() && is_parallel_spec(args[i + 1]) {
            lemma_scan_reaches_switch(args, i + 2, (st.0, st.1, st.2, Some(args[i + 1]), st.4), k, f);
        } else {
            lemma_scan_reaches_switch(args, i + 1, (st.0, st.1, st.2, Some("auto"@), st.4), k, f);
        }
    } else if starts_with(a, "--parallel="@) {
        lemma_scan_reaches_switch(
            args,
            i + 1,
            (st.0, st.1, st.2, Some(a.skip("--parallel="@.len() as int)), st.4),
            k,
            f,
        );
    } else if a == "--label-filter"@ {
        lemma_scan_reaches_switch(args, i + 2, (st.0, st.1, st.2, st.3, Some(args[i + 1])), k, f);
    } else if starts_with(a, "--label-filter="@) {
        lemma_scan_reaches_switch(
            args,
            i + 1,
            (st.0, st.1, st.2, st.3, Some(a.skip("--label-filter="@.len() as int))),
            k,
            f,
        );
    } else if !(a.len() > 0 && a[0] == '-') {
        lemma_scan_reaches_switch(args, i + 1, (Some(a), st.1, st.2, st.3, st.4), k, f);
    } else {
        lemma_scan_reaches_switch(args, i + 1, st, k, f);
    }
}

/// Both halves of a switch law: off without its flag, on with a flag that is
/// not the value of a `--label-filter` just before it.
proof fn lemma_switch_follows_flag(args: Seq<Seq<char>>, f: int)
    requires
        f == 1 || f == 2,
    ensures
        (forall|k: int| 1 <= k < args.len() ==> !turns_on(#[trigger] args[k], f)) ==> !switch_of(
            args_scan(args),
            f,
        ),
        forall|k: int|
            1 <= k < args.len() && turns_on(#[trigger] args[k], f) && (k == 1 || args[k - 1]
                != "--label-filter"@) ==> switch_of(args_scan(args), f),
{
    let st0: (Option<Seq<char>>, bool, bool, Option<Seq<char>>, Option<Seq<char>>) = (None, false, false, None, None);
    if forall|k: int| 1 <= k < args.len() ==> !turns_on(#[trigger] args[k], f) {
        lemma_scan_without_switch(args, 1, st0, f);
    }
    assert forall|k: int|
        1 <= k < args.len() && turns_on(#[trigger] args[k], f) && (k == 1 || args[k - 1]
            != "--label-filter"@) implies switch_of(args_scan(args), f) by {
        lemma_scan_reaches_switch(args, 1, st0, k, f);
    }
}

/// Ignored specs run exactly when asked for: with no `--include-ignored` or
/// `--ignored` after the program's name they do not, and any such flag that is
/// not the value of a `--label-filter` just before it makes them run.
pub proof fn law_include_ignored_follows_flag(args: Seq<Seq<char>>)
    ensures
        (forall|k: int| 1 <= k < args.len() ==> !is_ignore_flag(#[trigger] args[k])) ==> !args_scan(args).2,
        forall|k: int|
            1 <= k < args.len() && is_ignore_flag(#[trigger] args[k]) && (k == 1 || args[k - 1]
                != "--label-filter"@) ==> args_scan(args).2,
{
    lemma_switch_follows_flag(args, 2);
    assert forall|k: int| 1 <= k < args.len() implies is_ignore_flag(#[trigger] args[k]) == turns_on(args[k], 2) by {}
}

/// Listing mode is on exactly when asked for: with no `--list` after the
/// program's name it is off, and a `--list` that is not the value of a
/// `--label-filter` just before it turns it on.
pub proof fn law_list_follows_flag(args: Seq<Seq<char>>)
    ensures
        (forall|k: int| 1 <= k < args.len() ==> #[trigger] args[k] != "--list"@) ==> !args_scan(args).1,
        forall|k: int|
            1 <= k < args.len() && #[trigger] args[k] == "--list"@ && (k == 1 || args[k - 1]
                != "--label-filter"@) ==> args_scan(args).1,
{
    lemma_switch_follows_flag(args, 1);
    assert forall|k: int| 1 <= k < args.len() implies (#[trigger] args[k] == "--list"@) == turns_on(args[k], 1) by {}
}


/// The option `prev` takes the argument `a` after it as its value.
pub open spec fn consumes(prev: Seq<char>, a: Seq<char>) -> bool {
    prev == "--label-filter"@ || (prev == "--parallel"@ && is_parallel_spec(a))
}

/// A scan from `i` lands on position `k` when the argument there is not the
/// value of the option before it: what it then gives is what a scan from `k`
/// gives, from some state.
proof fn lemma_scan_lands_on(
    args: Seq<Seq<char>>,
    i: int,
    st: (Option<Seq<char>>, bool, bool, Option<Seq<char>>, Option<Seq<char>>),
    k: int,
)
    requires
        1 <= i <= k < args.len(),
        k == 1 || !consumes(args[k - 1], args[k]),
    ensures
        exists|st2: (Option<Seq<char>>, bool, bool, Option<Seq<char>>, Option<Seq<char>>)|
            scan_args(args, i, st) == #[trigger] scan_args(args, k, st2),
    decreases k - i,
{
    if i == k {
        assert(scan_args(args, i, st) == scan_args(args, k, st));
    } else {
        let a = args[i];
        if a == "--list"@ {
            lemma_scan_lands_on(args, i + 1, (st.0, true, st.2, st.3, st.4), k);
        } else if a == "--include-ignored"@ || a == "--ignored"@ {
            lemma_scan_lands_on(args, i + 1, (st.0, st.1, true, st.3, st.4), k);
        } else if a == "--parallel"@ {
            if i + 1 < args.len() && is_parallel_spec(args[i + 1]) {
                lemma_scan_lands_on(args, i + 2, (st.0, st.1, st.2, Some(args[i + 1]), st.4), k);
            } else {
                lemma_scan_lands_on(args, i + 1, (st.0, st.1, st.2, Some("auto"@), st.4), k);
            }
        } else if starts_with(a, "--parallel="@) {
            lemma_scan_lands_on(args, i + 1, (st.0, st.1, st.2, Some(a.skip("--parallel="@.len() as int)), st.4), k);
        } else if a == "--label-filter"@ {
            lemma_scan_lands_on(args, i + 2, (st.0, st.1, st.2, st.3, Some(args[i + 1])), k);
        } else if starts_with(a, "--label-filter="@) {
            lemma_scan_lands_on(
                args,
                i + 1,
                (st.0, st.1, st.2, st.3, Some(a.skip("--label-filter="@.len() as int))),
                k,
            );
        } else if !(a.len() > 0 && a[0] == '-') {
            lemma_scan_lands_on(args, i + 1, (Some(a), st.1, st.2, st.3, st.4), k);
        } else {
            lemma_scan_lands_on(args, i + 1, st, k);
        }
    }
}

proof fn lemma_scan_last_label_eq(
    args: Seq<Seq<char>>,
    st: (Option<Seq<char>>, bool, bool, Option<Seq<char>>, Option<Seq<char>>),
    e: Seq<char>,
)
    requires
        args.len() >= 1,
        args[args.len() - 1] == "--label-filter="@ + e,
    ensures
        scan_args(args, args.len() - 1, st).4 == Some(e),
{
    reveal_strlit("--list");
    reveal_strlit("--include-ignored");
    reveal_strlit("--ignored");
    reveal_strlit("--parallel");
    reveal_strlit("--parallel=");
    reveal_strlit("--label-filter");
    reveal_strlit("--label-filter=");
    let a = args[args.len() - 1];
    assert(a[2] == 'l' && a[3] == 'a' && a.len() >= 15);
    assert(a.take(11)[2] == 'l');
    assert(a.take(15) =~= "--label-filter="@);
    assert(a.skip(15) =~= e);
    let nx = (st.0, st.1, st.2, st.3, Some(a.skip("--label-filter="@.len() as int)));
    assert(scan_args(args, args.len() as int, nx) == nx);
}

proof fn lemma_scan_last_parallel_eq(
    args: Seq<Seq<char>>,
    st: (Option<Seq<char>>, bool, bool, Option<Seq<char>>, Option<Seq<char>>),
    e: Seq<char>,
)
    requires
        args.len() >= 1,
        args[args.len() - 1] == "--parallel="@ + e,
    ensures
        scan_args(args, args.len() - 1, st).3 == Some(e),
{
    reveal_strlit("--list");
    reveal_strlit("--include-ignored");
    reveal_strlit("--ignored");
    reveal_strlit("--parallel");
    reveal_strlit("--parallel=");
    let a = args[args.len() - 1];
    assert(a[2] == 'p' && a.len() >= 11);
    assert(a.take(11) =~= "--parallel="@);
    assert(a.skip(11) =~= e);
    let nx = (st.0, st.1, st.2, Some(a.skip("--parallel="@.len() as int)), st.4);
    assert(scan_args(args, args.len() as int, nx) == nx);
}

proof fn lemma_scan_last_word(
    args: Seq<Seq<char>>,
    st: (Option<Seq<char>>, bool, bool, Option<Seq<char>>, Option<Seq<char>>),
)
    requires
        args.len() >= 1,
        !(args[args.len() - 1].len() > 0 && args[args.len() - 1][0] == '-'),
    ensures
        scan_args(args, args.len() - 1, st).0 == Some(args[args.len() - 1]),
{
    reveal_strlit("--list");
    reveal_strlit("--include-ignored");
    reveal_strlit("--ignored");
    reveal_strlit("--parallel");
    reveal_strlit("--parallel=");
    reveal_strlit("--label-filter");
    reveal_strlit("--label-filter=");
    let a = args[args.len() - 1];
    if a.len() > 0 {
        assert(a[0] != '-');
    }
    if a.len() >= 11 {
        assert(a.take(11)[0] == a[0]);
    }
    if a.len() >= 15 {
        assert(a.take(15)[0] == a[0]);
    }
    assert(!starts_with(a, "--parallel="@));
    assert(!starts_with(a, "--label-filter="@));
    let nx = (Some(a), st.1, st.2, st.3, st.4);
    assert(scan_args(args, args.len() as int, nx) == nx);
}

proof fn lemma_scan_last_label_pair(
    args: Seq<Seq<char>>,
    st: (Option<Seq<char>>, bool, bool, Option<Seq<char>>, Option<Seq<char>>),
    e: Seq<char>,
)
    requires
        args.len() >= 2,
        args[args.len() - 2] == "--label-filter"@,
        args[args.len() - 1] == e,
    ensures
        scan_args(args, args.len() - 2, st).4 == Some(e),
{
    reveal_strlit("--list");
    reveal_strlit("--include-ignored");
    reveal_strlit("--ignored");
    reveal_strlit("--parallel");
    reveal_strlit("--parallel=");
    reveal_strlit("--label-filter");
    let a = args[args.len() - 2];
    assert(a[2] == 'l' && a.len() == 14);
    assert(a.take(11)[2] == 'l');
    assert(!starts_with(a, "--parallel="@));
    let nx = (st.0, st.1, st.2, st.3, Some(e));
    assert(scan_args(args, args.len() as int, nx) == nx);
}

/// The last word of the command line gives its setting, unless it is the value
/// of the option before it: a final `--label-filter=EXPR` or `--label-filter
/// EXPR` gives the label filter `EXPR`, a final `--parallel=SPEC` gives the
/// worker count spec `SPEC`, and a final argument not starting with `-` is the
/// path filter (the last one wins).
pub proof fn law_last_argument_wins(args: Seq<Seq<char>>, e: Seq<char>)
    requires
        args.len() >= 2,
    ensures
        ({
            let k = args.len() - 1;
            (k == 1 || !consumes(args[k - 1], args[k])) ==> {
                &&& args[k] == "--label-filter="@ + e ==> args_scan(args).4 == Some(e)
                &&& args[k] == "--parallel="@ + e ==> args_scan(args).3 == Some(e)
                &&& !(args[k].len() > 0 && args[k][0] == '-') ==> args_scan(args).0 == Some(args[k])
            }
        }),
        ({
            let k = args.len() - 2;
            (k >= 1 && (k == 1 || !consumes(args[k - 1], args[k])) && args[k] == "--label-filter"@
                && args[k + 1] == e) ==> args_scan(args).4 == Some(e)
        }),
{
    let st0: (Option<Seq<char>>, bool, bool, Option<Seq<char>>, Option<Seq<char>>) = (None, false, false, None, None);
    let k = args.len() - 1;
    if k == 1 || !consumes(args[k - 1], args[k]) {
        lemma_scan_lands_on(args, 1, st0, k);
        let st2 = choose|st2: (Option<Seq<char>>, bool, bool, Option<Seq<char>>, Option<Seq<char>>)|
            scan_args(args, 1, st0) == #[trigger] scan_args(args, k, st2);
        if args[k] == "--label-filter="@ + e {
            lemma_scan_last_label_eq(args, st2, e);
        }
        if args[k] == "--parallel="@ + e {
            lemma_scan_last_parallel_eq(args, st2, e);
        }
        if !(args[k].len() > 0 && args[k][0] == '-') {
            lemma_scan_last_word(args, st2);
        }
    }
    let j = args.len() - 2;
    if j >= 1 && (j == 1 || !consumes(args[j - 1], args[j])) && args[j] == "--label-filter"@ && args[j + 1] == e {
        lemma_scan_lands_on(args, 1, st0, j);
        let st2 = choose|st2: (Option<Seq<char>>, bool, bool, Option<Seq<char>>, Option<Seq<char>>)|
            scan_args(args, 1, st0) == #[trigger] scan_args(args, j, st2);
        lemma_scan_last_label_pair(args, st2, e);
    }
}

} // verus!
