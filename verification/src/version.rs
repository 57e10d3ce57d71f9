//! The Debian version order: a total order over opaque version strings.
//!
//! A version string is `epoch:upstream-revision`, with a missing epoch
//! read as `0` and a missing revision as the empty string.  Epochs compare
//! numerically; the upstream and revision parts compare by alternately
//! peeling a maximal run of non-digit characters (compared character by
//! character, where `~` sorts below everything including the end of the
//! run, the end of the run sorts below letters, and letters sort below
//! every other character) and a maximal run of digits (compared as
//! integers, ignoring leading zeros).

use vstd::prelude::*;

use crate::text::{
    find_first_char, find_last_char_in, first_index_of, last_index_of,
};

verus! {

/// An ASCII decimal digit.
pub open spec fn is_digit(c: char) -> bool {
    '0' <= c && c <= '9'
}

/// An ASCII letter.
pub open spec fn is_letter(c: char) -> bool {
    ('a' <= c && c <= 'z') || ('A' <= c && c <= 'Z')
}

/// Rank of a character inside a non-digit run.  Tilde sorts below
/// everything (rank 0); the missing character at the end of a shorter run
/// ranks 1; letters come next, in ASCII order; every other character
/// follows, in code-point order (the offset lifts them above all letters).
pub open spec fn run_char_rank(c: char) -> int {
    if c == '~' {
        0
    } else if is_letter(c) {
        c as int + 2
    } else {
        c as int + 0x110002
    }
}

/// No character ranks 1: that rank is reserved for the end of a run.
pub proof fn lemma_rank_never_end(c: char)
    ensures
        run_char_rank(c) != 1,
{
}

/// Distinct characters get distinct ranks.
pub proof fn lemma_rank_injective(c1: char, c2: char)
    ensures
        run_char_rank(c1) == run_char_rank(c2) ==> c1 == c2,
{
}

/// Compare two maximal non-digit runs character by character, a shorter
/// run's missing characters reading as the end-of-run rank.
pub open spec fn cmp_run(a: Seq<char>, b: Seq<char>) -> int
    decreases a.len(),
{
    if a.len() == 0 && b.len() == 0 {
        0
    } else if a.len() == 0 {
        if run_char_rank(b[0]) < 1 {
            1
        } else {
            -1
        }
    } else if b.len() == 0 {
        if run_char_rank(a[0]) < 1 {
            -1
        } else {
            1
        }
    } else if run_char_rank(a[0]) != run_char_rank(b[0]) {
        if run_char_rank(a[0]) < run_char_rank(b[0]) {
            -1
        } else {
            1
        }
    } else {
        cmp_run(a.drop_first(), b.drop_first())
    }
}

/// A run comparison only ever answers less, equal or greater.
pub proof fn lemma_cmp_run_range(a: Seq<char>, b: Seq<char>)
    ensures
        cmp_run(a, b) == -1 || cmp_run(a, b) == 0 || cmp_run(a, b) == 1,
    decreases a.len(),
{
    if a.len() != 0 && b.len() != 0 && run_char_rank(a[0]) == run_char_rank(b[0]) {
        lemma_cmp_run_range(a.drop_first(), b.drop_first());
    }
}

/// Swapping the runs flips the answer.
pub proof fn lemma_cmp_run_antisym(a: Seq<char>, b: Seq<char>)
    ensures
        cmp_run(b, a) == -cmp_run(a, b),
    decreases a.len(),
{
    if a.len() != 0 && b.len() != 0 && run_char_rank(a[0]) == run_char_rank(b[0]) {
        lemma_cmp_run_antisym(a.drop_first(), b.drop_first());
    }
}

/// Runs that compare equal are the same sequence.
pub proof fn lemma_cmp_run_eq(a: Seq<char>, b: Seq<char>)
    requires
        cmp_run(a, b) == 0,
    ensures
        a =~= b,
    decreases a.len(),
{
    if a.len() != 0 && b.len() != 0 && run_char_rank(a[0]) == run_char_rank(b[0]) {
        lemma_rank_injective(a[0], b[0]);
        lemma_cmp_run_eq(a.drop_first(), b.drop_first());
        assert(a =~= seq![a[0]] + a.drop_first());
        assert(b =~= seq![b[0]] + b.drop_first());
    }
}

/// The run comparison is transitive on its non-strict side.
pub proof fn lemma_cmp_run_trans(a: Seq<char>, b: Seq<char>, c: Seq<char>)
    requires
        cmp_run(a, b) <= 0,
        cmp_run(b, c) <= 0,
    ensures
        cmp_run(a, c) <= 0,
    decreases a.len() + b.len() + c.len(),
{
    let ra = if a.len() == 0 { 1int } else { run_char_rank(a[0]) };
    let rb = if b.len() == 0 { 1int } else { run_char_rank(b[0]) };
    let rc = if c.len() == 0 { 1int } else { run_char_rank(c[0]) };
    if a.len() == 0 && b.len() == 0 && c.len() == 0 {
    } else {
        if a.len() != 0 {
            lemma_rank_never_end(a[0]);
        }
        if b.len() != 0 {
            lemma_rank_never_end(b[0]);
        }
        if c.len() != 0 {
            lemma_rank_never_end(c[0]);
        }
        if ra == rb && rb == rc {
            lemma_cmp_run_trans(a.drop_first(), b.drop_first(), c.drop_first());
        }
    }
}

/// The sequence without its leading zeros.
pub open spec fn strip_zeros(s: Seq<char>) -> Seq<char>
    decreases s.len(),
{
    if s.len() > 0 && s[0] == '0' {
        strip_zeros(s.drop_first())
    } else {
        s
    }
}

/// Plain lexicographic comparison by code point, a shorter sequence
/// sorting below a longer one that it is a prefix of.
pub open spec fn lex_chars(a: Seq<char>, b: Seq<char>) -> int
    decreases a.len(),
{
    if a.len() == 0 && b.len() == 0 {
        0
    } else if a.len() == 0 {
        -1
    } else if b.len() == 0 {
        1
    } else if a[0] != b[0] {
        if a[0] < b[0] {
            -1
        } else {
            1
        }
    } else {
        lex_chars(a.drop_first(), b.drop_first())
    }
}

/// Compare two digit runs as integers, ignoring leading zeros: strip the
/// zeros, then a longer run is larger, and equal-length runs compare
/// lexicographically.  (On runs of digits this is exactly numeric
/// comparison; see `lemma_cmp_digit_runs_numeric`.)
pub open spec fn cmp_digit_runs(a: Seq<char>, b: Seq<char>) -> int {
    let sa = strip_zeros(a);
    let sb = strip_zeros(b);
    if sa.len() < sb.len() {
        -1
    } else if sa.len() > sb.len() {
        1
    } else {
        lex_chars(sa, sb)
    }
}

pub proof fn lemma_lex_chars_range(a: Seq<char>, b: Seq<char>)
    ensures
        lex_chars(a, b) == -1 || lex_chars(a, b) == 0 || lex_chars(a, b) == 1,
    decreases a.len(),
{
    if a.len() != 0 && b.len() != 0 && a[0] == b[0] {
        lemma_lex_chars_range(a.drop_first(), b.drop_first());
    }
}

pub proof fn lemma_lex_chars_antisym(a: Seq<char>, b: Seq<char>)
    ensures
        lex_chars(b, a) == -lex_chars(a, b),
    decreases a.len(),
{
    if a.len() != 0 && b.len() != 0 && a[0] == b[0] {
        lemma_lex_chars_antisym(a.drop_first(), b.drop_first());
    }
}

pub proof fn lemma_lex_chars_eq(a: Seq<char>, b: Seq<char>)
    requires
        lex_chars(a, b) == 0,
    ensures
        a =~= b,
    decreases a.len(),
{
    if a.len() != 0 && b.len() != 0 && a[0] == b[0] {
        lemma_lex_chars_eq(a.drop_first(), b.drop_first());
        assert(a =~= seq![a[0]] + a.drop_first());
        assert(b =~= seq![b[0]] + b.drop_first());
    }
}

pub proof fn lemma_lex_chars_trans(a: Seq<char>, b: Seq<char>, c: Seq<char>)
    requires
        lex_chars(a, b) <= 0,
        lex_chars(b, c) <= 0,
    ensures
        lex_chars(a, c) <= 0,
    decreases a.len() + b.len() + c.len(),
{
    if a.len() != 0 && b.len() != 0 && c.len() != 0 && a[0] == b[0] && b[0] == c[0] {
        lemma_lex_chars_trans(a.drop_first(), b.drop_first(), c.drop_first());
    }
}

pub proof fn lemma_cmp_digit_runs_range(a: Seq<char>, b: Seq<char>)
    ensures
        cmp_digit_runs(a, b) == -1 || cmp_digit_runs(a, b) == 0 || cmp_digit_runs(a, b) == 1,
{
    lemma_lex_chars_range(strip_zeros(a), strip_zeros(b));
}

pub proof fn lemma_cmp_digit_runs_antisym(a: Seq<char>, b: Seq<char>)
    ensures
        cmp_digit_runs(b, a) == -cmp_digit_runs(a, b),
{
    lemma_lex_chars_antisym(strip_zeros(a), strip_zeros(b));
}

/// Digit runs that compare equal agree once their leading zeros are gone.
pub proof fn lemma_cmp_digit_runs_eq(a: Seq<char>, b: Seq<char>)
    requires
        cmp_digit_runs(a, b) == 0,
    ensures
        strip_zeros(a) =~= strip_zeros(b),
{
    lemma_lex_chars_eq(strip_zeros(a), strip_zeros(b));
}

pub proof fn lemma_cmp_digit_runs_trans(a: Seq<char>, b: Seq<char>, c: Seq<char>)
    requires
        cmp_digit_runs(a, b) <= 0,
        cmp_digit_runs(b, c) <= 0,
    ensures
        cmp_digit_runs(a, c) <= 0,
{
    let sa = strip_zeros(a);
    let sb = strip_zeros(b);
    let sc = strip_zeros(c);
    if sa.len() == sb.len() && sb.len() == sc.len() {
        lemma_lex_chars_trans(sa, sb, sc);
    }
}

/// Length of the maximal leading run of non-digit characters.
pub open spec fn nondigit_len(s: Seq<char>) -> int
    decreases s.len(),
{
    if s.len() == 0 || is_digit(s[0]) {
        0
    } else {
        1 + nondigit_len(s.drop_first())
    }
}

/// Length of the maximal leading run of digit characters.
pub open spec fn digit_len(s: Seq<char>) -> int
    decreases s.len(),
{
    if s.len() == 0 || !is_digit(s[0]) {
        0
    } else {
        1 + digit_len(s.drop_first())
    }
}

pub proof fn lemma_nondigit_len_bounds(s: Seq<char>)
    ensures
        0 <= nondigit_len(s) <= s.len(),
        forall|i: int| 0 <= i < nondigit_len(s) ==> !is_digit(s[i]),
        nondigit_len(s) < s.len() ==> is_digit(s[nondigit_len(s)]),
    decreases s.len(),
{
    if !(s.len() == 0 || is_digit(s[0])) {
        lemma_nondigit_len_bounds(s.drop_first());
        assert forall|i: int| 0 <= i < nondigit_len(s) implies !is_digit(s[i]) by {
            if i > 0 {
                assert(s[i] == s.drop_first()[i - 1]);
            }
        }
    }
}

pub proof fn lemma_digit_len_bounds(s: Seq<char>)
    ensures
        0 <= digit_len(s) <= s.len(),
        forall|i: int| 0 <= i < digit_len(s) ==> is_digit(s[i]),
        digit_len(s) < s.len() ==> !is_digit(s[digit_len(s)]),
    decreases s.len(),
{
    if !(s.len() == 0 || !is_digit(s[0])) {
        lemma_digit_len_bounds(s.drop_first());
        assert forall|i: int| 0 <= i < digit_len(s) implies is_digit(s[i]) by {
            if i > 0 {
                assert(s[i] == s.drop_first()[i - 1]);
            }
        }
    }
}

/// Compare one `epoch`-free, `revision`-free version component: peel the
/// leading non-digit runs and compare them, then the leading digit runs,
/// and repeat on what is left until both components are exhausted.
pub open spec fn cmp_part(a: Seq<char>, b: Seq<char>) -> int
    decreases a.len() + b.len(),
{
    if a.len() == 0 && b.len() == 0 {
        0
    } else {
        let na = nondigit_len(a);
        let nb = nondigit_len(b);
        let r = cmp_run(a.take(na), b.take(nb));
        if r != 0 {
            r
        } else {
            let a1 = a.skip(na);
            let b1 = b.skip(nb);
            let da = digit_len(a1);
            let db = digit_len(b1);
            let d = cmp_digit_runs(a1.take(da), b1.take(db));
            if d != 0 {
                d
            } else {
                proof {
                    lemma_cmp_part_strips(a, b);
                }
                cmp_part(a1.skip(da), b1.skip(db))
            }
        }
    }
}

/// When a component is not exhausted, one round of peeling strips at
/// least one character from it, so the peeling terminates.
pub proof fn lemma_cmp_part_strips(a: Seq<char>, b: Seq<char>)
    requires
        a.len() != 0 || b.len() != 0,
    ensures
        nondigit_len(a) + digit_len(a.skip(nondigit_len(a))) + nondigit_len(b) + digit_len(
            b.skip(nondigit_len(b)),
        ) >= 1,
        a.skip(nondigit_len(a)).skip(digit_len(a.skip(nondigit_len(a)))).len() == a.len()
            - nondigit_len(a) - digit_len(a.skip(nondigit_len(a))),
        b.skip(nondigit_len(b)).skip(digit_len(b.skip(nondigit_len(b)))).len() == b.len()
            - nondigit_len(b) - digit_len(b.skip(nondigit_len(b))),
{
    lemma_nondigit_len_bounds(a);
    lemma_nondigit_len_bounds(b);
    lemma_digit_len_bounds(a.skip(nondigit_len(a)));
    lemma_digit_len_bounds(b.skip(nondigit_len(b)));
    if a.len() != 0 && nondigit_len(a) == 0 {
        assert(is_digit(a.skip(0)[0]));
        assert(digit_len(a.skip(0)) >= 1);
    }
    if b.len() != 0 && nondigit_len(b) == 0 {
        assert(is_digit(b.skip(0)[0]));
        assert(digit_len(b.skip(0)) >= 1);
    }
}

pub proof fn lemma_cmp_part_range(a: Seq<char>, b: Seq<char>)
    ensures
        cmp_part(a, b) == -1 || cmp_part(a, b) == 0 || cmp_part(a, b) == 1,
    decreases a.len() + b.len(),
{
    if !(a.len() == 0 && b.len() == 0) {
        let na = nondigit_len(a);
        let nb = nondigit_len(b);
        let r = cmp_run(a.take(na), b.take(nb));
        lemma_cmp_run_range(a.take(na), b.take(nb));
        if r == 0 {
            let a1 = a.skip(na);
            let b1 = b.skip(nb);
            let da = digit_len(a1);
            let db = digit_len(b1);
            let d = cmp_digit_runs(a1.take(da), b1.take(db));
            lemma_cmp_digit_runs_range(a1.take(da), b1.take(db));
            if d == 0 {
                lemma_cmp_part_strips(a, b);
                lemma_cmp_part_range(a1.skip(da), b1.skip(db));
            }
        }
    }
}

pub proof fn lemma_cmp_part_antisym(a: Seq<char>, b: Seq<char>)
    ensures
        cmp_part(b, a) == -cmp_part(a, b),
    decreases a.len() + b.len(),
{
    if !(a.len() == 0 && b.len() == 0) {
        let na = nondigit_len(a);
        let nb = nondigit_len(b);
        let r = cmp_run(a.take(na), b.take(nb));
        lemma_cmp_run_antisym(a.take(na), b.take(nb));
        if r == 0 {
            let a1 = a.skip(na);
            let b1 = b.skip(nb);
            let da = digit_len(a1);
            let db = digit_len(b1);
            let d = cmp_digit_runs(a1.take(da), b1.take(db));
            lemma_cmp_digit_runs_antisym(a1.take(da), b1.take(db));
            if d == 0 {
                lemma_cmp_part_strips(a, b);
                lemma_cmp_part_antisym(a1.skip(da), b1.skip(db));
            }
        }
    }
}

pub proof fn lemma_cmp_part_trans(a: Seq<char>, b: Seq<char>, c: Seq<char>)
    requires
        cmp_part(a, b) <= 0,
        cmp_part(b, c) <= 0,
    ensures
        cmp_part(a, c) <= 0,
    decreases a.len() + b.len() + c.len(),
{
    lemma_cmp_part_range(a, b);
    lemma_cmp_part_range(b, c);
    lemma_cmp_part_range(a, c);
    if a.len() == 0 && b.len() == 0 && c.len() == 0 {
    } else {
        let na = nondigit_len(a);
        let nb = nondigit_len(b);
        let nc = nondigit_len(c);
        let ra = a.take(na);
        let rb = b.take(nb);
        let rc = c.take(nc);
        lemma_cmp_run_range(ra, rb);
        lemma_cmp_run_range(rb, rc);
        lemma_cmp_run_range(ra, rc);
        lemma_cmp_run_antisym(ra, rb);
        lemma_cmp_run_antisym(rb, rc);
        lemma_cmp_run_antisym(ra, rc);
        if cmp_run(ra, rb) == 0 && cmp_run(rb, rc) == 0 {
            lemma_cmp_run_eq(ra, rb);
            lemma_cmp_run_eq(rb, rc);
            assert(cmp_run(ra, rc) == 0) by {
                lemma_cmp_run_eq_refl(ra);
                assert(ra =~= rc);
            }
            let a1 = a.skip(na);
            let b1 = b.skip(nb);
            let c1 = c.skip(nc);
            let da = digit_len(a1);
            let db = digit_len(b1);
            let dc = digit_len(c1);
            let ga = a1.take(da);
            let gb = b1.take(db);
            let gc = c1.take(dc);
            lemma_cmp_digit_runs_range(ga, gb);
            lemma_cmp_digit_runs_range(gb, gc);
            lemma_cmp_digit_runs_range(ga, gc);
            lemma_cmp_digit_runs_antisym(ga, gb);
            lemma_cmp_digit_runs_antisym(gb, gc);
            lemma_cmp_digit_runs_antisym(ga, gc);
            if cmp_digit_runs(ga, gb) == 0 && cmp_digit_runs(gb, gc) == 0 {
                lemma_cmp_digit_runs_eq(ga, gb);
                lemma_cmp_digit_runs_eq(gb, gc);
                assert(cmp_digit_runs(ga, gc) == 0);
                if a.len() == 0 && b.len() == 0 && c.len() == 0 {
                } else {
                    lemma_cmp_part_strips_all(a, b, c);
                    lemma_cmp_part_trans(a1.skip(da), b1.skip(db), c1.skip(dc));
                }
            } else if cmp_digit_runs(ga, gb) == 0 {
                // digit stage of (b, c) decides: cmp_digit_runs(gb, gc) < 0
                lemma_cmp_digit_runs_eq(ga, gb);
                assert(cmp_digit_runs(ga, gc) == cmp_digit_runs(gb, gc));
            } else if cmp_digit_runs(gb, gc) == 0 {
                lemma_cmp_digit_runs_eq(gb, gc);
                assert(cmp_digit_runs(ga, gc) == cmp_digit_runs(ga, gb));
            } else {
                lemma_cmp_digit_runs_trans(ga, gb, gc);
                assert(cmp_digit_runs(ga, gc) <= 0);
                if cmp_digit_runs(ga, gc) == 0 {
                    lemma_cmp_digit_runs_eq(ga, gc);
                    assert(cmp_digit_runs(gc, gb) == -cmp_digit_runs(gb, gc));
                    assert(cmp_digit_runs(ga, gb) == cmp_digit_runs(gc, gb));
                    assert(false);
                }
            }
        } else if cmp_run(ra, rb) == 0 {
            lemma_cmp_run_eq(ra, rb);
            assert(cmp_run(ra, rc) == cmp_run(rb, rc));
        } else if cmp_run(rb, rc) == 0 {
            lemma_cmp_run_eq(rb, rc);
            assert(cmp_run(ra, rc) == cmp_run(ra, rb));
        } else {
            lemma_cmp_run_trans(ra, rb, rc);
            if cmp_run(ra, rc) == 0 {
                lemma_cmp_run_eq(ra, rc);
                assert(cmp_run(ra, rb) == cmp_run(rc, rb));
                assert(false);
            }
        }
    }
}

/// A run compares equal to itself.
pub proof fn lemma_cmp_run_eq_refl(a: Seq<char>)
    ensures
        cmp_run(a, a) == 0,
{
    lemma_cmp_run_antisym(a, a);
}

/// The three strip lemmas at once, for the transitivity induction.
pub proof fn lemma_cmp_part_strips_all(a: Seq<char>, b: Seq<char>, c: Seq<char>)
    ensures
        a.len() != 0 || b.len() != 0 ==> a.skip(nondigit_len(a)).skip(
            digit_len(a.skip(nondigit_len(a))),
        ).len() + b.skip(nondigit_len(b)).skip(digit_len(b.skip(nondigit_len(b)))).len() < a.len()
            + b.len(),
        b.len() != 0 || c.len() != 0 ==> b.skip(nondigit_len(b)).skip(
            digit_len(b.skip(nondigit_len(b))),
        ).len() + c.skip(nondigit_len(c)).skip(digit_len(c.skip(nondigit_len(c)))).len() < b.len()
            + c.len(),
        a.skip(nondigit_len(a)).skip(digit_len(a.skip(nondigit_len(a)))).len() <= a.len(),
        b.skip(nondigit_len(b)).skip(digit_len(b.skip(nondigit_len(b)))).len() <= b.len(),
        c.skip(nondigit_len(c)).skip(digit_len(c.skip(nondigit_len(c)))).len() <= c.len(),
{
    if a.len() != 0 || b.len() != 0 {
        lemma_cmp_part_strips(a, b);
    }
    if b.len() != 0 || c.len() != 0 {
        lemma_cmp_part_strips(b, c);
    }
    lemma_nondigit_len_bounds(a);
    lemma_nondigit_len_bounds(b);
    lemma_nondigit_len_bounds(c);
    lemma_digit_len_bounds(a.skip(nondigit_len(a)));
    lemma_digit_len_bounds(b.skip(nondigit_len(b)));
    lemma_digit_len_bounds(c.skip(nondigit_len(c)));
}





/// The epoch of a version string: everything before the first colon, or
/// empty when there is no colon.  The second component is the remainder.
pub open spec fn split_epoch(v: Seq<char>) -> (Seq<char>, Seq<char>) {
    let i = first_index_of(v, ':');
    if i < 0 {
        (Seq::empty(), v)
    } else {
        (v.take(i), v.skip(i + 1))
    }
}

/// Split `upstream-revision` at the last hyphen; a version without a
/// hyphen has an empty revision.
pub open spec fn split_revision(v: Seq<char>) -> (Seq<char>, Seq<char>) {
    let i = last_index_of(v, '-');
    if i < 0 {
        (v, Seq::empty())
    } else {
        (v.take(i), v.skip(i + 1))
    }
}

/// The Debian version order over whole version strings: epochs compare
/// first (numerically, a missing epoch reading as zero), then the
/// upstream parts, then the revisions.  -1, 0 and 1 stand for less,
/// equal and greater.
pub open spec fn cmp_version(a: Seq<char>, b: Seq<char>) -> int {
    let ea = split_epoch(a);
    let eb = split_epoch(b);
    let e = cmp_digit_runs(ea.0, eb.0);
    if e != 0 {
        e
    } else {
        let ua = split_revision(ea.1);
        let ub = split_revision(eb.1);
        let u = cmp_part(ua.0, ub.0);
        if u != 0 {
            u
        } else {
            cmp_part(ua.1, ub.1)
        }
    }
}

pub proof fn lemma_cmp_version_range(a: Seq<char>, b: Seq<char>)
    ensures
        cmp_version(a, b) == -1 || cmp_version(a, b) == 0 || cmp_version(a, b) == 1,
{
    let ea = split_epoch(a);
    let eb = split_epoch(b);
    lemma_cmp_digit_runs_range(ea.0, eb.0);
    let ua = split_revision(ea.1);
    let ub = split_revision(eb.1);
    lemma_cmp_part_range(ua.0, ub.0);
    lemma_cmp_part_range(ua.1, ub.1);
}

pub proof fn lemma_cmp_version_antisym(a: Seq<char>, b: Seq<char>)
    ensures
        cmp_version(b, a) == -cmp_version(a, b),
{
    let ea = split_epoch(a);
    let eb = split_epoch(b);
    lemma_cmp_digit_runs_antisym(ea.0, eb.0);
    let ua = split_revision(ea.1);
    let ub = split_revision(eb.1);
    lemma_cmp_part_antisym(ua.0, ub.0);
    lemma_cmp_part_antisym(ua.1, ub.1);
}

pub proof fn lemma_cmp_version_trans(a: Seq<char>, b: Seq<char>, c: Seq<char>)
    requires
        cmp_version(a, b) <= 0,
        cmp_version(b, c) <= 0,
    ensures
        cmp_version(a, c) <= 0,
{
    let ea = split_epoch(a);
    let eb = split_epoch(b);
    let ec = split_epoch(c);
    lemma_cmp_digit_runs_range(ea.0, eb.0);
    lemma_cmp_digit_runs_range(eb.0, ec.0);
    lemma_cmp_digit_runs_range(ea.0, ec.0);
    lemma_cmp_digit_runs_antisym(ea.0, eb.0);
    lemma_cmp_digit_runs_antisym(eb.0, ec.0);
    lemma_cmp_digit_runs_antisym(ea.0, ec.0);
    let ua = split_revision(ea.1);
    let ub = split_revision(eb.1);
    let uc = split_revision(ec.1);
    if cmp_digit_runs(ea.0, eb.0) == 0 && cmp_digit_runs(eb.0, ec.0) == 0 {
        lemma_cmp_digit_runs_eq(ea.0, eb.0);
        lemma_cmp_digit_runs_eq(eb.0, ec.0);
        assert(strip_zeros(ea.0) == strip_zeros(ec.0));
        lemma_lex_chars_antisym(strip_zeros(ea.0), strip_zeros(ec.0));
        assert(cmp_digit_runs(ea.0, ec.0) == 0);
        lemma_stage_trans(ua.0, ub.0, uc.0, ua.1, ub.1, uc.1);
    } else if cmp_digit_runs(ea.0, eb.0) == 0 {
        lemma_cmp_digit_runs_eq(ea.0, eb.0);
        assert(cmp_digit_runs(ea.0, ec.0) == cmp_digit_runs(eb.0, ec.0));
    } else if cmp_digit_runs(eb.0, ec.0) == 0 {
        lemma_cmp_digit_runs_eq(eb.0, ec.0);
        assert(cmp_digit_runs(ea.0, ec.0) == cmp_digit_runs(ea.0, eb.0));
    } else {
        lemma_cmp_digit_runs_trans(ea.0, eb.0, ec.0);
        if cmp_digit_runs(ea.0, ec.0) == 0 {
            lemma_cmp_digit_runs_eq(ea.0, ec.0);
            assert(cmp_digit_runs(ea.0, eb.0) == cmp_digit_runs(ec.0, eb.0));
            assert(false);
        }
    }
}

/// Transitivity of the two-stage upstream/revision comparison, given
/// that the epoch stage ties.
proof fn lemma_stage_trans(
    ua: Seq<char>,
    ub: Seq<char>,
    uc: Seq<char>,
    va: Seq<char>,
    vb: Seq<char>,
    vc: Seq<char>,
)
    requires
        ({
            let u = cmp_part(ua, ub);
            (if u != 0 {
                u
            } else {
                cmp_part(va, vb)
            }) <= 0
        }),
        ({
            let u = cmp_part(ub, uc);
            (if u != 0 {
                u
            } else {
                cmp_part(vb, vc)
            }) <= 0
        }),
    ensures
        ({
            let u = cmp_part(ua, uc);
            (if u != 0 {
                u
            } else {
                cmp_part(va, vc)
            }) <= 0
        }),
{
    lemma_cmp_part_range(ua, ub);
    lemma_cmp_part_range(ub, uc);
    lemma_cmp_part_range(ua, uc);
    lemma_cmp_part_range(va, vb);
    lemma_cmp_part_range(vb, vc);
    lemma_cmp_part_range(va, vc);
    lemma_cmp_part_antisym(ua, ub);
    lemma_cmp_part_antisym(ub, uc);
    lemma_cmp_part_antisym(ua, uc);
    lemma_cmp_part_antisym(va, vb);
    lemma_cmp_part_antisym(vb, vc);
    lemma_cmp_part_antisym(va, vc);
    if cmp_part(ua, ub) == 0 && cmp_part(ub, uc) == 0 {
        // Upstream parts all tie up to the order, though not necessarily
        // as sequences; the tie is still transitive.
        lemma_cmp_part_trans(ua, ub, uc);
        lemma_cmp_part_trans(uc, ub, ua);
        assert(cmp_part(ua, uc) == 0);
        if cmp_part(va, vb) == 0 && cmp_part(vb, vc) == 0 {
            lemma_cmp_part_trans(va, vb, vc);
            lemma_cmp_part_trans(vc, vb, va);
        } else {
            lemma_cmp_part_trans(va, vb, vc);
        }
    } else if cmp_part(ua, ub) == 0 {
        // cmp_part(ub, uc) < 0; show cmp_part(ua, uc) < 0.
        lemma_cmp_part_trans(ua, ub, uc);
        if cmp_part(ua, uc) == 0 {
            lemma_cmp_part_trans(uc, ua, ub);
            assert(false);
        }
    } else if cmp_part(ub, uc) == 0 {
        lemma_cmp_part_trans(ua, ub, uc);
        if cmp_part(ua, uc) == 0 {
            lemma_cmp_part_trans(ub, uc, ua);
            assert(false);
        }
    } else {
        lemma_cmp_part_trans(ua, ub, uc);
        if cmp_part(ua, uc) == 0 {
            lemma_cmp_part_trans(uc, ua, ub);
            assert(false);
        }
    }
}

/// Every character of the sequence is a decimal digit.
pub open spec fn all_digits(s: Seq<char>) -> bool {
    forall|i: int| 0 <= i < s.len() ==> is_digit(#[trigger] s[i])
}

/// The integer a digit sequence denotes, most significant digit first;
/// the empty sequence denotes zero.
pub open spec fn digit_val(s: Seq<char>) -> int
    decreases s.len(),
{
    if s.len() == 0 {
        0
    } else {
        digit_val(s.drop_last()) * 10 + (s.last() as int - '0' as int)
    }
}

pub open spec fn pow10(n: nat) -> int
    decreases n,
{
    if n == 0 {
        1
    } else {
        10 * pow10((n - 1) as nat)
    }
}

pub proof fn lemma_pow10_pos(n: nat)
    ensures
        pow10(n) >= 1,
    decreases n,
{
    if n > 0 {
        lemma_pow10_pos((n - 1) as nat);
    }
}

pub proof fn lemma_pow10_mono(m: nat, n: nat)
    requires
        m <= n,
    ensures
        pow10(m) <= pow10(n),
    decreases n,
{
    if m < n {
        lemma_pow10_mono(m, (n - 1) as nat);
        lemma_pow10_pos((n - 1) as nat);
    }
}

pub proof fn lemma_digit_val_bounds(s: Seq<char>)
    requires
        all_digits(s),
    ensures
        0 <= digit_val(s) < pow10(s.len()),
    decreases s.len(),
{
    if s.len() > 0 {
        assert(all_digits(s.drop_last())) by {
            assert(forall|i: int|
                0 <= i < s.len() - 1 ==> #[trigger] s.drop_last()[i] == s[i]);
        }
        lemma_digit_val_bounds(s.drop_last());
        assert(is_digit(s.last()));
    }
}

pub proof fn lemma_digit_val_leading_zero(s: Seq<char>)
    requires
        s.len() > 0,
        s[0] == '0',
    ensures
        digit_val(s.drop_first()) == digit_val(s),
    decreases s.len(),
{
    if s.len() == 1 {
        assert(s.drop_first().len() == 0);
        assert(s.last() == s[0]);
        assert(s.drop_last().len() == 0);
        assert(digit_val(s.drop_first()) == 0);
        assert(digit_val(s.drop_last()) == 0);
        assert(digit_val(s) == digit_val(s.drop_last()) * 10 + (s.last() as int - '0' as int));
    } else {
        assert(s.drop_last()[0] == s[0]);
        lemma_digit_val_leading_zero(s.drop_last());
        assert(s.drop_first().drop_last() =~= s.drop_last().drop_first());
        assert(s.drop_first().last() == s.last());
        assert(digit_val(s.drop_first()) == digit_val(s.drop_first().drop_last()) * 10 + (
        s.drop_first().last() as int - '0' as int));
        assert(digit_val(s) == digit_val(s.drop_last()) * 10 + (s.last() as int - '0' as int));
    }
}

pub proof fn lemma_digit_val_strip(s: Seq<char>)
    ensures
        digit_val(strip_zeros(s)) == digit_val(s),
    decreases s.len(),
{
    if s.len() > 0 && s[0] == '0' {
        lemma_digit_val_leading_zero(s);
        lemma_digit_val_strip(s.drop_first());
    }
}

/// What the strip keeps: a suffix with no leading zero, all of whose
/// characters come from the original sequence.
pub proof fn lemma_strip_zeros_shape(s: Seq<char>)
    ensures
        strip_zeros(s).len() <= s.len(),
        strip_zeros(s).len() > 0 ==> strip_zeros(s)[0] != '0',
        all_digits(s) ==> all_digits(strip_zeros(s)),
    decreases s.len(),
{
    if s.len() > 0 && s[0] == '0' {
        lemma_strip_zeros_shape(s.drop_first());
        if all_digits(s) {
            assert(forall|i: int|
                0 <= i < s.len() - 1 ==> #[trigger] s.drop_first()[i] == s[i + 1]);
        }
    }
}

pub proof fn lemma_digit_val_front(s: Seq<char>)
    requires
        s.len() > 0,
    ensures
        digit_val(s) == (s[0] as int - '0' as int) * pow10((s.len() - 1) as nat) + digit_val(
            s.drop_first(),
        ),
    decreases s.len(),
{
    if s.len() == 1 {
        assert(s.drop_first().len() == 0);
        assert(s.drop_last().len() == 0);
        assert(s.last() == s[0]);
        assert(pow10(0) == 1);
        assert(digit_val(s.drop_first()) == 0);
        assert(digit_val(s.drop_last()) == 0);
        assert(digit_val(s) == digit_val(s.drop_last()) * 10 + (s.last() as int - '0' as int));
    } else {
        let d = s[0] as int - '0' as int;
        let p = pow10((s.len() - 2) as nat);
        lemma_digit_val_front(s.drop_last());
        assert(s.drop_last()[0] == s[0]);
        assert(s.drop_first().drop_last() =~= s.drop_last().drop_first());
        assert(s.drop_first().last() == s.last());
        assert(digit_val(s.drop_first()) == digit_val(s.drop_first().drop_last()) * 10 + (
        s.drop_first().last() as int - '0' as int));
        assert(digit_val(s) == digit_val(s.drop_last()) * 10 + (s.last() as int - '0' as int));
        assert(digit_val(s.drop_last()) == d * p + digit_val(s.drop_last().drop_first()));
        assert((d * p + digit_val(s.drop_last().drop_first())) * 10 == d * (10 * p) + digit_val(
            s.drop_last().drop_first(),
        ) * 10) by (nonlinear_arith);
        assert(pow10((s.len() - 1) as nat) == 10 * p);
    }
}

/// Equal-length digit runs compare lexicographically exactly as their
/// values compare.
pub proof fn lemma_lex_digit_val(a: Seq<char>, b: Seq<char>)
    requires
        a.len() == b.len(),
        all_digits(a),
        all_digits(b),
    ensures
        lex_chars(a, b) < 0 <==> digit_val(a) < digit_val(b),
        lex_chars(a, b) == 0 <==> digit_val(a) == digit_val(b),
    decreases a.len(),
{
    lemma_lex_chars_range(a, b);
    if a.len() > 0 {
        lemma_digit_val_front(a);
        lemma_digit_val_front(b);
        assert(all_digits(a.drop_first()) && all_digits(b.drop_first())) by {
            assert(forall|i: int|
                0 <= i < a.len() - 1 ==> #[trigger] a.drop_first()[i] == a[i + 1]);
            assert(forall|i: int|
                0 <= i < b.len() - 1 ==> #[trigger] b.drop_first()[i] == b[i + 1]);
        }
        lemma_digit_val_bounds(a.drop_first());
        lemma_digit_val_bounds(b.drop_first());
        lemma_pow10_pos((a.len() - 1) as nat);
        if a[0] == b[0] {
            lemma_lex_digit_val(a.drop_first(), b.drop_first());
        } else {
            let p = pow10((a.len() - 1) as nat);
            let da = a[0] as int - '0' as int;
            let db = b[0] as int - '0' as int;
            assert(is_digit(a[0]) && is_digit(b[0]));
            if a[0] < b[0] {
                assert(da < db);
                assert(da * p + digit_val(a.drop_first()) < (da + 1) * p) by (nonlinear_arith)
                    requires
                        digit_val(a.drop_first()) < p,
                ;
                assert((da + 1) * p <= db * p) by (nonlinear_arith)
                    requires
                        da + 1 <= db,
                        p >= 1,
                ;
                assert(db * p <= digit_val(b));
            } else {
                assert(db < da);
                assert(db * p + digit_val(b.drop_first()) < (db + 1) * p) by (nonlinear_arith)
                    requires
                        digit_val(b.drop_first()) < p,
                ;
                assert((db + 1) * p <= da * p) by (nonlinear_arith)
                    requires
                        db + 1 <= da,
                        p >= 1,
                ;
                assert(da * p <= digit_val(a));
            }
        }
    }
}

/// On runs of digits, the run comparison is numeric: leading zeros are
/// ignored and the smaller value sorts first.
pub proof fn lemma_cmp_digit_runs_numeric(a: Seq<char>, b: Seq<char>)
    requires
        all_digits(a),
        all_digits(b),
    ensures
        cmp_digit_runs(a, b) < 0 <==> digit_val(a) < digit_val(b),
        cmp_digit_runs(a, b) == 0 <==> digit_val(a) == digit_val(b),
        cmp_digit_runs(a, b) > 0 <==> digit_val(a) > digit_val(b),
{
    let sa = strip_zeros(a);
    let sb = strip_zeros(b);
    lemma_digit_val_strip(a);
    lemma_digit_val_strip(b);
    lemma_strip_zeros_shape(a);
    lemma_strip_zeros_shape(b);
    lemma_digit_val_bounds(sa);
    lemma_digit_val_bounds(sb);
    lemma_cmp_digit_runs_range(a, b);
    if sa.len() < sb.len() {
        // sb is nonempty with no leading zero, so its value reaches
        // pow10 of its length less one, above everything sa can hold.
        lemma_digit_val_front(sb);
        lemma_digit_val_bounds(sb.drop_first());
        assert(all_digits(sb.drop_first())) by {
            assert(forall|i: int|
                0 <= i < sb.len() - 1 ==> #[trigger] sb.drop_first()[i] == sb[i + 1]);
        }
        lemma_digit_val_bounds(sb.drop_first());
        lemma_pow10_pos((sb.len() - 1) as nat);
        assert(sb[0] as int - '0' as int >= 1);
        assert((sb[0] as int - '0' as int) * pow10((sb.len() - 1) as nat) >= pow10(
            (sb.len() - 1) as nat,
        )) by (nonlinear_arith)
            requires
                sb[0] as int - '0' as int >= 1,
                pow10((sb.len() - 1) as nat) >= 1,
        ;
        lemma_pow10_mono(sa.len(), (sb.len() - 1) as nat);
        assert(digit_val(sb) >= pow10((sb.len() - 1) as nat));
        assert(digit_val(sa) < pow10(sa.len()));
    } else if sa.len() > sb.len() {
        lemma_digit_val_front(sa);
        assert(all_digits(sa.drop_first())) by {
            assert(forall|i: int|
                0 <= i < sa.len() - 1 ==> #[trigger] sa.drop_first()[i] == sa[i + 1]);
        }
        lemma_digit_val_bounds(sa.drop_first());
        lemma_pow10_pos((sa.len() - 1) as nat);
        assert(sa[0] as int - '0' as int >= 1);
        assert((sa[0] as int - '0' as int) * pow10((sa.len() - 1) as nat) >= pow10(
            (sa.len() - 1) as nat,
        )) by (nonlinear_arith)
            requires
                sa[0] as int - '0' as int >= 1,
                pow10((sa.len() - 1) as nat) >= 1,
        ;
        lemma_pow10_mono(sb.len(), (sa.len() - 1) as nat);
        assert(digit_val(sa) >= pow10((sa.len() - 1) as nat));
        assert(digit_val(sb) < pow10(sb.len()));
    } else {
        lemma_lex_digit_val(sa, sb);
        lemma_lex_chars_range(sa, sb);
    }
}

/// A scan that saw non-digits up to `k` and then a digit or the end has
/// found the maximal non-digit prefix.
pub proof fn lemma_nondigit_len_determined(s: Seq<char>, k: int)
    requires
        0 <= k <= s.len(),
        forall|i: int| 0 <= i < k ==> !is_digit(#[trigger] s[i]),
        k < s.len() ==> is_digit(s[k]),
    ensures
        nondigit_len(s) == k,
    decreases s.len(),
{
    if k > 0 {
        assert(forall|i: int|
            0 <= i < k - 1 ==> #[trigger] s.drop_first()[i] == s[i + 1]);
        lemma_nondigit_len_determined(s.drop_first(), k - 1);
    }
}

pub proof fn lemma_digit_len_determined(s: Seq<char>, k: int)
    requires
        0 <= k <= s.len(),
        forall|i: int| 0 <= i < k ==> is_digit(#[trigger] s[i]),
        k < s.len() ==> !is_digit(s[k]),
    ensures
        digit_len(s) == k,
    decreases s.len(),
{
    if k > 0 {
        assert(forall|i: int|
            0 <= i < k - 1 ==> #[trigger] s.drop_first()[i] == s[i + 1]);
        lemma_digit_len_determined(s.drop_first(), k - 1);
    }
}

/// A scan that skipped `z` zeros and stopped at a non-zero or the end
/// has found exactly what `strip_zeros` keeps.
pub proof fn lemma_strip_zeros_determined(s: Seq<char>, z: int)
    requires
        0 <= z <= s.len(),
        forall|i: int| 0 <= i < z ==> #[trigger] s[i] == '0',
        z < s.len() ==> s[z] != '0',
    ensures
        strip_zeros(s) == s.skip(z),
    decreases s.len(),
{
    if z > 0 {
        assert(forall|i: int|
            0 <= i < z - 1 ==> #[trigger] s.drop_first()[i] == s[i + 1]);
        lemma_strip_zeros_determined(s.drop_first(), z - 1);
        assert(s.drop_first().skip(z - 1) =~= s.skip(z));
    } else {
        assert(s.skip(0) =~= s);
    }
}

/// The answer of a comparison, as the callers consume it.
#[derive(Clone, Copy, Debug, PartialEq, Eq, Structural)]
pub enum VersionOrdering {
    Less,
    Equal,
    Greater,
}

/// The ordering a comparison sign denotes.
pub open spec fn sign_ordering(s: int) -> VersionOrdering {
    if s < 0 {
        VersionOrdering::Less
    } else if s == 0 {
        VersionOrdering::Equal
    } else {
        VersionOrdering::Greater
    }
}

/// Rank of a character inside a non-digit run, as executable code.
fn run_char_rank_exec(c: char) -> (r: u32)
    ensures
        r as int == run_char_rank(c),
{
    let u = c as u32;
    if c == '~' {
        0
    } else if (97 <= u && u <= 122) || (65 <= u && u <= 90) {
        u + 2
    } else {
        u + 0x110002
    }
}

fn is_digit_exec(c: char) -> (b: bool)
    ensures
        b == is_digit(c),
{
    let u = c as u32;
    48 <= u && u <= 57
}

/// First index at or after `lo` and before `hi` that holds a digit, or
/// `hi` when the whole range is non-digits: the end of the non-digit run.
fn scan_nondigit(v: &Vec<char>, lo: usize, hi: usize) -> (e: usize)
    requires
        lo <= hi <= v@.len(),
    ensures
        lo <= e <= hi,
        e - lo == nondigit_len(v@.subrange(lo as int, hi as int)),
{
    let mut i = lo;
    while i < hi && !is_digit_exec(v[i])
        invariant
            lo <= i <= hi <= v@.len(),
            forall|j: int| lo <= j < i ==> !is_digit(#[trigger] v@[j]),
        decreases hi - i,
    {
        i += 1;
    }
    proof {
        let s = v@.subrange(lo as int, hi as int);
        lemma_nondigit_len_determined(s, i - lo);
    }
    i
}

/// The end of the digit run that starts at `lo`.
fn scan_digit(v: &Vec<char>, lo: usize, hi: usize) -> (e: usize)
    requires
        lo <= hi <= v@.len(),
    ensures
        lo <= e <= hi,
        e - lo == digit_len(v@.subrange(lo as int, hi as int)),
{
    let mut i = lo;
    while i < hi && is_digit_exec(v[i])
        invariant
            lo <= i <= hi <= v@.len(),
            forall|j: int| lo <= j < i ==> is_digit(#[trigger] v@[j]),
        decreases hi - i,
    {
        i += 1;
    }
    proof {
        let s = v@.subrange(lo as int, hi as int);
        lemma_digit_len_determined(s, i - lo);
    }
    i
}

/// Compare the non-digit runs `a[alo..ahi]` and `b[blo..bhi]`.
fn cmp_runs_exec(a: &Vec<char>, alo: usize, ahi: usize, b: &Vec<char>, blo: usize, bhi: usize) -> (o:
    VersionOrdering)
    requires
        alo <= ahi <= a@.len(),
        blo <= bhi <= b@.len(),
    ensures
        o == sign_ordering(cmp_run(a@.subrange(alo as int, ahi as int), b@.subrange(blo as int, bhi as int))),
{
    let ghost ra = a@.subrange(alo as int, ahi as int);
    let ghost rb = b@.subrange(blo as int, bhi as int);
    proof {
        assert(ra.skip(0) =~= ra);
        assert(rb.skip(0) =~= rb);
    }
    let mut i = alo;
    let mut j = blo;
    loop
        invariant
            alo <= i <= ahi <= a@.len(),
            blo <= j <= bhi <= b@.len(),
            i - alo == j - blo,
            ra == a@.subrange(alo as int, ahi as int),
            rb == b@.subrange(blo as int, bhi as int),
            cmp_run(ra, rb) == cmp_run(ra.skip(i - alo), rb.skip(j - blo)),
        decreases ahi - i,
    {
        let ghost sa = ra.skip(i - alo);
        let ghost sb = rb.skip(j - blo);
        if i == ahi && j == bhi {
            assert(sa.len() == 0 && sb.len() == 0);
            return VersionOrdering::Equal;
        } else if i == ahi {
            assert(sa.len() == 0 && sb.len() != 0);
            assert(sb[0] == b@[j as int]);
            let r = run_char_rank_exec(b[j]);
            if r < 1 {
                return VersionOrdering::Greater;
            } else {
                return VersionOrdering::Less;
            }
        } else if j == bhi {
            assert(sb.len() == 0 && sa.len() != 0);
            assert(sa[0] == a@[i as int]);
            let r = run_char_rank_exec(a[i]);
            if r < 1 {
                return VersionOrdering::Less;
            } else {
                return VersionOrdering::Greater;
            }
        } else {
            assert(sa[0] == a@[i as int] && sb[0] == b@[j as int]);
            let x = run_char_rank_exec(a[i]);
            let y = run_char_rank_exec(b[j]);
            if x < y {
                return VersionOrdering::Less;
            } else if x > y {
                return VersionOrdering::Greater;
            } else {
                proof {
                    assert(sa.drop_first() =~= ra.skip(i - alo + 1));
                    assert(sb.drop_first() =~= rb.skip(j - blo + 1));
                }
                i += 1;
                j += 1;
            }
        }
    }
}

/// Compare the digit runs `a[alo..ahi]` and `b[blo..bhi]` as integers.
fn cmp_digits_exec(a: &Vec<char>, alo: usize, ahi: usize, b: &Vec<char>, blo: usize, bhi: usize) -> (o:
    VersionOrdering)
    requires
        alo <= ahi <= a@.len(),
        blo <= bhi <= b@.len(),
    ensures
        o == sign_ordering(
            cmp_digit_runs(a@.subrange(alo as int, ahi as int), b@.subrange(blo as int, bhi as int)),
        ),
{
    let ghost ra = a@.subrange(alo as int, ahi as int);
    let ghost rb = b@.subrange(blo as int, bhi as int);
    // Skip the leading zeros of both runs.
    let mut i = alo;
    while i < ahi && a[i] == '0'
        invariant
            alo <= i <= ahi <= a@.len(),
            forall|k: int| alo <= k < i ==> #[trigger] a@[k] == '0',
        decreases ahi - i,
    {
        i += 1;
    }
    let mut j = blo;
    while j < bhi && b[j] == '0'
        invariant
            blo <= j <= bhi <= b@.len(),
            forall|k: int| blo <= k < j ==> #[trigger] b@[k] == '0',
        decreases bhi - j,
    {
        j += 1;
    }
    proof {
        lemma_strip_zeros_determined(ra, i - alo);
        lemma_strip_zeros_determined(rb, j - blo);
        assert(ra.skip(i - alo) =~= a@.subrange(i as int, ahi as int));
        assert(rb.skip(j - blo) =~= b@.subrange(j as int, bhi as int));
    }
    let ghost sa = strip_zeros(ra);
    let ghost sb = strip_zeros(rb);
    proof {
        assert(sa.len() == ahi - i);
        assert(sb.len() == bhi - j);
    }
    // A longer stripped run is the larger number.
    if ahi - i < bhi - j {
        proof {
            assert(cmp_digit_runs(ra, rb) == -1);
        }
        return VersionOrdering::Less;
    } else if ahi - i > bhi - j {
        proof {
            assert(cmp_digit_runs(ra, rb) == 1);
        }
        return VersionOrdering::Greater;
    }
    // Same length: the runs compare lexicographically.
    loop
        invariant
            alo <= i <= ahi <= a@.len(),
            blo <= j <= bhi <= b@.len(),
            ahi - i == bhi - j,
            ra == a@.subrange(alo as int, ahi as int),
            rb == b@.subrange(blo as int, bhi as int),
            sa == strip_zeros(ra),
            sb == strip_zeros(rb),
            sa.len() == sb.len(),
            cmp_digit_runs(ra, rb) == lex_chars(
                a@.subrange(i as int, ahi as int),
                b@.subrange(j as int, bhi as int),
            ),
        decreases ahi - i,
    {
        if i == ahi {
            proof {
                assert(a@.subrange(i as int, ahi as int).len() == 0);
                assert(b@.subrange(j as int, bhi as int).len() == 0);
                assert(lex_chars(
                    a@.subrange(i as int, ahi as int),
                    b@.subrange(j as int, bhi as int),
                ) == 0);
            }
            return VersionOrdering::Equal;
        }
        let ghost ca = a@.subrange(i as int, ahi as int);
        let ghost cb = b@.subrange(j as int, bhi as int);
        proof {
            assert(ca[0] == a@[i as int] && cb[0] == b@[j as int]);
        }
        let x = a[i];
        let y = b[j];
        if x < y {
            proof {
                assert(ca[0] != cb[0] && ca[0] < cb[0]);
                assert(lex_chars(ca, cb) == -1);
            }
            return VersionOrdering::Less;
        } else if x > y {
            proof {
                assert(ca[0] != cb[0] && !(ca[0] < cb[0]));
                assert(lex_chars(ca, cb) == 1);
            }
            return VersionOrdering::Greater;
        } else {
            proof {
                assert(a@[i as int] == b@[j as int]);
                assert(ca.drop_first() =~= a@.subrange(i as int + 1, ahi as int));
                assert(cb.drop_first() =~= b@.subrange(j as int + 1, bhi as int));
            }
            i += 1;
            j += 1;
        }
    }
}

/// Compare the version components `a[alo..ahi]` and `b[blo..bhi]` by
/// alternately peeling non-digit and digit runs.
fn cmp_part_exec(a: &Vec<char>, alo: usize, ahi: usize, b: &Vec<char>, blo: usize, bhi: usize) -> (o:
    VersionOrdering)
    requires
        alo <= ahi <= a@.len(),
        blo <= bhi <= b@.len(),
    ensures
        o == sign_ordering(
            cmp_part(a@.subrange(alo as int, ahi as int), b@.subrange(blo as int, bhi as int)),
        ),
{
    let ghost pa = a@.subrange(alo as int, ahi as int);
    let ghost pb = b@.subrange(blo as int, bhi as int);
    let mut i = alo;
    let mut j = blo;
    loop
        invariant
            alo <= i <= ahi <= a@.len(),
            blo <= j <= bhi <= b@.len(),
            pa == a@.subrange(alo as int, ahi as int),
            pb == b@.subrange(blo as int, bhi as int),
            cmp_part(pa, pb) == cmp_part(
                a@.subrange(i as int, ahi as int),
                b@.subrange(j as int, bhi as int),
            ),
        decreases ahi - i + bhi - j,
    {
        let ghost ca = a@.subrange(i as int, ahi as int);
        let ghost cb = b@.subrange(j as int, bhi as int);
        if i == ahi && j == bhi {
            assert(ca.len() == 0 && cb.len() == 0);
            return VersionOrdering::Equal;
        }
        let na = scan_nondigit(a, i, ahi);
        let nb = scan_nondigit(b, j, bhi);
        proof {
            assert(ca.take(nondigit_len(ca)) =~= a@.subrange(i as int, na as int));
            assert(cb.take(nondigit_len(cb)) =~= b@.subrange(j as int, nb as int));
        }
        let r = cmp_runs_exec(a, i, na, b, j, nb);
        proof {
            lemma_cmp_run_range(
                a@.subrange(i as int, na as int),
                b@.subrange(j as int, nb as int),
            );
        }
        if !(matches!(r, VersionOrdering::Equal)) {
            return r;
        }
        let da = scan_digit(a, na, ahi);
        let db = scan_digit(b, nb, bhi);
        proof {
            assert(ca.skip(nondigit_len(ca)) =~= a@.subrange(na as int, ahi as int));
            assert(cb.skip(nondigit_len(cb)) =~= b@.subrange(nb as int, bhi as int));
            assert(a@.subrange(na as int, ahi as int).take(
                digit_len(a@.subrange(na as int, ahi as int)),
            ) =~= a@.subrange(na as int, da as int));
            assert(b@.subrange(nb as int, bhi as int).take(
                digit_len(b@.subrange(nb as int, bhi as int)),
            ) =~= b@.subrange(nb as int, db as int));
        }
        let d = cmp_digits_exec(a, na, da, b, nb, db);
        proof {
            lemma_cmp_digit_runs_range(
                a@.subrange(na as int, da as int),
                b@.subrange(nb as int, db as int),
            );
        }
        if !(matches!(d, VersionOrdering::Equal)) {
            return d;
        }
        proof {
            lemma_cmp_part_strips(ca, cb);
            assert(ca.skip(nondigit_len(ca)).skip(digit_len(ca.skip(nondigit_len(ca)))) =~= a@.subrange(
                da as int,
                ahi as int,
            ));
            assert(cb.skip(nondigit_len(cb)).skip(digit_len(cb.skip(nondigit_len(cb)))) =~= b@.subrange(
                db as int,
                bhi as int,
            ));
        }
        i = da;
        j = db;
    }
}



/// Compare two version strings in the Debian version order.
pub fn compare_version_strings(a: &str, b: &str) -> (o: VersionOrdering)
    ensures
        o == sign_ordering(cmp_version(a@, b@)),
{
    let av = crate::text::chars_of(a);
    let bv = crate::text::chars_of(b);
    let alen = av.len();
    let blen = bv.len();

    // Epoch: everything before the first colon, or empty.
    let fa = find_first_char(&av, ':');
    let fb = find_first_char(&bv, ':');
    let (aeh, arl): (usize, usize) = match fa {
        Some(i) => (i, i + 1),
        None => (0, 0),
    };
    let (beh, brl): (usize, usize) = match fb {
        Some(i) => (i, i + 1),
        None => (0, 0),
    };
    proof {
        assert(av@.subrange(0, aeh as int) =~= split_epoch(a@).0);
        assert(bv@.subrange(0, beh as int) =~= split_epoch(b@).0);
        assert(av@.subrange(arl as int, alen as int) =~= split_epoch(a@).1);
        assert(bv@.subrange(brl as int, blen as int) =~= split_epoch(b@).1);
    }
    let e = cmp_digits_exec(&av, 0, aeh, &bv, 0, beh);
    if !(matches!(e, VersionOrdering::Equal)) {
        return e;
    }

    // Upstream and revision: split the remainder at the last hyphen.
    let ha = find_last_char_in(&av, arl, alen, '-');
    let hb = find_last_char_in(&bv, brl, blen, '-');
    let (auh, avl): (usize, usize) = match ha {
        Some(i) => (i, i + 1),
        None => (alen, alen),
    };
    let (buh, bvl): (usize, usize) = match hb {
        Some(i) => (i, i + 1),
        None => (blen, blen),
    };
    proof {
        let resta = split_epoch(a@).1;
        let restb = split_epoch(b@).1;
        assert(av@.subrange(arl as int, auh as int) =~= split_revision(resta).0);
        assert(av@.subrange(avl as int, alen as int) =~= split_revision(resta).1);
        assert(bv@.subrange(brl as int, buh as int) =~= split_revision(restb).0);
        assert(bv@.subrange(bvl as int, blen as int) =~= split_revision(restb).1);
    }
    let u = cmp_part_exec(&av, arl, auh, &bv, brl, buh);
    if !(matches!(u, VersionOrdering::Equal)) {
        return u;
    }
    let r = cmp_part_exec(&av, avl, alen, &bv, bvl, blen);
    r
}

/// A package version: an opaque string, ordered by the Debian version
/// order when compared, never mutated.
#[derive(Debug)]
pub struct PackageVersion {
    pub string: String,
}

impl Clone for PackageVersion {
    fn clone(&self) -> (r: Self)
        ensures
            r@ == self@,
    {
        PackageVersion { string: self.string.clone() }
    }
}

impl View for PackageVersion {
    type V = Seq<char>;

    open spec fn view(&self) -> Seq<char> {
        self.string@
    }
}

impl PartialEq for PackageVersion {
    /// Structural equality: the exact same version string (not merely
    /// the same point in the version order).
    fn eq(&self, other: &Self) -> (r: bool) {
        self.string == other.string
    }
}

impl vstd::std_specs::cmp::PartialEqSpecImpl for PackageVersion {
    open spec fn obeys_eq_spec() -> bool {
        true
    }

    open spec fn eq_spec(&self, other: &Self) -> bool {
        self.string@ == other.string@
    }
}

impl PackageVersion {
    /// Where this version stands in the Debian version order relative
    /// to `other`.
    pub fn compare(&self, other: &PackageVersion) -> (o: VersionOrdering)
        ensures
            o == sign_ordering(cmp_version(self@, other@)),
    {
        compare_version_strings(self.string.as_str(), other.string.as_str())
    }
}

/// The Debian version order is a total order: comparison always answers
/// exactly one of less, equal and greater; it is antisymmetric and
/// reflexive; both the order and its equality are transitive.
pub proof fn lemma_version_order_total(a: Seq<char>, b: Seq<char>, c: Seq<char>)
    ensures
        cmp_version(a, a) == 0,
        cmp_version(b, a) == -cmp_version(a, b),
        cmp_version(a, b) == -1 || cmp_version(a, b) == 0 || cmp_version(a, b) == 1,
        cmp_version(a, b) <= 0 && cmp_version(b, c) <= 0 ==> cmp_version(a, c) <= 0,
        cmp_version(a, b) == -1 && cmp_version(b, c) == -1 ==> cmp_version(a, c) == -1,
        cmp_version(a, b) == 0 && cmp_version(b, c) == 0 ==> cmp_version(a, c) == 0,
{
    lemma_cmp_version_antisym(a, a);
    lemma_cmp_version_antisym(a, b);
    lemma_cmp_version_range(a, b);
    lemma_cmp_version_range(b, c);
    lemma_cmp_version_range(a, c);
    if cmp_version(a, b) <= 0 && cmp_version(b, c) <= 0 {
        lemma_cmp_version_trans(a, b, c);
    }
    if cmp_version(a, b) == -1 && cmp_version(b, c) == -1 {
        if cmp_version(a, c) == 0 {
            lemma_cmp_version_antisym(a, c);
            lemma_cmp_version_trans(c, a, b);
            lemma_cmp_version_antisym(b, c);
        }
    }
    if cmp_version(a, b) == 0 && cmp_version(b, c) == 0 {
        lemma_cmp_version_antisym(a, b);
        lemma_cmp_version_antisym(b, c);
        lemma_cmp_version_trans(c, b, a);
        lemma_cmp_version_antisym(a, c);
    }
}

} // verus!
