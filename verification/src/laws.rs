//! Laws of the grammar and of the incremental engine.
//!
//! The central one is arrival-chunking stability: a unit whose decision lies
//! strictly inside the buffered text keeps exactly that decision when more
//! text arrives, so splitting one input into chunks at any boundary yields
//! the records of the whole input.

use crate::parsing::{
    desc_end_at, digit_run_end, digits_val, find_yaml_close, first_desc_end, first_nl, is_digit_char,
    is_lws, is_ws, kw_match, kw_partial, lemma_find_yaml_close_bounds,
    lemma_first_desc_end_bounds, lemma_first_nl_bounds, lemma_test_point_consumed, lit_matches,
    lit_partial, lws_run_end, non_ws_run_end, spec_description, spec_directive, spec_status,
    spec_test_number, spec_test_point, spec_test_points, spec_tp_desc, spec_tp_dir, spec_tp_tail,
    digits_of, is_uws, uws_run_end, uws_run_start, spec_trim, spec_yaml, tp_v, yaml_close, yaml_close_at, yaml_open,
    OutcomeV,
};
use crate::TestDirectiveV;
use crate::TestPointV;
use vstd::prelude::*;

verus! {

proof fn lemma_digit_run_congr(s: Seq<char>, t: Seq<char>, i: int)
    requires
        0 <= i <= s.len(),
        digit_run_end(s, i) < s.len(),
    ensures
        digit_run_end(s + t, i) == digit_run_end(s, i),
    decreases s.len() - i,
{
    if i < s.len() && is_digit_char(s[i]) {
        lemma_digit_run_congr(s, t, i + 1);
    }
}

proof fn lemma_lws_run_congr(s: Seq<char>, t: Seq<char>, i: int)
    requires
        0 <= i <= s.len(),
        lws_run_end(s, i) < s.len(),
    ensures
        lws_run_end(s + t, i) == lws_run_end(s, i),
    decreases s.len() - i,
{
    if i < s.len() && is_lws(s[i]) {
        lemma_lws_run_congr(s, t, i + 1);
    }
}

proof fn lemma_non_ws_run_congr(s: Seq<char>, t: Seq<char>, i: int)
    requires
        0 <= i <= s.len(),
        non_ws_run_end(s, i) < s.len(),
    ensures
        non_ws_run_end(s + t, i) == non_ws_run_end(s, i),
    decreases s.len() - i,
{
    if i < s.len() && !is_ws(s[i]) {
        lemma_non_ws_run_congr(s, t, i + 1);
    }
}

proof fn lemma_first_nl_congr(s: Seq<char>, t: Seq<char>, i: int, k: int)
    requires
        0 <= i <= s.len(),
        first_nl(s, i) == Some(k),
    ensures
        first_nl(s + t, i) == Some(k),
    decreases s.len() - i,
{
    lemma_first_nl_bounds(s, i);
    if i < s.len() && s[i] != '\n' {
        lemma_first_nl_congr(s, t, i + 1, k);
    }
}

proof fn lemma_first_desc_end_congr(s: Seq<char>, t: Seq<char>, i: int, k: int)
    requires
        0 <= i <= s.len(),
        first_desc_end(s, i) == Some(k),
    ensures
        first_desc_end(s + t, i) == Some(k),
    decreases s.len() - i,
{
    lemma_first_desc_end_bounds(s, i);
    if i < s.len() && !desc_end_at(s, i) {
        assert(!desc_end_at(s + t, i)) by {
            assert((s + t)[i] == s[i]);
            if i + 1 < s.len() {
                assert((s + t)[i + 1] == s[i + 1]);
            } else {
                assert(i == s.len() - 1);
                assert(first_desc_end(s, i) == first_desc_end(s, i + 1));
                lemma_first_desc_end_bounds(s, i + 1);
                assert(false);
            }
        }
        lemma_first_desc_end_congr(s, t, i + 1, k);
    } else if i < s.len() {
        assert(desc_end_at(s, i));
        assert(desc_end_at(s + t, i)) by {
            assert((s + t)[i] == s[i]);
            if !(s[i] == '\n') {
                assert(i + 1 < s.len());
                assert((s + t)[i + 1] == s[i + 1]);
            }
        }
    }
}

proof fn lemma_find_yaml_close_congr(s: Seq<char>, t: Seq<char>, base: int, j: int, k: int)
    requires
        0 <= base <= j <= s.len(),
        find_yaml_close(s, base, j) == Some(k),
    ensures
        find_yaml_close(s + t, base, j) == Some(k),
    decreases s.len() - j,
{
    lemma_find_yaml_close_bounds(s, base, j);
    assert(j <= k && k + 6 <= s.len() && yaml_close_at(s, base, k));
    if j < s.len() && !yaml_close_at(s, base, j) {
        assert(j != k);
        assert(j < k);
        assert(!yaml_close_at(s + t, base, j)) by {
            if yaml_close_at(s + t, base, j) {
                assert(j + 6 <= s.len());
                assert forall|u: int| 0 <= u < 6 implies s[j + u] == yaml_close()[u] by {
                    assert((s + t)[j + u] == s[j + u]);
                }
                if j != base {
                    assert((s + t)[j - 1] == s[j - 1]);
                }
                assert(yaml_close_at(s, base, j));
            }
        }
        lemma_find_yaml_close_congr(s, t, base, j + 1, k);
    } else if j < s.len() {
        assert(j == k);
        assert(yaml_close_at(s + t, base, j)) by {
            assert(j + 6 <= (s + t).len());
            assert forall|u: int| 0 <= u < 6 implies (s + t)[j + u] == yaml_close()[u] by {
                assert((s + t)[j + u] == s[j + u]);
            }
            if j != base {
                assert((s + t)[j - 1] == s[j - 1]);
            }
        }
    }
}

proof fn lemma_lit_ext(s: Seq<char>, t: Seq<char>, lit: Seq<char>)
    ensures
        lit_matches(s, lit) ==> lit_matches(s + t, lit),
        !lit_matches(s, lit) && !lit_partial(s, lit) ==> !lit_matches(s + t, lit) && !lit_partial(
            s + t,
            lit,
        ),
{
    if lit_matches(s, lit) {
        assert forall|i: int| 0 <= i < lit.len() implies (s + t)[i] == lit[i] by {
            assert((s + t)[i] == s[i]);
        }
    }
    if !lit_matches(s, lit) && !lit_partial(s, lit) {
        if s.len() >= lit.len() {
            let i = choose|i: int| 0 <= i < lit.len() && s[i] != lit[i];
            assert((s + t)[i] == s[i]);
            assert(!lit_matches(s + t, lit));
            assert(!lit_partial(s + t, lit));
        } else {
            let i = choose|i: int| 0 <= i < s.len() && s[i] != lit[i];
            assert((s + t)[i] == s[i]);
            assert(!lit_matches(s + t, lit));
            assert(!lit_partial(s + t, lit));
        }
    }
}

/// A decided status survives the arrival of more text.
pub proof fn lemma_status_ext(s: Seq<char>, t: Seq<char>)
    ensures
        spec_status(s) matches OutcomeV::Parsed(v, c) ==> spec_status(s + t)
            == OutcomeV::Parsed(v, c),
        spec_status(s) == OutcomeV::<bool>::Invalid ==> spec_status(s + t)
            == OutcomeV::<bool>::Invalid,
{
    reveal_strlit("not ok");
    reveal_strlit("ok");
    lemma_lit_ext(s, t, "not ok"@);
    lemma_lit_ext(s, t, "ok"@);
    if lit_matches(s, "ok"@) && !lit_matches(s, "not ok"@) {
        assert(!lit_partial(s + t, "not ok"@)) by {
            assert((s + t)[0] == s[0]);
        }
        assert(!lit_matches(s + t, "not ok"@)) by {
            assert((s + t)[0] == s[0]);
        }
    }
}

proof fn lemma_digit_run_all(s: Seq<char>, i: int)
    requires
        0 <= i <= s.len(),
    ensures
        forall|j: int| i <= j < digit_run_end(s, i) ==> is_digit_char(s[j]),
    decreases s.len() - i,
{
    if i < s.len() && is_digit_char(s[i]) {
        lemma_digit_run_all(s, i + 1);
    }
}

/// A decided test number survives the arrival of more text.
pub proof fn lemma_number_ext(s: Seq<char>, t: Seq<char>)
    ensures
        (match spec_test_number(s) {
            OutcomeV::Parsed(v, c) => c < s.len() ==> spec_test_number(s + t) == OutcomeV::Parsed(
                v,
                c,
            ),
            _ => true,
        }),
        spec_test_number(s) == OutcomeV::<usize>::NoMatch && (s.len() < 2 || s[0] != ' '
            || !is_digit_char(s[1]) || digit_run_end(s, 1) < s.len()) ==> spec_test_number(s + t)
            == OutcomeV::<usize>::NoMatch,
{
    if s.len() >= 1 {
        assert((s + t)[0] == s[0]);
    }
    if s.len() >= 2 {
        assert((s + t)[1] == s[1]);
    }
    if s.len() >= 2 && s[0] == ' ' && is_digit_char(s[1]) {
        let e = digit_run_end(s, 1);
        crate::parsing::lemma_digit_run_end_bounds(s, 1);
        if e < s.len() {
            lemma_digit_run_congr(s, t, 1);
            assert((s + t)[e] == s[e]);
            assert((s + t).subrange(1, e) =~= s.subrange(1, e));
        }
    }
}

/// A parsed or absent description survives the arrival of more text.
pub proof fn lemma_desc_ext(s: Seq<char>, t: Seq<char>)
    ensures
        (match spec_description(s) {
            OutcomeV::Parsed(d, c) => spec_description(s + t) == OutcomeV::Parsed(d, c),
            OutcomeV::NoMatch => spec_description(s + t) == OutcomeV::<Seq<char>>::NoMatch,
            _ => true,
        }),
{
    if s.len() >= 1 {
        assert((s + t)[0] == s[0]);
    }
    if s.len() >= 2 {
        assert((s + t)[1] == s[1]);
    }
    if s.len() >= 2 && s[0] == ' ' {
        let m: int = if s[1] == '-' {
            2
        } else {
            0
        };
        if m < s.len() {
            assert((s + t)[m] == s[m]);
            if s[m] == ' ' {
                match first_desc_end(s, m) {
                    None => {},
                    Some(k) => {
                        lemma_first_desc_end_congr(s, t, m, k);
                        lemma_first_desc_end_bounds(s, m);
                        if k > m {
                            assert((s + t).subrange(m + 1, k) =~= s.subrange(m + 1, k));
                        }
                    },
                }
            }
        }
    }
}

/// A parsed or absent directive survives the arrival of more text.
pub proof fn lemma_directive_ext(s: Seq<char>, t: Seq<char>)
    ensures
        (match spec_directive(s) {
            OutcomeV::Parsed(d, c) => spec_directive(s + t) == OutcomeV::Parsed(d, c),
            OutcomeV::NoMatch => spec_directive(s + t) == OutcomeV::<TestDirectiveV>::NoMatch,
            _ => true,
        }),
{
    reveal_strlit("todo");
    reveal_strlit("skip");
    if s.len() >= 1 {
        assert((s + t)[0] == s[0]);
    }
    if s.len() >= 2 {
        assert((s + t)[1] == s[1]);
    }
    if s.len() >= 2 && s[0] == ' ' && s[1] == '#' {
        let i = lws_run_end(s, 2);
        crate::parsing::lemma_lws_run_end_bounds(s, 2);
        if i < s.len() {
            lemma_lws_run_congr(s, t, 2);
            assert forall|j: int| i <= j < s.len() implies (s + t)[j] == s[j] by {}
            if kw_match(s, i, "todo"@) || kw_match(s, i, "skip"@) {
                assert(kw_match(s + t, i, "todo"@) == kw_match(s, i, "todo"@)) by {
                    lemma_kw_same(s, t, i, "todo"@);
                }
                assert(kw_match(s + t, i, "skip"@) == kw_match(s, i, "skip"@)) by {
                    lemma_kw_same(s, t, i, "skip"@);
                }
                let d = non_ws_run_end(s, i + 4);
                crate::parsing::lemma_non_ws_run_end_bounds(s, i + 4);
                let sp0 = lws_run_end(s, d);
                match first_nl(s, if d <= s.len() { sp0 } else { d }) {
                    None => {},
                    Some(e) => {
                        lemma_first_nl_bounds(s, sp0);
                        assert(d < s.len()) by {
                            if d == s.len() {
                                crate::parsing::lemma_lws_run_end_bounds(s, d);
                                assert(sp0 == s.len());
                                lemma_first_nl_bounds(s, s.len() as int);
                            }
                        }
                        lemma_non_ws_run_congr(s, t, i + 4);
                        crate::parsing::lemma_lws_run_end_bounds(s, d);
                        assert(sp0 < s.len()) by {
                            if sp0 == s.len() {
                                lemma_first_nl_bounds(s, s.len() as int);
                            }
                        }
                        lemma_lws_run_congr(s, t, d);
                        lemma_first_nl_congr(s, t, sp0, e);
                        assert((s + t).subrange(sp0, e) =~= s.subrange(sp0, e));
                    },
                }
            } else if kw_partial(s, i, "todo"@) || kw_partial(s, i, "skip"@) {
            } else {
                assert(!kw_match(s + t, i, "todo"@) && !kw_partial(s + t, i, "todo"@)) by {
                    lemma_kw_unmatched(s, t, i, "todo"@);
                }
                assert(!kw_match(s + t, i, "skip"@) && !kw_partial(s + t, i, "skip"@)) by {
                    lemma_kw_unmatched(s, t, i, "skip"@);
                }
            }
        }
    }
}

proof fn lemma_kw_same(s: Seq<char>, t: Seq<char>, i: int, lo: Seq<char>)
    requires
        0 <= i,
        i + lo.len() <= s.len(),
    ensures
        kw_match(s + t, i, lo) == kw_match(s, i, lo),
{
    if kw_match(s, i, lo) {
        assert forall|j: int| #![trigger lo[j]] 0 <= j < lo.len() implies crate::parsing::ci_eq_lower(
            (s + t)[i + j],
            lo[j],
        ) by {
            assert(crate::parsing::ci_eq_lower(s[i + j], lo[j]));
            assert((s + t)[i + j] == s[i + j]);
        }
        assert(kw_match(s + t, i, lo));
    }
    if kw_match(s + t, i, lo) {
        assert forall|j: int| #![trigger lo[j]] 0 <= j < lo.len() implies crate::parsing::ci_eq_lower(
            s[i + j],
            lo[j],
        ) by {
            assert(crate::parsing::ci_eq_lower((s + t)[i + j], lo[j]));
            assert((s + t)[i + j] == s[i + j]);
        }
        assert(kw_match(s, i, lo));
    }
}

proof fn lemma_kw_unmatched(s: Seq<char>, t: Seq<char>, i: int, lo: Seq<char>)
    requires
        0 <= i <= s.len(),
        !kw_match(s, i, lo),
        !kw_partial(s, i, lo),
    ensures
        !kw_match(s + t, i, lo),
        !kw_partial(s + t, i, lo),
{
    if i + lo.len() <= s.len() {
        let j = choose|j: int| 0 <= j < lo.len() && !crate::parsing::ci_eq_lower(s[i + j], lo[j]);
        assert((s + t)[i + j] == s[i + j]);
        assert(!kw_match(s + t, i, lo));
        assert(!kw_partial(s + t, i, lo));
    } else {
        let j = choose|j: int|
            0 <= j < s.len() - i && !crate::parsing::ci_eq_lower(s[i + j], lo[j]);
        assert((s + t)[i + j] == s[i + j]);
        assert(!kw_match(s + t, i, lo));
        assert(!kw_partial(s + t, i, lo));
    }
}

/// A parsed or absent YAML block survives the arrival of more text.
pub proof fn lemma_yaml_ext(s: Seq<char>, t: Seq<char>)
    ensures
        (match spec_yaml(s) {
            OutcomeV::Parsed(y, c) => spec_yaml(s + t) == OutcomeV::Parsed(y, c),
            OutcomeV::NoMatch => spec_yaml(s + t) == OutcomeV::<Seq<char>>::NoMatch,
            _ => true,
        }),
{
    reveal_strlit("  ---\n");
    lemma_lit_ext(s, t, yaml_open());
    if lit_matches(s, yaml_open()) {
        match find_yaml_close(s, 6, 6) {
            None => {},
            Some(k) => {
                lemma_find_yaml_close_congr(s, t, 6, 6, k);
                lemma_find_yaml_close_bounds(s, 6, 6);
                assert((s + t).subrange(6, k) =~= s.subrange(6, k));
            },
        }
    }
}

proof fn lemma_tp_tail_ext(
    s: Seq<char>,
    t: Seq<char>,
    st: bool,
    num: Option<usize>,
    d: Option<Seq<char>>,
    dir: Option<TestDirectiveV>,
    p: int,
)
    requires
        0 <= p <= s.len(),
    ensures
        spec_tp_tail(s, st, num, d, dir, p) == OutcomeV::<TestPointV>::Invalid ==> spec_tp_tail(
            s + t,
            st,
            num,
            d,
            dir,
            p,
        ) == OutcomeV::<TestPointV>::Invalid,
        (match spec_tp_tail(s, st, num, d, dir, p) {
            OutcomeV::Parsed(pv, c) => (c < s.len() || t.len() == 0 || t[0] != ' '
                || pv.yaml is Some) ==> spec_tp_tail(s + t, st, num, d, dir, p)
                == OutcomeV::Parsed(pv, c),
            _ => true,
        }),
{
    if p < s.len() {
        assert((s + t)[p] == s[p]);
        if s[p] == '\n' {
            let q = p + 1;
            if q == s.len() {
                if t.len() == 0 {
                    assert(s + t =~= s);
                } else if t[0] != ' ' {
                    assert((s + t).skip(q) =~= t);
                    reveal_strlit("  ---\n");
                    assert(yaml_open()[0] == ' ');
                    assert(!lit_matches(t, yaml_open()));
                    assert(!lit_partial(t, yaml_open()));
                }
            } else {
                assert((s + t).skip(q) =~= s.skip(q) + t);
                lemma_yaml_ext(s.skip(q), t);
                match spec_yaml(s.skip(q)) {
                    OutcomeV::Parsed(y, cy) => {
                        crate::parsing::lemma_yaml_consumed(s.skip(q));
                    },
                    _ => {},
                }
            }
        }
    }
}

proof fn lemma_tp_dir_ext(
    s: Seq<char>,
    t: Seq<char>,
    st: bool,
    num: Option<usize>,
    d: Option<Seq<char>>,
    p: int,
)
    requires
        0 <= p <= s.len(),
    ensures
        spec_tp_dir(s, st, num, d, p) == OutcomeV::<TestPointV>::Invalid ==> spec_tp_dir(
            s + t,
            st,
            num,
            d,
            p,
        ) == OutcomeV::<TestPointV>::Invalid,
        (match spec_tp_dir(s, st, num, d, p) {
            OutcomeV::Parsed(pv, c) => (c < s.len() || t.len() == 0 || t[0] != ' '
                || pv.yaml is Some) ==> spec_tp_dir(s + t, st, num, d, p) == OutcomeV::Parsed(
                pv,
                c,
            ),
            _ => true,
        }),
{
    let s1 = s.skip(p);
    assert((s + t).skip(p) =~= s1 + t);
    lemma_directive_ext(s1, t);
    match spec_directive(s1) {
        OutcomeV::Parsed(dv, c) => {
            crate::parsing::lemma_directive_consumed(s1);
            lemma_tp_tail_ext(s, t, st, num, d, Some(dv), p + c);
        },
        OutcomeV::NoMatch => {
            lemma_tp_tail_ext(s, t, st, num, d, None, p);
        },
        _ => {},
    }
}

proof fn lemma_tp_desc_ext(s: Seq<char>, t: Seq<char>, st: bool, num: Option<usize>, p: int)
    requires
        0 <= p <= s.len(),
    ensures
        spec_tp_desc(s, st, num, p) == OutcomeV::<TestPointV>::Invalid ==> spec_tp_desc(
            s + t,
            st,
            num,
            p,
        ) == OutcomeV::<TestPointV>::Invalid,
        (match spec_tp_desc(s, st, num, p) {
            OutcomeV::Parsed(pv, c) => (c < s.len() || t.len() == 0 || t[0] != ' '
                || pv.yaml is Some) ==> spec_tp_desc(s + t, st, num, p) == OutcomeV::Parsed(
                pv,
                c,
            ),
            _ => true,
        }),
{
    let s1 = s.skip(p);
    assert((s + t).skip(p) =~= s1 + t);
    lemma_desc_ext(s1, t);
    match spec_description(s1) {
        OutcomeV::Parsed(dv, c) => {
            crate::parsing::lemma_desc_consumed(s1);
            lemma_tp_dir_ext(s, t, st, num, Some(dv), p + c);
        },
        OutcomeV::NoMatch => {
            lemma_tp_dir_ext(s, t, st, num, None, p);
        },
        _ => {},
    }
}

/// Arrival-chunking stability: a test point whose decision lies inside the
/// buffered text — its consumed count is shorter than the buffer, or it
/// ends in a whole YAML block, or the next text does not open one — keeps
/// exactly that decision when more text arrives; and text that can never
/// match a test point still cannot, whatever arrives.  The result sequence
/// yields a record only on the first two of these grounds or once the
/// source has closed and no text can arrive at all, so splitting one input
/// into chunks at any byte offset yields the records of the whole input.
#[verifier::rlimit(60)]
pub proof fn lemma_test_point_ext(s: Seq<char>, t: Seq<char>)
    ensures
        spec_test_point(s) == OutcomeV::<TestPointV>::Invalid ==> spec_test_point(s + t)
            == OutcomeV::<TestPointV>::Invalid,
        (match spec_test_point(s) {
            OutcomeV::Parsed(pv, c) => (c < s.len() || t.len() == 0 || t[0] != ' '
                || pv.yaml is Some) ==> spec_test_point(s + t) == OutcomeV::Parsed(pv, c),
            _ => true,
        }),
{
    lemma_status_ext(s, t);
    match spec_status(s) {
        OutcomeV::Parsed(st, a) => {
            crate::parsing::lemma_status_consumed(s);
            let s1 = s.skip(a);
            assert((s + t).skip(a) =~= s1 + t);
            lemma_number_ext(s1, t);
            match spec_test_number(s1) {
                OutcomeV::Parsed(v, b) => {
                    crate::parsing::lemma_number_consumed(s1);
                    if b == s1.len() {
                        assert(s.skip(a + b).len() == 0);
                        assert(spec_tp_desc(s, st, Some(v), a + b)
                            == OutcomeV::<TestPointV>::Incomplete);
                    } else {
                        lemma_tp_desc_ext(s, t, st, Some(v), a + b);
                    }
                },
                OutcomeV::NoMatch => {
                    if s1.len() >= 1 {
                        crate::parsing::lemma_digit_run_end_bounds(s1, 1);
                    }
                    if s1.len() >= 2 && s1[0] == ' ' && is_digit_char(s1[1]) && digit_run_end(
                        s1,
                        1,
                    ) == s1.len() {
                        lemma_digit_run_all(s1, 1);
                        assert forall|j: int| 0 <= j < s1.len() implies !desc_end_at(s1, j) by {
                            if j >= 1 {
                                assert(is_digit_char(s1[j]));
                            }
                            if j + 1 < s1.len() && j + 1 >= 1 {
                                assert(is_digit_char(s1[j + 1]));
                            }
                        }
                        crate::parsing::lemma_first_desc_end(s1, 0, s1.len() as int);
                        assert(spec_description(s1) == OutcomeV::<Seq<char>>::Incomplete);
                        assert(spec_tp_desc(s, st, None, a)
                            == OutcomeV::<TestPointV>::Incomplete);
                    } else {
                        lemma_tp_desc_ext(s, t, st, None, a);
                    }
                },
                _ => {},
            }
        },
        _ => {},
    }
}

/// Greedy repetition: two whole test-point lines in one buffer are both
/// recognised, in their original order, by one run of the repetition rule.
#[verifier::rlimit(100)]
pub proof fn lemma_greedy_repetition(l1: Seq<char>, l2: Seq<char>, p1: TestPointV, p2: TestPointV)
    requires
        spec_test_point(l1) == OutcomeV::Parsed(p1, l1.len() as int),
        spec_test_point(l2) == OutcomeV::Parsed(p2, l2.len() as int),
    ensures
        spec_test_points(l1 + l2) == OutcomeV::Parsed(seq![p1, p2], (l1.len() + l2.len()) as int),
{
    lemma_test_point_consumed(l1);
    lemma_test_point_consumed(l2);
    reveal_strlit("not ok");
    reveal_strlit("ok");
    assert(l2[0] == 'n' || l2[0] == 'o') by {
        match spec_status(l2) {
            OutcomeV::Parsed(_, c) => {
                if lit_matches(l2, "not ok"@) {
                    assert(l2[0] == "not ok"@[0]);
                } else {
                    assert(l2[0] == "ok"@[0]);
                }
            },
            _ => {
                assert(false);
            },
        }
    }
    lemma_test_point_ext(l1, l2);
    assert(spec_test_point(l1 + l2) == OutcomeV::Parsed(p1, l1.len() as int));
    assert((l1 + l2).skip(l1.len() as int) =~= l2);
    let empty = l2.skip(l2.len() as int);
    assert(empty.len() == 0);
    assert(spec_status(empty) == OutcomeV::<bool>::Incomplete);
    assert(spec_test_points(empty) == OutcomeV::<Seq<TestPointV>>::Incomplete);
    assert(spec_test_points(l2) == OutcomeV::Parsed(seq![p2], l2.len() as int));
    assert(seq![p1] + seq![p2] =~= seq![p1, p2]);
    assert(spec_test_points(l1 + l2) == OutcomeV::Parsed(
        seq![p1, p2],
        (l1.len() + l2.len()) as int,
    ));
}

/// Text with neither leading nor trailing linear whitespace, such as a
/// parsed description or directive reason.
pub open spec fn trimmed(x: Seq<char>) -> bool {
    spec_trim(x) == x
}

proof fn lemma_uws_run_start_bounds(s: Seq<char>, j: int)
    requires
        0 <= j <= s.len(),
    ensures
        0 <= uws_run_start(s, j) <= j,
    decreases j,
{
    if j > 0 && is_uws(s[j - 1]) {
        lemma_uws_run_start_bounds(s, j - 1);
    }
}

proof fn lemma_uws_run_end_bounds(s: Seq<char>, i: int)
    requires
        0 <= i <= s.len(),
    ensures
        i <= uws_run_end(s, i) <= s.len(),
    decreases s.len() - i,
{
    if i < s.len() && is_uws(s[i]) {
        lemma_uws_run_end_bounds(s, i + 1);
    }
}

proof fn lemma_uws_run_end_all(s: Seq<char>, i: int)
    requires
        0 <= i <= s.len(),
    ensures
        forall|j: int| i <= j < uws_run_end(s, i) ==> is_uws(s[j]),
        uws_run_end(s, i) < s.len() ==> !is_uws(s[uws_run_end(s, i)]),
    decreases s.len() - i,
{
    if i < s.len() && is_uws(s[i]) {
        lemma_uws_run_end_all(s, i + 1);
    }
}

proof fn lemma_uws_run_start_all(s: Seq<char>, j: int)
    requires
        0 <= j <= s.len(),
    ensures
        forall|u: int| uws_run_start(s, j) <= u < j ==> is_uws(s[u]),
        uws_run_start(s, j) > 0 ==> !is_uws(s[uws_run_start(s, j) - 1]),
    decreases j,
{
    if j > 0 && is_uws(s[j - 1]) {
        lemma_uws_run_start_all(s, j - 1);
    }
}

/// Trimming is idempotent.
proof fn lemma_trim_idem(x: Seq<char>)
    ensures
        spec_trim(spec_trim(x)) == spec_trim(x),
{
    let a = uws_run_end(x, 0);
    let b = uws_run_start(x, x.len() as int);
    lemma_uws_run_end_bounds(x, 0);
    lemma_uws_run_start_bounds(x, x.len() as int);
    if a < b {
        let r = x.subrange(a, b);
        lemma_uws_run_end_all(x, 0);
        lemma_uws_run_start_all(x, x.len() as int);
        assert(!is_uws(r[0]));
        assert(!is_uws(r[r.len() - 1]));
        crate::parsing::lemma_uws_run_end(r, 0, 0);
        crate::parsing::lemma_uws_run_start(r, r.len() as int, r.len() as int);
        assert(spec_trim(r) =~= r);
    } else {
        assert(spec_trim(x) =~= Seq::<char>::empty());
        assert(spec_trim(Seq::<char>::empty()) =~= Seq::<char>::empty());
    }
}

/// Trimmed non-empty text neither begins nor ends with whitespace.
proof fn lemma_trimmed_ends(x: Seq<char>)
    requires
        trimmed(x),
        x.len() > 0,
    ensures
        !is_uws(x[0]),
        !is_uws(x[x.len() - 1]),
{
    lemma_uws_run_end_bounds(x, 0);
    lemma_uws_run_start_bounds(x, x.len() as int);
    let a = uws_run_end(x, 0);
    let b = uws_run_start(x, x.len() as int);
    if is_uws(x[0]) {
        assert(uws_run_end(x, 0) == uws_run_end(x, 1));
        lemma_uws_run_end_bounds(x, 1);
        if a < b {
            assert(spec_trim(x).len() == b - a);
        }
        assert(spec_trim(x).len() < x.len());
        assert(false);
    }
    if is_uws(x[x.len() - 1]) {
        assert(uws_run_start(x, x.len() as int) == uws_run_start(x, x.len() - 1));
        lemma_uws_run_start_bounds(x, x.len() - 1);
        if a < b {
            assert(spec_trim(x).len() == b - a);
        }
        assert(spec_trim(x).len() < x.len());
        assert(false);
    }
}

proof fn lemma_first_desc_end_all(s: Seq<char>, i: int, k: int)
    requires
        0 <= i,
        first_desc_end(s, i) == Some(k),
    ensures
        forall|j: int| i <= j < k ==> !desc_end_at(s, j),
        desc_end_at(s, k),
    decreases s.len() - i,
{
    if i < s.len() && !desc_end_at(s, i) {
        lemma_first_desc_end_all(s, i + 1, k);
    }
}

proof fn lemma_first_nl_all(s: Seq<char>, i: int, k: int)
    requires
        0 <= i,
        first_nl(s, i) == Some(k),
    ensures
        forall|j: int| i <= j < k ==> s[j] != '\n',
        s[k] == '\n',
    decreases s.len() - i,
{
    if i < s.len() && s[i] != '\n' {
        lemma_first_nl_all(s, i + 1, k);
    }
}

proof fn lemma_find_yaml_close_all(s: Seq<char>, base: int, i: int, k: int)
    requires
        0 <= i,
        find_yaml_close(s, base, i) == Some(k),
    ensures
        forall|j: int| i <= j < k ==> !yaml_close_at(s, base, j),
        yaml_close_at(s, base, k),
    decreases s.len() - i,
{
    if i < s.len() && !yaml_close_at(s, base, i) {
        lemma_find_yaml_close_all(s, base, i + 1, k);
    }
}

/// The decimal rendering of a number is all digits and reads back as the
/// same number.
proof fn lemma_digits_of_props(v: int)
    requires
        0 <= v,
    ensures
        digits_of(v).len() >= 1,
        forall|j: int| 0 <= j < digits_of(v).len() ==> is_digit_char(digits_of(v)[j]),
        digits_val(digits_of(v)) == v,
    decreases v,
{
    assert(crate::parsing::digit_char_of(v % 10) as u32 == 48 + v % 10) by {
        let d = v % 10;
        assert(0 <= d < 10);
        if d == 0 {
            assert('0' as u32 == 48);
        }
    }
    if v < 10 {
        assert(v % 10 == v);
        let c = crate::parsing::digit_char_of(v);
        assert(digits_of(v) == seq![c]);
        assert(seq![c].len() == 1);
        assert(seq![c].drop_last() =~= Seq::<char>::empty());
        assert(seq![c].last() == c);
        assert(digits_val(Seq::<char>::empty()) == 0);
        assert(digits_val(seq![c]) == (c as u32) - 48);
        assert((c as u32) == 48 + v);
        assert(digits_val(digits_of(v)) == v);
    } else {
        lemma_digits_of_props(v / 10);
        let x = digits_of(v / 10);
        let c = crate::parsing::digit_char_of(v % 10);
        assert(x.push(c).drop_last() =~= x);
        assert(digits_val(x.push(c)) == digits_val(x) * 10 + (c as u32 - 48));
        assert(forall|j: int|
            0 <= j < x.push(c).len() ==> is_digit_char(#[trigger] x.push(c)[j]));
    }
}

/// The shape of any description the parser can produce: non-empty, trimmed,
/// free of line terminators and of the ` #` directive marker.
pub open spec fn wf_description(d: Seq<char>) -> bool {
    &&& d.len() > 0
    &&& trimmed(d)
    &&& forall|j: int| 0 <= j < d.len() ==> d[j] != '\n'
    &&& forall|j: int| #![trigger d[j]] 0 <= j && j + 1 < d.len() ==> !(d[j] == ' ' && d[j + 1]
        == '#')
}

/// The shape of any directive reason the parser can produce.
pub open spec fn wf_reason(x: Seq<char>) -> bool {
    &&& x.len() > 0
    &&& trimmed(x)
    &&& forall|j: int| 0 <= j < x.len() ==> x[j] != '\n'
}

pub open spec fn wf_directive(dir: TestDirectiveV) -> bool {
    match dir {
        TestDirectiveV::Todo(None) => true,
        TestDirectiveV::Skip(None) => true,
        TestDirectiveV::Todo(Some(x)) => wf_reason(x),
        TestDirectiveV::Skip(Some(x)) => wf_reason(x),
    }
}

/// The shape of any YAML interior the parser can produce: empty or ending
/// in a line terminator, with no closing line standing at a line start.
pub open spec fn wf_yaml(y: Seq<char>) -> bool {
    &&& y.len() == 0 || y[y.len() - 1] == '\n'
    &&& forall|j: int|
        #![trigger y.subrange(j, j + 6)]
        0 <= j && j + 6 <= y.len() && (j == 0 || y[j - 1] == '\n') ==> y.subrange(j, j + 6)
            != yaml_close()
}

/// The shape of any record the test-point rule can produce.
pub open spec fn wf_record(p: TestPointV) -> bool {
    &&& match p.description {
        None => true,
        Some(d) => wf_description(d),
    }
    &&& match p.directive {
        None => true,
        Some(dir) => wf_directive(dir),
    }
    &&& match p.yaml {
        None => true,
        Some(y) => wf_yaml(y),
    }
}

/// Whatever text the description rule accepts, the value it hands out is
/// trimmed, one line long, and free of the directive marker.
pub proof fn lemma_desc_value_wf(s: Seq<char>)
    ensures
        (match spec_description(s) {
            OutcomeV::Parsed(d, c) => wf_description(d),
            _ => true,
        }),
{
    if s.len() >= 2 && s[0] == ' ' {
        let m: int = if s[1] == '-' {
            2
        } else {
            0
        };
        if m < s.len() && s[m] == ' ' {
            match first_desc_end(s, m) {
                None => {},
                Some(k) => {
                    lemma_first_desc_end_bounds(s, m);
                    lemma_first_desc_end_all(s, m, k);
                    if k > m {
                        let cap = s.subrange(m + 1, k);
                        let d = spec_trim(cap);
                        lemma_trim_idem(cap);
                        lemma_uws_run_end_bounds(cap, 0);
                        lemma_uws_run_start_bounds(cap, cap.len() as int);
                        let a = uws_run_end(cap, 0);
                        let b = uws_run_start(cap, cap.len() as int);
                        if a < b {
                            assert(d =~= cap.subrange(a, b));
                            assert forall|j: int| 0 <= j < d.len() implies d[j] != '\n' by {
                                assert(d[j] == s[m + 1 + a + j]);
                                assert(!desc_end_at(s, m + 1 + a + j));
                            }
                            assert forall|j: int| #![trigger d[j]] 0 <= j && j + 1
                                < d.len() implies !(d[j] == ' ' && d[j + 1] == '#') by {
                                assert(d[j] == s[m + 1 + a + j]);
                                assert(d[j + 1] == s[m + 1 + a + j + 1]);
                                assert(!desc_end_at(s, m + 1 + a + j));
                                assert(m + 1 + a + j + 1 < s.len());
                            }
                        }
                    }
                },
            }
        }
    }
}

/// Whatever text the directive rule accepts, a reason it hands out is
/// trimmed and one line long.
pub proof fn lemma_directive_value_wf(s: Seq<char>)
    ensures
        (match spec_directive(s) {
            OutcomeV::Parsed(dir, c) => wf_directive(dir),
            _ => true,
        }),
{
    reveal_strlit("todo");
    reveal_strlit("skip");
    if s.len() >= 2 && s[0] == ' ' && s[1] == '#' {
        let i = lws_run_end(s, 2);
        if kw_match(s, i, "todo"@) || kw_match(s, i, "skip"@) {
            let d = non_ws_run_end(s, i + 4);
            let sp = lws_run_end(s, d);
            match first_nl(s, sp) {
                None => {},
                Some(e) => {
                    crate::parsing::lemma_lws_run_end_bounds(s, 2);
                    crate::parsing::lemma_non_ws_run_end_bounds(s, i + 4);
                    crate::parsing::lemma_lws_run_end_bounds(s, d);
                    lemma_first_nl_bounds(s, sp);
                    lemma_first_nl_all(s, sp, e);
                    let raw = s.subrange(sp, e);
                    let x = spec_trim(raw);
                    lemma_trim_idem(raw);
                    lemma_uws_run_end_bounds(raw, 0);
                    lemma_uws_run_start_bounds(raw, raw.len() as int);
                    let a = uws_run_end(raw, 0);
                    let b = uws_run_start(raw, raw.len() as int);
                    if a < b {
                        assert(x =~= raw.subrange(a, b));
                        assert forall|j: int| 0 <= j < x.len() implies x[j] != '\n' by {
                            assert(x[j] == s[sp + a + j]);
                        }
                    }
                },
            }
        }
    }
}

/// Whatever text the YAML rule accepts, the interior it hands out is empty
/// or newline-terminated and holds no closing line of its own.
pub proof fn lemma_yaml_value_wf(s: Seq<char>)
    ensures
        (match spec_yaml(s) {
            OutcomeV::Parsed(y, c) => wf_yaml(y),
            _ => true,
        }),
{
    if lit_matches(s, yaml_open()) {
        match find_yaml_close(s, 6, 6) {
            None => {},
            Some(k) => {
                lemma_find_yaml_close_bounds(s, 6, 6);
                lemma_find_yaml_close_all(s, 6, 6, k);
                let y = s.subrange(6, k);
                if y.len() > 0 {
                    assert(y[y.len() - 1] == s[k - 1]);
                    assert(k == 6 || s[k - 1] == '\n');
                }
                assert forall|j: int|
                    #![trigger y.subrange(j, j + 6)]
                    0 <= j && j + 6 <= y.len() && (j == 0 || y[j - 1] == '\n') implies y.subrange(
                    j,
                    j + 6,
                ) != yaml_close() by {
                    let u = 6 + j;
                    assert(!yaml_close_at(s, 6, u));
                    assert(u + 6 <= k && k <= s.len());
                    if j != 0 {
                        assert(s[u - 1] == y[j - 1]);
                    }
                    if y.subrange(j, j + 6) == yaml_close() {
                        assert forall|t: int| 0 <= t < 6 implies s[u + t] == yaml_close()[t] by {
                            assert(y.subrange(j, j + 6)[t] == y[j + t]);
                            assert(y[j + t] == s[6 + j + t]);
                        }
                        assert(yaml_close_at(s, 6, u));
                    }
                }
            },
        }
    }
}

/// Every record the test-point rule produces is well formed.
pub proof fn lemma_parse_record_wf(s: Seq<char>)
    ensures
        (match spec_test_point(s) {
            OutcomeV::Parsed(p, c) => wf_record(p),
            _ => true,
        }),
{
    if let OutcomeV::Parsed(st, a) = spec_status(s) {
        let p1 = match spec_test_number(s.skip(a)) {
            OutcomeV::Parsed(_, b) => a + b,
            _ => a,
        };
        lemma_desc_value_wf(s.skip(p1));
        let p2 = match spec_description(s.skip(p1)) {
            OutcomeV::Parsed(_, c) => p1 + c,
            _ => p1,
        };
        lemma_directive_value_wf(s.skip(p2));
        let p3 = match spec_directive(s.skip(p2)) {
            OutcomeV::Parsed(_, c) => p2 + c,
            _ => p2,
        };
        if p3 < s.len() && s[p3] == '\n' {
            lemma_yaml_value_wf(s.skip(p3 + 1));
        }
    }
}

proof fn lemma_num_txt_parses(n: Option<usize>, rest: Seq<char>)
    requires
        rest.len() >= 1,
        rest[0] == '\n' || (rest.len() >= 2 && rest[0] == ' ' && (rest[1] == '-' || rest[1]
            == '#')),
    ensures
        spec_test_number(crate::parsing::num_txt(n) + rest) == match n {
            None => OutcomeV::<usize>::NoMatch,
            Some(v) => OutcomeV::<usize>::Parsed(v, crate::parsing::num_txt(n).len() as int),
        },
{
    let s = crate::parsing::num_txt(n) + rest;
    match n {
        None => {
            assert(s =~= rest);
        },
        Some(v) => {
            lemma_digits_of_props(v as int);
            let dg = digits_of(v as int);
            let dl = dg.len() as int;
            assert(s[0] == ' ');
            assert forall|j: int| 1 <= j < 1 + dl implies is_digit_char(s[j]) by {
                assert(s[j] == dg[j - 1]);
            }
            assert(s[1 + dl] == rest[0]);
            assert(!is_digit_char(s[1 + dl]));
            crate::parsing::lemma_digit_run_end(s, 1, 1 + dl);
            assert(s.subrange(1, 1 + dl) =~= dg);
        },
    }
}

proof fn lemma_desc_txt_parses(d: Option<Seq<char>>, rest: Seq<char>)
    requires
        match d {
            None => true,
            Some(x) => wf_description(x) && x[0] != '#',
        },
        rest.len() >= 1,
        rest[0] == '\n' || (rest.len() >= 2 && rest[0] == ' ' && rest[1] == '#'),
    ensures
        spec_description(crate::parsing::desc_txt(d) + rest) == match d {
            None => OutcomeV::<Seq<char>>::NoMatch,
            Some(x) => OutcomeV::<Seq<char>>::Parsed(x, (3 + x.len()) as int),
        },
{
    reveal_strlit(" - ");
    let s = crate::parsing::desc_txt(d) + rest;
    match d {
        None => {
            assert(s =~= rest);
            if rest[0] == ' ' {
                assert(desc_end_at(s, 0));
                crate::parsing::lemma_first_desc_end(s, 0, 0);
            }
        },
        Some(x) => {
            assert(s[0] == ' ' && s[1] == '-' && s[2] == ' ');
            assert forall|j: int| 0 <= j < x.len() implies s[3 + j] == x[j] by {}
            let b = 3 + x.len() as int;
            assert(s[b] == rest[0]);
            assert forall|j: int| 2 <= j < b implies !desc_end_at(s, j) by {
                if j == 2 {
                    assert(s[3] == x[0]);
                } else {
                    assert(s[j] == x[j - 3]);
                    assert(s[j] != '\n');
                    if s[j] == ' ' && j + 1 < s.len() {
                        if j + 1 < b {
                            assert(s[j + 1] == x[j - 2]);
                        } else {
                            assert(s[j + 1] == rest[0]);
                        }
                    }
                }
            }
            assert(desc_end_at(s, b)) by {
                if rest[0] != '\n' {
                    assert(s[b + 1] == rest[1]);
                }
            }
            crate::parsing::lemma_first_desc_end(s, 2, b);
            assert(s.subrange(3, b) =~= x);
        },
    }
}

proof fn lemma_dir_txt_parses(dir: Option<TestDirectiveV>, rest: Seq<char>)
    requires
        match dir {
            None => true,
            Some(dv) => wf_directive(dv),
        },
        rest.len() >= 1,
        rest[0] == '\n',
    ensures
        spec_directive(crate::parsing::dir_txt(dir) + rest) == match dir {
            None => OutcomeV::<TestDirectiveV>::NoMatch,
            Some(dv) => OutcomeV::<TestDirectiveV>::Parsed(
                dv,
                crate::parsing::dir_txt(dir).len() as int,
            ),
        },
{
    reveal_strlit(" # todo");
    reveal_strlit(" # skip");
    reveal_strlit("todo");
    reveal_strlit("skip");
    let s = crate::parsing::dir_txt(dir) + rest;
    match dir {
        None => {
            assert(s =~= rest);
        },
        Some(dv) => {
            let (is_todo, reason) = match dv {
                TestDirectiveV::Todo(r) => (true, r),
                TestDirectiveV::Skip(r) => (false, r),
            };
            let kw = if is_todo {
                "todo"@
            } else {
                "skip"@
            };
            let head = if is_todo {
                " # todo"@
            } else {
                " # skip"@
            };
            let rt = crate::parsing::reason_txt(reason);
            assert(s =~= head + (rt + rest));
            assert(s[0] == ' ' && s[1] == '#' && s[2] == ' ');
            assert(s[3] == kw[0] && s[4] == kw[1] && s[5] == kw[2] && s[6] == kw[3]);
            crate::parsing::lemma_lws_run_end(s, 2, 3);
            assert(kw_match(s, 3, kw)) by {
                assert forall|j: int| 0 <= j < 4 implies crate::parsing::ci_eq_lower(
                    s[3 + j],
                    kw[j],
                ) by {
                    if j == 0 {
                    } else if j == 1 {
                    } else if j == 2 {
                    } else {
                        assert(j == 3);
                    }
                }
            }
            if !is_todo {
                assert(!crate::parsing::ci_eq_lower(s[3], "todo"@[0]));
                assert(!kw_match(s, 3, "todo"@));
            }
            let d0 = crate::parsing::non_ws_run_end(s, 7);
            assert(s[7] == (rt + rest)[0]);
            match reason {
                None => {
                    assert(s[7] == rest[0]);
                    crate::parsing::lemma_non_ws_run_end(s, 7, 7);
                    crate::parsing::lemma_lws_run_end(s, 7, 7);
                    crate::parsing::lemma_first_nl(s, 7, 7);
                    assert(s.subrange(7, 7).len() == 0);
                    assert(spec_trim(s.subrange(7, 7)) =~= Seq::<char>::empty());
                },
                Some(x) => {
                    assert(s[7] == ' ');
                    lemma_trimmed_ends(x);
                    assert(s[8] == x[0]);
                    crate::parsing::lemma_non_ws_run_end(s, 7, 7);
                    crate::parsing::lemma_lws_run_end(s, 7, 8);
                    let e = 8 + x.len() as int;
                    assert forall|j: int| 8 <= j < e implies s[j] != '\n' by {
                        assert(s[j] == x[j - 8]);
                    }
                    assert(s[e] == rest[0]);
                    crate::parsing::lemma_first_nl(s, 8, e);
                    assert(s.subrange(8, e) =~= x);
                },
            }
        },
    }
}

proof fn lemma_yaml_txt_parses(y: Seq<char>)
    requires
        wf_yaml(y),
    ensures
        spec_yaml(yaml_open() + y + yaml_close()) == OutcomeV::<Seq<char>>::Parsed(
            y,
            12 + y.len() as int,
        ),
{
    reveal_strlit("  ---\n");
    reveal_strlit("  ...\n");
    let e = yaml_open() + y + yaml_close();
    assert(lit_matches(e, yaml_open())) by {
        assert forall|i: int| 0 <= i < 6 implies e[i] == yaml_open()[i] by {
            assert(e[i] == (yaml_open() + y)[i]);
        }
    }
    let kstar = 6 + y.len() as int;
    assert forall|j: int| 6 <= j < kstar implies !yaml_close_at(e, 6, j) by {
        if yaml_close_at(e, 6, j) {
            if j + 6 <= kstar {
                let jy = j - 6;
                assert(y.subrange(jy, jy + 6) == yaml_close()) by {
                    assert forall|t: int| 0 <= t < 6 implies y.subrange(jy, jy + 6)[t]
                        == yaml_close()[t] by {
                        assert(y.subrange(jy, jy + 6)[t] == y[jy + t]);
                        assert(e[j + t] == (yaml_open() + y)[j + t]);
                        assert(e[j + t] == y[jy + t]);
                    }
                    assert(y.subrange(jy, jy + 6) =~= yaml_close());
                }
                assert(jy == 0 || y[jy - 1] == '\n') by {
                    if j != 6 {
                        assert(e[j - 1] == (yaml_open() + y)[j - 1]);
                    }
                }
                assert(false);
            } else {
                assert(y.len() > 0);
                assert(e[kstar - 1] == (yaml_open() + y)[kstar - 1]);
                assert(e[kstar - 1] == y[y.len() - 1]);
                let u = kstar - 1 - j;
                assert(0 <= u < 6);
                assert(e[j + u] == yaml_close()[u]);
                assert(yaml_close()[u] != '\n');
                assert(false);
            }
        }
    }
    assert(yaml_close_at(e, 6, kstar)) by {
        assert forall|t: int| 0 <= t < 6 implies e[kstar + t] == yaml_close()[t] by {}
        if kstar != 6 {
            assert(e[kstar - 1] == (yaml_open() + y)[kstar - 1]);
            assert(e[kstar - 1] == y[y.len() - 1]);
        }
    }
    crate::parsing::lemma_find_yaml_close(e, 6, 6, kstar);
    assert(e.subrange(6, kstar) =~= y);
}

/// Index landmarks inside the canonical rendering of a record.
pub open spec fn render_desc_at(p: TestPointV) -> int {
    crate::parsing::status_txt(p.status).len() + crate::parsing::num_txt(p.test_number).len() as int
}

pub open spec fn render_dir_at(p: TestPointV) -> int {
    render_desc_at(p) + crate::parsing::desc_txt(p.description).len() as int
}

pub open spec fn render_nl_at(p: TestPointV) -> int {
    render_dir_at(p) + crate::parsing::dir_txt(p.directive).len() as int
}

proof fn lemma_render_status(p: TestPointV)
    ensures
        spec_status(crate::parsing::spec_render(p)) == OutcomeV::<bool>::Parsed(
            p.status,
            crate::parsing::status_txt(p.status).len() as int,
        ),
{
    reveal_strlit("ok");
    reveal_strlit("not ok");
    let s = crate::parsing::spec_render(p);
    let stx = crate::parsing::status_txt(p.status);
    let a = stx.len() as int;
    assert forall|i: int| 0 <= i < a implies s[i] == stx[i] by {}
    if p.status {
        assert(lit_matches(s, "ok"@));
        assert(s[0] == 'o');
        assert(!lit_matches(s, "not ok"@));
        assert(!lit_partial(s, "not ok"@));
    } else {
        assert(lit_matches(s, "not ok"@));
    }
}

proof fn lemma_render_number(p: TestPointV)
    ensures
        spec_test_number(
            crate::parsing::spec_render(p).skip(crate::parsing::status_txt(p.status).len() as int),
        ) == match p.test_number {
            None => OutcomeV::<usize>::NoMatch,
            Some(v) => OutcomeV::<usize>::Parsed(
                v,
                crate::parsing::num_txt(p.test_number).len() as int,
            ),
        },
{
    reveal_strlit(" - ");
    reveal_strlit(" # todo");
    reveal_strlit(" # skip");
    let s = crate::parsing::spec_render(p);
    let a = crate::parsing::status_txt(p.status).len() as int;
    let ntx = crate::parsing::num_txt(p.test_number);
    let dtx = crate::parsing::desc_txt(p.description);
    let xtx = crate::parsing::dir_txt(p.directive);
    let nl = seq!['\n'];
    let ytx = crate::parsing::yaml_txt(p.yaml);
    let rest1 = dtx + xtx + nl + ytx;
    assert(s.skip(a) =~= ntx + rest1);
    assert(rest1.len() >= 1 && (rest1[0] == '\n' || (rest1.len() >= 2 && rest1[0] == ' ' && (
    rest1[1] == '-' || rest1[1] == '#')))) by {
        match p.description {
            Some(x) => {
                assert(rest1[0] == dtx[0] && rest1[1] == dtx[1]);
            },
            None => {
                match p.directive {
                    Some(dv) => {
                        assert(rest1[0] == xtx[0] && rest1[1] == xtx[1]);
                    },
                    None => {
                        assert(rest1[0] == nl[0]);
                    },
                }
            },
        }
    }
    lemma_num_txt_parses(p.test_number, rest1);
}

proof fn lemma_render_desc(p: TestPointV)
    requires
        match p.description {
            None => true,
            Some(d) => wf_description(d) && d[0] != '#',
        },
    ensures
        spec_description(crate::parsing::spec_render(p).skip(render_desc_at(p))) == match p
            .description {
            None => OutcomeV::<Seq<char>>::NoMatch,
            Some(x) => OutcomeV::<Seq<char>>::Parsed(
                x,
                crate::parsing::desc_txt(p.description).len() as int,
            ),
        },
{
    reveal_strlit(" - ");
    reveal_strlit(" # todo");
    reveal_strlit(" # skip");
    let s = crate::parsing::spec_render(p);
    let dtx = crate::parsing::desc_txt(p.description);
    let xtx = crate::parsing::dir_txt(p.directive);
    let nl = seq!['\n'];
    let ytx = crate::parsing::yaml_txt(p.yaml);
    let rest2 = xtx + nl + ytx;
    assert(s.skip(render_desc_at(p)) =~= dtx + rest2);
    assert(rest2.len() >= 1 && (rest2[0] == '\n' || (rest2.len() >= 2 && rest2[0] == ' ' && rest2[1]
        == '#'))) by {
        match p.directive {
            Some(dv) => {
                assert(rest2[0] == xtx[0] && rest2[1] == xtx[1]);
            },
            None => {
                assert(rest2[0] == nl[0]);
            },
        }
    }
    lemma_desc_txt_parses(p.description, rest2);
}

proof fn lemma_render_dir(p: TestPointV)
    requires
        match p.directive {
            None => true,
            Some(dv) => wf_directive(dv),
        },
    ensures
        spec_directive(crate::parsing::spec_render(p).skip(render_dir_at(p))) == match p.directive {
            None => OutcomeV::<TestDirectiveV>::NoMatch,
            Some(dv) => OutcomeV::<TestDirectiveV>::Parsed(
                dv,
                crate::parsing::dir_txt(p.directive).len() as int,
            ),
        },
        crate::parsing::spec_render(p)[render_nl_at(p)] == '\n',
{
    let s = crate::parsing::spec_render(p);
    let xtx = crate::parsing::dir_txt(p.directive);
    let nl = seq!['\n'];
    let ytx = crate::parsing::yaml_txt(p.yaml);
    let rest3 = nl + ytx;
    assert(s.skip(render_dir_at(p)) =~= xtx + rest3);
    assert(rest3[0] == '\n');
    lemma_dir_txt_parses(p.directive, rest3);
    assert(s[render_nl_at(p)] == (xtx + rest3)[xtx.len() as int]);
}

proof fn lemma_render_tail(p: TestPointV)
    requires
        match p.yaml {
            None => true,
            Some(y) => wf_yaml(y),
        },
    ensures
        spec_tp_tail(
            crate::parsing::spec_render(p),
            p.status,
            p.test_number,
            p.description,
            p.directive,
            render_nl_at(p),
        ) == OutcomeV::<TestPointV>::Parsed(p, crate::parsing::spec_render(p).len() as int),
{
    reveal_strlit("  ---\n");
    reveal_strlit("  ...\n");
    let s = crate::parsing::spec_render(p);
    let xtx = crate::parsing::dir_txt(p.directive);
    let nl = seq!['\n'];
    let ytx = crate::parsing::yaml_txt(p.yaml);
    let rest3 = nl + ytx;
    let p3 = render_nl_at(p);
    assert(s.skip(render_dir_at(p)) =~= xtx + rest3);
    assert(s[p3] == '\n') by {
        assert(s.skip(render_dir_at(p))[xtx.len() as int] == rest3[0]);
    }
    let q = p3 + 1;
    let rest = s.skip(q);
    assert(rest =~= ytx);
    match p.yaml {
        None => {
            assert(ytx.len() == 0);
            assert(q == s.len());
            assert(tp_v(p.status, p.test_number, p.description, p.directive, None) == p);
        },
        Some(y) => {
            lemma_yaml_txt_parses(y);
            assert(ytx =~= yaml_open() + y + yaml_close());
            assert(spec_yaml(rest) == OutcomeV::<Seq<char>>::Parsed(y, 12 + y.len() as int));
            assert(rest.len() > 0);
            assert(q + 12 + y.len() == s.len());
            assert(tp_v(p.status, p.test_number, p.description, p.directive, Some(y)) == p);
        },
    }
}

/// Round-trip stability: any well-formed record — in particular, any record
/// the parser itself produced whose description does not begin with `#` —
/// is parsed back unchanged from its canonical rendering.
#[verifier::rlimit(100)]
pub proof fn lemma_render_parses(p: TestPointV)
    requires
        wf_record(p),
        match p.description {
            None => true,
            Some(d) => d[0] != '#',
        },
    ensures
        spec_test_point(crate::parsing::spec_render(p)) == OutcomeV::<TestPointV>::Parsed(
            p,
            crate::parsing::spec_render(p).len() as int,
        ),
{
    let s = crate::parsing::spec_render(p);
    lemma_render_status(p);
    lemma_render_number(p);
    lemma_render_desc(p);
    lemma_render_dir(p);
    lemma_render_tail(p);
    let a = crate::parsing::status_txt(p.status).len() as int;
    assert(spec_tp_dir(s, p.status, p.test_number, p.description, render_dir_at(p))
        == OutcomeV::<TestPointV>::Parsed(p, s.len() as int));
    assert(spec_tp_desc(s, p.status, p.test_number, render_desc_at(p))
        == OutcomeV::<TestPointV>::Parsed(p, s.len() as int));
    assert(spec_test_point(s) == OutcomeV::<TestPointV>::Parsed(p, s.len() as int));
}

/// Round-trip stability of parsing: a record parsed from any input, then
/// re-serialised in the canonical form, parses back as the very same
/// record.  The one proviso: the record's description must not begin with a
/// `#`, which only a tab hidden before the `#` in the original text can
/// produce.
pub proof fn lemma_round_trip(l: Seq<char>, p: TestPointV, c: int)
    requires
        spec_test_point(l) == OutcomeV::<TestPointV>::Parsed(p, c),
        match p.description {
            None => true,
            Some(d) => d[0] != '#',
        },
    ensures
        spec_test_point(crate::parsing::spec_render(p)) == OutcomeV::<TestPointV>::Parsed(
            p,
            crate::parsing::spec_render(p).len() as int,
        ),
{
    lemma_parse_record_wf(l);
    lemma_render_parses(p);
}

proof fn lemma_non_ws_run_eq(s1: Seq<char>, s2: Seq<char>, base: int, i: int)
    requires
        s1.len() == s2.len(),
        0 <= base <= i,
        forall|x: int| base <= x < s1.len() ==> s1[x] == s2[x],
    ensures
        non_ws_run_end(s1, i) == non_ws_run_end(s2, i),
    decreases s1.len() - i,
{
    if i < s1.len() && !is_ws(s1[i]) {
        lemma_non_ws_run_eq(s1, s2, base, i + 1);
    }
}

proof fn lemma_lws_run_eq(s1: Seq<char>, s2: Seq<char>, base: int, i: int)
    requires
        s1.len() == s2.len(),
        0 <= base <= i,
        forall|x: int| base <= x < s1.len() ==> s1[x] == s2[x],
    ensures
        lws_run_end(s1, i) == lws_run_end(s2, i),
    decreases s1.len() - i,
{
    if i < s1.len() && is_lws(s1[i]) {
        lemma_lws_run_eq(s1, s2, base, i + 1);
    }
}

proof fn lemma_first_nl_eq(s1: Seq<char>, s2: Seq<char>, base: int, i: int)
    requires
        s1.len() == s2.len(),
        0 <= base <= i,
        forall|x: int| base <= x < s1.len() ==> s1[x] == s2[x],
    ensures
        first_nl(s1, i) == first_nl(s2, i),
    decreases s1.len() - i,
{
    if i < s1.len() && s1[i] != '\n' {
        lemma_first_nl_eq(s1, s2, base, i + 1);
    }
}

/// Directive keyword matching is case-insensitive: whatever mixture of
/// ASCII case spells the keyword, the rule recognises the same variant with
/// the same reason as the all-lower-case spelling, for every gap of spaces
/// before the keyword and every text after it.
#[verifier::rlimit(100)]
pub proof fn lemma_directive_case_insensitive(
    g: Seq<char>,
    k: Seq<char>,
    lo: Seq<char>,
    rest: Seq<char>,
)
    requires
        forall|j: int| 0 <= j < g.len() ==> is_lws(g[j]),
        lo == "todo"@ || lo == "skip"@,
        k.len() == 4,
        forall|j: int| 0 <= j < 4 ==> crate::parsing::ci_eq_lower(k[j], lo[j]),
    ensures
        spec_directive(seq![' ', '#'] + g + k + rest) == spec_directive(
            seq![' ', '#'] + g + lo + rest,
        ),
{
    reveal_strlit("todo");
    reveal_strlit("skip");
    let s1 = seq![' ', '#'] + g + k + rest;
    let s2 = seq![' ', '#'] + g + lo + rest;
    assert(s1.len() == s2.len());
    assert(s1[0] == ' ' && s1[1] == '#');
    assert(s2[0] == ' ' && s2[1] == '#');
    let i = 2 + g.len() as int;
    assert(s1[i] == k[0] && s2[i] == lo[0]);
    assert(!is_lws(k[0]) && !is_lws(lo[0]));
    assert forall|j: int| 2 <= j < i implies is_lws(s1[j]) && s1[j] == s2[j] by {
        assert(s1[j] == g[j - 2]);
        assert(s2[j] == g[j - 2]);
    }
    crate::parsing::lemma_lws_run_end(s1, 2, i);
    crate::parsing::lemma_lws_run_end(s2, 2, i);
    assert forall|j: int| 0 <= j < 4 implies s1[i + j] == k[j] && s2[i + j] == lo[j] by {}
    assert(kw_match(s1, i, lo));
    assert(kw_match(s2, i, lo)) by {
        assert forall|j: int| 0 <= j < 4 implies crate::parsing::ci_eq_lower(
            s2[i + j],
            lo[j],
        ) by {}
    }
    if lo == "skip"@ {
        assert(!crate::parsing::ci_eq_lower(k[0], "todo"@[0]));
        assert(!kw_match(s1, i, "todo"@));
        assert(!crate::parsing::ci_eq_lower(lo[0], "todo"@[0]));
        assert(!kw_match(s2, i, "todo"@));
    } else {
        assert(kw_match(s1, i, "todo"@));
        assert(kw_match(s2, i, "todo"@));
    }
    assert forall|x: int| i + 4 <= x < s1.len() implies s1[x] == s2[x] by {
        assert(s1[x] == rest[x - i - 4]);
        assert(s2[x] == rest[x - i - 4]);
    }
    lemma_non_ws_run_eq(s1, s2, i + 4, i + 4);
    let d = non_ws_run_end(s1, i + 4);
    crate::parsing::lemma_non_ws_run_end_bounds(s1, i + 4);
    lemma_lws_run_eq(s1, s2, i + 4, d);
    let sp = lws_run_end(s1, d);
    crate::parsing::lemma_lws_run_end_bounds(s1, d);
    lemma_first_nl_eq(s1, s2, i + 4, sp);
    match first_nl(s1, sp) {
        None => {},
        Some(e) => {
            lemma_first_nl_bounds(s1, sp);
            assert(s1.subrange(sp, e) =~= s2.subrange(sp, e));
        },
    }
}

} // verus!
