//! The TAP line grammar.
//!
//! Each rule inspects a prefix of its input and reports an [`Outcome`]: a
//! parsed value with the count of characters consumed, `Incomplete` when the
//! input is a valid prefix of a longer unit whose terminator has not yet
//! arrived, `NoMatch` when an optional unit is absent, or `Invalid` when the
//! input can never be completed into the unit.

use crate::TestDirective;
use crate::TestDirectiveV;
use crate::TestPoint;
use crate::TestPointV;
use vstd::prelude::*;
use vstd::string::*;

verus! {

/// The three-way result of attempting one grammar rule on a prefix of the
/// input (plus `NoMatch` for rules that recognise an optional unit).
#[derive(Debug, PartialEq, Eq, Clone)]
pub enum Outcome<T> {
    /// The unit was recognised; the `usize` is the number of characters
    /// consumed from the front of the input.
    Parsed(T, usize),
    /// The input is a valid prefix of the unit but the decision needs more
    /// characters.
    Incomplete,
    /// The optional unit is absent here; nothing was consumed.
    NoMatch,
    /// The input can never be completed into the unit.
    Invalid,
}

/// Mathematical image of an [`Outcome`].
pub enum OutcomeV<V> {
    Parsed(V, int),
    Incomplete,
    NoMatch,
    Invalid,
}

impl<T: DeepView> View for Outcome<T> {
    type V = OutcomeV<T::V>;

    open spec fn view(&self) -> OutcomeV<T::V> {
        match self {
            Outcome::Parsed(v, n) => OutcomeV::Parsed(v.deep_view(), *n as int),
            Outcome::Incomplete => OutcomeV::Incomplete,
            Outcome::NoMatch => OutcomeV::NoMatch,
            Outcome::Invalid => OutcomeV::Invalid,
        }
    }
}

/// Linear whitespace inside a line: a space or a tab.
pub open spec fn is_lws(c: char) -> bool {
    c == ' ' || c == '\t'
}

/// Whitespace as `char::is_whitespace` sees it: the Unicode White_Space
/// set.
pub open spec fn is_uws(c: char) -> bool {
    let u = c as u32;
    u == 0x09 || u == 0x0A || u == 0x0B || u == 0x0C || u == 0x0D || u == 0x20 || u == 0x85
        || u == 0xA0 || u == 0x1680 || (0x2000 <= u && u <= 0x200A) || u == 0x2028 || u == 0x2029
        || u == 0x202F || u == 0x205F || u == 0x3000
}

/// Decides membership in the Unicode White_Space set, as
/// `char::is_whitespace` would.
fn uws_char(c: char) -> (b: bool)
    ensures
        b == is_uws(c),
{
    let u = c as u32;
    u == 0x09 || u == 0x0A || u == 0x0B || u == 0x0C || u == 0x0D || u == 0x20 || u == 0x85
        || u == 0xA0 || u == 0x1680 || (0x2000 <= u && u <= 0x200A) || u == 0x2028 || u == 0x2029
        || u == 0x202F || u == 0x205F || u == 0x3000
}

/// Whitespace as the directive rule's noise-run sees it.
pub open spec fn is_ws(c: char) -> bool {
    is_uws(c)
}

/// An ASCII decimal digit.
pub open spec fn is_digit_char(c: char) -> bool {
    48 <= c as u32 && c as u32 <= 57
}

/// The input starts with the whole literal.
pub open spec fn lit_matches(s: Seq<char>, lit: Seq<char>) -> bool {
    s.len() >= lit.len() && (forall|i: int| 0 <= i < lit.len() ==> s[i] == lit[i])
}

/// The input is a strictly shorter prefix of the literal: the rest of the
/// literal may still arrive.
pub open spec fn lit_partial(s: Seq<char>, lit: Seq<char>) -> bool {
    s.len() < lit.len() && (forall|i: int| 0 <= i < s.len() ==> s[i] == lit[i])
}

/// How far the front of an input agrees with a fixed literal.
#[derive(Debug, PartialEq, Eq, Clone, Copy)]
pub enum LitStep {
    Full,
    Partial,
    Mismatch,
}

/// Compares the front of `s` with `lit`, character by character.
pub fn lit_step(s: &str, lit: &str) -> (r: LitStep)
    ensures
        (r == LitStep::Full) <==> lit_matches(s@, lit@),
        (r == LitStep::Partial) <==> lit_partial(s@, lit@),
{
    let sn = s.unicode_len();
    let ln = lit.unicode_len();
    let mut i: usize = 0;
    while i < ln
        invariant
            sn == s@.len(),
            ln == lit@.len(),
            0 <= i <= ln,
            i <= sn,
            forall|j: int| 0 <= j < i ==> s@[j] == lit@[j],
        decreases ln - i,
    {
        if i == sn {
            return LitStep::Partial;
        }
        let a = s.get_char(i);
        let b = lit.get_char(i);
        if a != b {
            assert(s@[i as int] != lit@[i as int]);
            return LitStep::Mismatch;
        }
        i = i + 1;
    }
    LitStep::Full
}

/// The first index `>= i` holding a character that ends a digit run.
pub open spec fn digit_run_end(s: Seq<char>, i: int) -> int
    decreases s.len() - i,
{
    if i < 0 || i >= s.len() {
        i
    } else if is_digit_char(s[i]) {
        digit_run_end(s, i + 1)
    } else {
        i
    }
}

pub proof fn lemma_digit_run_end(s: Seq<char>, a: int, b: int)
    requires
        0 <= a <= b <= s.len(),
        forall|j: int| a <= j < b ==> is_digit_char(s[j]),
        b == s.len() || !is_digit_char(s[b]),
    ensures
        digit_run_end(s, a) == b,
    decreases b - a,
{
    if a < b {
        lemma_digit_run_end(s, a + 1, b);
    }
}

/// The unsigned value of a digit sequence, most significant digit first.
pub open spec fn digits_val(s: Seq<char>) -> int
    decreases s.len(),
{
    if s.len() == 0 {
        0
    } else {
        digits_val(s.drop_last()) * 10 + (s.last() as u32 - 48)
    }
}

pub proof fn lemma_digits_val_nonneg(s: Seq<char>)
    requires
        forall|j: int| 0 <= j < s.len() ==> is_digit_char(s[j]),
    ensures
        digits_val(s) >= 0,
    decreases s.len(),
{
    if s.len() > 0 {
        lemma_digits_val_nonneg(s.drop_last());
    }
}

/// `ok` or `not ok`, by the longest match.
pub open spec fn spec_status(s: Seq<char>) -> OutcomeV<bool> {
    if lit_matches(s, "not ok"@) {
        OutcomeV::Parsed(false, 6)
    } else if lit_partial(s, "not ok"@) {
        OutcomeV::Incomplete
    } else if lit_matches(s, "ok"@) {
        OutcomeV::Parsed(true, 2)
    } else if lit_partial(s, "ok"@) {
        OutcomeV::Incomplete
    } else {
        OutcomeV::Invalid
    }
}

/// Parses the pass/fail status literal, `ok` or `not ok`.
pub fn parse_status(s: &str) -> (r: Outcome<bool>)
    ensures
        r@ == spec_status(s@),
{
    proof {
        reveal_strlit("not ok");
        reveal_strlit("ok");
    }
    match lit_step(s, "not ok") {
        LitStep::Full => Outcome::Parsed(false, 6),
        LitStep::Partial => Outcome::Incomplete,
        LitStep::Mismatch => match lit_step(s, "ok") {
            LitStep::Full => Outcome::Parsed(true, 2),
            LitStep::Partial => Outcome::Incomplete,
            LitStep::Mismatch => Outcome::Invalid,
        },
    }
}

/// An optional test number: one space, then a maximal digit run whose value
/// fits a `usize`, ending at a space, a newline or the end of the input.
/// Anything else — including an overflowing run — is no number at all, and
/// the text falls through to the description rule.
pub open spec fn spec_test_number(s: Seq<char>) -> OutcomeV<usize> {
    if s.len() == 0 {
        OutcomeV::Incomplete
    } else if s[0] != ' ' {
        OutcomeV::NoMatch
    } else if s.len() == 1 {
        OutcomeV::Incomplete
    } else if !is_digit_char(s[1]) {
        OutcomeV::NoMatch
    } else {
        let e = digit_run_end(s, 1);
        if e < s.len() && s[e] != ' ' && s[e] != '\n' {
            OutcomeV::NoMatch
        } else {
            let v = digits_val(s.subrange(1, e));
            if v <= usize::MAX {
                OutcomeV::Parsed(v as usize, e)
            } else {
                OutcomeV::NoMatch
            }
        }
    }
}

/// Parses the optional test number after the status.
pub fn parse_test_number(s: &str) -> (r: Outcome<usize>)
    ensures
        r@ == spec_test_number(s@),
{
    let n = s.unicode_len();
    if n == 0 {
        return Outcome::Incomplete;
    }
    if s.get_char(0) != ' ' {
        return Outcome::NoMatch;
    }
    if n == 1 {
        return Outcome::Incomplete;
    }
    let c1 = s.get_char(1);
    if !(48 <= c1 as u32 && c1 as u32 <= 57) {
        return Outcome::NoMatch;
    }
    let (e, val, over) = scan_digits(s, 1);
    if e < n {
        let c = s.get_char(e);
        if c != ' ' && c != '\n' {
            return Outcome::NoMatch;
        }
    }
    if over {
        Outcome::NoMatch
    } else {
        Outcome::Parsed(val, e)
    }
}

/// The first index `>= i` holding a character outside linear whitespace.
pub open spec fn lws_run_end(s: Seq<char>, i: int) -> int
    decreases s.len() - i,
{
    if i < 0 || i >= s.len() {
        i
    } else if is_lws(s[i]) {
        lws_run_end(s, i + 1)
    } else {
        i
    }
}

pub proof fn lemma_lws_run_end(s: Seq<char>, a: int, b: int)
    requires
        0 <= a <= b <= s.len(),
        forall|j: int| a <= j < b ==> is_lws(s[j]),
        b == s.len() || !is_lws(s[b]),
    ensures
        lws_run_end(s, a) == b,
    decreases b - a,
{
    if a < b {
        lemma_lws_run_end(s, a + 1, b);
    }
}

/// The start of the maximal whitespace run ending just before `j`.
pub open spec fn uws_run_start(s: Seq<char>, j: int) -> int
    decreases j,
{
    if j <= 0 || j > s.len() {
        j
    } else if is_uws(s[j - 1]) {
        uws_run_start(s, j - 1)
    } else {
        j
    }
}

pub proof fn lemma_uws_run_start(s: Seq<char>, a: int, b: int)
    requires
        0 <= a <= b <= s.len(),
        forall|j: int| a <= j < b ==> is_uws(s[j]),
        a == 0 || !is_uws(s[a - 1]),
    ensures
        uws_run_start(s, b) == a,
    decreases b - a,
{
    if a < b {
        lemma_uws_run_start(s, a, b - 1);
    }
}

/// The first index `>= i` holding a character outside Unicode whitespace.
pub open spec fn uws_run_end(s: Seq<char>, i: int) -> int
    decreases s.len() - i,
{
    if i < 0 || i >= s.len() {
        i
    } else if is_uws(s[i]) {
        uws_run_end(s, i + 1)
    } else {
        i
    }
}

pub proof fn lemma_uws_run_end(s: Seq<char>, a: int, b: int)
    requires
        0 <= a <= b <= s.len(),
        forall|j: int| a <= j < b ==> is_uws(s[j]),
        b == s.len() || !is_uws(s[b]),
    ensures
        uws_run_end(s, a) == b,
    decreases b - a,
{
    if a < b {
        lemma_uws_run_end(s, a + 1, b);
    }
}

/// The input with leading and trailing whitespace removed, whitespace as
/// `char::is_whitespace` sees it.
pub open spec fn spec_trim(s: Seq<char>) -> Seq<char> {
    let a = uws_run_end(s, 0);
    let b = uws_run_start(s, s.len() as int);
    if a < b {
        s.subrange(a, b)
    } else {
        Seq::empty()
    }
}

/// Removes leading and trailing whitespace.
pub fn trim_str(s: &str) -> (r: String)
    ensures
        r@ == spec_trim(s@),
{
    let a = skip_uws_forward(s);
    let b = skip_uws_backward(s);
    if a < b {
        let sub = s.substring_char(a, b);
        sub.to_owned()
    } else {
        proof {
            assert(spec_trim(s@) =~= Seq::<char>::empty());
        }
        String::new()
    }
}

/// Finds where the leading whitespace run of `s` ends.
fn skip_uws_forward(s: &str) -> (a: usize)
    ensures
        a == uws_run_end(s@, 0),
        0 <= a <= s@.len(),
{
    let n = s.unicode_len();
    let mut a: usize = 0;
    loop
        invariant
            n == s@.len(),
            0 <= a <= n,
            forall|j: int| 0 <= j < a ==> is_uws(s@[j]),
        decreases n - a,
    {
        if a == n {
            proof {
                lemma_uws_run_end(s@, 0, a as int);
            }
            return a;
        }
        if !uws_char(s.get_char(a)) {
            proof {
                lemma_uws_run_end(s@, 0, a as int);
            }
            return a;
        }
        a = a + 1;
    }
}

/// Finds where the trailing whitespace run of `s` starts.
fn skip_uws_backward(s: &str) -> (b: usize)
    ensures
        b == uws_run_start(s@, s@.len() as int),
        0 <= b <= s@.len(),
{
    let n = s.unicode_len();
    let mut b: usize = n;
    loop
        invariant
            n == s@.len(),
            0 <= b <= n,
            forall|j: int| b <= j < n ==> is_uws(s@[j]),
        decreases b,
    {
        if b == 0 {
            proof {
                lemma_uws_run_start(s@, b as int, n as int);
            }
            return b;
        }
        if !uws_char(s.get_char(b - 1)) {
            proof {
                lemma_uws_run_start(s@, b as int, n as int);
            }
            return b;
        }
        b = b - 1;
    }
}

/// A position where a description ends: the line terminator, or the space
/// that opens a ` #` directive marker.
pub open spec fn desc_end_at(s: Seq<char>, i: int) -> bool {
    s[i] == '\n' || (s[i] == ' ' && i + 1 < s.len() && s[i + 1] == '#')
}

/// The first description terminator at or after `i`.
pub open spec fn first_desc_end(s: Seq<char>, i: int) -> Option<int>
    decreases s.len() - i,
{
    if i < 0 || i >= s.len() {
        None
    } else if desc_end_at(s, i) {
        Some(i)
    } else {
        first_desc_end(s, i + 1)
    }
}

pub proof fn lemma_first_desc_end(s: Seq<char>, a: int, b: int)
    requires
        0 <= a <= b <= s.len(),
        forall|j: int| a <= j < b ==> !desc_end_at(s, j),
        b == s.len() || desc_end_at(s, b),
    ensures
        first_desc_end(s, a) == if b == s.len() {
            None::<int>
        } else {
            Some(b)
        },
    decreases b - a,
{
    if a < b {
        lemma_first_desc_end(s, a + 1, b);
    }
}

/// The core of the description rule, after an optional ` -` marker of `m`
/// characters: one mandatory space, then everything up to the earliest of
/// ` #` or the line terminator, trimmed.  An empty capture is no
/// description at all.
pub open spec fn desc_core(s: Seq<char>, m: int) -> OutcomeV<Seq<char>> {
    if m >= s.len() {
        OutcomeV::Incomplete
    } else if s[m] != ' ' {
        OutcomeV::NoMatch
    } else {
        match first_desc_end(s, m) {
            None => OutcomeV::Incomplete,
            Some(k) => {
                if k <= m {
                    OutcomeV::NoMatch
                } else {
                    let d = spec_trim(s.subrange(m + 1, k));
                    if d.len() == 0 {
                        OutcomeV::NoMatch
                    } else {
                        OutcomeV::Parsed(d, k)
                    }
                }
            },
        }
    }
}

/// An optional description: an optional ` -` marker, one mandatory space,
/// then free text up to the earliest of ` #` or the line terminator,
/// whichever occurs first.
pub open spec fn spec_description(s: Seq<char>) -> OutcomeV<Seq<char>> {
    if s.len() == 0 {
        OutcomeV::Incomplete
    } else if s[0] != ' ' {
        OutcomeV::NoMatch
    } else if s.len() >= 2 && s[1] == '-' {
        desc_core(s, 2)
    } else if s.len() == 1 {
        OutcomeV::Incomplete
    } else {
        desc_core(s, 0)
    }
}

/// Parses the optional description of a test point.
pub fn parse_description(s: &str) -> (r: Outcome<String>)
    ensures
        r@ == spec_description(s@),
{
    let n = s.unicode_len();
    if n == 0 {
        return Outcome::Incomplete;
    }
    if s.get_char(0) != ' ' {
        return Outcome::NoMatch;
    }
    let m: usize = if n >= 2 && s.get_char(1) == '-' {
        2
    } else if n == 1 {
        return Outcome::Incomplete;
    } else {
        0
    };
    if m >= n {
        return Outcome::Incomplete;
    }
    if s.get_char(m) != ' ' {
        return Outcome::NoMatch;
    }
    match find_desc_end(s, m) {
        None => Outcome::Incomplete,
        Some(k) => {
            if k <= m {
                return Outcome::NoMatch;
            }
            let sub = s.substring_char(m + 1, k);
            let d = trim_str(sub);
            if d.unicode_len() == 0 {
                Outcome::NoMatch
            } else {
                Outcome::Parsed(d, k)
            }
        },
    }
}

/// Finds the first description terminator at or after `from`.
fn find_desc_end(s: &str, from: usize) -> (r: Option<usize>)
    requires
        from <= s@.len(),
    ensures
        match r {
            Some(k) => from <= k < s@.len() && first_desc_end(s@, from as int) == Some(k as int),
            None => first_desc_end(s@, from as int) == None::<int>,
        },
{
    let n = s.unicode_len();
    let mut i: usize = from;
    loop
        invariant
            n == s@.len(),
            from <= i <= n,
            forall|j: int| from <= j < i ==> !desc_end_at(s@, j),
        decreases n - i,
    {
        if i == n {
            proof {
                lemma_first_desc_end(s@, from as int, n as int);
            }
            return None;
        }
        let c = s.get_char(i);
        if c == '\n' {
            proof {
                lemma_first_desc_end(s@, from as int, i as int);
            }
            return Some(i);
        }
        if c == ' ' && i + 1 < n && s.get_char(i + 1) == '#' {
            proof {
                lemma_first_desc_end(s@, from as int, i as int);
            }
            return Some(i);
        }
        proof {
            assert(!desc_end_at(s@, i as int));
        }
        i = i + 1;
    }
}

/// The first index `>= i` holding a whitespace character.
pub open spec fn non_ws_run_end(s: Seq<char>, i: int) -> int
    decreases s.len() - i,
{
    if i < 0 || i >= s.len() {
        i
    } else if !is_ws(s[i]) {
        non_ws_run_end(s, i + 1)
    } else {
        i
    }
}

pub proof fn lemma_non_ws_run_end(s: Seq<char>, a: int, b: int)
    requires
        0 <= a <= b <= s.len(),
        forall|j: int| a <= j < b ==> !is_ws(s[j]),
        b == s.len() || is_ws(s[b]),
    ensures
        non_ws_run_end(s, a) == b,
    decreases b - a,
{
    if a < b {
        lemma_non_ws_run_end(s, a + 1, b);
    }
}

/// The first line terminator at or after `i`.
pub open spec fn first_nl(s: Seq<char>, i: int) -> Option<int>
    decreases s.len() - i,
{
    if i < 0 || i >= s.len() {
        None
    } else if s[i] == '\n' {
        Some(i)
    } else {
        first_nl(s, i + 1)
    }
}

pub proof fn lemma_first_nl(s: Seq<char>, a: int, b: int)
    requires
        0 <= a <= b <= s.len(),
        forall|j: int| a <= j < b ==> s[j] != '\n',
        b == s.len() || s[b] == '\n',
    ensures
        first_nl(s, a) == if b == s.len() {
            None::<int>
        } else {
            Some(b)
        },
    decreases b - a,
{
    if a < b {
        lemma_first_nl(s, a + 1, b);
    }
}

/// Finds the first line terminator at or after `from`.
fn find_nl(s: &str, from: usize) -> (r: Option<usize>)
    requires
        from <= s@.len(),
    ensures
        match r {
            Some(k) => from <= k < s@.len() && first_nl(s@, from as int) == Some(k as int),
            None => first_nl(s@, from as int) == None::<int>,
        },
{
    let n = s.unicode_len();
    let mut i: usize = from;
    loop
        invariant
            n == s@.len(),
            from <= i <= n,
            forall|j: int| from <= j < i ==> s@[j] != '\n',
        decreases n - i,
    {
        if i == n {
            proof {
                lemma_first_nl(s@, from as int, n as int);
            }
            return None;
        }
        if s.get_char(i) == '\n' {
            proof {
                lemma_first_nl(s@, from as int, i as int);
            }
            return Some(i);
        }
        i = i + 1;
    }
}

/// `a` equals the lower-case ASCII letter `lo`, ignoring ASCII case.
pub open spec fn ci_eq_lower(a: char, lo: char) -> bool {
    a == lo || a as u32 == lo as u32 - 32
}

/// The characters of `s` starting at `i` spell the whole keyword `lo`,
/// ignoring ASCII case.
pub open spec fn kw_match(s: Seq<char>, i: int, lo: Seq<char>) -> bool {
    0 <= i && i + lo.len() <= s.len() && (forall|j: int|
        0 <= j < lo.len() ==> ci_eq_lower(s[i + j], lo[j]))
}

/// The input ends in the middle of the keyword: every available character
/// matches, but the tail of the keyword is still to come.
pub open spec fn kw_partial(s: Seq<char>, i: int, lo: Seq<char>) -> bool {
    0 <= i <= s.len() && s.len() < i + lo.len() && (forall|j: int|
        0 <= j < s.len() - i ==> ci_eq_lower(s[i + j], lo[j]))
}

/// Compares the characters of `s` starting at `i` with a lower-case
/// keyword, ignoring ASCII case.
fn kw_step(s: &str, i: usize, lo: &str) -> (r: LitStep)
    requires
        i <= s@.len(),
    ensures
        (r == LitStep::Full) <==> kw_match(s@, i as int, lo@),
        (r == LitStep::Partial) <==> kw_partial(s@, i as int, lo@),
{
    let sn = s.unicode_len();
    let ln = lo.unicode_len();
    let mut j: usize = 0;
    loop
        invariant
            sn == s@.len(),
            ln == lo@.len(),
            i <= sn,
            0 <= j <= ln,
            i + j <= sn,
            forall|t: int| 0 <= t < j ==> ci_eq_lower(s@[i + t], lo@[t]),
        decreases ln - j,
    {
        if j == ln {
            return LitStep::Full;
        }
        if i + j == sn {
            return LitStep::Partial;
        }
        let a = s.get_char(i + j);
        let b = lo.get_char(j);
        let au = a as u32;
        let bu = b as u32;
        if !(a == b || (bu >= 32 && au == bu - 32)) {
            assert(!ci_eq_lower(s@[i + j as int], lo@[j as int]));
            return LitStep::Mismatch;
        }
        j = j + 1;
    }
}

/// An optional directive: ` #`, optional spaces, the case-insensitive
/// keyword `todo` or `skip`, a discarded run of trailing noise stuck to the
/// keyword, then an optional reason running to the line terminator.  A
/// reason that trims to nothing is absent.
pub open spec fn spec_directive(s: Seq<char>) -> OutcomeV<TestDirectiveV> {
    if s.len() == 0 {
        OutcomeV::Incomplete
    } else if s[0] != ' ' {
        OutcomeV::NoMatch
    } else if s.len() == 1 {
        OutcomeV::Incomplete
    } else if s[1] != '#' {
        OutcomeV::NoMatch
    } else {
        let i = lws_run_end(s, 2);
        if kw_match(s, i, "todo"@) || kw_match(s, i, "skip"@) {
            let d = non_ws_run_end(s, i + 4);
            let sp = lws_run_end(s, d);
            match first_nl(s, sp) {
                None => OutcomeV::Incomplete,
                Some(e) => {
                    let t = spec_trim(s.subrange(sp, e));
                    let reason = if t.len() == 0 {
                        Option::<Seq<char>>::None
                    } else {
                        Some(t)
                    };
                    if kw_match(s, i, "todo"@) {
                        OutcomeV::Parsed(TestDirectiveV::Todo(reason), e)
                    } else {
                        OutcomeV::Parsed(TestDirectiveV::Skip(reason), e)
                    }
                },
            }
        } else if kw_partial(s, i, "todo"@) || kw_partial(s, i, "skip"@) {
            OutcomeV::Incomplete
        } else {
            OutcomeV::NoMatch
        }
    }
}

/// Parses the optional TODO/SKIP directive of a test point.
pub fn parse_directive(s: &str) -> (r: Outcome<TestDirective>)
    ensures
        r@ == spec_directive(s@),
{
    let n = s.unicode_len();
    if n == 0 {
        return Outcome::Incomplete;
    }
    if s.get_char(0) != ' ' {
        return Outcome::NoMatch;
    }
    if n == 1 {
        return Outcome::Incomplete;
    }
    if s.get_char(1) != '#' {
        return Outcome::NoMatch;
    }
    let i = scan_lws(s, 2);
    proof {
        reveal_strlit("todo");
        reveal_strlit("skip");
    }
    let todo = kw_step(s, i, "todo");
    let skip = kw_step(s, i, "skip");
    let is_todo = matches!(todo, LitStep::Full);
    if !(is_todo || matches!(skip, LitStep::Full)) {
        if matches!(todo, LitStep::Partial) || matches!(skip, LitStep::Partial) {
            return Outcome::Incomplete;
        }
        return Outcome::NoMatch;
    }
    let d = scan_non_ws(s, i + 4);
    let sp = scan_lws(s, d);
    match find_nl(s, sp) {
        None => Outcome::Incomplete,
        Some(e) => {
            let sub = s.substring_char(sp, e);
            let t = trim_str(sub);
            let reason: Option<String> = if t.unicode_len() == 0 {
                None
            } else {
                Some(t)
            };
            if is_todo {
                Outcome::Parsed(TestDirective::Todo(reason), e)
            } else {
                Outcome::Parsed(TestDirective::Skip(reason), e)
            }
        },
    }
}

/// Finds where the linear-whitespace run starting at `from` ends.
fn scan_lws(s: &str, from: usize) -> (a: usize)
    requires
        from <= s@.len(),
    ensures
        a == lws_run_end(s@, from as int),
        from <= a <= s@.len(),
{
    let n = s.unicode_len();
    let mut a: usize = from;
    loop
        invariant
            n == s@.len(),
            from <= a <= n,
            forall|j: int| from <= j < a ==> is_lws(s@[j]),
        decreases n - a,
    {
        if a == n {
            proof {
                lemma_lws_run_end(s@, from as int, a as int);
            }
            return a;
        }
        let c = s.get_char(a);
        if !(c == ' ' || c == '\t') {
            proof {
                lemma_lws_run_end(s@, from as int, a as int);
            }
            return a;
        }
        a = a + 1;
    }
}

/// Finds where the non-whitespace run starting at `from` ends.
fn scan_non_ws(s: &str, from: usize) -> (a: usize)
    requires
        from <= s@.len(),
    ensures
        a == non_ws_run_end(s@, from as int),
        from <= a <= s@.len(),
{
    let n = s.unicode_len();
    let mut a: usize = from;
    loop
        invariant
            n == s@.len(),
            from <= a <= n,
            forall|j: int| from <= j < a ==> !is_ws(s@[j]),
        decreases n - a,
    {
        if a == n {
            proof {
                lemma_non_ws_run_end(s@, from as int, a as int);
            }
            return a;
        }
        let c = s.get_char(a);
        if uws_char(c) {
            proof {
                lemma_non_ws_run_end(s@, from as int, a as int);
            }
            return a;
        }
        a = a + 1;
    }
}

pub proof fn lemma_digit_run_end_bounds(s: Seq<char>, i: int)
    requires
        0 <= i <= s.len(),
    ensures
        i <= digit_run_end(s, i) <= s.len(),
    decreases s.len() - i,
{
    if i < s.len() && is_digit_char(s[i]) {
        lemma_digit_run_end_bounds(s, i + 1);
    }
}

pub proof fn lemma_lws_run_end_bounds(s: Seq<char>, i: int)
    requires
        0 <= i <= s.len(),
    ensures
        i <= lws_run_end(s, i) <= s.len(),
    decreases s.len() - i,
{
    if i < s.len() && is_lws(s[i]) {
        lemma_lws_run_end_bounds(s, i + 1);
    }
}

pub proof fn lemma_non_ws_run_end_bounds(s: Seq<char>, i: int)
    requires
        0 <= i <= s.len(),
    ensures
        i <= non_ws_run_end(s, i) <= s.len(),
    decreases s.len() - i,
{
    if i < s.len() && !is_ws(s[i]) {
        lemma_non_ws_run_end_bounds(s, i + 1);
    }
}

pub proof fn lemma_first_desc_end_bounds(s: Seq<char>, i: int)
    requires
        0 <= i,
    ensures
        match first_desc_end(s, i) {
            Some(k) => i <= k < s.len(),
            None => true,
        },
    decreases s.len() - i,
{
    if i < s.len() && !desc_end_at(s, i) {
        lemma_first_desc_end_bounds(s, i + 1);
    }
}

pub proof fn lemma_first_nl_bounds(s: Seq<char>, i: int)
    requires
        0 <= i,
    ensures
        match first_nl(s, i) {
            Some(k) => i <= k < s.len() && s[k] == '\n',
            None => true,
        },
    decreases s.len() - i,
{
    if i < s.len() && s[i] != '\n' {
        lemma_first_nl_bounds(s, i + 1);
    }
}

/// The line that opens a YAML diagnostic block.
pub open spec fn yaml_open() -> Seq<char> {
    "  ---\n"@
}

/// The line that closes a YAML diagnostic block.
pub open spec fn yaml_close() -> Seq<char> {
    "  ...\n"@
}

/// The closing line of a YAML block stands at `j`: the closer literal at the
/// start of a line (`base` is the first interior position).
pub open spec fn yaml_close_at(s: Seq<char>, base: int, j: int) -> bool {
    j + 6 <= s.len() && (j == base || s[j - 1] == '\n') && (forall|t: int|
        0 <= t < 6 ==> s[j + t] == yaml_close()[t])
}

/// The first closing line at or after `j`.
pub open spec fn find_yaml_close(s: Seq<char>, base: int, j: int) -> Option<int>
    decreases s.len() - j,
{
    if j < 0 || j >= s.len() {
        None
    } else if yaml_close_at(s, base, j) {
        Some(j)
    } else {
        find_yaml_close(s, base, j + 1)
    }
}

pub proof fn lemma_find_yaml_close(s: Seq<char>, base: int, a: int, b: int)
    requires
        0 <= a <= b <= s.len(),
        forall|j: int| a <= j < b ==> !yaml_close_at(s, base, j),
        b == s.len() || yaml_close_at(s, base, b),
    ensures
        find_yaml_close(s, base, a) == if b == s.len() {
            None::<int>
        } else {
            Some(b)
        },
    decreases b - a,
{
    if a < b {
        lemma_find_yaml_close(s, base, a + 1, b);
    }
}

pub proof fn lemma_find_yaml_close_bounds(s: Seq<char>, base: int, j: int)
    requires
        0 <= j,
    ensures
        match find_yaml_close(s, base, j) {
            Some(k) => j <= k && k + 6 <= s.len() && yaml_close_at(s, base, k),
            None => true,
        },
    decreases s.len() - j,
{
    if j < s.len() && !yaml_close_at(s, base, j) {
        lemma_find_yaml_close_bounds(s, base, j + 1);
    }
}

/// An optional YAML diagnostic block: the opener line, an interior captured
/// verbatim, and the first closing line that stands at the start of a line.
pub open spec fn spec_yaml(s: Seq<char>) -> OutcomeV<Seq<char>> {
    if lit_matches(s, yaml_open()) {
        match find_yaml_close(s, 6, 6) {
            None => OutcomeV::Incomplete,
            Some(k) => OutcomeV::Parsed(s.subrange(6, k), k + 6),
        }
    } else if lit_partial(s, yaml_open()) {
        OutcomeV::Incomplete
    } else {
        OutcomeV::NoMatch
    }
}

/// Parses a YAML diagnostic block delimited by `  ---` and `  ...` lines.
pub fn parse_yaml(s: &str) -> (r: Outcome<String>)
    ensures
        r@ == spec_yaml(s@),
{
    proof {
        reveal_strlit("  ---\n");
        reveal_strlit("  ...\n");
    }
    let n = s.unicode_len();
    match lit_step(s, "  ---\n") {
        LitStep::Partial => Outcome::Incomplete,
        LitStep::Mismatch => Outcome::NoMatch,
        LitStep::Full => {
            match find_close_line(s) {
                None => Outcome::Incomplete,
                Some(k) => {
                    assert(k + 6 <= n);
                    let body = s.substring_char(6, k);
                    Outcome::Parsed(body.to_owned(), k + 6)
                },
            }
        },
    }
}

/// Finds the first `  ...` closing line of a YAML block whose opener has
/// already been matched.
fn find_close_line(s: &str) -> (r: Option<usize>)
    requires
        s@.len() >= 6,
    ensures
        match r {
            Some(k) => 6 <= k && k + 6 <= s@.len() && find_yaml_close(s@, 6, 6) == Some(k as int),
            None => find_yaml_close(s@, 6, 6) == None::<int>,
        },
{
    proof {
        reveal_strlit("  ...\n");
    }
    let n = s.unicode_len();
    let mut j: usize = 6;
    loop
        invariant
            n == s@.len(),
            6 <= j <= n,
            forall|t: int| 6 <= t < j ==> !yaml_close_at(s@, 6, t),
        decreases n - j,
    {
        if j == n {
            proof {
                lemma_find_yaml_close(s@, 6, 6, n as int);
            }
            return None;
        }
        if close_line_at(s, j) {
            proof {
                lemma_find_yaml_close(s@, 6, 6, j as int);
            }
            return Some(j);
        }
        j = j + 1;
    }
}

/// Decides whether the closing line of a YAML block stands at `j`.
fn close_line_at(s: &str, j: usize) -> (b: bool)
    requires
        6 <= j <= s@.len(),
    ensures
        b == yaml_close_at(s@, 6, j as int),
{
    proof {
        reveal_strlit("  ...\n");
    }
    let n = s.unicode_len();
    if j > n - 6 {
        return false;
    }
    if !(j == 6 || s.get_char(j - 1) == '\n') {
        return false;
    }
    let c0 = s.get_char(j);
    let c1 = s.get_char(j + 1);
    let c2 = s.get_char(j + 2);
    let c3 = s.get_char(j + 3);
    let c4 = s.get_char(j + 4);
    let c5 = s.get_char(j + 5);
    let hit = c0 == ' ' && c1 == ' ' && c2 == '.' && c3 == '.' && c4 == '.' && c5 == '\n';
    proof {
        if hit {
            assert forall|t: int| 0 <= t < 6 implies s@[j + t] == yaml_close()[t] by {
                if t == 0 {
                } else if t == 1 {
                } else if t == 2 {
                } else if t == 3 {
                } else if t == 4 {
                } else {
                    assert(t == 5);
                }
            }
        } else {
            assert(!(forall|t: int| 0 <= t < 6 ==> s@[j + t] == yaml_close()[t])) by {
                if c0 != ' ' {
                    assert(s@[j as int] != yaml_close()[0]);
                } else if c1 != ' ' {
                    assert(s@[j + 1 as int] != yaml_close()[1]);
                } else if c2 != '.' {
                    assert(s@[j + 2 as int] != yaml_close()[2]);
                } else if c3 != '.' {
                    assert(s@[j + 3 as int] != yaml_close()[3]);
                } else if c4 != '.' {
                    assert(s@[j + 4 as int] != yaml_close()[4]);
                } else {
                    assert(s@[j + 5 as int] != yaml_close()[5]);
                }
            }
        }
    }
    hit
}

/// Builds the mathematical image of a test point.
pub open spec fn tp_v(
    st: bool,
    num: Option<usize>,
    d: Option<Seq<char>>,
    dir: Option<TestDirectiveV>,
    y: Option<Seq<char>>,
) -> TestPointV {
    TestPointV { status: st, test_number: num, description: d, directive: dir, yaml: y }
}

/// The tail of a test point after the line terminator at `p`: either no
/// YAML block, or a whole one.  An empty remainder means no block.
pub open spec fn spec_tp_tail(
    s: Seq<char>,
    st: bool,
    num: Option<usize>,
    d: Option<Seq<char>>,
    dir: Option<TestDirectiveV>,
    p: int,
) -> OutcomeV<TestPointV> {
    if p >= s.len() {
        OutcomeV::Incomplete
    } else if s[p] != '\n' {
        OutcomeV::Invalid
    } else {
        let q = p + 1;
        if q == s.len() {
            OutcomeV::Parsed(tp_v(st, num, d, dir, None), q)
        } else {
            match spec_yaml(s.skip(q)) {
                OutcomeV::NoMatch => OutcomeV::Parsed(tp_v(st, num, d, dir, None), q),
                OutcomeV::Incomplete => OutcomeV::Incomplete,
                OutcomeV::Parsed(y, c) => OutcomeV::Parsed(tp_v(st, num, d, dir, Some(y)), q + c),
                OutcomeV::Invalid => OutcomeV::Invalid,
            }
        }
    }
}

/// One whole test point: status, then the optional test number,
/// description and directive in that fixed order, the line terminator, and
/// an optional YAML block.
pub open spec fn spec_test_point(s: Seq<char>) -> OutcomeV<TestPointV> {
    match spec_status(s) {
        OutcomeV::Incomplete => OutcomeV::Incomplete,
        OutcomeV::Parsed(st, a) => {
            match spec_test_number(s.skip(a)) {
                OutcomeV::Incomplete => OutcomeV::Incomplete,
                OutcomeV::Invalid => OutcomeV::Invalid,
                OutcomeV::Parsed(v, b) => spec_tp_desc(s, st, Some(v), a + b),
                OutcomeV::NoMatch => spec_tp_desc(s, st, None, a),
            }
        },
        _ => OutcomeV::Invalid,
    }
}

/// The rest of a test point from the description on.
pub open spec fn spec_tp_desc(s: Seq<char>, st: bool, num: Option<usize>, p: int) -> OutcomeV<
    TestPointV,
> {
    match spec_description(s.skip(p)) {
        OutcomeV::Incomplete => OutcomeV::Incomplete,
        OutcomeV::Invalid => OutcomeV::Invalid,
        OutcomeV::Parsed(d, c) => spec_tp_dir(s, st, num, Some(d), p + c),
        OutcomeV::NoMatch => spec_tp_dir(s, st, num, None, p),
    }
}

/// The rest of a test point from the directive on.
pub open spec fn spec_tp_dir(
    s: Seq<char>,
    st: bool,
    num: Option<usize>,
    d: Option<Seq<char>>,
    p: int,
) -> OutcomeV<TestPointV> {
    match spec_directive(s.skip(p)) {
        OutcomeV::Incomplete => OutcomeV::Incomplete,
        OutcomeV::Invalid => OutcomeV::Invalid,
        OutcomeV::Parsed(dir, c) => spec_tp_tail(s, st, num, d, Some(dir), p + c),
        OutcomeV::NoMatch => spec_tp_tail(s, st, num, d, None, p),
    }
}

/// Parses one whole test point from the front of the input.
pub fn parse_test_point(s: &str) -> (r: Outcome<TestPoint>)
    ensures
        r@ == spec_test_point(s@),
{
    proof {
        reveal_strlit("not ok");
        reveal_strlit("ok");
    }
    let n = s.unicode_len();
    let (st, a) = match parse_status(s) {
        Outcome::Parsed(v, c) => (v, c),
        Outcome::Incomplete => {
            return Outcome::Incomplete;
        },
        _ => {
            return Outcome::Invalid;
        },
    };
    assert(a <= n);
    let rest_num = s.substring_char(a, n);
    proof {
        assert(rest_num@ =~= s@.skip(a as int));
    }
    match parse_test_number(rest_num) {
        Outcome::Parsed(v, c) => {
            proof {
                lemma_number_consumed(rest_num@);
            }
            tp_from_desc(s, st, Some(v), a + c)
        },
        Outcome::NoMatch => tp_from_desc(s, st, None, a),
        Outcome::Incomplete => Outcome::Incomplete,
        Outcome::Invalid => Outcome::Invalid,
    }
}

/// Parses the rest of a test point from the description on.
fn tp_from_desc(s: &str, st: bool, num: Option<usize>, p: usize) -> (r: Outcome<TestPoint>)
    requires
        p <= s@.len(),
    ensures
        r@ == spec_tp_desc(s@, st, num, p as int),
{
    let n = s.unicode_len();
    let rest = s.substring_char(p, n);
    proof {
        assert(rest@ =~= s@.skip(p as int));
    }
    match parse_description(rest) {
        Outcome::Parsed(v, c) => {
            proof {
                lemma_desc_consumed(rest@);
            }
            tp_from_dir(s, st, num, Some(v), p + c)
        },
        Outcome::NoMatch => tp_from_dir(s, st, num, None, p),
        Outcome::Incomplete => Outcome::Incomplete,
        Outcome::Invalid => Outcome::Invalid,
    }
}

/// Parses the rest of a test point from the directive on.
fn tp_from_dir(
    s: &str,
    st: bool,
    num: Option<usize>,
    d: Option<String>,
    p: usize,
) -> (r: Outcome<TestPoint>)
    requires
        p <= s@.len(),
    ensures
        r@ == spec_tp_dir(s@, st, num, d.deep_view(), p as int),
{
    let n = s.unicode_len();
    let rest = s.substring_char(p, n);
    proof {
        assert(rest@ =~= s@.skip(p as int));
    }
    match parse_directive(rest) {
        Outcome::Parsed(v, c) => {
            proof {
                lemma_directive_consumed(rest@);
            }
            tp_tail(s, st, num, d, Some(v), p + c)
        },
        Outcome::NoMatch => tp_tail(s, st, num, d, None, p),
        Outcome::Incomplete => Outcome::Incomplete,
        Outcome::Invalid => Outcome::Invalid,
    }
}

/// Parses the line terminator and the optional YAML block of a test point.
fn tp_tail(
    s: &str,
    st: bool,
    num: Option<usize>,
    d: Option<String>,
    dir: Option<TestDirective>,
    p: usize,
) -> (r: Outcome<TestPoint>)
    requires
        p <= s@.len(),
    ensures
        r@ == spec_tp_tail(s@, st, num, d.deep_view(), dir.deep_view(), p as int),
{
    let n = s.unicode_len();
    if p == n {
        return Outcome::Incomplete;
    }
    if s.get_char(p) != '\n' {
        return Outcome::Invalid;
    }
    let q = p + 1;
    if q == n {
        return Outcome::Parsed(
            TestPoint { status: st, test_number: num, description: d, directive: dir, yaml: None },
            q,
        );
    }
    let rest = s.substring_char(q, n);
    proof {
        assert(rest@ =~= s@.skip(q as int));
    }
    match parse_yaml(rest) {
        Outcome::NoMatch => Outcome::Parsed(
            TestPoint { status: st, test_number: num, description: d, directive: dir, yaml: None },
            q,
        ),
        Outcome::Incomplete => Outcome::Incomplete,
        Outcome::Parsed(y, c) => {
            proof {
                lemma_yaml_consumed(rest@);
            }
            Outcome::Parsed(
                TestPoint {
                    status: st,
                    test_number: num,
                    description: d,
                    directive: dir,
                    yaml: Some(y),
                },
                q + c,
            )
        },
        Outcome::Invalid => Outcome::Invalid,
    }
}

pub proof fn lemma_status_consumed(s: Seq<char>)
    ensures
        match spec_status(s) {
            OutcomeV::Parsed(_, c) => 0 < c <= s.len(),
            _ => true,
        },
{
    reveal_strlit("not ok");
    reveal_strlit("ok");
}

pub proof fn lemma_number_consumed(s: Seq<char>)
    ensures
        match spec_test_number(s) {
            OutcomeV::Parsed(_, c) => 0 < c <= s.len(),
            _ => true,
        },
{
    if s.len() >= 2 && s[0] == ' ' && is_digit_char(s[1]) {
        lemma_digit_run_end_bounds(s, 1);
    }
}

pub proof fn lemma_desc_consumed(s: Seq<char>)
    ensures
        match spec_description(s) {
            OutcomeV::Parsed(_, c) => 0 < c < s.len(),
            _ => true,
        },
{
    if s.len() >= 2 && s[0] == ' ' && s[1] == '-' {
        lemma_first_desc_end_bounds(s, 2);
    } else if s.len() >= 2 && s[0] == ' ' {
        lemma_first_desc_end_bounds(s, 0);
    }
}

pub proof fn lemma_directive_consumed(s: Seq<char>)
    ensures
        match spec_directive(s) {
            OutcomeV::Parsed(_, c) => 0 < c < s.len(),
            _ => true,
        },
{
    reveal_strlit("todo");
    reveal_strlit("skip");
    if s.len() >= 2 && s[0] == ' ' && s[1] == '#' {
        let i = lws_run_end(s, 2);
        lemma_lws_run_end_bounds(s, 2);
        if kw_match(s, i, "todo"@) || kw_match(s, i, "skip"@) {
            assert(i + 4 <= s.len());
            let d = non_ws_run_end(s, i + 4);
            lemma_non_ws_run_end_bounds(s, i + 4);
            let sp = lws_run_end(s, d);
            lemma_lws_run_end_bounds(s, d);
            lemma_first_nl_bounds(s, sp);
        }
    }
}

pub proof fn lemma_yaml_consumed(s: Seq<char>)
    ensures
        match spec_yaml(s) {
            OutcomeV::Parsed(_, c) => 0 < c <= s.len(),
            _ => true,
        },
{
    if lit_matches(s, yaml_open()) {
        lemma_find_yaml_close_bounds(s, 6, 6);
    }
}

/// A parsed test point consumes at least its status and terminator, and
/// never more than the input it was given.
pub proof fn lemma_test_point_consumed(s: Seq<char>)
    ensures
        match spec_test_point(s) {
            OutcomeV::Parsed(_, c) => 0 < c <= s.len(),
            _ => true,
        },
{
    if let OutcomeV::Parsed(st, a) = spec_status(s) {
        lemma_number_consumed(s.skip(a));
        let p1 = match spec_test_number(s.skip(a)) {
            OutcomeV::Parsed(_, b) => a + b,
            _ => a,
        };
        lemma_desc_consumed(s.skip(p1));
        let p2 = match spec_description(s.skip(p1)) {
            OutcomeV::Parsed(_, c) => p1 + c,
            _ => p1,
        };
        lemma_directive_consumed(s.skip(p2));
        let p3 = match spec_directive(s.skip(p2)) {
            OutcomeV::Parsed(_, c) => p2 + c,
            _ => p2,
        };
        if p3 < s.len() && s[p3] == '\n' {
            lemma_yaml_consumed(s.skip(p3 + 1));
        }
    }
}

/// Parses as many consecutive test points as the input allows, at least
/// one: greedy repetition, stopping at the first unit that does not parse.
pub fn parse_test_points(s: &str) -> (r: Outcome<Vec<TestPoint>>)
    ensures
        r@ == spec_test_points(s@),
    decreases s@.len(),
{
    let n = s.unicode_len();
    match parse_test_point(s) {
        Outcome::Parsed(p, c) => {
            proof {
                lemma_test_point_consumed(s@);
            }
            let rest = s.substring_char(c, n);
            proof {
                assert(rest@ =~= s@.skip(c as int));
            }
            match parse_test_points(rest) {
                Outcome::Parsed(list, m) => {
                    proof {
                        lemma_test_points_consumed(rest@);
                        assert(m <= rest@.len());
                        assert(c + m <= n);
                    }
                    let mut out = list;
                    out.insert(0, p);
                    proof {
                        assert(out.deep_view() =~= seq![p.deep_view()] + list.deep_view());
                    }
                    Outcome::Parsed(out, c + m)
                },
                _ => {
                    let mut out: Vec<TestPoint> = Vec::new();
                    out.push(p);
                    proof {
                        assert(out.deep_view() =~= seq![p.deep_view()]);
                    }
                    Outcome::Parsed(out, c)
                },
            }
        },
        Outcome::Incomplete => Outcome::Incomplete,
        Outcome::NoMatch => Outcome::NoMatch,
        Outcome::Invalid => Outcome::Invalid,
    }
}

/// The image of greedy test-point repetition.
pub open spec fn spec_test_points(s: Seq<char>) -> OutcomeV<Seq<TestPointV>>
    decreases s.len(),
{
    match spec_test_point(s) {
        OutcomeV::Parsed(p, c) => {
            if 0 < c <= s.len() {
                match spec_test_points(s.skip(c)) {
                    OutcomeV::Parsed(list, m) => OutcomeV::Parsed(seq![p] + list, c + m),
                    _ => OutcomeV::Parsed(seq![p], c),
                }
            } else {
                OutcomeV::Parsed(seq![p], c)
            }
        },
        OutcomeV::Incomplete => OutcomeV::Incomplete,
        OutcomeV::NoMatch => OutcomeV::NoMatch,
        OutcomeV::Invalid => OutcomeV::Invalid,
    }
}

pub proof fn lemma_test_points_consumed(s: Seq<char>)
    ensures
        match spec_test_points(s) {
            OutcomeV::Parsed(_, c) => 0 < c <= s.len(),
            _ => true,
        },
    decreases s.len(),
{
    lemma_test_point_consumed(s);
    if let OutcomeV::Parsed(p, c) = spec_test_point(s) {
        if 0 < c <= s.len() {
            lemma_test_points_consumed(s.skip(c));
        }
    }
}

/// The exact protocol header line.
pub open spec fn spec_version(s: Seq<char>) -> OutcomeV<Seq<char>> {
    if lit_matches(s, "TAP Version 14\n"@) {
        OutcomeV::Parsed("TAP Version 14\n"@, "TAP Version 14\n"@.len() as int)
    } else if lit_partial(s, "TAP Version 14\n"@) {
        OutcomeV::Incomplete
    } else {
        OutcomeV::Invalid
    }
}

/// Parses the mandatory protocol header, `TAP Version 14`.
pub fn parse_version(s: &str) -> (r: Outcome<String>)
    ensures
        r@ == spec_version(s@),
{
    proof {
        reveal_strlit("TAP Version 14\n");
    }
    match lit_step(s, "TAP Version 14\n") {
        LitStep::Full => {
            let v = "TAP Version 14\n";
            Outcome::Parsed(v.to_owned(), 15)
        },
        LitStep::Partial => Outcome::Incomplete,
        LitStep::Mismatch => Outcome::Invalid,
    }
}

/// Scans the digit run starting at `from` and accumulates its value,
/// flagging a value that does not fit a `usize`.
fn scan_digits(s: &str, from: usize) -> (r: (usize, usize, bool))
    requires
        from <= s@.len(),
    ensures
        r.0 == digit_run_end(s@, from as int),
        from <= r.0 <= s@.len(),
        !r.2 ==> r.1 == digits_val(s@.subrange(from as int, r.0 as int)) && digits_val(
            s@.subrange(from as int, r.0 as int),
        ) <= usize::MAX,
        r.2 ==> digits_val(s@.subrange(from as int, r.0 as int)) > usize::MAX,
{
    let n = s.unicode_len();
    let mut i: usize = from;
    let mut val: usize = 0;
    let mut over = false;
    loop
        invariant
            n == s@.len(),
            from <= i <= n,
            forall|j: int| from <= j < i ==> is_digit_char(s@[j]),
            !over ==> val == digits_val(s@.subrange(from as int, i as int)),
            over ==> digits_val(s@.subrange(from as int, i as int)) > usize::MAX,
        decreases n - i,
    {
        if i == n {
            proof {
                lemma_digit_run_end(s@, from as int, i as int);
            }
            return (i, val, over);
        }
        let c = s.get_char(i);
        if !(48 <= c as u32 && c as u32 <= 57) {
            proof {
                lemma_digit_run_end(s@, from as int, i as int);
            }
            return (i, val, over);
        }
        let d = (c as u32 - 48) as usize;
        proof {
            assert(s@.subrange(from as int, i + 1 as int) =~= s@.subrange(
                from as int,
                i as int,
            ).push(s@[i as int]));
            assert(s@.subrange(from as int, i + 1 as int).drop_last() =~= s@.subrange(
                from as int,
                i as int,
            ));
            lemma_digits_val_nonneg(s@.subrange(from as int, i as int));
        }
        if over || val > (usize::MAX - d) / 10 {
            proof {
                if !over {
                    assert(val * 10 + d > usize::MAX) by (nonlinear_arith)
                        requires
                            val > (usize::MAX - d) / 10,
                            d <= 9,
                            val >= 0,
                    ;
                }
                if over {
                    assert(digits_val(s@.subrange(from as int, i as int)) * 10 + d > usize::MAX)
                        by (nonlinear_arith)
                        requires
                            digits_val(s@.subrange(from as int, i as int)) > usize::MAX,
                            d >= 0,
                    ;
                }
            }
            over = true;
        } else {
            proof {
                assert(val * 10 + d <= usize::MAX) by (nonlinear_arith)
                    requires
                        val <= (usize::MAX - d) / 10,
                        d <= 9,
                        val >= 0,
                ;
            }
            val = val * 10 + d;
        }
        i = i + 1;
    }
}

/// The plan line: `1..N`, then either a bare line terminator or ` # ` and a
/// non-empty reason running to the terminator.  A count that does not fit a
/// `usize` can never be represented and is invalid.
pub open spec fn spec_plan(s: Seq<char>) -> OutcomeV<usize> {
    if lit_matches(s, "1.."@) {
        if s.len() == 3 {
            OutcomeV::Incomplete
        } else if !is_digit_char(s[3]) {
            OutcomeV::Invalid
        } else {
            let e = digit_run_end(s, 3);
            if e >= s.len() {
                OutcomeV::Incomplete
            } else {
                let v = digits_val(s.subrange(3, e));
                if s[e] == '\n' {
                    if v <= usize::MAX {
                        OutcomeV::Parsed(v as usize, e + 1)
                    } else {
                        OutcomeV::Invalid
                    }
                } else if s[e] == ' ' {
                    spec_plan_reason(s, v, e)
                } else {
                    OutcomeV::Invalid
                }
            }
        }
    } else if lit_partial(s, "1.."@) {
        OutcomeV::Incomplete
    } else {
        OutcomeV::Invalid
    }
}

/// The ` # reason` tail of a plan line, after the count's digit run ends at
/// the space `e`.
pub open spec fn spec_plan_reason(s: Seq<char>, v: int, e: int) -> OutcomeV<usize> {
    if e + 1 >= s.len() {
        OutcomeV::Incomplete
    } else if s[e + 1] != '#' {
        OutcomeV::Invalid
    } else if e + 2 >= s.len() {
        OutcomeV::Incomplete
    } else if s[e + 2] != ' ' {
        OutcomeV::Invalid
    } else {
        match first_nl(s, e + 3) {
            None => OutcomeV::Incomplete,
            Some(f) => {
                if f == e + 3 {
                    OutcomeV::Invalid
                } else if v <= usize::MAX {
                    OutcomeV::Parsed(v as usize, f + 1)
                } else {
                    OutcomeV::Invalid
                }
            },
        }
    }
}

/// Parses the `1..N` plan line into its declared test count.
pub fn parse_plan(s: &str) -> (r: Outcome<crate::TestPlan>)
    ensures
        r@ == spec_plan(s@),
{
    proof {
        reveal_strlit("1..");
    }
    let n = s.unicode_len();
    match lit_step(s, "1..") {
        LitStep::Partial => {
            return Outcome::Incomplete;
        },
        LitStep::Mismatch => {
            return Outcome::Invalid;
        },
        LitStep::Full => {},
    }
    if n == 3 {
        return Outcome::Incomplete;
    }
    let c3 = s.get_char(3);
    if !(48 <= c3 as u32 && c3 as u32 <= 57) {
        return Outcome::Invalid;
    }
    let (e, val, over) = scan_digits(s, 3);
    if e == n {
        return Outcome::Incomplete;
    }
    let ce = s.get_char(e);
    if ce == '\n' {
        if over {
            return Outcome::Invalid;
        }
        return Outcome::Parsed(crate::TestPlan(val), e + 1);
    }
    if ce != ' ' {
        return Outcome::Invalid;
    }
    if e + 1 == n {
        return Outcome::Incomplete;
    }
    if s.get_char(e + 1) != '#' {
        return Outcome::Invalid;
    }
    if e + 2 == n {
        return Outcome::Incomplete;
    }
    if s.get_char(e + 2) != ' ' {
        return Outcome::Invalid;
    }
    match find_nl(s, e + 3) {
        None => Outcome::Incomplete,
        Some(f) => {
            if f == e + 3 {
                Outcome::Invalid
            } else if over {
                Outcome::Invalid
            } else {
                Outcome::Parsed(crate::TestPlan(val), f + 1)
            }
        },
    }
}

/// The bail-out line: `Bail out!`, free text to the terminator; empty text
/// is normalised to an absent reason.
pub open spec fn spec_bail_out(s: Seq<char>) -> OutcomeV<Option<Seq<char>>> {
    if lit_matches(s, "Bail out!"@) {
        match first_nl(s, 9) {
            None => OutcomeV::Incomplete,
            Some(e) => {
                let raw = s.subrange(9, e);
                if raw.len() == 0 {
                    OutcomeV::Parsed(None, e + 1)
                } else {
                    OutcomeV::Parsed(Some(raw), e + 1)
                }
            },
        }
    } else if lit_partial(s, "Bail out!"@) {
        OutcomeV::Incomplete
    } else {
        OutcomeV::Invalid
    }
}

/// Parses an out-of-band `Bail out!` line.
pub fn parse_bail_out(s: &str) -> (r: Outcome<Option<String>>)
    ensures
        r@ == spec_bail_out(s@),
{
    proof {
        reveal_strlit("Bail out!");
    }
    let n = s.unicode_len();
    match lit_step(s, "Bail out!") {
        LitStep::Partial => Outcome::Incomplete,
        LitStep::Mismatch => Outcome::Invalid,
        LitStep::Full => {
            match find_nl(s, 9) {
                None => Outcome::Incomplete,
                Some(e) => {
                    assert(e < n);
                    if e == 9 {
                        assert(s@.subrange(9, 9).len() == 0);
                        Outcome::Parsed(None, e + 1)
                    } else {
                        let raw = s.substring_char(9, e);
                        Outcome::Parsed(Some(raw.to_owned()), e + 1)
                    }
                },
            }
        },
    }
}

/// The comment line: optional leading linear whitespace, `#`, free text to
/// the terminator; empty text is normalised to absent.
pub open spec fn spec_comment(s: Seq<char>) -> OutcomeV<Option<Seq<char>>> {
    let i = lws_run_end(s, 0);
    if i >= s.len() {
        OutcomeV::Incomplete
    } else if s[i] != '#' {
        OutcomeV::Invalid
    } else {
        match first_nl(s, i + 1) {
            None => OutcomeV::Incomplete,
            Some(e) => {
                let raw = s.subrange(i + 1, e);
                if raw.len() == 0 {
                    OutcomeV::Parsed(None, e + 1)
                } else {
                    OutcomeV::Parsed(Some(raw), e + 1)
                }
            },
        }
    }
}

/// Parses a diagnostic comment line.
pub fn parse_comment(s: &str) -> (r: Outcome<Option<String>>)
    ensures
        r@ == spec_comment(s@),
{
    let n = s.unicode_len();
    let i = scan_lws(s, 0);
    if i == n {
        return Outcome::Incomplete;
    }
    if s.get_char(i) != '#' {
        return Outcome::Invalid;
    }
    match find_nl(s, i + 1) {
        None => Outcome::Incomplete,
        Some(e) => {
            if e == i + 1 {
                assert(s@.subrange(i + 1 as int, e as int).len() == 0);
                Outcome::Parsed(None, e + 1)
            } else {
                let raw = s.substring_char(i + 1, e);
                Outcome::Parsed(Some(raw.to_owned()), e + 1)
            }
        },
    }
}

/// The empty line: optional linear whitespace, then a bare terminator.
pub open spec fn spec_empty(s: Seq<char>) -> OutcomeV<()> {
    let i = lws_run_end(s, 0);
    if i >= s.len() {
        OutcomeV::Incomplete
    } else if s[i] == '\n' {
        OutcomeV::Parsed((), i + 1)
    } else {
        OutcomeV::Invalid
    }
}

/// Parses a blank or whitespace-only line.
pub fn parse_empty(s: &str) -> (r: Outcome<()>)
    ensures
        r@ == spec_empty(s@),
{
    let n = s.unicode_len();
    let i = scan_lws(s, 0);
    if i == n {
        return Outcome::Incomplete;
    }
    if s.get_char(i) == '\n' {
        Outcome::Parsed((), i + 1)
    } else {
        Outcome::Invalid
    }
}

/// The catch-all line: at least one character of free text, then the
/// terminator.
pub open spec fn spec_anything(s: Seq<char>) -> OutcomeV<Seq<char>> {
    match first_nl(s, 0) {
        None => OutcomeV::Incomplete,
        Some(e) => {
            if e == 0 {
                OutcomeV::Invalid
            } else {
                OutcomeV::Parsed(s.subrange(0, e), e + 1)
            }
        },
    }
}

/// Parses any other line as opaque text.
pub fn parse_anything(s: &str) -> (r: Outcome<String>)
    ensures
        r@ == spec_anything(s@),
{
    let n = s.unicode_len();
    match find_nl(s, 0) {
        None => Outcome::Incomplete,
        Some(e) => {
            assert(e < n);
            if e == 0 {
                Outcome::Invalid
            } else {
                let raw = s.substring_char(0, e);
                Outcome::Parsed(raw.to_owned(), e + 1)
            }
        },
    }
}

/// A character allowed in a pragma key: ASCII alphanumeric, `-` or `_`.
pub open spec fn is_key_char(c: char) -> bool {
    is_digit_char(c) || (97 <= c as u32 && c as u32 <= 122) || (65 <= c as u32 && c as u32 <= 90)
        || c == '-' || c == '_'
}

/// The first index `>= i` holding a character outside a pragma key.
pub open spec fn key_run_end(s: Seq<char>, i: int) -> int
    decreases s.len() - i,
{
    if i < 0 || i >= s.len() {
        i
    } else if is_key_char(s[i]) {
        key_run_end(s, i + 1)
    } else {
        i
    }
}

pub proof fn lemma_key_run_end(s: Seq<char>, a: int, b: int)
    requires
        0 <= a <= b <= s.len(),
        forall|j: int| a <= j < b ==> is_key_char(s[j]),
        b == s.len() || !is_key_char(s[b]),
    ensures
        key_run_end(s, a) == b,
    decreases b - a,
{
    if a < b {
        lemma_key_run_end(s, a + 1, b);
    }
}

/// The pragma line: `pragma `, a `+` or `-` switch, a key of alphanumeric,
/// `-` and `_` characters, then the terminator.
pub open spec fn spec_pragma(s: Seq<char>) -> OutcomeV<crate::PragmaV> {
    if lit_matches(s, "pragma "@) {
        if s.len() == 7 {
            OutcomeV::Incomplete
        } else if s[7] != '+' && s[7] != '-' {
            OutcomeV::Invalid
        } else {
            let k = key_run_end(s, 8);
            if k >= s.len() {
                OutcomeV::Incomplete
            } else if s[k] != '\n' {
                OutcomeV::Invalid
            } else {
                let key = s.subrange(8, k);
                if s[7] == '+' {
                    OutcomeV::Parsed(crate::PragmaV::Enable(key), k + 1)
                } else {
                    OutcomeV::Parsed(crate::PragmaV::Disable(key), k + 1)
                }
            }
        }
    } else if lit_partial(s, "pragma "@) {
        OutcomeV::Incomplete
    } else {
        OutcomeV::Invalid
    }
}

/// Parses a `pragma (+|-)key` switch line.
#[verifier::loop_isolation(false)]
pub fn parse_pragma(s: &str) -> (r: Outcome<crate::Pragma>)
    ensures
        r@ == spec_pragma(s@),
{
    proof {
        reveal_strlit("pragma ");
    }
    let n = s.unicode_len();
    match lit_step(s, "pragma ") {
        LitStep::Partial => {
            return Outcome::Incomplete;
        },
        LitStep::Mismatch => {
            return Outcome::Invalid;
        },
        LitStep::Full => {},
    }
    if n == 7 {
        return Outcome::Incomplete;
    }
    let sign = s.get_char(7);
    if sign != '+' && sign != '-' {
        return Outcome::Invalid;
    }
    let mut k: usize = 8;
    loop
        invariant
            n == s@.len(),
            8 <= k <= n,
            forall|j: int| 8 <= j < k ==> is_key_char(s@[j]),
        decreases n - k,
    {
        if k == n {
            proof {
                lemma_key_run_end(s@, 8, k as int);
            }
            return Outcome::Incomplete;
        }
        let c = s.get_char(k);
        let cu = c as u32;
        if 48 <= cu && cu <= 57 || 97 <= cu && cu <= 122 || 65 <= cu && cu <= 90 || c == '-' || c
            == '_' {
            k = k + 1;
        } else {
            proof {
                lemma_key_run_end(s@, 8, k as int);
            }
            if c != '\n' {
                return Outcome::Invalid;
            }
            let key = s.substring_char(8, k).to_owned();
            if sign == '+' {
                return Outcome::Parsed(crate::Pragma::Enable(key), k + 1);
            } else {
                return Outcome::Parsed(crate::Pragma::Disable(key), k + 1);
            }
        }
    }
}

/// The decimal digit `d` as a character.
pub open spec fn digit_char_of(d: int) -> char {
    if d == 0 {
        '0'
    } else if d == 1 {
        '1'
    } else if d == 2 {
        '2'
    } else if d == 3 {
        '3'
    } else if d == 4 {
        '4'
    } else if d == 5 {
        '5'
    } else if d == 6 {
        '6'
    } else if d == 7 {
        '7'
    } else if d == 8 {
        '8'
    } else {
        '9'
    }
}

/// The decimal digits of `v`, most significant first.
pub open spec fn digits_of(v: int) -> Seq<char>
    decreases v,
{
    if v < 10 {
        seq![digit_char_of(v)]
    } else {
        digits_of(v / 10).push(digit_char_of(v % 10))
    }
}

/// Renders a number as its decimal digits.
pub fn render_num(v: usize) -> (r: String)
    ensures
        r@ == digits_of(v as int),
    decreases v,
{
    proof {
        reveal_strlit("0");
        reveal_strlit("1");
        reveal_strlit("2");
        reveal_strlit("3");
        reveal_strlit("4");
        reveal_strlit("5");
        reveal_strlit("6");
        reveal_strlit("7");
        reveal_strlit("8");
        reveal_strlit("9");
    }
    if v < 10 {
        let s: &str = match v {
            0 => "0",
            1 => "1",
            2 => "2",
            3 => "3",
            4 => "4",
            5 => "5",
            6 => "6",
            7 => "7",
            8 => "8",
            _ => "9",
        };
        proof {
            assert(s@ =~= seq![digit_char_of(v as int)]);
        }
        s.to_owned()
    } else {
        let mut s = render_num(v / 10);
        let d: &str = match v % 10 {
            0 => "0",
            1 => "1",
            2 => "2",
            3 => "3",
            4 => "4",
            5 => "5",
            6 => "6",
            7 => "7",
            8 => "8",
            _ => "9",
        };
        s.append(d);
        proof {
            assert(s@ =~= digits_of(v as int));
        }
        s
    }
}

/// The rendering of a pass/fail status.
pub open spec fn status_txt(st: bool) -> Seq<char> {
    if st {
        "ok"@
    } else {
        "not ok"@
    }
}

/// The rendering of an optional test number.
pub open spec fn num_txt(n: Option<usize>) -> Seq<char> {
    match n {
        None => Seq::empty(),
        Some(v) => seq![' '] + digits_of(v as int),
    }
}

/// The rendering of an optional description.
pub open spec fn desc_txt(d: Option<Seq<char>>) -> Seq<char> {
    match d {
        None => Seq::empty(),
        Some(x) => " - "@ + x,
    }
}

/// The rendering of an optional directive reason.
pub open spec fn reason_txt(r: Option<Seq<char>>) -> Seq<char> {
    match r {
        None => Seq::empty(),
        Some(x) => seq![' '] + x,
    }
}

/// The rendering of an optional directive.
pub open spec fn dir_txt(d: Option<TestDirectiveV>) -> Seq<char> {
    match d {
        None => Seq::empty(),
        Some(TestDirectiveV::Todo(r)) => " # todo"@ + reason_txt(r),
        Some(TestDirectiveV::Skip(r)) => " # skip"@ + reason_txt(r),
    }
}

/// The rendering of an optional YAML block.
pub open spec fn yaml_txt(y: Option<Seq<char>>) -> Seq<char> {
    match y {
        None => Seq::empty(),
        Some(x) => yaml_open() + x + yaml_close(),
    }
}

/// The canonical rendering of a test point under the grammar.
pub open spec fn spec_render(p: TestPointV) -> Seq<char> {
    status_txt(p.status) + num_txt(p.test_number) + desc_txt(p.description) + dir_txt(p.directive)
        + seq!['\n'] + yaml_txt(p.yaml)
}

/// Serialises a test point in the canonical form the grammar accepts.
#[verifier::rlimit(100)]
pub fn render_test_point(p: &TestPoint) -> (r: String)
    ensures
        r@ == spec_render(p.deep_view()),
{
    let ghost pv = p.deep_view();
    proof {
        reveal_strlit(" ");
        reveal_strlit("\n");
    }
    let mut out: String = if p.status {
        "ok".to_owned()
    } else {
        "not ok".to_owned()
    };
    assert(out@ =~= status_txt(pv.status));
    match &p.test_number {
        None => {
            assert(out@ =~= status_txt(pv.status) + num_txt(pv.test_number));
        },
        Some(v) => {
            out.append(" ");
            let d = render_num(*v);
            out.append(d.as_str());
            assert(out@ =~= status_txt(pv.status) + num_txt(pv.test_number));
        },
    }
    let ghost pre_desc = out@;
    match &p.description {
        None => {
            assert(out@ =~= pre_desc + desc_txt(pv.description));
        },
        Some(d) => {
            out.append(" - ");
            out.append(d.as_str());
            assert(out@ =~= pre_desc + desc_txt(pv.description));
        },
    }
    let ghost pre_dir = out@;
    match &p.directive {
        None => {
            assert(out@ =~= pre_dir + dir_txt(pv.directive));
        },
        Some(TestDirective::Todo(r)) => {
            out.append(" # todo");
            match r {
                None => {},
                Some(x) => {
                    out.append(" ");
                    out.append(x.as_str());
                },
            }
            assert(out@ =~= pre_dir + dir_txt(pv.directive));
        },
        Some(TestDirective::Skip(r)) => {
            out.append(" # skip");
            match r {
                None => {},
                Some(x) => {
                    out.append(" ");
                    out.append(x.as_str());
                },
            }
            assert(out@ =~= pre_dir + dir_txt(pv.directive));
        },
    }
    out.append("\n");
    let ghost pre_yaml = out@;
    assert(pre_yaml =~= status_txt(pv.status) + num_txt(pv.test_number) + desc_txt(pv.description)
        + dir_txt(pv.directive) + seq!['\n']);
    match &p.yaml {
        None => {
            assert(out@ =~= pre_yaml + yaml_txt(pv.yaml));
        },
        Some(y) => {
            out.append("  ---\n");
            out.append(y.as_str());
            out.append("  ...\n");
            assert(out@ =~= pre_yaml + yaml_txt(pv.yaml));
        },
    }
    assert(out@ =~= spec_render(pv));
    out
}

/// One stream-level line of any recognised kind, tried in a fixed order:
/// test point, plan, bail-out, pragma, comment, empty line, then free text.
/// An incomplete attempt wins over later alternatives: until its terminator
/// arrives a prefix stays undecided.
pub open spec fn spec_details(s: Seq<char>) -> OutcomeV<crate::TestDetailsV> {
    match spec_test_point(s) {
        OutcomeV::Parsed(p, c) => OutcomeV::Parsed(crate::TestDetailsV::TestPoint(p), c),
        OutcomeV::Incomplete => OutcomeV::Incomplete,
        _ => match spec_plan(s) {
            OutcomeV::Parsed(v, c) => OutcomeV::Parsed(crate::TestDetailsV::TestPlan(v), c),
            OutcomeV::Incomplete => OutcomeV::Incomplete,
            _ => match spec_bail_out(s) {
                OutcomeV::Parsed(rsn, c) => OutcomeV::Parsed(
                    crate::TestDetailsV::BailOut(
                        match rsn {
                            Some(r) => r,
                            None => Seq::empty(),
                        },
                    ),
                    c,
                ),
                OutcomeV::Incomplete => OutcomeV::Incomplete,
                _ => match spec_pragma(s) {
                    OutcomeV::Parsed(p, c) => OutcomeV::Parsed(crate::TestDetailsV::Pragma(p), c),
                    OutcomeV::Incomplete => OutcomeV::Incomplete,
                    _ => match spec_comment(s) {
                        OutcomeV::Parsed(t, c) => OutcomeV::Parsed(
                            crate::TestDetailsV::Comment(
                                match t {
                                    Some(x) => x,
                                    None => Seq::empty(),
                                },
                            ),
                            c,
                        ),
                        OutcomeV::Incomplete => OutcomeV::Incomplete,
                        _ => match spec_empty(s) {
                            OutcomeV::Parsed(_, c) => OutcomeV::Parsed(
                                crate::TestDetailsV::Empty,
                                c,
                            ),
                            OutcomeV::Incomplete => OutcomeV::Incomplete,
                            _ => match spec_anything(s) {
                                OutcomeV::Parsed(t, c) => OutcomeV::Parsed(
                                    crate::TestDetailsV::Anything(t),
                                    c,
                                ),
                                OutcomeV::Incomplete => OutcomeV::Incomplete,
                                _ => OutcomeV::Invalid,
                            },
                        },
                    },
                },
            },
        },
    }
}

/// Parses one line of any recognised stream-level kind.
pub fn parse_details(s: &str) -> (r: Outcome<crate::TestDetails>)
    ensures
        r@ == spec_details(s@),
{
    match parse_test_point(s) {
        Outcome::Parsed(p, c) => {
            return Outcome::Parsed(crate::TestDetails::TestPoint(p), c);
        },
        Outcome::Incomplete => {
            return Outcome::Incomplete;
        },
        _ => {},
    }
    match parse_plan(s) {
        Outcome::Parsed(p, c) => {
            return Outcome::Parsed(crate::TestDetails::TestPlan(p), c);
        },
        Outcome::Incomplete => {
            return Outcome::Incomplete;
        },
        _ => {},
    }
    match parse_bail_out(s) {
        Outcome::Parsed(rsn, c) => {
            let text = match rsn {
                Some(r) => r,
                None => String::new(),
            };
            return Outcome::Parsed(crate::TestDetails::BailOut(crate::BailOut(text)), c);
        },
        Outcome::Incomplete => {
            return Outcome::Incomplete;
        },
        _ => {},
    }
    match parse_pragma(s) {
        Outcome::Parsed(p, c) => {
            return Outcome::Parsed(crate::TestDetails::Pragma(p), c);
        },
        Outcome::Incomplete => {
            return Outcome::Incomplete;
        },
        _ => {},
    }
    match parse_comment(s) {
        Outcome::Parsed(t, c) => {
            let text = match t {
                Some(x) => x,
                None => String::new(),
            };
            return Outcome::Parsed(crate::TestDetails::Comment(text), c);
        },
        Outcome::Incomplete => {
            return Outcome::Incomplete;
        },
        _ => {},
    }
    match parse_empty(s) {
        Outcome::Parsed(_, c) => {
            return Outcome::Parsed(crate::TestDetails::Empty, c);
        },
        Outcome::Incomplete => {
            return Outcome::Incomplete;
        },
        _ => {},
    }
    match parse_anything(s) {
        Outcome::Parsed(t, c) => Outcome::Parsed(crate::TestDetails::Anything(t), c),
        Outcome::Incomplete => Outcome::Incomplete,
        _ => Outcome::Invalid,
    }
}

} // verus!
