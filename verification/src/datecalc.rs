//! The date-expression language: its two checker forms, the parser that
//! builds them, and the matcher that evaluates them against single dates and
//! inclusive date ranges.

use crate::date::{
    day_of_year_of, lemma_day_number_bounds, lemma_day_number_injective, max_day_number,
    weekday_of, CalendarDate, MAX_YEAR,
};
use crate::months::{parse_month, resolve_month};
use crate::text::{
    contains_char, parse_u16, parse_u32, parses_as_uint, seq_contains_char, split_str, split_ws,
    uint_value,
};
use vstd::prelude::*;

verus! {

/// A constraint on one numeric field of a date: the wildcard, which any
/// value meets, or one exact value.
#[derive(Clone, Copy, PartialEq, Eq, Structural, Debug)]
pub enum NumberCheck {
    Any,
    Match(u32),
}

/// One conjunctive term: a single-letter variable with its required value.
#[derive(Clone, Copy, PartialEq, Eq, Structural, Debug)]
pub enum DateExpression {
    /// Monday-based day of the week, 1..=7.
    W(u16),
    /// Month number, 1..=12.
    M(u16),
    /// Day of the month.
    D(u16),
    /// Year.
    Y(u16),
    /// Week of the month: 1 for days 1..=7, 2 for days 8..=14, and so on.
    A(u16),
    /// Day of the year, 1 on the first of January.
    Z(u16),
}

/// The parsed, evaluable form of one calendar-line expression.
#[derive(Debug)]
pub enum DateChecker {
    /// A positional `year month day` pattern.
    Positional { year: NumberCheck, month: NumberCheck, day: NumberCheck },
    /// A conjunction of terms; the empty conjunction matches every date.
    Expr(Vec<DateExpression>),
}

/// The mathematical model of a [`DateChecker`].
pub enum CheckerModel {
    Positional { year: NumberCheck, month: NumberCheck, day: NumberCheck },
    Conjunctive(Seq<DateExpression>),
}

impl View for DateChecker {
    type V = CheckerModel;

    open spec fn view(&self) -> CheckerModel {
        match self {
            DateChecker::Positional { year, month, day } => CheckerModel::Positional {
                year: *year,
                month: *month,
                day: *day,
            },
            DateChecker::Expr(v) => CheckerModel::Conjunctive(v@),
        }
    }
}

/// Whether the field value `n` meets the constraint `nc`.
pub open spec fn number_matches(nc: NumberCheck, n: int) -> bool {
    match nc {
        NumberCheck::Any => true,
        NumberCheck::Match(v) => v == n,
    }
}

/// The week of the month a day number falls in: 1 for days 1..=7, 2 for
/// days 8..=14, and so on.
pub open spec fn week_of_month_of(day: int) -> int {
    (day - 1) / 7 + 1
}

/// Whether date `d` satisfies the term `t`.
pub open spec fn term_matches(t: DateExpression, d: CalendarDate) -> bool {
    match t {
        DateExpression::W(w) => w as int == weekday_of(d.year as int, d.month as int, d.day as int),
        DateExpression::M(m) => m as int == d.month as int,
        DateExpression::D(x) => x as int == d.day as int,
        DateExpression::Y(y) => y as int == d.year as int,
        DateExpression::A(a) => a as int == week_of_month_of(d.day as int),
        DateExpression::Z(z) => z as int == day_of_year_of(
            d.year as int,
            d.month as int,
            d.day as int,
        ),
    }
}

/// Whether date `d` satisfies every term of `ts`; the empty list is
/// satisfied by every date.
pub open spec fn terms_match(ts: Seq<DateExpression>, d: CalendarDate) -> bool {
    forall|i: int| 0 <= i < ts.len() ==> term_matches(ts[i], d)
}

/// Whether date `d` satisfies the checker `m`: a positional checker asks all
/// three field constraints, a conjunctive checker all of its terms.
pub open spec fn checker_matches(m: CheckerModel, d: CalendarDate) -> bool {
    match m {
        CheckerModel::Positional { year, month, day } => number_matches(year, d.year as int)
            && number_matches(month, d.month as int) && number_matches(day, d.day as int),
        CheckerModel::Conjunctive(ts) => terms_match(ts, d),
    }
}

impl NumberCheck {
    /// Evaluates the constraint on the field value `n`.
    pub fn check(&self, n: u32) -> (r: bool)
        ensures
            r == number_matches(*self, n as int),
    {
        match *self {
            NumberCheck::Match(i) => i == n,
            NumberCheck::Any => true,
        }
    }
}

impl DateExpression {
    /// Evaluates the term on the date `date`.
    pub fn check(&self, date: &CalendarDate) -> (r: bool)
        requires
            date.is_valid(),
        ensures
            r == term_matches(*self, *date),
    {
        match *self {
            DateExpression::W(w) => (w as u32) == date.weekday(),
            DateExpression::M(m) => (m as u32) == date.month(),
            DateExpression::D(d) => (d as u32) == date.day(),
            DateExpression::Y(y) => (y as i32) == date.year(),
            DateExpression::A(a) => (date.day() - 1) / 7 + 1 == (a as u32),
            DateExpression::Z(z) => date.ordinal() == (z as u32),
        }
    }
}

impl DateChecker {
    /// Evaluates the checker on one date.
    pub fn check_date(&self, date: &CalendarDate) -> (r: bool)
        requires
            date.is_valid(),
        ensures
            r == checker_matches(self@, *date),
    {
        match self {
            DateChecker::Positional { year, month, day } => {
                if !year.check(date.year() as u32) {
                    return false;
                }
                if !month.check(date.month()) {
                    return false;
                }
                if !day.check(date.day()) {
                    return false;
                }
                true
            },
            DateChecker::Expr(v) => {
                let mut i: usize = 0;
                while i < v.len()
                    invariant
                        i <= v@.len(),
                        date.is_valid(),
                        self@ == CheckerModel::Conjunctive(v@),
                        forall|k: int| 0 <= k < i ==> term_matches(v@[k], *date),
                    decreases v@.len() - i,
                {
                    if !v[i].check(date) {
                        proof {
                            if terms_match(v@, *date) {
                                assert(term_matches(v@[i as int], *date));
                            }
                        }
                        return false;
                    }
                    i = i + 1;
                }
                true
            },
        }
    }
}

/// A positional checker with three concrete field values matches exactly the
/// dates whose year, month and day are those values.
pub proof fn lemma_positional_exact(y: u32, m: u32, d: u32, date: CalendarDate)
    ensures
        checker_matches(
            CheckerModel::Positional {
                year: NumberCheck::Match(y),
                month: NumberCheck::Match(m),
                day: NumberCheck::Match(d),
            },
            date,
        ) <==> (date.year == y && date.month == m && date.day == d),
{
}

/// The wildcard frees a field: with `Any` in one position, the checker
/// matches exactly when the two other constraints hold, whatever that
/// field's value is.
pub proof fn lemma_wildcard_frees_field(
    year: NumberCheck,
    month: NumberCheck,
    day: NumberCheck,
    date: CalendarDate,
)
    ensures
        checker_matches(CheckerModel::Positional { year: NumberCheck::Any, month, day }, date)
            <==> (number_matches(month, date.month as int) && number_matches(day, date.day as int)),
        checker_matches(CheckerModel::Positional { year, month: NumberCheck::Any, day }, date)
            <==> (number_matches(year, date.year as int) && number_matches(day, date.day as int)),
        checker_matches(CheckerModel::Positional { year, month, day: NumberCheck::Any }, date)
            <==> (number_matches(year, date.year as int) && number_matches(
            month,
            date.month as int,
        )),
{
}

/// Conjunction is order-independent: two term lists made of the same terms
/// match exactly the same dates.
pub proof fn lemma_conjunction_commutative(
    ts1: Seq<DateExpression>,
    ts2: Seq<DateExpression>,
    d: CalendarDate,
)
    requires
        ts1.to_multiset() == ts2.to_multiset(),
    ensures
        checker_matches(CheckerModel::Conjunctive(ts1), d) == checker_matches(
            CheckerModel::Conjunctive(ts2),
            d,
        ),
{
    ts1.to_multiset_ensures();
    ts2.to_multiset_ensures();
    if terms_match(ts1, d) {
        assert forall|i: int| 0 <= i < ts2.len() implies term_matches(ts2[i], d) by {
            assert(ts2.contains(ts2[i]));
            assert(ts2.to_multiset().count(ts2[i]) > 0);
            assert(ts1.to_multiset().count(ts2[i]) > 0);
            assert(ts1.contains(ts2[i]));
            let k = choose|k: int| 0 <= k < ts1.len() && ts1[k] == ts2[i];
            assert(term_matches(ts1[k], d));
        }
    }
    if terms_match(ts2, d) {
        assert forall|i: int| 0 <= i < ts1.len() implies term_matches(ts1[i], d) by {
            assert(ts1.contains(ts1[i]));
            assert(ts1.to_multiset().count(ts1[i]) > 0);
            assert(ts2.to_multiset().count(ts1[i]) > 0);
            assert(ts2.contains(ts1[i]));
            let k = choose|k: int| 0 <= k < ts2.len() && ts2[k] == ts1[i];
            assert(term_matches(ts2[k], d));
        }
    }
}

/// `v` lists exactly the days from `first` to `last`, both included, in
/// ascending order.
pub open spec fn is_date_range(first: CalendarDate, last: CalendarDate, v: Seq<CalendarDate>) -> bool {
    &&& forall|i: int|
        0 <= i < v.len() ==> (#[trigger] v[i]).is_valid() && first.day_number() <= v[i].day_number()
            <= last.day_number()
    &&& forall|i: int, j: int| 0 <= i < j < v.len() ==> v[i].day_number() < v[j].day_number()
    &&& forall|d: CalendarDate|
        d.is_valid() && first.day_number() <= d.day_number() <= last.day_number()
            ==> #[trigger] v.contains(d)
}

/// `v` lists exactly the days from `first` to `last`, both included, that
/// satisfy the checker `m`, in ascending order.
pub open spec fn is_match_range_result(
    m: CheckerModel,
    first: CalendarDate,
    last: CalendarDate,
    v: Seq<CalendarDate>,
) -> bool {
    &&& forall|i: int|
        0 <= i < v.len() ==> (#[trigger] v[i]).is_valid() && checker_matches(m, v[i])
            && first.day_number() <= v[i].day_number() <= last.day_number()
    &&& forall|i: int, j: int| 0 <= i < j < v.len() ==> v[i].day_number() < v[j].day_number()
    &&& forall|d: CalendarDate|
        d.is_valid() && first.day_number() <= d.day_number() <= last.day_number()
            && checker_matches(m, d) ==> #[trigger] v.contains(d)
}

/// Over the one-day range `[d, d]`, a match list is `[d]` if the checker
/// matches `d`, and empty otherwise.
pub proof fn lemma_match_range_singleton(
    m: CheckerModel,
    d: CalendarDate,
    v: Seq<CalendarDate>,
)
    requires
        d.is_valid(),
        is_match_range_result(m, d, d, v),
    ensures
        v == if checker_matches(m, d) {
            seq![d]
        } else {
            Seq::<CalendarDate>::empty()
        },
{
    if checker_matches(m, d) {
        assert(v.contains(d));
        let i = choose|i: int| 0 <= i < v.len() && v[i] == d;
        if v.len() > 1 {
            let j: int = if i == 0 {
                1
            } else {
                0
            };
            lemma_day_number_injective(
                v[j].year as int,
                v[j].month as int,
                v[j].day as int,
                d.year as int,
                d.month as int,
                d.day as int,
            );
        }
        assert(v =~= seq![d]);
    } else {
        if v.len() > 0 {
            lemma_day_number_injective(
                v[0].year as int,
                v[0].month as int,
                v[0].day as int,
                d.year as int,
                d.month as int,
                d.day as int,
            );
            assert(v[0] == d);
        }
        assert(v =~= Seq::<CalendarDate>::empty());
    }
}

/// Enumerates the closed interval of days from `first` to `last`, in
/// ascending order; the result is empty when `first` is after `last`.
pub fn get_date_range(first: &CalendarDate, last: &CalendarDate) -> (v: Vec<CalendarDate>)
    requires
        first.is_valid(),
        last.is_valid(),
    ensures
        is_date_range(*first, *last, v@),
        first.day_number() <= last.day_number() ==> v@.len() == last.day_number()
            - first.day_number() + 1,
        first.day_number() > last.day_number() ==> v@.len() == 0,
{
    let n1 = first.num_days_from_ce();
    let n2 = last.num_days_from_ce();
    let mut v: Vec<CalendarDate> = Vec::new();
    if n2 < n1 {
        return v;
    }
    let total: u32 = n2 - n1 + 1;
    let mut cur: CalendarDate = *first;
    let mut i: u32 = 0;
    while i < total
        invariant
            i <= total,
            total == n2 - n1 + 1,
            n1 <= n2,
            n1 == first.day_number(),
            n2 == last.day_number(),
            last.is_valid(),
            i < total ==> cur.is_valid() && cur.day_number() == n1 + i,
            v@.len() == i,
            forall|k: int|
                0 <= k < i ==> (#[trigger] v@[k]).is_valid() && v@[k].day_number() == n1 + k,
        decreases total - i,
    {
        v.push(cur);
        if i + 1 < total {
            proof {
                lemma_day_number_bounds(last.year as int, last.month as int, last.day as int);
            }
            cur = cur.next_day();
        }
        i = i + 1;
    }
    proof {
        assert forall|d: CalendarDate|
            d.is_valid() && first.day_number() <= d.day_number() <= last.day_number() implies v@
            .contains(d) by {
            let k = d.day_number() - n1;
            assert(v@[k].day_number() == n1 + k);
            lemma_day_number_injective(
                v@[k].year as int,
                v@[k].month as int,
                v@[k].day as int,
                d.year as int,
                d.month as int,
                d.day as int,
            );
            assert(v@[k] == d);
        }
    }
    v
}

impl DateChecker {
    /// Evaluates the checker over every day from `first` to `last`, both
    /// included, and returns the matching days in ascending order.
    pub fn check_date_range(&self, first: &CalendarDate, last: &CalendarDate) -> (v: Vec<
        CalendarDate,
    >)
        requires
            first.is_valid(),
            last.is_valid(),
        ensures
            is_match_range_result(self@, *first, *last, v@),
    {
        let range = get_date_range(first, last);
        let mut v: Vec<CalendarDate> = Vec::new();
        let mut idx: usize = 0;
        while idx < range.len()
            invariant
                idx <= range@.len(),
                first.is_valid(),
                last.is_valid(),
                is_date_range(*first, *last, range@),
                forall|i: int|
                    0 <= i < v@.len() ==> (#[trigger] v@[i]).is_valid() && checker_matches(
                        self@,
                        v@[i],
                    ) && first.day_number() <= v@[i].day_number() <= last.day_number(),
                forall|i: int, j: int| 0 <= i < j < v@.len() ==> v@[i].day_number()
                    < v@[j].day_number(),
                forall|k: int|
                    0 <= k < idx && checker_matches(self@, #[trigger] range@[k]) ==> v@.contains(
                        range@[k],
                    ),
                v@.len() > 0 ==> idx > 0 && v@[v@.len() - 1].day_number() <= range@[idx
                    - 1].day_number(),
            decreases range@.len() - idx,
        {
            let d = range[idx];
            let ghost prev = v@;
            if self.check_date(&d) {
                v.push(d);
            }
            proof {
                assert forall|k: int|
                    0 <= k < idx + 1 && checker_matches(self@, #[trigger] range@[k]) implies v@
                    .contains(range@[k]) by {
                    if k < idx {
                        let t = choose|t: int| 0 <= t < prev.len() && prev[t] == range@[k];
                        assert(v@[t] == range@[k]);
                    } else {
                        assert(v@[v@.len() - 1] == range@[k]);
                    }
                }
            }
            idx = idx + 1;
        }
        proof {
            assert forall|d: CalendarDate|
                d.is_valid() && first.day_number() <= d.day_number() <= last.day_number()
                    && checker_matches(self@, d) implies v@.contains(d) by {
                assert(range@.contains(d));
                let k = choose|k: int| 0 <= k < range@.len() && range@[k] == d;
                assert(v@.contains(range@[k]));
            }
        }
        v
    }
}

/// What went wrong in a parse; decides the error message.
#[derive(Clone, Copy, PartialEq, Eq, Structural, Debug)]
pub enum ParseFault {
    Shape,
    Year,
    Month,
    Day,
}

/// What parsing an expression string yields: a checker, or a fault.
pub enum ParseOutcome {
    Parsed(CheckerModel),
    Failed(ParseFault),
}

/// The error message reported for each parse fault.
pub open spec fn fault_message(f: ParseFault) -> Seq<char> {
    match f {
        ParseFault::Shape => "Bad date expression"@,
        ParseFault::Year => "Bad year"@,
        ParseFault::Month => "Bad month"@,
        ParseFault::Day => "Bad day"@,
    }
}

/// A year or day token of a positional expression: a decimal number, or the
/// wildcard `*`.
pub open spec fn spec_number_expr(t: Seq<char>) -> Option<NumberCheck> {
    if parses_as_uint(t, u32::MAX as int) {
        Some(NumberCheck::Match(uint_value(t) as u32))
    } else if t.len() == 1 && t[0] == '*' {
        Some(NumberCheck::Any)
    } else {
        None
    }
}

/// A month token of a positional expression: a decimal number, or a month
/// name prefix; the wildcard is not accepted for the month.
pub open spec fn spec_month_expr(t: Seq<char>) -> Option<NumberCheck> {
    if parses_as_uint(t, u32::MAX as int) {
        Some(NumberCheck::Match(uint_value(t) as u32))
    } else if resolve_month(t) is Some {
        Some(NumberCheck::Match(resolve_month(t)->Some_0 as u32))
    } else {
        None
    }
}

/// The token holds exactly one `=`.
pub open spec fn has_one_eq(t: Seq<char>) -> bool {
    exists|i: int|
        0 <= i < t.len() && t[i] == '=' && (forall|j: int|
            0 <= j < t.len() && t[j] == '=' ==> j == i)
}

/// The position of the only `=` of the token.
pub open spec fn eq_pos(t: Seq<char>) -> int {
    choose|i: int|
        0 <= i < t.len() && t[i] == '=' && (forall|j: int|
            0 <= j < t.len() && t[j] == '=' ==> j == i)
}

/// One `key=value` term: a single-letter key, one `=`, and a value that the
/// key accepts. Values are read structurally; no range is checked, so a term
/// like `d=99` parses and simply never matches.
pub open spec fn spec_term(t: Seq<char>) -> Option<DateExpression> {
    if !has_one_eq(t) {
        None
    } else {
        let p = eq_pos(t);
        if p != 1 {
            None
        } else {
            let val = t.subrange(p + 1, t.len() as int);
            let k = t[0];
            let num_ok = parses_as_uint(val, u16::MAX as int);
            let num = uint_value(val) as u16;
            if k == 'w' {
                if num_ok {
                    Some(DateExpression::W(num))
                } else {
                    None
                }
            } else if k == 'm' {
                if num_ok {
                    Some(DateExpression::M(num))
                } else if resolve_month(val) is Some {
                    Some(DateExpression::M(resolve_month(val)->Some_0 as u16))
                } else {
                    None
                }
            } else if k == 'd' {
                if num_ok {
                    Some(DateExpression::D(num))
                } else {
                    None
                }
            } else if k == 'y' {
                if num_ok {
                    Some(DateExpression::Y(num))
                } else {
                    None
                }
            } else if k == 'a' {
                if num_ok {
                    Some(DateExpression::A(num))
                } else {
                    None
                }
            } else if k == 'z' {
                if num_ok {
                    Some(DateExpression::Z(num))
                } else {
                    None
                }
            } else {
                None
            }
        }
    }
}

/// The separator token of a conjunctive expression.
pub open spec fn is_amp_token(t: Seq<char>) -> bool {
    t.len() == 1 && t[0] == '&'
}

/// A well-formed conjunctive token list: an odd number of tokens that
/// alternate terms and `&` separators.
pub open spec fn conjunctive_ok(toks: Seq<Seq<char>>) -> bool {
    &&& toks.len() % 2 == 1
    &&& forall|i: int| 0 <= i < toks.len() && i % 2 == 0 ==> spec_term(#[trigger] toks[i]) is Some
    &&& forall|i: int| 0 <= i < toks.len() && i % 2 == 1 ==> is_amp_token(#[trigger] toks[i])
}

/// The terms of a well-formed conjunctive token list, in order.
pub open spec fn conjunctive_terms(toks: Seq<Seq<char>>) -> Seq<DateExpression> {
    Seq::new(((toks.len() + 1) / 2) as nat, |k: int| spec_term(toks[2 * k])->Some_0)
}

/// The outcome of the positional grammar on a token list: exactly three
/// tokens, read as year, month and day.
pub open spec fn spec_parse_positional(toks: Seq<Seq<char>>) -> ParseOutcome {
    if toks.len() != 3 {
        ParseOutcome::Failed(ParseFault::Shape)
    } else if spec_number_expr(toks[0]) is None {
        ParseOutcome::Failed(ParseFault::Year)
    } else if spec_month_expr(toks[1]) is None {
        ParseOutcome::Failed(ParseFault::Month)
    } else if spec_number_expr(toks[2]) is None {
        ParseOutcome::Failed(ParseFault::Day)
    } else {
        ParseOutcome::Parsed(
            CheckerModel::Positional {
                year: spec_number_expr(toks[0])->Some_0,
                month: spec_month_expr(toks[1])->Some_0,
                day: spec_number_expr(toks[2])->Some_0,
            },
        )
    }
}

/// The outcome of the conjunctive grammar on a token list.
pub open spec fn spec_parse_conjunctive(toks: Seq<Seq<char>>) -> ParseOutcome {
    if conjunctive_ok(toks) {
        ParseOutcome::Parsed(CheckerModel::Conjunctive(conjunctive_terms(toks)))
    } else {
        ParseOutcome::Failed(ParseFault::Shape)
    }
}

/// The grammar of date expressions. A text without `=` and without `&` is a
/// positional expression; any other text is a conjunctive expression. Tokens
/// are split on whitespace runs, so leading or trailing whitespace yields an
/// empty token that fails the grammar.
pub open spec fn spec_parse(s: Seq<char>) -> ParseOutcome {
    if !seq_contains_char(s, '=') && !seq_contains_char(s, '&') {
        spec_parse_positional(split_ws(s))
    } else {
        spec_parse_conjunctive(split_ws(s))
    }
}

/// Parses a year or day token, as [`spec_number_expr`] says.
pub fn parse_number_expression(s: &str) -> (r: Option<NumberCheck>)
    ensures
        r == spec_number_expr(s@),
{
    match parse_u32(s) {
        Some(v) => Some(NumberCheck::Match(v)),
        None => {
            if s.unicode_len() == 1 && s.get_char(0) == '*' {
                Some(NumberCheck::Any)
            } else {
                None
            }
        },
    }
}

/// Parses a positional month token, as [`spec_month_expr`] says.
pub fn parse_month_expression(s: &str) -> (r: Option<NumberCheck>)
    ensures
        r == spec_month_expr(s@),
{
    match parse_u32(s) {
        Some(v) => Some(NumberCheck::Match(v)),
        None => match parse_month(s) {
            Some(m) => Some(NumberCheck::Match(m as u32)),
            None => None,
        },
    }
}

/// Parses one `key=value` term, as [`spec_term`] says.
fn parse_term(t: &str) -> (r: Option<DateExpression>)
    ensures
        r == spec_term(t@),
{
    let n = t.unicode_len();
    let mut p: usize = 0;
    while p < n && t.get_char(p) != '='
        invariant
            p <= n,
            n == t@.len(),
            forall|k: int| 0 <= k < p ==> t@[k] != '=',
        decreases n - p,
    {
        p = p + 1;
    }
    if p == n {
        proof {
            if has_one_eq(t@) {
                let i = choose|i: int|
                    0 <= i < t@.len() && t@[i] == '=' && (forall|j: int|
                        0 <= j < t@.len() && t@[j] == '=' ==> j == i);
                assert(t@[i] != '=');
            }
        }
        return None;
    }
    let mut q: usize = p + 1;
    while q < n && t.get_char(q) != '='
        invariant
            p < q <= n,
            n == t@.len(),
            forall|k: int| p < k < q ==> t@[k] != '=',
        decreases n - q,
    {
        q = q + 1;
    }
    if q < n {
        proof {
            if has_one_eq(t@) {
                let i = choose|i: int|
                    0 <= i < t@.len() && t@[i] == '=' && (forall|j: int|
                        0 <= j < t@.len() && t@[j] == '=' ==> j == i);
                assert(t@[p as int] == '=');
                assert(t@[q as int] == '=');
            }
        }
        return None;
    }
    proof {
        assert(t@[p as int] == '=' && (forall|j: int|
            0 <= j < t@.len() && t@[j] == '=' ==> j == p as int));
        assert(has_one_eq(t@));
        let i = choose|i: int|
            0 <= i < t@.len() && t@[i] == '=' && (forall|j: int|
                0 <= j < t@.len() && t@[j] == '=' ==> j == i);
        assert(t@[i] == '=');
        assert(eq_pos(t@) == p as int);
    }
    if p != 1 {
        return None;
    }
    let key = t.get_char(0);
    let val = t.substring_char(2, n);
    proof {
        assert(val@ == t@.subrange(eq_pos(t@) + 1, t@.len() as int));
    }
    if key == 'w' {
        match parse_u16(val) {
            Some(v) => Some(DateExpression::W(v)),
            None => None,
        }
    } else if key == 'm' {
        match parse_u16(val) {
            Some(v) => Some(DateExpression::M(v)),
            None => match parse_month(val) {
                Some(m) => Some(DateExpression::M(m as u16)),
                None => None,
            },
        }
    } else if key == 'd' {
        match parse_u16(val) {
            Some(v) => Some(DateExpression::D(v)),
            None => None,
        }
    } else if key == 'y' {
        match parse_u16(val) {
            Some(v) => Some(DateExpression::Y(v)),
            None => None,
        }
    } else if key == 'a' {
        match parse_u16(val) {
            Some(v) => Some(DateExpression::A(v)),
            None => None,
        }
    } else if key == 'z' {
        match parse_u16(val) {
            Some(v) => Some(DateExpression::Z(v)),
            None => None,
        }
    } else {
        None
    }
}

impl DateChecker {
    /// Parses a date expression, as [`spec_parse`] says: a positional
    /// `year month day` pattern when the text has neither `=` nor `&`, and a
    /// conjunction of terms joined by `&` otherwise. On failure the error
    /// holds the message [`fault_message`] assigns.
    pub fn new(expr: &str) -> (r: Result<DateChecker, String>)
        ensures
            match spec_parse(expr@) {
                ParseOutcome::Parsed(m) => r matches Ok(c) && c@ == m,
                ParseOutcome::Failed(f) => r matches Err(e) && e@ == fault_message(f),
            },
    {
        let has_eq = contains_char(expr, '=');
        let has_amp = contains_char(expr, '&');
        let toks = split_str(expr);
        let ghost tv = split_ws(expr@);
        if !has_eq && !has_amp {
            if toks.len() != 3 {
                return Err(String::from_str("Bad date expression"));
            }
            proof {
                assert(toks@[0]@ == tv[0] && toks@[1]@ == tv[1] && toks@[2]@ == tv[2]);
            }
            let year = match parse_number_expression(toks[0].as_str()) {
                Some(nc) => nc,
                None => return Err(String::from_str("Bad year")),
            };
            let month = match parse_month_expression(toks[1].as_str()) {
                Some(nc) => nc,
                None => return Err(String::from_str("Bad month")),
            };
            let day = match parse_number_expression(toks[2].as_str()) {
                Some(nc) => nc,
                None => return Err(String::from_str("Bad day")),
            };
            Ok(DateChecker::Positional { year, month, day })
        } else {
            if toks.len() % 2 != 1 {
                return Err(String::from_str("Bad date expression"));
            }
            let mut v: Vec<DateExpression> = Vec::new();
            let nt = toks.len() / 2 + 1;
            let mut k: usize = 0;
            while k < nt
                invariant
                    k <= nt,
                    nt == toks@.len() / 2 + 1,
                    toks.deep_view() == tv,
                    tv.len() <= usize::MAX,
                    tv.len() % 2 == 1,
                    spec_parse(expr@) == spec_parse_conjunctive(tv),
                    v@.len() == k,
                    forall|j: int| 0 <= j < k ==> spec_term(#[trigger] tv[2 * j]) == Some(v@[j]),
                    forall|j: int|
                        0 <= j < k && 2 * j + 1 < tv.len() ==> is_amp_token(#[trigger] tv[2 * j + 1]),
                decreases nt - k,
            {
                proof {
                    assert(tv.len() == toks@.len());
                    vstd::arithmetic::div_mod::lemma_fundamental_div_mod(tv.len() as int, 2);
                    assert(2 * (k as int) <= tv.len());
                }
                let pos: usize = 2 * k;
                proof {
                    assert(toks@[pos as int]@ == tv[pos as int]);
                }
                match parse_term(toks[pos].as_str()) {
                    Some(term) => v.push(term),
                    None => {
                        proof {
                            assert(spec_term(tv[pos as int]) is None);
                        }
                        return Err(String::from_str("Bad date expression"));
                    },
                }
                if pos + 1 < toks.len() {
                    proof {
                        assert(toks@[pos + 1]@ == tv[pos + 1]);
                    }
                    let sep = toks[pos + 1].as_str();
                    if !(sep.unicode_len() == 1 && sep.get_char(0) == '&') {
                        proof {
                            assert(!is_amp_token(tv[pos + 1]));
                        }
                        return Err(String::from_str("Bad date expression"));
                    }
                }
                k = k + 1;
            }
            proof {
                assert forall|j: int| 0 <= j < tv.len() && j % 2 == 0 implies spec_term(
                    #[trigger] tv[j],
                ) is Some by {
                    let q = j / 2;
                    assert(j == 2 * q);
                    assert(spec_term(tv[2 * q]) == Some(v@[q]));
                }
                assert forall|j: int| 0 <= j < tv.len() && j % 2 == 1 implies is_amp_token(
                    #[trigger] tv[j],
                ) by {
                    let q = (j - 1) / 2;
                    assert(j == 2 * q + 1);
                    assert(is_amp_token(tv[2 * q + 1]));
                }
                assert(conjunctive_ok(tv));
                assert forall|q: int| 0 <= q < v@.len() implies conjunctive_terms(tv)[q] == v@[q] by {
                    assert(spec_term(tv[2 * q]) == Some(v@[q]));
                }
                assert(conjunctive_terms(tv) =~= v@);
            }
            Ok(DateChecker::Expr(v))
        }
    }
}

/// The date a literal like `2021 Jan 9` denotes: three whitespace-separated
/// tokens, a year number, a month name prefix or number, and a day number,
/// together naming a real day of a supported year.
pub open spec fn spec_parse_date(s: Seq<char>) -> Option<CalendarDate> {
    let toks = split_ws(s);
    if toks.len() != 3 {
        None
    } else if !parses_as_uint(toks[0], u32::MAX as int) {
        None
    } else {
        let mo = if parses_as_uint(toks[1], u32::MAX as int) {
            Some(uint_value(toks[1]))
        } else if resolve_month(toks[1]) is Some {
            Some(resolve_month(toks[1])->Some_0)
        } else {
            None
        };
        if mo is None {
            None
        } else if !parses_as_uint(toks[2], u32::MAX as int) {
            None
        } else {
            let y = uint_value(toks[0]);
            let m = mo->Some_0;
            let d = uint_value(toks[2]);
            if crate::date::valid_ymd(y, m, d) {
                Some(CalendarDate { year: y as i32, month: m as u32, day: d as u32 })
            } else {
                None
            }
        }
    }
}

/// Parses a date literal, as [`spec_parse_date`] says; the result, when
/// there is one, is a valid calendar date.
pub fn parse_date(s: &str) -> (r: Option<CalendarDate>)
    ensures
        r == spec_parse_date(s@),
        r matches Some(d) ==> d.is_valid(),
{
    let toks = split_str(s);
    let ghost tv = split_ws(s@);
    if toks.len() != 3 {
        return None;
    }
    proof {
        assert(toks@[0]@ == tv[0] && toks@[1]@ == tv[1] && toks@[2]@ == tv[2]);
    }
    let y = match parse_u32(toks[0].as_str()) {
        Some(v) => v,
        None => return None,
    };
    let m: u32 = match parse_u32(toks[1].as_str()) {
        Some(v) => v,
        None => match parse_month(toks[1].as_str()) {
            Some(mm) => mm as u32,
            None => return None,
        },
    };
    let d = match parse_u32(toks[2].as_str()) {
        Some(v) => v,
        None => return None,
    };
    if y > MAX_YEAR as u32 {
        return None;
    }
    CalendarDate::new(y as i32, m, d)
}

} // verus!
