//! Parsing of dice expressions. An expression is a sequence of terms
//! separated by `+` or `-` (a `-` negates the term it introduces). A term is
//! either `<count>d<sides>` (the count defaults to 1 when it cannot be read)
//! or a bare integer added to the flat modifier; whitespace around terms is
//! insignificant. A term that names a die with `d` but no readable side count
//! is an error; a bare term that is not a number is ignored.

use vstd::prelude::*;
use crate::dice::pool::{AdvantageType, Dice, DicePool};

verus! {

pub open spec fn is_space(c: char) -> bool {
    c == ' ' || c == '\t' || c == '\n' || c == '\r'
}

pub open spec fn is_bound_char(c: char) -> bool {
    c == '+' || c == '-'
}

pub open spec fn is_digit(c: char) -> bool {
    '0' <= c && c <= '9'
}

pub open spec fn digit_val(c: char) -> int {
    if c == '0' {
        0
    } else if c == '1' {
        1
    } else if c == '2' {
        2
    } else if c == '3' {
        3
    } else if c == '4' {
        4
    } else if c == '5' {
        5
    } else if c == '6' {
        6
    } else if c == '7' {
        7
    } else if c == '8' {
        8
    } else {
        9
    }
}

/// The value of a digit sequence read in base ten.
pub open spec fn digits_val(s: Seq<char>) -> int
    decreases s.len(),
{
    if s.len() == 0 {
        0
    } else {
        digits_val(s.drop_last()) * 10 + digit_val(s.last())
    }
}

pub open spec fn all_digits(s: Seq<char>) -> bool {
    forall|i: int| 0 <= i < s.len() ==> is_digit(#[trigger] s[i])
}

/// A nonempty digit sequence whose value is at most `cap` reads as a number;
/// anything else does not.
pub open spec fn parse_num(s: Seq<char>, cap: int) -> Option<int> {
    if s.len() >= 1 && all_digits(s) && digits_val(s) <= cap {
        Some(digits_val(s))
    } else {
        None
    }
}

pub open spec fn trim_front(s: Seq<char>) -> Seq<char>
    decreases s.len(),
{
    if s.len() > 0 && is_space(s[0]) {
        trim_front(s.skip(1))
    } else {
        s
    }
}

pub open spec fn trim_back(s: Seq<char>) -> Seq<char>
    decreases s.len(),
{
    if s.len() > 0 && is_space(s.last()) {
        trim_back(s.drop_last())
    } else {
        s
    }
}

/// The sequence with leading and trailing whitespace removed.
pub open spec fn trim_spec(s: Seq<char>) -> Seq<char> {
    trim_back(trim_front(s))
}

/// The index of the first `+` or `-`, or the length when there is none.
pub open spec fn next_bound(s: Seq<char>) -> int
    decreases s.len(),
{
    if s.len() == 0 {
        0
    } else if is_bound_char(s[0]) {
        0
    } else {
        1 + next_bound(s.skip(1))
    }
}

/// The index of the first `d`, or the length when there is none.
pub open spec fn idx_of_d(s: Seq<char>) -> int
    decreases s.len(),
{
    if s.len() == 0 {
        0
    } else if s[0] == 'd' {
        0
    } else {
        1 + idx_of_d(s.skip(1))
    }
}

/// What one trimmed term contributes to the pool being built.
#[derive(Clone, Copy, Debug, PartialEq, Eq, Structural)]
pub enum TermStep {
    /// An empty or unreadable bare term: contributes nothing.
    Skip,
    /// A die group.
    Group(Dice),
    /// An integer added to the flat modifier.
    Flat(i64),
    /// A term with a `d` whose side count cannot be read: the expression is
    /// rejected.
    Bad,
}

/// Addition on the modifier accumulator, clamped at the machine bounds.
pub open spec fn sat_add_i64(a: int, b: int) -> int {
    if a + b > i64::MAX {
        i64::MAX as int
    } else if a + b < i64::MIN {
        i64::MIN as int
    } else {
        a + b
    }
}

/// Reads one trimmed term. `neg` says whether the term was introduced by a
/// `-`.
pub open spec fn eval_term(t: Seq<char>, neg: bool) -> TermStep {
    if t.len() == 0 {
        TermStep::Skip
    } else if idx_of_d(t) < t.len() {
        let k = idx_of_d(t);
        let pre = t.take(k);
        let rest = t.skip(k + 1);
        let post = rest.take(idx_of_d(rest));
        let count = match parse_num(pre, u64::MAX as int) {
            Some(c) => c,
            None => 1,
        };
        match parse_num(post, u64::MAX as int) {
            Some(sides) => TermStep::Group(
                Dice { sides: sides as u64, count: count as u64, negative: neg },
            ),
            None => TermStep::Bad,
        }
    } else {
        match parse_num(t, i64::MAX as int) {
            Some(v) => TermStep::Flat(
                if neg {
                    (-v) as i64
                } else {
                    v as i64
                },
            ),
            None => TermStep::Skip,
        }
    }
}

/// Folds one term into the accumulated die groups and modifier.
pub open spec fn apply_term(dice: Seq<Dice>, m: int, step: TermStep) -> Option<(Seq<Dice>, int)> {
    match step {
        TermStep::Skip => Some((dice, m)),
        TermStep::Group(d) => Some((dice.push(d), m)),
        TermStep::Flat(v) => Some((dice, sat_add_i64(m, v as int))),
        TermStep::Bad => None,
    }
}

/// The first `+` or `-` comes no later than the end, and nothing before it
/// is a separator.
pub proof fn lemma_next_bound(s: Seq<char>)
    ensures
        0 <= next_bound(s) <= s.len(),
        forall|i: int| 0 <= i < next_bound(s) ==> !is_bound_char(#[trigger] s[i]),
        next_bound(s) < s.len() ==> is_bound_char(s[next_bound(s)]),
    decreases s.len(),
{
    if s.len() > 0 && !is_bound_char(s[0]) {
        lemma_next_bound(s.skip(1));
        assert forall|i: int| 0 <= i < next_bound(s) implies !is_bound_char(#[trigger] s[i]) by {
            if i > 0 {
                assert(s[i] == s.skip(1)[i - 1]);
            }
        }
        if next_bound(s) < s.len() {
            assert(s[next_bound(s)] == s.skip(1)[next_bound(s.skip(1))]);
        }
    }
}

/// Parses the remaining expression: reads the term up to the next `+` or
/// `-`, folds it in, and continues after the separator.
pub open spec fn parse_rest(s: Seq<char>, neg: bool, dice: Seq<Dice>, m: int) -> Option<
    (Seq<Dice>, int),
>
    decreases s.len(),
    via parse_rest_dec
{
    let jr = next_bound(s);
    let j = if jr < s.len() {
        jr
    } else {
        s.len() as int
    };
    let t = trim_spec(s.take(j));
    match apply_term(dice, m, eval_term(t, neg)) {
        Option::None => Option::None,
        Option::Some(acc) => if jr >= s.len() {
            Option::Some(acc)
        } else {
            parse_rest(s.skip(j + 1), s[j] == '-', acc.0, acc.1)
        },
    }
}

#[via_fn]
proof fn parse_rest_dec(s: Seq<char>, neg: bool, dice: Seq<Dice>, m: int) {
    lemma_next_bound(s);
}

/// The die groups and flat modifier a dice expression denotes, or nothing
/// when the expression is rejected.
pub open spec fn parse_spec(s: Seq<char>) -> Option<(Seq<Dice>, int)> {
    parse_rest(s, false, Seq::<Dice>::empty(), 0)
}

/// The first `d` comes no later than the end, and nothing before it is a
/// `d`.
pub proof fn lemma_idx_of_d(s: Seq<char>)
    ensures
        0 <= idx_of_d(s) <= s.len(),
        forall|i: int| 0 <= i < idx_of_d(s) ==> #[trigger] s[i] != 'd',
        idx_of_d(s) < s.len() ==> s[idx_of_d(s)] == 'd',
    decreases s.len(),
{
    if s.len() > 0 && s[0] != 'd' {
        lemma_idx_of_d(s.skip(1));
        assert forall|i: int| 0 <= i < idx_of_d(s) implies #[trigger] s[i] != 'd' by {
            if i > 0 {
                assert(s[i] == s.skip(1)[i - 1]);
            }
        }
        if idx_of_d(s) < s.len() {
            assert(s[idx_of_d(s)] == s.skip(1)[idx_of_d(s.skip(1))]);
        }
    }
}

proof fn lemma_trim_front_at(s: Seq<char>, a: int)
    requires
        0 <= a <= s.len(),
        forall|i: int| 0 <= i < a ==> is_space(#[trigger] s[i]),
        a < s.len() ==> !is_space(s[a]),
    ensures
        trim_front(s) == s.skip(a),
    decreases s.len(),
{
    if a == 0 {
        assert(s.skip(0) =~= s);
    } else {
        assert(is_space(s[0]));
        lemma_trim_front_at(s.skip(1), a - 1);
        assert(s.skip(1).skip(a - 1) =~= s.skip(a));
    }
}

proof fn lemma_trim_back_at(s: Seq<char>, b: int)
    requires
        0 <= b <= s.len(),
        forall|i: int| b <= i < s.len() ==> is_space(#[trigger] s[i]),
        b > 0 ==> !is_space(s[b - 1]),
    ensures
        trim_back(s) == s.take(b),
    decreases s.len(),
{
    if b == s.len() {
        assert(s.take(b) =~= s);
    } else {
        assert(is_space(s.last()));
        lemma_trim_back_at(s.drop_last(), b);
        assert(s.drop_last().take(b) =~= s.take(b));
    }
}

/// Trimming keeps exactly the span `[a, b)` when everything outside it is
/// whitespace and its edges are not.
pub proof fn lemma_trim_range(s: Seq<char>, a: int, b: int)
    requires
        0 <= a <= b <= s.len(),
        forall|i: int| 0 <= i < a ==> is_space(#[trigger] s[i]),
        forall|i: int| b <= i < s.len() ==> is_space(#[trigger] s[i]),
        a < b ==> !is_space(s[a]) && !is_space(s[b - 1]),
    ensures
        trim_spec(s) == s.subrange(a, b),
{
    if a == b {
        lemma_trim_front_at(s, s.len() as int);
        assert(s.skip(s.len() as int) =~= Seq::<char>::empty());
        assert(trim_back(Seq::<char>::empty()) == Seq::<char>::empty());
        assert(s.subrange(a, b) =~= Seq::<char>::empty());
    } else {
        lemma_trim_front_at(s, a);
        let u = s.skip(a);
        assert forall|i: int| b - a <= i < u.len() implies is_space(#[trigger] u[i]) by {
            assert(u[i] == s[i + a]);
        }
        assert(!is_space(u[b - a - 1]));
        lemma_trim_back_at(u, b - a);
        assert(u.take(b - a) =~= s.subrange(a, b));
    }
}

pub proof fn lemma_digits_take_succ(s: Seq<char>, k: int)
    requires
        0 <= k < s.len(),
    ensures
        digits_val(s.take(k + 1)) == digits_val(s.take(k)) * 10 + digit_val(s[k]),
{
    assert(s.take(k + 1).drop_last() =~= s.take(k));
    assert(s.take(k + 1).last() == s[k]);
}

pub proof fn lemma_digits_nonneg(s: Seq<char>)
    ensures
        digits_val(s) >= 0,
    decreases s.len(),
{
    if s.len() > 0 {
        lemma_digits_nonneg(s.drop_last());
    }
}

/// Reading more digits never shrinks the value.
proof fn lemma_digits_mono(s: Seq<char>, k: int)
    requires
        0 <= k <= s.len(),
    ensures
        digits_val(s.take(k)) <= digits_val(s),
    decreases s.len() - k,
{
    if k == s.len() {
        assert(s.take(k) =~= s);
    } else {
        lemma_digits_take_succ(s, k);
        lemma_digits_nonneg(s.take(k));
        lemma_digits_mono(s, k + 1);
    }
}

fn is_space_exec(c: char) -> (r: bool)
    ensures
        r == is_space(c),
{
    c == ' ' || c == '\t' || c == '\n' || c == '\r'
}

fn is_bound_exec(c: char) -> (r: bool)
    ensures
        r == is_bound_char(c),
{
    c == '+' || c == '-'
}

fn digit_exec(c: char) -> (r: Option<u64>)
    ensures
        r is Some <==> is_digit(c),
        r is Some ==> r.unwrap() as int == digit_val(c),
{
    if c == '0' {
        Some(0)
    } else if c == '1' {
        Some(1)
    } else if c == '2' {
        Some(2)
    } else if c == '3' {
        Some(3)
    } else if c == '4' {
        Some(4)
    } else if c == '5' {
        Some(5)
    } else if c == '6' {
        Some(6)
    } else if c == '7' {
        Some(7)
    } else if c == '8' {
        Some(8)
    } else if c == '9' {
        Some(9)
    } else {
        None
    }
}

/// Reads the digits in `s[a..b)` as a number, `None` when the span is empty,
/// holds a non-digit, or exceeds `cap`.
fn parse_num_range(s: &str, n: usize, a: usize, b: usize, cap: u64) -> (r: Option<u64>)
    requires
        s@.len() == n,
        a <= b <= n,
        cap >= 9,
    ensures
        (match parse_num(s@.subrange(a as int, b as int), cap as int) {
            Option::Some(v) => r == Option::<u64>::Some(v as u64),
            Option::None => r is None,
        }),
{
    let ghost t = s@.subrange(a as int, b as int);
    if a == b {
        return None;
    }
    let mut v: u64 = 0;
    let mut k: usize = a;
    while k < b
        invariant
            s@.len() == n,
            a <= k <= b <= n,
            b > a,
            t == s@.subrange(a as int, b as int),
            v as int == digits_val(t.take(k as int - a as int)),
            v <= cap,
            cap >= 9,
            forall|i: int| 0 <= i < k - a ==> is_digit(#[trigger] t[i]),
        decreases b - k,
    {
        let c = s.get_char(k);
        proof {
            assert(t[k as int - a as int] == s@[k as int]);
        }
        let dv = match digit_exec(c) {
            Some(dv) => dv,
            None => {
                proof {
                    assert(!is_digit(t[k as int - a as int]));
                }
                return None;
            },
        };
        proof {
            lemma_digits_take_succ(t, k as int - a as int);
            lemma_digits_nonneg(t.take(k as int - a as int));
            assert(dv <= 9);
        }
        if v > (cap - dv) / 10 {
            proof {
                let q = (cap - dv) as int / 10;
                assert(v as int * 10 >= (q + 1) * 10) by (nonlinear_arith)
                    requires
                        v as int >= q + 1,
                ;
                assert((q + 1) * 10 + dv > cap as int);
                assert(digits_val(t.take(k as int - a as int + 1)) > cap as int);
                lemma_digits_mono(t, k as int - a as int + 1);
            }
            return None;
        }
        proof {
            let q = (cap - dv) as int / 10;
            assert(v as int * 10 <= q * 10) by (nonlinear_arith)
                requires
                    v as int <= q,
            ;
            assert(q * 10 <= cap as int - dv as int);
        }
        v = v * 10 + dv;
        k = k + 1;
    }
    proof {
        assert(t.take(k as int - a as int) =~= t);
        assert(all_digits(t));
    }
    Some(v)
}

/// Finds the first `d` in `s[from..to)`, or `to` when there is none, and
/// relates it to `idx_of_d` of that span.
fn scan_d(s: &str, n: usize, from: usize, to: usize) -> (k: usize)
    requires
        s@.len() == n,
        from <= to <= n,
    ensures
        from <= k <= to,
        idx_of_d(s@.subrange(from as int, to as int)) == k - from,
        k < to ==> s@[k as int] == 'd',
{
    let ghost t = s@.subrange(from as int, to as int);
    let mut k: usize = from;
    while k < to && s.get_char(k) != 'd'
        invariant
            s@.len() == n,
            from <= k <= to <= n,
            t == s@.subrange(from as int, to as int),
            forall|i: int| 0 <= i < k - from ==> #[trigger] t[i] != 'd',
        decreases to - k,
    {
        proof {
            assert(t[k as int - from as int] == s@[k as int]);
        }
        k = k + 1;
    }
    proof {
        lemma_idx_of_d(t);
        if k < to {
            assert(t[k as int - from as int] == s@[k as int]);
            if idx_of_d(t) < k - from {
                assert(t[idx_of_d(t)] != 'd');
                assert(false);
            }
            if idx_of_d(t) > k - from {
                assert(t[k as int - from as int] != 'd');
                assert(false);
            }
        } else {
            if idx_of_d(t) < t.len() {
                assert(t[idx_of_d(t)] != 'd');
                assert(false);
            }
        }
    }
    k
}

/// Reads the trimmed term `s[a..b)`, introduced by a minus sign when `neg`.
fn eval_term_exec(s: &str, n: usize, a: usize, b: usize, neg: bool) -> (st: TermStep)
    requires
        s@.len() == n,
        a <= b <= n,
    ensures
        st == eval_term(s@.subrange(a as int, b as int), neg),
{
    let ghost t = s@.subrange(a as int, b as int);
    if a == b {
        return TermStep::Skip;
    }
    let k = scan_d(s, n, a, b);
    if k < b {
        proof {
            assert(t.take(k as int - a as int) =~= s@.subrange(a as int, k as int));
        }
        let count: u64 = match parse_num_range(s, n, a, k, u64::MAX) {
            Some(c) => c,
            None => 1,
        };
        let k2 = scan_d(s, n, k + 1, b);
        proof {
            assert(t.skip(k as int - a as int + 1) =~= s@.subrange(k as int + 1, b as int));
            assert(s@.subrange(k as int + 1, b as int).take(k2 as int - (k as int + 1)) =~= s@
                .subrange(k as int + 1, k2 as int));
        }
        match parse_num_range(s, n, k + 1, k2, u64::MAX) {
            Some(sides) => TermStep::Group(Dice { sides, count, negative: neg }),
            None => TermStep::Bad,
        }
    } else {
        proof {
            assert(i64::MAX as u64 >= 9);
            lemma_digits_nonneg(t);
        }
        match parse_num_range(s, n, a, b, i64::MAX as u64) {
            Some(v) => {
                let sv = v as i64;
                if neg {
                    TermStep::Flat(-sv)
                } else {
                    TermStep::Flat(sv)
                }
            },
            None => TermStep::Skip,
        }
    }
}

/// Adds with clamping at the machine bounds.
fn sat_add_exec(a: i64, b: i64) -> (r: i64)
    ensures
        r as int == sat_add_i64(a as int, b as int),
{
    if b >= 0 {
        if a > i64::MAX - b {
            i64::MAX
        } else {
            a + b
        }
    } else {
        if a < i64::MIN - b {
            i64::MIN
        } else {
            a + b
        }
    }
}

impl DicePool {
    /// Parses a dice expression. Exactly the well-formed expressions parse:
    /// the result is rejected if and only if some term carries a `d` with no
    /// readable side count.
    pub fn from_str(s: &str) -> (r: Result<DicePool, String>)
        ensures
            parse_spec(s@) is Some ==> (r matches Ok(p) && p.dice@ == parse_spec(s@).unwrap().0
                && p.modifier as int == parse_spec(s@).unwrap().1 && p.advantage_type is Neutral),
            parse_spec(s@) is None ==> (r matches Err(e) && e@ == "Invalid dice format"@),
    {
        let n = s.unicode_len();
        let mut dice: Vec<Dice> = Vec::new();
        let mut modifier: i64 = 0;
        let mut neg: bool = false;
        let mut pos: usize = 0;
        proof {
            assert(s@.skip(0) =~= s@);
        }
        loop
            invariant
                s@.len() == n,
                pos <= n,
                parse_rest(s@.skip(pos as int), neg, dice@, modifier as int) == parse_spec(s@),
            decreases n - pos,
        {
            let ghost suffix = s@.skip(pos as int);
            let mut j: usize = pos;
            while j < n && !is_bound_exec(s.get_char(j))
                invariant
                    s@.len() == n,
                    pos <= j <= n,
                    forall|i: int| pos <= i < j ==> !is_bound_char(#[trigger] s@[i]),
                decreases n - j,
            {
                j = j + 1;
            }
            proof {
                lemma_next_bound(suffix);
                assert forall|i: int| 0 <= i < j - pos implies !is_bound_char(
                    #[trigger] suffix[i],
                ) by {
                    assert(suffix[i] == s@[i + pos]);
                }
                let nb = next_bound(suffix);
                if nb < j - pos {
                    assert(is_bound_char(suffix[nb]));
                    assert(false);
                }
                if nb > j - pos {
                    if (j as int) < n {
                        assert(!is_bound_char(suffix[j - pos]));
                        assert(suffix[j - pos] == s@[j as int]);
                        assert(false);
                    } else {
                        assert(nb > suffix.len());
                        assert(false);
                    }
                }
                assert(nb == j - pos);
            }
            let mut a: usize = pos;
            while a < j && is_space_exec(s.get_char(a))
                invariant
                    s@.len() == n,
                    pos <= a <= j <= n,
                    forall|i: int| pos <= i < a ==> is_space(#[trigger] s@[i]),
                decreases j - a,
            {
                a = a + 1;
            }
            let mut b: usize = j;
            while b > a && is_space_exec(s.get_char(b - 1))
                invariant
                    s@.len() == n,
                    a <= b <= j <= n,
                    forall|i: int| b <= i < j ==> is_space(#[trigger] s@[i]),
                decreases b,
            {
                b = b - 1;
            }
            let ghost term_raw = s@.subrange(pos as int, j as int);
            proof {
                assert(suffix.take(j as int - pos as int) =~= term_raw);
                assert forall|i: int| 0 <= i < a - pos implies is_space(#[trigger] term_raw[i]) by {
                    assert(term_raw[i] == s@[i + pos]);
                }
                assert forall|i: int| b - pos <= i < term_raw.len() implies is_space(
                    #[trigger] term_raw[i],
                ) by {
                    assert(term_raw[i] == s@[i + pos]);
                }
                if a < b {
                    assert(term_raw[a - pos] == s@[a as int]);
                    assert(term_raw[b - pos - 1] == s@[b as int - 1]);
                }
                lemma_trim_range(term_raw, a as int - pos as int, b as int - pos as int);
                assert(term_raw.subrange(a as int - pos as int, b as int - pos as int) =~= s@
                    .subrange(a as int, b as int));
            }
            let step = eval_term_exec(s, n, a, b, neg);
            match step {
                TermStep::Bad => {
                    return Err(("Invalid dice format").to_owned());
                },
                TermStep::Group(d) => {
                    dice.push(d);
                },
                TermStep::Flat(v) => {
                    modifier = sat_add_exec(modifier, v);
                },
                TermStep::Skip => {},
            }
            if j == n {
                return Ok(DicePool { dice, modifier, advantage_type: AdvantageType::Neutral });
            }
            let c = s.get_char(j);
            proof {
                assert(suffix[j - pos] == s@[j as int]);
                assert(suffix.skip(j as int - pos as int + 1) =~= s@.skip(j as int + 1));
            }
            neg = c == '-';
            pos = j + 1;
        }
    }
}

/// Parses and rolls a dice expression once.
pub fn roll_dice(s: &str) -> (r: i64)
    requires
        parse_spec(s@) is Some,
        crate::dice::pool::dice_rollable(parse_spec(s@).unwrap().0),
        crate::dice::pool::dice_gross(parse_spec(s@).unwrap().0) + crate::dice::pool::abs_int(
            parse_spec(s@).unwrap().1,
        ) <= i64::MAX,
    ensures
        crate::dice::pool::dice_min_sum(parse_spec(s@).unwrap().0) + parse_spec(s@).unwrap().1
            <= r as int,
        r as int <= crate::dice::pool::dice_max_sum(parse_spec(s@).unwrap().0) + parse_spec(
            s@,
        ).unwrap().1,
{
    match DicePool::from_str(s) {
        Ok(pool) => pool.roll(),
        Err(_) => {
            proof {
                assert(false);
            }
            0
        },
    }
}

} // verus!
