//! Rendering of dice pools: decimal digits for counts, sides and modifiers,
//! labels for single die groups, and the canonical form of a whole pool.

use vstd::prelude::*;
use crate::dice::pool::Dice;

verus! {

/// The decimal digit character for a value below ten.
pub open spec fn digit_char(d: nat) -> char {
    if d == 0 {
        '0'
    } else if d == 1 {
        '1'
    } else if d == 2 {
        '2'
    } else if d == 3 {
        '3'
    } else if d == 4 {
        '4'
    } else if d == 5 {
        '5'
    } else if d == 6 {
        '6'
    } else if d == 7 {
        '7'
    } else if d == 8 {
        '8'
    } else {
        '9'
    }
}

/// The decimal rendering of a natural number, most significant digit first.
pub open spec fn u64_digits(n: nat) -> Seq<char>
    decreases n,
{
    if n < 10 {
        seq![digit_char(n)]
    } else {
        u64_digits(n / 10).push(digit_char(n % 10))
    }
}

/// The decimal rendering of an integer: a leading minus sign when negative.
pub open spec fn i64_digits(m: int) -> Seq<char> {
    if m >= 0 {
        u64_digits(m as nat)
    } else {
        seq!['-'] + u64_digits((-m) as nat)
    }
}

/// The label of one die group: an optional minus sign, the count, the letter
/// `d`, and the number of sides.
pub open spec fn die_label_spec(d: Dice) -> Seq<char> {
    let body = u64_digits(d.count as nat) + seq!['d'] + u64_digits(d.sides as nat);
    if d.negative {
        seq!['-'] + body
    } else {
        body
    }
}

fn digit_str(d: u64) -> (s: &'static str)
    requires
        d < 10,
    ensures
        s@ == seq![digit_char(d as nat)],
{
    if d == 0 {
        proof { reveal_strlit("0"); }
        let s = "0";
        assert(s@ =~= seq![digit_char(d as nat)]);
        s
    } else if d == 1 {
        proof { reveal_strlit("1"); }
        let s = "1";
        assert(s@ =~= seq![digit_char(d as nat)]);
        s
    } else if d == 2 {
        proof { reveal_strlit("2"); }
        let s = "2";
        assert(s@ =~= seq![digit_char(d as nat)]);
        s
    } else if d == 3 {
        proof { reveal_strlit("3"); }
        let s = "3";
        assert(s@ =~= seq![digit_char(d as nat)]);
        s
    } else if d == 4 {
        proof { reveal_strlit("4"); }
        let s = "4";
        assert(s@ =~= seq![digit_char(d as nat)]);
        s
    } else if d == 5 {
        proof { reveal_strlit("5"); }
        let s = "5";
        assert(s@ =~= seq![digit_char(d as nat)]);
        s
    } else if d == 6 {
        proof { reveal_strlit("6"); }
        let s = "6";
        assert(s@ =~= seq![digit_char(d as nat)]);
        s
    } else if d == 7 {
        proof { reveal_strlit("7"); }
        let s = "7";
        assert(s@ =~= seq![digit_char(d as nat)]);
        s
    } else if d == 8 {
        proof { reveal_strlit("8"); }
        let s = "8";
        assert(s@ =~= seq![digit_char(d as nat)]);
        s
    } else {
        proof { reveal_strlit("9"); }
        let s = "9";
        assert(s@ =~= seq![digit_char(d as nat)]);
        s
    }
}

/// Renders a natural number in decimal.
pub fn render_u64(n: u64) -> (s: String)
    ensures
        s@ == u64_digits(n as nat),
    decreases n,
{
    if n < 10 {
        let s = digit_str(n).to_owned();
        assert(s@ =~= u64_digits(n as nat));
        s
    } else {
        let mut s = render_u64(n / 10);
        s.append(digit_str(n % 10));
        assert(s@ =~= u64_digits(n as nat));
        s
    }
}

/// Renders an integer in decimal, with a minus sign when negative.
pub fn render_i64(m: i64) -> (s: String)
    ensures
        s@ == i64_digits(m as int),
{
    if m >= 0 {
        render_u64(m as u64)
    } else {
        let mag: u64 = ((-(m + 1)) as u64) + 1;
        assert(mag as int == -(m as int));
        proof { reveal_strlit("-"); }
        let mut s = ("-").to_owned();
        let digits = render_u64(mag);
        s.append(digits.as_str());
        assert(s@ =~= i64_digits(m as int));
        s
    }
}

/// The summed count of the dice of `s` that show `sides` sides with the
/// given sign.
pub open spec fn group_count(s: Seq<Dice>, sides: u64, negv: bool) -> int
    decreases s.len(),
{
    if s.len() == 0 {
        0
    } else {
        group_count(s.drop_last(), sides, negv) + if s.last().sides == sides && s.last().negative
            == negv {
            s.last().count as int
        } else {
            0
        }
    }
}

/// The summed count of all dice of `s`.
pub open spec fn count_total(s: Seq<Dice>) -> int
    decreases s.len(),
{
    if s.len() == 0 {
        0
    } else {
        count_total(s.drop_last()) + s.last().count as int
    }
}

pub proof fn lemma_group_count_take_succ(s: Seq<Dice>, sides: u64, negv: bool, k: int)
    requires
        0 <= k < s.len(),
    ensures
        group_count(s.take(k + 1), sides, negv) == group_count(s.take(k), sides, negv) + if s[k].sides
            == sides && s[k].negative == negv {
            s[k].count as int
        } else {
            0
        },
{
    assert(s.take(k + 1).drop_last() =~= s.take(k));
    assert(s.take(k + 1).last() == s[k]);
}

pub proof fn lemma_group_count_le_total(s: Seq<Dice>, sides: u64, negv: bool)
    ensures
        0 <= group_count(s, sides, negv) <= count_total(s),
    decreases s.len(),
{
    if s.len() > 0 {
        lemma_group_count_le_total(s.drop_last(), sides, negv);
    }
}

pub proof fn lemma_group_count_take_le(s: Seq<Dice>, sides: u64, negv: bool, k: int)
    requires
        0 <= k <= s.len(),
    ensures
        group_count(s.take(k), sides, negv) <= group_count(s, sides, negv),
    decreases s.len() - k,
{
    if k == s.len() {
        assert(s.take(k) =~= s);
    } else {
        lemma_group_count_take_succ(s, sides, negv, k);
        lemma_group_count_take_le(s, sides, negv, k + 1);
    }
}

/// The canonical order of die groups: larger sides first; for equal sides the
/// positive group before the negative one.
pub open spec fn key_before(s1: u64, n1: bool, s2: u64, n2: bool) -> bool {
    s1 > s2 || (s1 == s2 && !n1 && n2)
}

/// A grouped die pool: one entry per (sides, sign) pair, with the summed
/// count, which arithmetic keeps exact as a mathematical integer.
pub open spec fn insert_group(gs: Seq<(u64, bool, int)>, sides: u64, negv: bool, c: int) -> Seq<
    (u64, bool, int),
>
    decreases gs.len(),
{
    if gs.len() == 0 {
        seq![(sides, negv, c)]
    } else if gs[0].0 == sides && gs[0].1 == negv {
        seq![(sides, negv, gs[0].2 + c)] + gs.skip(1)
    } else if key_before(sides, negv, gs[0].0, gs[0].1) {
        seq![(sides, negv, c)] + gs
    } else {
        seq![gs[0]] + insert_group(gs.skip(1), sides, negv, c)
    }
}

/// The canonical grouping of a die list: groups keyed by (sides, sign) in
/// canonical order, counts summed.
pub open spec fn grouped(s: Seq<Dice>) -> Seq<(u64, bool, int)>
    decreases s.len(),
{
    if s.len() == 0 {
        Seq::<(u64, bool, int)>::empty()
    } else {
        insert_group(grouped(s.drop_last()), s.last().sides, s.last().negative, s.last().count
            as int)
    }
}

/// Group keys strictly increase in canonical order, so each key is unique.
pub open spec fn groups_sorted(gs: Seq<(u64, bool, int)>) -> bool {
    forall|i: int, j: int| 0 <= i < j < gs.len() ==> key_before(
        (#[trigger] gs[i]).0,
        gs[i].1,
        (#[trigger] gs[j]).0,
        gs[j].1,
    )
}

pub open spec fn groups_nonneg(gs: Seq<(u64, bool, int)>) -> bool {
    forall|i: int| 0 <= i < gs.len() ==> (#[trigger] gs[i]).2 >= 0
}

/// The count recorded for a key among grouped entries.
pub open spec fn gcount(gs: Seq<(u64, bool, int)>, sides: u64, negv: bool) -> int
    decreases gs.len(),
{
    if gs.len() == 0 {
        0
    } else {
        (if gs[0].0 == sides && gs[0].1 == negv {
            gs[0].2
        } else {
            0
        }) + gcount(gs.skip(1), sides, negv)
    }
}

proof fn lemma_insert_group_sorted(gs: Seq<(u64, bool, int)>, sides: u64, negv: bool, c: int)
    requires
        groups_sorted(gs),
    ensures
        groups_sorted(insert_group(gs, sides, negv, c)),
        insert_group(gs, sides, negv, c).len() >= 1,
        insert_group(gs, sides, negv, c).len() <= gs.len() + 1,
        forall|j: int| 0 <= j < insert_group(gs, sides, negv, c).len() ==> ((#[trigger] insert_group(
            gs,
            sides,
            negv,
            c,
        )[j]).0 == sides && insert_group(gs, sides, negv, c)[j].1 == negv) || (exists|i: int|
            0 <= i < gs.len() && gs[i] == insert_group(gs, sides, negv, c)[j]),
    decreases gs.len(),
{
    let r = insert_group(gs, sides, negv, c);
    if gs.len() == 0 {
    } else if gs[0].0 == sides && gs[0].1 == negv {
        assert(forall|j: int| 1 <= j < r.len() ==> r[j] == gs[j]);
    } else if key_before(sides, negv, gs[0].0, gs[0].1) {
        assert(forall|j: int| 1 <= j < r.len() ==> r[j] == gs[j - 1]);
        assert forall|i: int, j: int| 0 <= i < j < r.len() implies key_before(
            (#[trigger] r[i]).0,
            r[i].1,
            (#[trigger] r[j]).0,
            r[j].1,
        ) by {
            if i == 0 && j >= 1 {
                if j > 1 {
                    assert(key_before(gs[0].0, gs[0].1, gs[j - 1].0, gs[j - 1].1));
                }
            }
        }
    } else {
        let tail = gs.skip(1);
        assert(groups_sorted(tail)) by {
            assert(forall|i: int, j: int| 0 <= i < j < tail.len() ==> gs[i + 1] == (
            #[trigger] tail[i]) && gs[j + 1] == #[trigger] tail[j]);
        }
        lemma_insert_group_sorted(tail, sides, negv, c);
        let rt = insert_group(tail, sides, negv, c);
        assert(forall|j: int| 1 <= j < r.len() ==> r[j] == rt[j - 1]);
        // the head key comes before the inserted key and before every old key
        assert(!key_before(sides, negv, gs[0].0, gs[0].1) && !(gs[0].0 == sides && gs[0].1 == negv));
        assert(key_before(gs[0].0, gs[0].1, sides, negv));
        assert forall|i: int, j: int| 0 <= i < j < r.len() implies key_before(
            (#[trigger] r[i]).0,
            r[i].1,
            (#[trigger] r[j]).0,
            r[j].1,
        ) by {
            if i == 0 {
                let e = r[j];
                assert(e == rt[j - 1]);
                if e.0 == sides && e.1 == negv {
                } else {
                    let w = choose|w: int| 0 <= w < tail.len() && tail[w] == e;
                    assert(gs[w + 1] == e);
                    assert(key_before(gs[0].0, gs[0].1, e.0, e.1));
                }
            }
        }
    }
}

proof fn lemma_insert_group_gcount(
    gs: Seq<(u64, bool, int)>,
    sides: u64,
    negv: bool,
    c: int,
    qs: u64,
    qn: bool,
)
    ensures
        gcount(insert_group(gs, sides, negv, c), qs, qn) == gcount(gs, qs, qn) + if qs == sides
            && qn == negv {
            c
        } else {
            0
        },
    decreases gs.len(),
{
    let r = insert_group(gs, sides, negv, c);
    if gs.len() == 0 {
        assert(r.skip(1) =~= Seq::<(u64, bool, int)>::empty());
        assert(gcount(Seq::<(u64, bool, int)>::empty(), qs, qn) == 0);
        assert(r[0] == (sides, negv, c));
        assert(gcount(r, qs, qn) == if qs == sides && qn == negv {
            c
        } else {
            0
        });
    } else if gs[0].0 == sides && gs[0].1 == negv {
        assert(r.skip(1) =~= gs.skip(1));
        assert(r[0] == (sides, negv, gs[0].2 + c));
        assert(gcount(r, qs, qn) == (if qs == sides && qn == negv {
            gs[0].2 + c
        } else {
            0
        }) + gcount(gs.skip(1), qs, qn));
    } else if key_before(sides, negv, gs[0].0, gs[0].1) {
        assert(r.skip(1) =~= gs);
        assert(r[0] == (sides, negv, c));
        assert(gcount(r, qs, qn) == (if qs == sides && qn == negv {
            c
        } else {
            0
        }) + gcount(gs, qs, qn));
    } else {
        lemma_insert_group_gcount(gs.skip(1), sides, negv, c, qs, qn);
        assert(r.skip(1) =~= insert_group(gs.skip(1), sides, negv, c));
        assert(r[0] == gs[0]);
        assert(gcount(r, qs, qn) == (if qs == gs[0].0 && qn == gs[0].1 {
            gs[0].2
        } else {
            0
        }) + gcount(insert_group(gs.skip(1), sides, negv, c), qs, qn));
    }
}

proof fn lemma_insert_group_nonneg(gs: Seq<(u64, bool, int)>, sides: u64, negv: bool, c: int)
    requires
        groups_nonneg(gs),
        c >= 0,
    ensures
        groups_nonneg(insert_group(gs, sides, negv, c)),
    decreases gs.len(),
{
    let r = insert_group(gs, sides, negv, c);
    if gs.len() == 0 {
    } else if gs[0].0 == sides && gs[0].1 == negv {
        assert(forall|j: int| 1 <= j < r.len() ==> r[j] == gs[j]);
    } else if key_before(sides, negv, gs[0].0, gs[0].1) {
        assert(forall|j: int| 1 <= j < r.len() ==> r[j] == gs[j - 1]);
    } else {
        assert(groups_nonneg(gs.skip(1))) by {
            assert(forall|i: int| 0 <= i < gs.skip(1).len() ==> gs[i + 1] == #[trigger] gs.skip(
                1,
            )[i]);
        }
        lemma_insert_group_nonneg(gs.skip(1), sides, negv, c);
        let rt = insert_group(gs.skip(1), sides, negv, c);
        assert(forall|j: int| 1 <= j < r.len() ==> r[j] == rt[j - 1]);
    }
}

/// The canonical grouping is sorted, has nonnegative counts, and records for
/// each key exactly the summed count of the dice it groups.
pub proof fn lemma_grouped_props(s: Seq<Dice>)
    ensures
        groups_sorted(grouped(s)),
        groups_nonneg(grouped(s)),
        forall|qs: u64, qn: bool| #[trigger] gcount(grouped(s), qs, qn) == group_count(s, qs, qn),
    decreases s.len(),
{
    if s.len() > 0 {
        lemma_grouped_props(s.drop_last());
        lemma_insert_group_sorted(
            grouped(s.drop_last()),
            s.last().sides,
            s.last().negative,
            s.last().count as int,
        );
        lemma_insert_group_nonneg(
            grouped(s.drop_last()),
            s.last().sides,
            s.last().negative,
            s.last().count as int,
        );
        assert forall|qs: u64, qn: bool| #[trigger] gcount(grouped(s), qs, qn) == group_count(
            s,
            qs,
            qn,
        ) by {
            lemma_insert_group_gcount(
                grouped(s.drop_last()),
                s.last().sides,
                s.last().negative,
                s.last().count as int,
                qs,
                qn,
            );
        }
    }
}

/// In a sorted group list every key occurs at most once, so the entry at a
/// key carries that key's whole count.
pub proof fn lemma_gcount_sorted_entry(gs: Seq<(u64, bool, int)>, i: int)
    requires
        groups_sorted(gs),
        0 <= i < gs.len(),
    ensures
        gcount(gs, gs[i].0, gs[i].1) == gs[i].2,
    decreases gs.len(),
{
    let qs = gs[i].0;
    let qn = gs[i].1;
    if i == 0 {
        assert(gcount(gs.skip(1), qs, qn) == 0) by {
            lemma_gcount_absent(gs.skip(1), qs, qn);
        }
    } else {
        assert(groups_sorted(gs.skip(1))) by {
            assert(forall|a: int, b: int| 0 <= a < b < gs.skip(1).len() ==> gs[a + 1] == (
            #[trigger] gs.skip(1)[a]) && gs[b + 1] == #[trigger] gs.skip(1)[b]);
        }
        assert(gs.skip(1)[i - 1] == gs[i]);
        lemma_gcount_sorted_entry(gs.skip(1), i - 1);
        assert(key_before(gs[0].0, gs[0].1, qs, qn));
    }
}

/// A key that comes strictly before every entry's key is absent.
proof fn lemma_gcount_absent(gs: Seq<(u64, bool, int)>, qs: u64, qn: bool)
    requires
        forall|j: int| 0 <= j < gs.len() ==> key_before(qs, qn, (#[trigger] gs[j]).0, gs[j].1),
    ensures
        gcount(gs, qs, qn) == 0,
    decreases gs.len(),
{
    if gs.len() > 0 {
        assert(key_before(qs, qn, gs[0].0, gs[0].1));
        assert(!(gs[0].0 == qs && gs[0].1 == qn));
        assert(forall|j: int| 0 <= j < gs.skip(1).len() ==> gs[j + 1] == #[trigger] gs.skip(1)[j]);
        lemma_gcount_absent(gs.skip(1), qs, qn);
    }
}

/// The dice a group list denotes, one die group per entry, in order.
pub open spec fn dice_of(gs: Seq<(u64, bool, int)>) -> Seq<Dice> {
    gs.map_values(|g: (u64, bool, int)| Dice { sides: g.0, count: g.2 as u64, negative: g.1 })
}

/// The grouped entries a die list reads back as.
pub open spec fn as_groups(s: Seq<Dice>) -> Seq<(u64, bool, int)> {
    s.map_values(|d: Dice| (d.sides, d.negative, d.count as int))
}

/// The body of one group's canonical text, without any sign or separator.
pub open spec fn group_term(g: (u64, bool, int)) -> Seq<char> {
    u64_digits(g.2 as nat) + seq!['d'] + u64_digits(g.0 as nat)
}

/// One group's canonical text in separator position: its sign, `-` for a
/// negative group and `+` otherwise, then the group body.
pub open spec fn sep_render(g: (u64, bool, int)) -> Seq<char> {
    seq![
        if g.1 {
            '-'
        } else {
            '+'
        },
    ] + group_term(g)
}

/// The canonical text of every group after the first.
pub open spec fn render_tail(gs: Seq<(u64, bool, int)>) -> Seq<char>
    decreases gs.len(),
{
    if gs.len() == 0 {
        Seq::<char>::empty()
    } else {
        render_tail(gs.drop_last()) + sep_render(gs.last())
    }
}

/// The canonical text of a group list: the first group carries a sign only
/// when negative; the rest are separated by their signs.
pub open spec fn render_gs(gs: Seq<(u64, bool, int)>) -> Seq<char> {
    if gs.len() == 0 {
        Seq::<char>::empty()
    } else {
        (if gs[0].1 {
            seq!['-']
        } else {
            Seq::<char>::empty()
        }) + group_term(gs[0]) + render_tail(gs.skip(1))
    }
}

/// The canonical text of the flat modifier: nothing when zero; a `+` sign
/// only after a nonempty group list.
pub open spec fn mod_part(m: int, has_groups: bool) -> Seq<char> {
    if m == 0 {
        Seq::<char>::empty()
    } else {
        (if m > 0 && has_groups {
            seq!['+']
        } else {
            Seq::<char>::empty()
        }) + i64_digits(m)
    }
}

/// The canonical text of a pool: groups by descending sides (positive before
/// negative on equal sides), counts summed, then the signed modifier when
/// nonzero.
pub open spec fn format_spec(dice: Seq<Dice>, m: int) -> Seq<char> {
    render_gs(grouped(dice)) + mod_part(m, grouped(dice).len() > 0)
}

proof fn lemma_gcount_nonneg(gs: Seq<(u64, bool, int)>)
    requires
        groups_nonneg(gs),
    ensures
        forall|qs: u64, qn: bool| #[trigger] gcount(gs, qs, qn) >= 0,
    decreases gs.len(),
{
    if gs.len() > 0 {
        assert(groups_nonneg(gs.skip(1))) by {
            assert(forall|i: int| 0 <= i < gs.skip(1).len() ==> gs[i + 1] == #[trigger] gs.skip(
                1,
            )[i]);
        }
        lemma_gcount_nonneg(gs.skip(1));
        assert forall|qs: u64, qn: bool| #[trigger] gcount(gs, qs, qn) >= 0 by {
            assert(gcount(gs.skip(1), qs, qn) >= 0);
            assert(gs[0].2 >= 0);
        }
    }
}

/// The first group's sign-and-body text.
pub open spec fn render_first(g: (u64, bool, int)) -> Seq<char> {
    (if g.1 {
        seq!['-']
    } else {
        Seq::<char>::empty()
    }) + group_term(g)
}

proof fn lemma_render_take_succ(gs: Seq<(u64, bool, int)>, k: int)
    requires
        0 <= k < gs.len(),
    ensures
        k == 0 ==> render_gs(gs.take(1)) == render_first(gs[0]),
        k > 0 ==> render_gs(gs.take(k + 1)) == render_gs(gs.take(k)) + sep_render(gs[k]),
{
    if k == 0 {
        assert(gs.take(1)[0] == gs[0]);
        assert(gs.take(1).skip(1) =~= Seq::<(u64, bool, int)>::empty());
        assert(render_first(gs[0]) + Seq::<char>::empty() =~= render_first(gs[0]));
        assert(render_gs(gs.take(1)) =~= render_first(gs[0]));
    } else {
        let t1 = gs.take(k + 1).skip(1);
        let t0 = gs.take(k).skip(1);
        assert(t1.drop_last() =~= t0);
        assert(t1.last() == gs[k]);
        assert(render_tail(t1) == render_tail(t0) + sep_render(gs[k]));
        assert(gs.take(k + 1)[0] == gs[0]);
        assert(gs.take(k)[0] == gs[0]);
        assert(render_gs(gs.take(k + 1)) =~= render_gs(gs.take(k)) + sep_render(gs[k]));
    }
}

fn key_before_exec(s1: u64, n1: bool, s2: u64, n2: bool) -> (r: bool)
    ensures
        r == key_before(s1, n1, s2, n2),
{
    s1 > s2 || (s1 == s2 && !n1 && n2)
}

/// Merges one die group into a grouped list, scanning from `idx`.
fn insert_die_groups(groups: &mut Vec<Dice>, idx: usize, sides: u64, negv: bool, c: u64)
    requires
        idx <= old(groups)@.len(),
        gcount(as_groups(old(groups)@).skip(idx as int), sides, negv) + c <= u64::MAX,
    ensures
        as_groups(final(groups)@) == as_groups(old(groups)@).take(idx as int) + insert_group(
            as_groups(old(groups)@).skip(idx as int),
            sides,
            negv,
            c as int,
        ),
    decreases old(groups)@.len() - idx,
{
    let ghost gv = as_groups(old(groups)@);
    if idx == groups.len() {
        groups.push(Dice { sides, count: c, negative: negv });
        proof {
            assert(gv.skip(idx as int) =~= Seq::<(u64, bool, int)>::empty());
            assert(as_groups(groups@) =~= gv.take(idx as int) + insert_group(
                gv.skip(idx as int),
                sides,
                negv,
                c as int,
            ));
        }
    } else {
        let g = groups[idx];
        let ghost tail = gv.skip(idx as int);
        proof {
            assert(tail[0] == (g.sides, g.negative, g.count as int));
            assert(tail.skip(1) =~= gv.skip(idx as int + 1));
        }
        if g.sides == sides && g.negative == negv {
            proof {
                assert(groups_nonneg(tail.skip(1))) by {
                    assert(forall|i: int| 0 <= i < tail.skip(1).len() ==> (#[trigger] tail.skip(
                        1,
                    )[i]) == as_groups(old(groups)@)[idx as int + 1 + i]);
                }
                lemma_gcount_nonneg(tail.skip(1));
                assert(gcount(tail, sides, negv) == g.count + gcount(tail.skip(1), sides, negv));
            }
            groups[idx] = Dice { sides, count: g.count + c, negative: negv };
            proof {
                assert(as_groups(groups@) =~= gv.take(idx as int) + insert_group(
                    tail,
                    sides,
                    negv,
                    c as int,
                ));
            }
        } else if key_before_exec(sides, negv, g.sides, g.negative) {
            groups.insert(idx, Dice { sides, count: c, negative: negv });
            proof {
                assert(as_groups(groups@) =~= gv.take(idx as int) + insert_group(
                    tail,
                    sides,
                    negv,
                    c as int,
                ));
            }
        } else {
            proof {
                assert(gcount(tail, sides, negv) == gcount(tail.skip(1), sides, negv));
            }
            insert_die_groups(groups, idx + 1, sides, negv, c);
            proof {
                assert(as_groups(groups@) =~= gv.take(idx as int) + insert_group(
                    tail,
                    sides,
                    negv,
                    c as int,
                ));
            }
        }
    }
}

impl super::pool::DicePool {
    /// The canonical text of the pool: die groups merged by (sides, sign) and
    /// ordered by descending sides (positive before negative on equal sides),
    /// then the signed flat modifier when it is nonzero.
    #[verifier::rlimit(60)]
    pub fn to_string(&self) -> (r: String)
        requires
            count_total(self.dice@) <= u64::MAX,
        ensures
            r@ == format_spec(self.dice@, self.modifier as int),
    {
        let mut groups: Vec<Dice> = Vec::new();
        let mut k: usize = 0;
        proof {
            assert(as_groups(groups@) =~= grouped(self.dice@.take(0)));
        }
        while k < self.dice.len()
            invariant
                k <= self.dice@.len(),
                count_total(self.dice@) <= u64::MAX,
                as_groups(groups@) == grouped(self.dice@.take(k as int)),
            decreases self.dice@.len() - k,
        {
            let d = self.dice[k];
            proof {
                lemma_grouped_props(self.dice@.take(k as int));
                lemma_group_count_take_succ(self.dice@, d.sides, d.negative, k as int);
                lemma_group_count_take_le(self.dice@, d.sides, d.negative, k as int + 1);
                lemma_group_count_le_total(self.dice@, d.sides, d.negative);
                assert(as_groups(groups@).skip(0) =~= as_groups(groups@));
            }
            insert_die_groups(&mut groups, 0, d.sides, d.negative, d.count);
            proof {
                assert(self.dice@.take(k as int + 1).drop_last() =~= self.dice@.take(k as int));
                assert(self.dice@.take(k as int + 1).last() == self.dice@[k as int]);
                assert(as_groups(groups@) =~= grouped(self.dice@.take(k as int + 1)));
            }
            k = k + 1;
        }
        proof {
            assert(self.dice@.take(k as int) =~= self.dice@);
        }
        let ghost gall = as_groups(groups@);
        let mut out = String::new();
        let mut i: usize = 0;
        proof {
            assert(out@ =~= render_gs(gall.take(0)));
        }
        while i < groups.len()
            invariant
                i <= groups@.len(),
                gall == as_groups(groups@),
                out@ == render_gs(gall.take(i as int)),
            decreases groups@.len() - i,
        {
            let g = groups[i];
            proof {
                assert(gall[i as int] == (g.sides, g.negative, g.count as int));
                lemma_render_take_succ(gall, i as int);
                reveal_strlit("-");
                reveal_strlit("+");
                reveal_strlit("d");
            }
            if g.negative {
                out.append("-");
            } else if i > 0 {
                out.append("+");
            }
            let cs = render_u64(g.count);
            out.append(cs.as_str());
            out.append("d");
            let ss = render_u64(g.sides);
            out.append(ss.as_str());
            proof {
                if i == 0 {
                    assert(out@ =~= render_first(gall[0]));
                    assert(out@ =~= render_gs(gall.take(1)));
                } else {
                    assert(out@ =~= render_gs(gall.take(i as int)) + sep_render(gall[i as int]));
                    assert(out@ =~= render_gs(gall.take(i as int + 1)));
                }
            }
            i = i + 1;
        }
        proof {
            assert(gall.take(i as int) =~= gall);
        }
        if self.modifier != 0 {
            if self.modifier > 0 && groups.len() > 0 {
                proof {
                    reveal_strlit("+");
                }
                out.append("+");
            }
            let ms = render_i64(self.modifier);
            out.append(ms.as_str());
        }
        proof {
            assert(out@ =~= format_spec(self.dice@, self.modifier as int));
        }
        out
    }
}

/// Renders the label of one die group, such as the text a roll breakdown
/// records for the group it came from.
pub fn die_label(d: &Dice) -> (s: String)
    ensures
        s@ == die_label_spec(*d),
{
    let mut s = if d.negative {
        proof { reveal_strlit("-"); }
        ("-").to_owned()
    } else {
        proof { reveal_strlit(""); }
        ("").to_owned()
    };
    let count = render_u64(d.count);
    s.append(count.as_str());
    proof { reveal_strlit("d"); }
    s.append("d");
    let sides = render_u64(d.sides);
    s.append(sides.as_str());
    assert(s@ =~= die_label_spec(*d));
    s
}

} // verus!
