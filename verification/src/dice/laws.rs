//! The round-trip law of the dice grammar: parsing canonical output and
//! formatting it again reproduces the same canonical text.

use vstd::prelude::*;
use crate::dice::fmt::{
    count_total, dice_of, format_spec, gcount, group_count, group_term, grouped, groups_nonneg,
    groups_sorted, insert_group, key_before, lemma_gcount_sorted_entry, lemma_group_count_le_total,
    lemma_grouped_props, mod_part, render_gs, render_tail, sep_render, u64_digits,
};
use crate::dice::parse::{
    all_digits, apply_term, digit_val, digits_val, eval_term, idx_of_d, is_bound_char, is_digit,
    is_space, lemma_idx_of_d, lemma_next_bound, lemma_trim_range, next_bound, parse_num,
    parse_rest, parse_spec, sat_add_i64, trim_spec, TermStep,
};
use crate::dice::pool::Dice;

verus! {

/// Decimal digits read back as the number they render.
proof fn lemma_digits_roundtrip(n: nat)
    ensures
        u64_digits(n).len() >= 1,
        all_digits(u64_digits(n)),
        digits_val(u64_digits(n)) == n,
    decreases n,
{
    if n < 10 {
        assert(is_digit(crate::dice::fmt::digit_char(n)));
        assert(digit_val(crate::dice::fmt::digit_char(n)) == n);
        assert(u64_digits(n).drop_last() =~= Seq::<char>::empty());
        assert(digits_val(Seq::<char>::empty()) == 0);
        assert(u64_digits(n).last() == crate::dice::fmt::digit_char(n));
    } else {
        lemma_digits_roundtrip(n / 10);
        let s = u64_digits(n);
        assert(s.drop_last() =~= u64_digits(n / 10));
        assert(s.last() == crate::dice::fmt::digit_char(n % 10));
        assert(is_digit(crate::dice::fmt::digit_char(n % 10)));
        assert(digit_val(crate::dice::fmt::digit_char(n % 10)) == n % 10);
        assert forall|i: int| 0 <= i < s.len() implies is_digit(#[trigger] s[i]) by {
            if i < s.len() - 1 {
                assert(s[i] == u64_digits(n / 10)[i]);
            }
        }
        assert(digits_val(s) == (n / 10) * 10 + n % 10);
    }
}

/// A sequence whose first separator provably sits at `j` has `next_bound`
/// equal to `j`.
proof fn lemma_next_bound_at(s: Seq<char>, j: int)
    requires
        0 <= j <= s.len(),
        forall|i: int| 0 <= i < j ==> !is_bound_char(#[trigger] s[i]),
        j < s.len() ==> is_bound_char(s[j]),
    ensures
        next_bound(s) == j,
{
    lemma_next_bound(s);
    if next_bound(s) < j {
        assert(!is_bound_char(s[next_bound(s)]));
        assert(false);
    }
    if next_bound(s) > j {
        if j < s.len() {
            assert(!is_bound_char(s[j]));
            assert(false);
        }
    }
}

proof fn lemma_idx_of_d_at(s: Seq<char>, j: int)
    requires
        0 <= j <= s.len(),
        forall|i: int| 0 <= i < j ==> #[trigger] s[i] != 'd',
        j < s.len() ==> s[j] == 'd',
    ensures
        idx_of_d(s) == j,
{
    lemma_idx_of_d(s);
    if idx_of_d(s) < j {
        assert(s[idx_of_d(s)] != 'd');
        assert(false);
    }
    if idx_of_d(s) > j {
        if j < s.len() {
            assert(false);
        }
    }
}

/// No character of a group's body text is a separator or a space.
proof fn lemma_group_term_plain(g: (u64, bool, int))
    requires
        g.2 >= 0,
    ensures
        forall|i: int| 0 <= i < group_term(g).len() ==> !is_bound_char(#[trigger] group_term(g)[i])
            && !is_space(group_term(g)[i]),
        idx_of_d(group_term(g)) == u64_digits(g.2 as nat).len(),
        group_term(g).len() >= 3,
{
    let cd = u64_digits(g.2 as nat);
    let sd = u64_digits(g.0 as nat);
    let t = group_term(g);
    lemma_digits_roundtrip(g.2 as nat);
    lemma_digits_roundtrip(g.0 as nat);
    assert forall|i: int| 0 <= i < t.len() implies !is_bound_char(#[trigger] t[i]) && !is_space(
        t[i],
    ) by {
        if i < cd.len() {
            assert(t[i] == cd[i]);
            assert(is_digit(cd[i]));
        } else if i == cd.len() {
            assert(t[i] == 'd');
        } else {
            assert(t[i] == sd[i - cd.len() - 1]);
            assert(is_digit(sd[i - cd.len() - 1]));
        }
    }
    assert forall|i: int| 0 <= i < cd.len() implies #[trigger] t[i] != 'd' by {
        assert(t[i] == cd[i]);
        assert(is_digit(cd[i]));
    }
    assert(t[cd.len() as int] == 'd');
    lemma_idx_of_d_at(t, cd.len() as int);
}

/// The modifier rendered in separator position: always signed when nonzero.
pub open spec fn modpart_signed(m: int) -> Seq<char> {
    if m == 0 {
        Seq::<char>::empty()
    } else if m > 0 {
        seq!['+'] + u64_digits(m as nat)
    } else {
        seq!['-'] + u64_digits((-m) as nat)
    }
}

/// The remaining canonical text once the leading sign of the next unit has
/// been consumed as a separator.
pub open spec fn chain_str(gs: Seq<(u64, bool, int)>, m: int) -> Seq<char> {
    if gs.len() == 0 {
        if m == 0 {
            Seq::<char>::empty()
        } else if m > 0 {
            u64_digits(m as nat)
        } else {
            u64_digits((-m) as nat)
        }
    } else {
        group_term(gs[0]) + render_tail(gs.skip(1)) + modpart_signed(m)
    }
}

pub open spec fn chain_wf(gs: Seq<(u64, bool, int)>, m: int) -> bool {
    &&& forall|i: int| 0 <= i < gs.len() ==> 0 <= (#[trigger] gs[i]).2 <= u64::MAX
    &&& -(i64::MAX as int) <= m <= i64::MAX as int
}

proof fn lemma_render_tail_front(gs: Seq<(u64, bool, int)>)
    requires
        gs.len() > 0,
    ensures
        render_tail(gs) == sep_render(gs[0]) + render_tail(gs.skip(1)),
    decreases gs.len(),
{
    if gs.len() == 1 {
        assert(gs.drop_last() =~= Seq::<(u64, bool, int)>::empty());
        assert(gs.skip(1) =~= Seq::<(u64, bool, int)>::empty());
        assert(render_tail(gs) =~= sep_render(gs[0]) + render_tail(gs.skip(1)));
    } else {
        let d = gs.drop_last();
        lemma_render_tail_front(d);
        assert(d.skip(1) =~= gs.skip(1).drop_last());
        assert(gs.skip(1).last() == gs.last());
        assert(render_tail(gs.skip(1)) == render_tail(gs.skip(1).drop_last()) + sep_render(
            gs.last(),
        ));
        assert(render_tail(gs) == render_tail(d) + sep_render(gs.last()));
        assert(render_tail(gs) =~= sep_render(gs[0]) + render_tail(gs.skip(1)));
    }
}

/// Parsing the canonical chain appends exactly its groups and folds in the
/// modifier once.
#[verifier::rlimit(60)]
proof fn lemma_parse_chain(
    gs: Seq<(u64, bool, int)>,
    m: int,
    neg0: bool,
    acc: Seq<Dice>,
    accm: int,
)
    requires
        chain_wf(gs, m),
        i64::MIN <= accm <= i64::MAX,
        gs.len() > 0 ==> neg0 == gs[0].1,
        gs.len() == 0 && m != 0 ==> neg0 == (m < 0),
    ensures
        parse_rest(chain_str(gs, m), neg0, acc, accm) == Option::Some(
            (acc + dice_of(gs), sat_add_i64(accm, m)),
        ),
    decreases gs.len(),
{
    let s = chain_str(gs, m);
    if gs.len() == 0 {
        if m == 0 {
            assert(s =~= Seq::<char>::empty());
            lemma_next_bound_at(s, 0);
            assert(s.take(0) =~= Seq::<char>::empty());
            lemma_trim_range(Seq::<char>::empty(), 0, 0);
            assert(trim_spec(s.take(0)) =~= Seq::<char>::empty());
            assert(eval_term(Seq::<char>::empty(), neg0) == TermStep::Skip);
            assert(dice_of(gs) =~= Seq::<Dice>::empty());
            assert(acc + dice_of(gs) =~= acc);
        } else {
            let mag: nat = if m > 0 {
                m as nat
            } else {
                (-m) as nat
            };
            let dg = u64_digits(mag);
            lemma_digits_roundtrip(mag);
            assert(s == dg);
            assert forall|i: int| 0 <= i < s.len() implies !is_bound_char(#[trigger] s[i]) by {
                assert(is_digit(dg[i]));
            }
            lemma_next_bound_at(s, s.len() as int);
            assert(s.take(s.len() as int) =~= s);
            assert forall|i: int| 0 <= i < s.len() implies !is_space(#[trigger] s[i]) by {
                assert(is_digit(dg[i]));
            }
            lemma_trim_range(s, 0, s.len() as int);
            assert(s.subrange(0, s.len() as int) =~= s);
            assert(trim_spec(s) == s);
            // the term is a bare number
            assert forall|i: int| 0 <= i < s.len() implies #[trigger] s[i] != 'd' by {
                assert(is_digit(dg[i]));
            }
            lemma_idx_of_d_at(s, s.len() as int);
            assert(mag <= i64::MAX as int);
            assert(parse_num(s, i64::MAX as int) == Option::Some(mag as int));
            let v = mag as int;
            assert(eval_term(s, neg0) == TermStep::Flat(
                if neg0 {
                    (-v) as i64
                } else {
                    v as i64
                },
            ));
            let flat = if neg0 {
                (-v) as i64
            } else {
                v as i64
            };
            assert(flat as int == m);
            assert(dice_of(gs) =~= Seq::<Dice>::empty());
            assert(acc + dice_of(gs) =~= acc);
        }
    } else {
        let g = gs[0];
        let body = group_term(g);
        let rest = render_tail(gs.skip(1)) + modpart_signed(m);
        assert(s =~= body + rest);
        lemma_group_term_plain(g);
        // where the separator after this group's body sits
        assert forall|i: int| 0 <= i < body.len() implies !is_bound_char(#[trigger] s[i])
            && !is_space(s[i]) && (i < idx_of_d(body) ==> s[i] != 'd') by {
            assert(s[i] == body[i]);
            if i < idx_of_d(body) {
                lemma_idx_of_d(body);
            }
        }
        if gs.len() == 1 && m == 0 {
            // the chain ends after this group
            assert(gs.skip(1) =~= Seq::<(u64, bool, int)>::empty());
            assert(rest =~= Seq::<char>::empty());
            assert(s =~= body);
            lemma_next_bound_at(s, s.len() as int);
            assert(s.take(s.len() as int) =~= s);
            lemma_trim_range(s, 0, s.len() as int);
            assert(s.subrange(0, s.len() as int) =~= s);
            lemma_eval_group_term(g, neg0);
            let d0 = Dice { sides: g.0, count: g.2 as u64, negative: g.1 };
            assert(apply_term(acc, accm, eval_term(s, neg0)) == Option::Some(
                (acc.push(d0), accm),
            ));
            assert(acc.push(d0) =~= acc + dice_of(gs));
            assert(sat_add_i64(accm, 0) == accm);
        } else {
            // a separator follows the body
            assert(rest.len() > 0) by {
                if gs.len() > 1 {
                    assert(gs.skip(1).len() > 0);
                    lemma_render_tail_front(gs.skip(1));
                    assert(render_tail(gs.skip(1)).len() >= sep_render(gs.skip(1)[0]).len());
                } else {
                    assert(render_tail(gs.skip(1)) =~= Seq::<char>::empty());
                }
            }
            let sep = rest[0];
            assert(is_bound_char(sep) && (sep == '-' <==> chain_next_neg(gs, m))) by {
                if gs.len() > 1 {
                    lemma_render_tail_front(gs.skip(1));
                    assert(rest[0] == sep_render(gs.skip(1)[0])[0]);
                } else {
                    assert(rest =~= modpart_signed(m));
                }
            }
            assert(s[body.len() as int] == sep);
            lemma_next_bound_at(s, body.len() as int);
            assert(s.take(body.len() as int) =~= body);
            lemma_trim_range(body, 0, body.len() as int);
            assert(body.subrange(0, body.len() as int) =~= body);
            lemma_eval_group_term(g, neg0);
            let d0 = Dice { sides: g.0, count: g.2 as u64, negative: g.1 };
            assert(apply_term(acc, accm, eval_term(body, neg0)) == Option::Some(
                (acc.push(d0), accm),
            ));
            // the rest of the string is the chain of the remaining groups
            assert(s.skip(body.len() as int + 1) =~= rest.skip(1));
            assert(rest.skip(1) =~= chain_str(gs.skip(1), m)) by {
                if gs.len() > 1 {
                    lemma_render_tail_front(gs.skip(1));
                    assert(gs.skip(1).skip(1) =~= gs.skip(2));
                    assert(rest.skip(1) =~= group_term(gs.skip(1)[0]) + render_tail(gs.skip(2))
                        + modpart_signed(m));
                } else {
                    assert(gs.skip(1) =~= Seq::<(u64, bool, int)>::empty());
                    assert(rest =~= modpart_signed(m));
                }
            }
            assert(chain_wf(gs.skip(1), m)) by {
                assert(forall|i: int| 0 <= i < gs.skip(1).len() ==> gs[i + 1] == #[trigger] gs.skip(
                    1,
                )[i]);
            }
            lemma_parse_chain(gs.skip(1), m, sep == '-', acc.push(d0), accm);
            assert(acc.push(d0) + dice_of(gs.skip(1)) =~= acc + dice_of(gs));
        }
    }
}

/// The sign that introduces the next unit of the chain after the first
/// group: the next group's sign, else the modifier's.
pub open spec fn chain_next_neg(gs: Seq<(u64, bool, int)>, m: int) -> bool {
    if gs.len() > 1 {
        gs[1].1
    } else {
        m < 0
    }
}

/// Inserting a key that follows every present key appends at the end.
proof fn lemma_insert_group_append(gs: Seq<(u64, bool, int)>, sides: u64, negv: bool, c: int)
    requires
        forall|i: int| 0 <= i < gs.len() ==> key_before((#[trigger] gs[i]).0, gs[i].1, sides, negv),
    ensures
        insert_group(gs, sides, negv, c) == gs.push((sides, negv, c)),
    decreases gs.len(),
{
    if gs.len() == 0 {
        assert(insert_group(gs, sides, negv, c) =~= gs.push((sides, negv, c)));
    } else {
        assert(key_before(gs[0].0, gs[0].1, sides, negv));
        assert(!(gs[0].0 == sides && gs[0].1 == negv));
        assert(!key_before(sides, negv, gs[0].0, gs[0].1));
        assert(forall|i: int| 0 <= i < gs.skip(1).len() ==> gs[i + 1] == #[trigger] gs.skip(1)[i]);
        lemma_insert_group_append(gs.skip(1), sides, negv, c);
        assert(insert_group(gs, sides, negv, c) =~= gs.push((sides, negv, c)));
    }
}

/// Grouping the dice a grouped list denotes gives the list back.
proof fn lemma_grouped_of_dice_of(gs: Seq<(u64, bool, int)>)
    requires
        groups_sorted(gs),
        groups_nonneg(gs),
        forall|i: int| 0 <= i < gs.len() ==> (#[trigger] gs[i]).2 <= u64::MAX,
    ensures
        grouped(dice_of(gs)) == gs,
    decreases gs.len(),
{
    if gs.len() > 0 {
        let d = gs.drop_last();
        assert(dice_of(gs).drop_last() =~= dice_of(d));
        lemma_grouped_of_dice_of(d);
        let last = gs.last();
        assert(dice_of(gs).last() == (Dice { sides: last.0, count: last.2 as u64, negative: last.1
        }));
        assert((last.2 as u64) as int == last.2);
        assert(forall|i: int| 0 <= i < d.len() ==> key_before(
            (#[trigger] d[i]).0,
            d[i].1,
            last.0,
            last.1,
        ));
        lemma_insert_group_append(d, last.0, last.1, last.2);
        assert(grouped(dice_of(gs)) =~= gs);
    } else {
        assert(dice_of(gs) =~= Seq::<Dice>::empty());
    }
}

/// A parse that starts from a machine-representable modifier ends at one.
proof fn lemma_parse_mod_range(s: Seq<char>, neg: bool, dice: Seq<Dice>, m: int)
    requires
        i64::MIN <= m <= i64::MAX,
        parse_rest(s, neg, dice, m) is Some,
    ensures
        i64::MIN <= parse_rest(s, neg, dice, m).unwrap().1 <= i64::MAX,
    decreases s.len(),
{
    lemma_next_bound(s);
    let jr = next_bound(s);
    let j = if jr < s.len() {
        jr
    } else {
        s.len() as int
    };
    let t = trim_spec(s.take(j));
    match apply_term(dice, m, eval_term(t, neg)) {
        Option::None => {},
        Option::Some(acc) => {
            assert(i64::MIN <= acc.1 <= i64::MAX);
            if jr < s.len() {
                lemma_parse_mod_range(s.skip(j + 1), s[j] == '-', acc.0, acc.1);
            }
        },
    }
}

/// Parsing the canonical text of any die list and modifier yields exactly
/// the canonical groups and the same modifier: a canonically formatted
/// string reproduces an equivalent pool.
pub proof fn lemma_parse_of_format(d: Seq<Dice>, m: int)
    requires
        count_total(d) <= u64::MAX,
        -(i64::MAX as int) <= m <= i64::MAX as int,
    ensures
        parse_spec(format_spec(d, m)) == Option::Some((dice_of(grouped(d)), m)),
{
    let gs = grouped(d);
    lemma_grouped_props(d);
    assert forall|i: int| 0 <= i < gs.len() implies 0 <= (#[trigger] gs[i]).2 <= u64::MAX by {
        lemma_gcount_sorted_entry(gs, i);
        assert(gcount(gs, gs[i].0, gs[i].1) == group_count(d, gs[i].0, gs[i].1));
        lemma_group_count_le_total(d, gs[i].0, gs[i].1);
    }
    assert(chain_wf(gs, m));
    let f = format_spec(d, m);
    assert(sat_add_i64(0, m) == m);
    if gs.len() == 0 {
        if m == 0 {
            assert(f =~= chain_str(gs, m));
            lemma_parse_chain(gs, m, false, Seq::<Dice>::empty(), 0);
            assert(Seq::<Dice>::empty() + dice_of(gs) =~= dice_of(gs));
        } else if m > 0 {
            assert(f =~= chain_str(gs, m));
            lemma_parse_chain(gs, m, false, Seq::<Dice>::empty(), 0);
            assert(Seq::<Dice>::empty() + dice_of(gs) =~= dice_of(gs));
        } else {
            // the leading minus of the modifier is read as a separator
            assert(f =~= seq!['-'] + u64_digits((-m) as nat));
            lemma_step_over_sign(f, gs, m);
        }
    } else {
        let g0 = gs[0];
        if !g0.1 {
            assert(f =~= chain_str(gs, m)) by {
                lemma_format_body_shape(d, m);
            }
            lemma_parse_chain(gs, m, false, Seq::<Dice>::empty(), 0);
            assert(Seq::<Dice>::empty() + dice_of(gs) =~= dice_of(gs));
        } else {
            assert(f =~= seq!['-'] + chain_str(gs, m)) by {
                lemma_format_body_shape(d, m);
            }
            lemma_step_over_sign(f, gs, m);
        }
    }
}

/// The canonical text is the chain text, with a leading minus sign exactly
/// when the first unit is negative.
proof fn lemma_format_body_shape(d: Seq<Dice>, m: int)
    requires
        grouped(d).len() > 0,
    ensures
        !grouped(d)[0].1 ==> format_spec(d, m) =~= chain_str(grouped(d), m),
        grouped(d)[0].1 ==> format_spec(d, m) =~= seq!['-'] + chain_str(grouped(d), m),
{
    let gs = grouped(d);
    assert(mod_part(m, true) =~= modpart_signed(m));
    if !gs[0].1 {
        assert(render_gs(gs) =~= group_term(gs[0]) + render_tail(gs.skip(1)));
        assert(format_spec(d, m) =~= chain_str(gs, m));
    } else {
        assert(render_gs(gs) =~= seq!['-'] + (group_term(gs[0]) + render_tail(gs.skip(1))));
        assert(format_spec(d, m) =~= seq!['-'] + chain_str(gs, m));
    }
}

/// Parsing a text that opens with a minus sign reads an empty first term and
/// then the chain, negated.
proof fn lemma_step_over_sign(f: Seq<char>, gs: Seq<(u64, bool, int)>, m: int)
    requires
        chain_wf(gs, m),
        f =~= seq!['-'] + chain_str(gs, m),
        gs.len() > 0 ==> gs[0].1,
        gs.len() == 0 ==> m < 0,
    ensures
        parse_spec(f) == Option::Some((dice_of(gs), m)),
{
    assert(is_bound_char(f[0]));
    lemma_next_bound_at(f, 0);
    assert(f.take(0) =~= Seq::<char>::empty());
    assert(trim_spec(Seq::<char>::empty()) == Seq::<char>::empty());
    assert(eval_term(Seq::<char>::empty(), false) == TermStep::Skip);
    assert(f.skip(1) =~= chain_str(gs, m));
    assert(f[0] == '-');
    assert(sat_add_i64(0, m) == m);
    lemma_parse_chain(gs, m, true, Seq::<Dice>::empty(), 0);
    assert(Seq::<Dice>::empty() + dice_of(gs) =~= dice_of(gs));
    assert(parse_spec(f) == parse_rest(f.skip(1), true, Seq::<Dice>::empty(), 0));
}

/// Parsing is idempotent on canonical output: formatting what the canonical
/// text parses back to reproduces that canonical text. Excluded are only the
/// expressions whose grouped die counts overflow the machine integer and a
/// modifier saturated at the least machine integer.
pub proof fn lemma_format_parse_idempotent(s: Seq<char>)
    requires
        parse_spec(s) is Some,
        count_total(parse_spec(s).unwrap().0) <= u64::MAX,
        parse_spec(s).unwrap().1 != i64::MIN,
    ensures
        parse_spec(format_spec(parse_spec(s).unwrap().0, parse_spec(s).unwrap().1)) is Some,
        format_spec(
            parse_spec(format_spec(parse_spec(s).unwrap().0, parse_spec(s).unwrap().1)).unwrap().0,
            parse_spec(format_spec(parse_spec(s).unwrap().0, parse_spec(s).unwrap().1)).unwrap().1,
        ) == format_spec(parse_spec(s).unwrap().0, parse_spec(s).unwrap().1),
{
    let d = parse_spec(s).unwrap().0;
    let m = parse_spec(s).unwrap().1;
    lemma_parse_mod_range(s, false, Seq::<Dice>::empty(), 0);
    lemma_parse_of_format(d, m);
    let d2 = dice_of(grouped(d));
    lemma_grouped_props(d);
    assert forall|i: int| 0 <= i < grouped(d).len() implies (#[trigger] grouped(d)[i]).2
        <= u64::MAX by {
        lemma_gcount_sorted_entry(grouped(d), i);
        lemma_group_count_le_total(d, grouped(d)[i].0, grouped(d)[i].1);
    }
    lemma_grouped_of_dice_of(grouped(d));
    assert(grouped(d2) == grouped(d));
    assert(format_spec(d2, m) == format_spec(d, m));
}

/// A group body evaluates to its die group.
proof fn lemma_eval_group_term(g: (u64, bool, int), neg0: bool)
    requires
        0 <= g.2 <= u64::MAX,
    ensures
        eval_term(group_term(g), neg0) == TermStep::Group(
            Dice { sides: g.0, count: g.2 as u64, negative: neg0 },
        ),
{
    let t = group_term(g);
    let cd = u64_digits(g.2 as nat);
    let sd = u64_digits(g.0 as nat);
    lemma_digits_roundtrip(g.2 as nat);
    lemma_digits_roundtrip(g.0 as nat);
    lemma_group_term_plain(g);
    let k = idx_of_d(t);
    assert(k == cd.len());
    assert(t.take(k) =~= cd);
    assert(parse_num(cd, u64::MAX as int) == Option::Some(g.2));
    let rest = t.skip(k + 1);
    assert(rest =~= sd);
    assert forall|i: int| 0 <= i < sd.len() implies #[trigger] sd[i] != 'd' by {
        assert(is_digit(sd[i]));
    }
    lemma_idx_of_d_at(sd, sd.len() as int);
    assert(rest.take(idx_of_d(rest)) =~= sd);
    assert(parse_num(sd, u64::MAX as int) == Option::Some(g.0 as int));
    assert(t.len() > 0);
    assert(k < t.len());
}

} // verus!
