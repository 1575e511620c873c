//! The library's general guarantees, stated and proved once and for all
//! inputs, over the same spec functions the executable contracts use.

use crate::executor::{m_calc, m_enter, m_enter_child, m_enter_group, m_get_i64, m_insert,
    m_plan, m_run, m_sort, m_add_sat, m_adjust};
use crate::lexer::{digits_val, lemma_digits_val_nonneg, m_dots, m_op, m_parse, m_parse_lit,
    m_process, m_scan, m_step, LexerModel};
use crate::token::{div_i64, local_result, m_is_num, m_is_zero, ReqModel, TokModel};
use crate::{m_empty_lexer, m_kalc, m_kalc_i64, Error};
use vstd::prelude::*;

verus! {

/// A byte the grammar gives a meaning: a digit, the decimal point, a
/// separator, an operator, a parenthesis, or an ASCII letter.
pub open spec fn m_accepted_byte(c: u8) -> bool {
    (48 <= c && c <= 57) || c == 46 || c == 44 || c == 95 || c == 32 || c == 45 || c == 43
        || c == 42 || c == 47 || c == 40 || c == 41 || (97 <= c && c <= 122) || (65 <= c && c
        <= 90)
}

/// A scan that still has an unacceptable byte ahead of it fails.
proof fn lemma_scan_hits_invalid(st: LexerModel, bs: Seq<u8>, i: int, k: int)
    requires
        0 <= k <= i < bs.len(),
        !m_accepted_byte(bs[i]),
    ensures
        m_scan(st, bs, k) is Err,
    decreases i - k,
{
    if k == i {
        assert(m_step(st, bs[k], k as usize) == Err::<LexerModel, Error>(
            Error::InvalidCharacter { offset: k as usize },
        ));
    } else {
        match m_step(st, bs[k], k as usize) {
            Ok(st2) => {
                lemma_scan_hits_invalid(st2, bs, i, k + 1);
            },
            Err(_) => {},
        }
    }
}

/// LAW: malformed input is rejected, never evaluated. An input holding a
/// byte outside the grammar fails to scan, whatever else it holds.
pub proof fn lemma_invalid_character_rejected(bs: Seq<u8>, i: int)
    requires
        0 <= i < bs.len(),
        !m_accepted_byte(bs[i]),
    ensures
        m_parse(m_empty_lexer(), bs) is Err,
{
    let st = m_empty_lexer();
    let st0 = LexerModel { data: st.data + bs, ..st };
    lemma_scan_hits_invalid(st0, bs, i, 0);
}

/// LAW: evaluating an already-fully-reduced tree is a no-op. The drain
/// over a document root holding one integer literal, and over the bare
/// literal itself, ends with the same literal, owes no floating-point
/// work, and reads back as the same value.
pub proof fn lemma_literal_evaluation_noop(n: i64)
    ensures
        ({
            let g = TokModel::Group(seq![TokModel::I(n)]);
            let s = m_run(g, m_plan(g), 0);
            s.0 == TokModel::I(n) && s.2 is None && m_get_i64(s.0) == Ok::<i64, Error>(n)
        }),
        ({
            let s = m_run(TokModel::I(n), m_plan(TokModel::I(n)), 0);
            s.0 == TokModel::I(n) && s.2 is None
        }),
{
    let lit = TokModel::I(n);
    let e0 = (Seq::<usize>::empty(), 0usize);
    let e1 = (Seq::<usize>::empty(), 1usize);

    // the enumeration of a bare literal
    assert(m_enter(lit) =~= seq![e0]);

    // the bare literal's plan and drain
    assert(seq![e0].drop_last() =~= Seq::<(Seq<usize>, usize)>::empty());
    assert(m_sort(Seq::<(Seq<usize>, usize)>::empty()) =~= Seq::<(Seq<usize>, usize)>::empty());
    assert(m_insert(Seq::<(Seq<usize>, usize)>::empty(), e0) =~= seq![e0]);
    assert(m_sort(seq![e0]) =~= seq![e0]);
    assert(m_plan(lit) =~= seq![e0]);
    assert(m_calc(lit, e0.0) == (lit, None::<ReqModel>));
    assert(m_run(lit, m_plan(lit), 1) == (lit, 1int, None::<ReqModel>));
    assert(m_run(lit, m_plan(lit), 0) == (lit, 1int, None::<ReqModel>));

    // the enumeration of the document root
    let g = TokModel::Group(seq![lit]);
    assert(seq![lit].drop_last() =~= Seq::<TokModel>::empty());
    assert(m_enter_group(Seq::<TokModel>::empty()) =~= Seq::<(Seq<usize>, usize)>::empty());
    assert(m_adjust(Seq::<usize>::empty(), 0, lit) =~= Seq::<usize>::empty());
    assert(m_enter_child(lit, 0, 1) =~= seq![e1]) by {
        assert(m_enter(lit).map_values(
            |e: (Seq<usize>, usize)| (m_adjust(e.0, 0, lit), m_add_sat(1, e.1)),
        )[0] == e1);
        assert(m_enter(lit).map_values(
            |e: (Seq<usize>, usize)| (m_adjust(e.0, 0, lit), m_add_sat(1, e.1)),
        ).len() == 1);
    }
    assert(m_enter_group(seq![lit]) =~= seq![e1]);
    assert(m_enter(g) =~= seq![e0, e1]);

    // the root's plan: ascending, then reversed
    assert(seq![e0, e1].drop_last() =~= seq![e0]);
    assert(m_sort(seq![e0]) =~= seq![e0]);
    assert(m_insert(seq![e0], e1) =~= seq![e0, e1]);
    assert(m_sort(seq![e0, e1]) =~= seq![e0, e1]);
    assert(seq![e0, e1].reverse() =~= seq![e1, e0]);
    assert(m_plan(g) =~= seq![e1, e0]);

    // the drain: the group collapses, and the literal is left alone
    assert(local_result(g) == (lit, None::<ReqModel>));
    assert(m_calc(g, e1.0) == (lit, None::<ReqModel>));
    assert(m_calc(lit, e0.0) == (lit, None::<ReqModel>));
    assert(m_run(lit, m_plan(g), 2) == (lit, 2int, None::<ReqModel>));
    assert(m_run(lit, m_plan(g), 1) == (lit, 2int, None::<ReqModel>));
    assert(m_run(g, m_plan(g), 0) == (lit, 2int, None::<ReqModel>));
}

/// LAW: division by zero does not fail. A division whose right operand is
/// any zero literal — integer or float — reduces to the integer zero, and
/// asks for no floating-point work.
pub proof fn lemma_division_by_zero(a: TokModel, b: TokModel)
    requires
        m_is_num(a),
        m_is_num(b),
        m_is_zero(b),
    ensures
        local_result(TokModel::Div(Box::new(a), Box::new(b))) == (
            TokModel::I(0),
            None::<ReqModel>,
        ),
{
}

/// LAW: integer division truncates toward zero: the magnitudes divide
/// and the sign comes back, so `7 / 2` is `3` and `(-7) / 2` is `-3`
/// where flooring would give `-4`. The one wrapping case, `i64::MIN / -1`,
/// is left out.
pub proof fn lemma_division_truncates(a: i64, b: i64)
    requires
        b != 0,
        !(a == i64::MIN && b == -1),
    ensures
        a >= 0 && b > 0 ==> div_i64(a, b) == a as int / b as int,
        a <= 0 && b > 0 ==> div_i64(a, b) == -((-(a as int)) / (b as int)),
        a >= 0 && b < 0 ==> div_i64(a, b) == -((a as int) / (-(b as int))),
        a <= 0 && b < 0 ==> div_i64(a, b) == (-(a as int)) / (-(b as int)),
{
    let x = a as int;
    let d = b as int;
    if a == 0 {
        assert(x / d == 0) by (nonlinear_arith)
            requires
                x == 0,
                d != 0,
        ;
        assert((-x) / d == 0 && x / (-d) == 0 && (-x) / (-d) == 0) by (nonlinear_arith)
            requires
                x == 0,
                d != 0,
        ;
    } else if a > 0 && b > 0 {
        assert(0 <= x / d <= x) by (nonlinear_arith)
            requires
                x > 0,
                d > 0,
        ;
    } else if a < 0 && b < 0 {
        assert(0 <= (-x) / (-d) <= -x) by (nonlinear_arith)
            requires
                x < 0,
                d < 0,
        ;
        if a == i64::MIN {
            assert((-x) / (-d) <= (-x) / 2 < 0x8000_0000_0000_0000) by (nonlinear_arith)
                requires
                    x == -0x8000_0000_0000_0000,
                    d <= -2,
            ;
        }
    } else if a < 0 {
        assert(0 <= (-x) / d <= -x) by (nonlinear_arith)
            requires
                x < 0,
                d > 0,
        ;
    } else {
        assert(0 <= x / (-d) <= x) by (nonlinear_arith)
            requires
                x > 0,
                d < 0,
        ;
    }
}

// ---------------------------------------------------------------------
// One operator over two literals
// ---------------------------------------------------------------------

/// A sequence of digit bytes only.
pub open spec fn m_all_digits(d: Seq<u8>) -> bool {
    forall|t: int| 0 <= t < d.len() ==> 48 <= #[trigger] d[t] <= 57
}

/// Digit bytes hold no decimal point.
proof fn lemma_digits_no_dots(d: Seq<u8>)
    requires
        m_all_digits(d),
    ensures
        m_dots(d) == 0,
    decreases d.len(),
{
    if d.len() > 0 {
        lemma_digits_no_dots(d.drop_last());
    }
}

/// Scanning a run of digits only gathers them in the pending-number
/// buffer.
proof fn lemma_scan_digit_run(st: LexerModel, bs: Seq<u8>, k: int, j: int)
    requires
        0 <= k < j <= bs.len(),
        forall|t: int| k <= t < j ==> 48 <= #[trigger] bs[t] <= 57,
    ensures
        m_scan(st, bs, k) == m_scan(
            LexerModel {
                number_memory: st.number_memory + bs.subrange(k, j),
                i: (j - 1) as usize,
                ..st
            },
            bs,
            j,
        ),
    decreases j - k,
{
    let c = bs[k];
    let st2 = LexerModel { number_memory: st.number_memory.push(c), i: k as usize, ..st };
    assert(m_step(st, c, k as usize) == Ok::<LexerModel, Error>(st2));
    assert(m_scan(st, bs, k) == m_scan(st2, bs, k + 1));
    if k + 1 == j {
        assert(st.number_memory + bs.subrange(k, j) =~= st.number_memory.push(c));
    } else {
        lemma_scan_digit_run(st2, bs, k + 1, j);
        assert(st2.number_memory + bs.subrange(k + 1, j) =~= st.number_memory + bs.subrange(
            k,
            j,
        ));
    }
}

/// A binary operator node over two integer literals.
pub open spec fn m_int_binop(node: TokModel) -> bool {
    match node {
        TokModel::Add(a, b) => *a is I && *b is I,
        TokModel::Sub(a, b) => *a is I && *b is I,
        TokModel::Mul(a, b) => *a is I && *b is I,
        TokModel::Div(a, b) => *a is I && *b is I,
        _ => false,
    }
}

/// An integer literal child enumerates as one entry that points back at
/// its parent.
proof fn lemma_enter_int_child(v: TokModel, idx: usize, cp: usize)
    requires
        v is I,
    ensures
        m_enter_child(v, idx, cp) =~= seq![(Seq::<usize>::empty(), cp)],
{
    let e0 = (Seq::<usize>::empty(), 0usize);
    assert(m_enter(v) =~= seq![e0]);
    assert(m_adjust(Seq::<usize>::empty(), idx, v) =~= Seq::<usize>::empty());
    let f = |e: (Seq<usize>, usize)| (m_adjust(e.0, idx, v), m_add_sat(cp, e.1));
    assert(m_enter(v).map_values(f).len() == 1);
    assert(m_enter(v).map_values(f)[0] == f(e0));
    assert(m_add_sat(cp, 0) == cp);
}

/// Draining a document root that holds one binary operator over two
/// integer literals performs exactly that one operation.
proof fn lemma_run_single_binop(node: TokModel)
    requires
        m_int_binop(node),
    ensures
        local_result(node).1 is None,
        local_result(node).0 is I,
        m_plan(TokModel::Group(seq![node])).len() == 4,
        m_run(TokModel::Group(seq![node]), m_plan(TokModel::Group(seq![node])), 0) == (
            local_result(node).0,
            4int,
            None::<ReqModel>,
        ),
{
    let e0 = (Seq::<usize>::empty(), 0usize);
    let p1 = (seq![0usize], 1usize);
    let g = TokModel::Group(seq![node]);

    // the operator node enumerates as itself plus its two literal ends
    match node {
        TokModel::Add(a, b) => {
            lemma_enter_int_child(*a, 0, 0);
            lemma_enter_int_child(*b, 1, 0);
        },
        TokModel::Sub(a, b) => {
            lemma_enter_int_child(*a, 0, 0);
            lemma_enter_int_child(*b, 1, 0);
        },
        TokModel::Mul(a, b) => {
            lemma_enter_int_child(*a, 0, 0);
            lemma_enter_int_child(*b, 1, 0);
        },
        TokModel::Div(a, b) => {
            lemma_enter_int_child(*a, 0, 0);
            lemma_enter_int_child(*b, 1, 0);
        },
        _ => {},
    }
    assert(m_enter(node) =~= seq![e0, e0, e0]);

    // the document root adds itself, and the group boundary one priority
    assert(seq![node].drop_last() =~= Seq::<TokModel>::empty());
    assert(m_enter_group(Seq::<TokModel>::empty()) =~= Seq::<(Seq<usize>, usize)>::empty());
    let f = |e: (Seq<usize>, usize)| (m_adjust(e.0, 0, node), m_add_sat(1, e.1));
    assert(m_adjust(Seq::<usize>::empty(), 0, node) =~= seq![0usize]);
    assert(m_enter(node).map_values(f).len() == 3);
    assert(m_enter(node).map_values(f)[0] == f(e0));
    assert(m_enter(node).map_values(f)[1] == f(e0));
    assert(m_enter(node).map_values(f)[2] == f(e0));
    assert(m_enter_child(node, 0, 1) =~= seq![p1, p1, p1]);
    assert(m_enter_group(seq![node]) =~= seq![p1, p1, p1]);
    assert(m_enter(g) =~= seq![e0, p1, p1, p1]);

    // the plan: sorted ascending, then reversed
    assert(seq![e0, p1, p1, p1].drop_last() =~= seq![e0, p1, p1]);
    assert(seq![e0, p1, p1].drop_last() =~= seq![e0, p1]);
    assert(seq![e0, p1].drop_last() =~= seq![e0]);
    assert(seq![e0].drop_last() =~= Seq::<(Seq<usize>, usize)>::empty());
    assert(m_sort(Seq::<(Seq<usize>, usize)>::empty()) =~= Seq::<(Seq<usize>, usize)>::empty());
    assert(m_insert(Seq::<(Seq<usize>, usize)>::empty(), e0) =~= seq![e0]);
    assert(m_sort(seq![e0]) =~= seq![e0]);
    assert(m_insert(seq![e0], p1) =~= seq![e0, p1]);
    assert(m_sort(seq![e0, p1]) =~= seq![e0, p1]);
    assert(m_insert(seq![e0, p1], p1) =~= seq![e0, p1, p1]);
    assert(m_sort(seq![e0, p1, p1]) =~= seq![e0, p1, p1]);
    assert(m_insert(seq![e0, p1, p1], p1) =~= seq![e0, p1, p1, p1]);
    assert(m_sort(seq![e0, p1, p1, p1]) =~= seq![e0, p1, p1, p1]);
    assert(m_plan(g) =~= seq![p1, p1, p1, e0]);

    // the first visit reduces the operator in place
    let red = local_result(node).0;
    assert(local_result(node).1 is None && red is I);
    assert(seq![0usize].drop_last() =~= Seq::<usize>::empty());
    assert(seq![node][0] == node);
    assert(m_calc(node, Seq::<usize>::empty()) == local_result(node));
    assert(m_calc(g, seq![0usize]) == (
        TokModel::Group(seq![node].update(0, red)),
        local_result(node).1,
    ));
    assert(seq![node].update(0, red) =~= seq![red]);
    let g2 = TokModel::Group(seq![red]);

    // the later visits leave the reduced literal alone, then collapse the
    // root
    assert(local_result(red) == (red, None::<ReqModel>));
    assert(m_calc(red, Seq::<usize>::empty()) == (red, None::<ReqModel>));
    assert(m_calc(g2, seq![0usize]) == (
        TokModel::Group(seq![red].update(0, red)),
        None::<ReqModel>,
    ));
    assert(seq![red].update(0, red) =~= seq![red]);
    assert(m_calc(g2, Seq::<usize>::empty()) == (red, None::<ReqModel>));

    let plan = m_plan(g);
    assert(m_run(red, plan, 4) == (red, 4int, None::<ReqModel>));
    assert(m_run(g2, plan, 3) == (red, 4int, None::<ReqModel>));
    assert(m_run(g2, plan, 2) == (red, 4int, None::<ReqModel>));
    assert(m_run(g2, plan, 1) == (red, 4int, None::<ReqModel>));
    assert(m_run(g, plan, 0) == (red, 4int, None::<ReqModel>));
}

/// LAW: with two integer literals, one binary operator and no
/// parentheses, the whole computation is exactly that operator applied to
/// the two values, under the kernel's integer semantics (`+ - *` wrap,
/// `/` truncates toward zero with division by zero yielding zero).
#[verifier::rlimit(100)]
pub proof fn lemma_single_operator(d1: Seq<u8>, d2: Seq<u8>, op: u8)
    requires
        d1.len() > 0,
        d2.len() > 0,
        m_all_digits(d1),
        m_all_digits(d2),
        digits_val(d1) <= i64::MAX,
        digits_val(d2) <= i64::MAX,
        op == 43 || op == 45 || op == 42 || op == 47,
    ensures
        ({
            let v1 = digits_val(d1) as i64;
            let v2 = digits_val(d2) as i64;
            let bs = d1 + seq![op] + d2;
            &&& (op == 43 ==> m_kalc_i64(bs) == Ok::<i64, Error>(v1.wrapping_add(v2)))
            &&& (op == 45 ==> m_kalc_i64(bs) == Ok::<i64, Error>(v1.wrapping_sub(v2)))
            &&& (op == 42 ==> m_kalc_i64(bs) == Ok::<i64, Error>(v1.wrapping_mul(v2)))
            &&& (op == 47 ==> m_kalc_i64(bs) == Ok::<i64, Error>(div_i64(v1, v2)))
        }),
{
    lemma_digits_val_nonneg(d1);
    lemma_digits_val_nonneg(d2);
    lemma_digits_no_dots(d1);
    lemma_digits_no_dots(d2);
    let v1 = digits_val(d1) as i64;
    let v2 = digits_val(d2) as i64;
    let bs = d1 + seq![op] + d2;
    let n1 = d1.len() as int;
    let n = bs.len() as int;
    assert(bs[n1] == op);

    // scanning the first literal
    let st = m_empty_lexer();
    let st0 = LexerModel { data: st.data + bs, ..st };
    assert(forall|t: int| 0 <= t < n1 ==> 48 <= #[trigger] bs[t] <= 57);
    lemma_scan_digit_run(st0, bs, 0, n1);
    assert(bs.subrange(0, n1) =~= d1);
    let st1 = LexerModel { number_memory: d1, i: (n1 - 1) as usize, ..st0 };
    assert(st0.number_memory + bs.subrange(0, n1) =~= d1);
    assert(m_scan(st0, bs, 0) == m_scan(st1, bs, n1));

    // the operator flushes it and takes its place in the buffer
    let sym = if op == 43 {
        TokModel::SAdd
    } else if op == 45 {
        TokModel::SSub
    } else if op == 42 {
        TokModel::SMul
    } else {
        TokModel::SDiv
    };
    let st1i = LexerModel { i: n1 as usize, ..st1 };
    assert(m_step(st1, op, n1 as usize) == m_op(st1i, sym));
    assert(m_parse_lit(d1, n1 as usize) == Ok::<TokModel, Error>(TokModel::I(v1)));
    let st2 = LexerModel {
        tokens: seq![TokModel::I(v1)],
        number_memory: Seq::empty(),
        ..st1i
    };
    assert(st1i.tokens.push(TokModel::I(v1)) =~= seq![TokModel::I(v1)]);
    assert(m_process(st1i) == Ok::<LexerModel, Error>(st2));
    let st3 = LexerModel { tokens: seq![TokModel::I(v1), sym], ..st2 };
    assert(st2.tokens.push(sym) =~= seq![TokModel::I(v1), sym]);
    assert(m_op(st1i, sym) == Ok::<LexerModel, Error>(st3));
    assert(m_scan(st1, bs, n1) == m_scan(st3, bs, n1 + 1));

    // scanning the second literal
    assert(forall|t: int| n1 + 1 <= t < n ==> 48 <= #[trigger] bs[t] <= 57);
    lemma_scan_digit_run(st3, bs, n1 + 1, n);
    assert(st3.number_memory + bs.subrange(n1 + 1, n) =~= d2);
    let st4 = LexerModel { number_memory: d2, i: (n - 1) as usize, ..st3 };
    assert(m_scan(st3, bs, n1 + 1) == m_scan(st4, bs, n));
    assert(m_scan(st4, bs, n) == Ok::<LexerModel, Error>(st4));

    // the final flush folds literal, operator, literal into one node
    assert(m_parse_lit(d2, (n - 1) as usize) == Ok::<TokModel, Error>(TokModel::I(v2)));
    let ts3 = seq![TokModel::I(v1), sym, TokModel::I(v2)];
    assert(st4.tokens.push(TokModel::I(v2)) =~= ts3);
    let node = if op == 43 {
        TokModel::Add(Box::new(TokModel::I(v1)), Box::new(TokModel::I(v2)))
    } else if op == 45 {
        TokModel::Sub(Box::new(TokModel::I(v1)), Box::new(TokModel::I(v2)))
    } else if op == 42 {
        TokModel::Mul(Box::new(TokModel::I(v1)), Box::new(TokModel::I(v2)))
    } else {
        TokModel::Div(Box::new(TokModel::I(v1)), Box::new(TokModel::I(v2)))
    };
    assert(ts3.take(0int) + ts3.subrange(3int, 3int) =~= Seq::<TokModel>::empty());
    assert(Seq::<TokModel>::empty().push(node) =~= seq![node]);
    let st5 = LexerModel { tokens: seq![node], number_memory: Seq::empty(), ..st4 };
    assert(m_process(st4) == Ok::<LexerModel, Error>(st5));
    assert(m_parse(st, bs) == Ok::<LexerModel, Error>(st5));

    // the drain performs the one operation
    lemma_run_single_binop(node);
    assert(m_kalc(bs) == Ok::<(TokModel, Seq<(Seq<usize>, usize)>, int), Error>((
        local_result(node).0,
        m_plan(TokModel::Group(seq![node])),
        4int,
    )));
    assert(m_get_i64(local_result(node).0) == Ok::<i64, Error>(match local_result(node).0 {
        TokModel::I(v) => v,
        _ => 0,
    }));
}

} // verus!

