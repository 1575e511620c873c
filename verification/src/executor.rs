//! The priority evaluator.
//!
//! [`Executor::new`] wraps the scanner's output in one top-level group and
//! enumerates every node of the tree with its index path and its
//! parenthesis-nesting priority. The entries, sorted by priority
//! descending (ties in reversed discovery order), form the drain plan.
//! [`Executor::execute`] then follows each path in turn and attempts one
//! local reduction there; where the reduction needs floating-point work it
//! pauses and hands back a [`FloatReq`], and [`Executor::resume`] installs
//! the caller's answer and drives on.

use crate::lexer::{
    digits_val, lemma_digits_take_step, lemma_digits_val_nonneg, lemma_digits_val_prefix, Lexer,
};
use crate::token::{
    lemma_toks_model_ext, lemma_toks_model_index, lemma_toks_model_len, local_result, m_is_num,
    m_num, req_opt_model, tok_model, toks_model, Flt, FltModel, FloatReq, Num, ReqModel, TokModel,
    Token,
};
use crate::Error;
use vstd::prelude::*;

verus! {

broadcast use vstd::std_specs::vec::axiom_vec_index_decreases;

/// One drain-plan entry: the index path from the root (read from its
/// tail), and the node's priority.
pub type PlanEntry = (Vec<usize>, usize);

/// The mathematical shadow of a plan.
pub open spec fn plan_model(s: Seq<PlanEntry>) -> Seq<(Seq<usize>, usize)> {
    Seq::new(s.len(), |i: int| (s[i].0@, s[i].1))
}

/// Addition that stops at the top of `usize` instead of wrapping.
pub open spec fn m_add_sat(a: usize, b: usize) -> usize {
    if a + b > usize::MAX {
        usize::MAX
    } else {
        (a + b) as usize
    }
}

/// The adjusted path a child's enumeration entry gets: the child's index
/// is appended at the tail, and for a bare literal the innermost selector
/// is dropped, so the entry leads to the literal's parent.
pub open spec fn m_adjust(d: Seq<usize>, index: usize, child: TokModel) -> Seq<usize> {
    let d2 = d.push(index);
    if m_is_num(child) {
        d2.subrange(1, d2.len() as int)
    } else {
        d2
    }
}

/// The enumeration of one subtree: the subtree itself (empty path,
/// priority zero), then every descendant through [`m_enter_child`].
/// Crossing into a group's element costs one priority; crossing into an
/// operator's operand costs nothing.
pub open spec fn m_enter(t: TokModel) -> Seq<(Seq<usize>, usize)>
    decreases t, 0int,
{
    seq![(Seq::<usize>::empty(), 0usize)] + (match t {
        TokModel::Add(a, b) => m_enter_child(*a, 0, 0) + m_enter_child(*b, 1, 0),
        TokModel::Div(a, b) => m_enter_child(*a, 0, 0) + m_enter_child(*b, 1, 0),
        TokModel::Sub(a, b) => m_enter_child(*a, 0, 0) + m_enter_child(*b, 1, 0),
        TokModel::Mul(a, b) => m_enter_child(*a, 0, 0) + m_enter_child(*b, 1, 0),
        TokModel::Pow(a, b) => m_enter_child(*a, 0, 0) + m_enter_child(*b, 1, 0),
        TokModel::Sin(a) => m_enter_child(*a, 0, 0),
        TokModel::Cos(a) => m_enter_child(*a, 0, 0),
        TokModel::Sqrt(a) => m_enter_child(*a, 0, 0),
        TokModel::Group(ts) => m_enter_group(ts),
        _ => Seq::empty(),
    })
}

/// The enumeration entries contributed by one child at selector `index`,
/// `cp` priorities deep.
pub open spec fn m_enter_child(t: TokModel, index: usize, cp: usize) -> Seq<(Seq<usize>, usize)>
    decreases t, 1int,
{
    m_enter(t).map_values(|e: (Seq<usize>, usize)| (m_adjust(e.0, index, t), m_add_sat(cp, e.1)))
}

/// The entries contributed by a group's elements, in order.
pub open spec fn m_enter_group(ts: Seq<TokModel>) -> Seq<(Seq<usize>, usize)>
    decreases ts, 0int,
{
    if ts.len() == 0 {
        Seq::empty()
    } else {
        m_enter_group(ts.drop_last()) + m_enter_child(ts.last(), (ts.len() - 1) as usize, 1)
    }
}

// ---------------------------------------------------------------------
// The drain order
// ---------------------------------------------------------------------

/// Stable insertion from the right: the entry lands after every entry of
/// no higher priority.
pub open spec fn m_insert(s: Seq<(Seq<usize>, usize)>, e: (Seq<usize>, usize)) -> Seq<
    (Seq<usize>, usize),
>
    decreases s.len(),
{
    if s.len() == 0 {
        seq![e]
    } else if s.last().1 <= e.1 {
        s.push(e)
    } else {
        m_insert(s.drop_last(), e).push(s.last())
    }
}

/// Stable sort by priority ascending.
pub open spec fn m_sort(s: Seq<(Seq<usize>, usize)>) -> Seq<(Seq<usize>, usize)>
    decreases s.len(),
{
    if s.len() == 0 {
        Seq::empty()
    } else {
        m_insert(m_sort(s.drop_last()), s.last())
    }
}

/// The drain plan of a tree: its enumeration, sorted by priority
/// ascending and then reversed, so the deepest scopes come first and ties
/// keep a reversed discovery order.
pub open spec fn m_plan(t: TokModel) -> Seq<(Seq<usize>, usize)> {
    m_sort(m_enter(t)).reverse()
}

// ---------------------------------------------------------------------
// Following a path
// ---------------------------------------------------------------------

/// One drain visit: follow the path (consumed from its tail) down the
/// tree and attempt one local reduction at the node reached; a selector
/// that leads nowhere makes the visit a no-op.
pub open spec fn m_calc(t: TokModel, path: Seq<usize>) -> (TokModel, Option<ReqModel>)
    decreases path.len(),
{
    if path.len() == 0 {
        local_result(t)
    } else {
        let index = path.last();
        let rest = path.drop_last();
        match t {
            TokModel::Add(a, b) => {
                if index == 0 {
                    let s = m_calc(*a, rest);
                    (TokModel::Add(Box::new(s.0), b), s.1)
                } else {
                    let s = m_calc(*b, rest);
                    (TokModel::Add(a, Box::new(s.0)), s.1)
                }
            },
            TokModel::Div(a, b) => {
                if index == 0 {
                    let s = m_calc(*a, rest);
                    (TokModel::Div(Box::new(s.0), b), s.1)
                } else {
                    let s = m_calc(*b, rest);
                    (TokModel::Div(a, Box::new(s.0)), s.1)
                }
            },
            TokModel::Sub(a, b) => {
                if index == 0 {
                    let s = m_calc(*a, rest);
                    (TokModel::Sub(Box::new(s.0), b), s.1)
                } else {
                    let s = m_calc(*b, rest);
                    (TokModel::Sub(a, Box::new(s.0)), s.1)
                }
            },
            TokModel::Mul(a, b) => {
                if index == 0 {
                    let s = m_calc(*a, rest);
                    (TokModel::Mul(Box::new(s.0), b), s.1)
                } else {
                    let s = m_calc(*b, rest);
                    (TokModel::Mul(a, Box::new(s.0)), s.1)
                }
            },
            TokModel::Pow(a, b) => {
                if index == 0 {
                    let s = m_calc(*a, rest);
                    (TokModel::Pow(Box::new(s.0), b), s.1)
                } else {
                    let s = m_calc(*b, rest);
                    (TokModel::Pow(a, Box::new(s.0)), s.1)
                }
            },
            TokModel::Sin(a) => {
                let s = m_calc(*a, rest);
                (TokModel::Sin(Box::new(s.0)), s.1)
            },
            TokModel::Cos(a) => {
                let s = m_calc(*a, rest);
                (TokModel::Cos(Box::new(s.0)), s.1)
            },
            TokModel::Sqrt(a) => {
                let s = m_calc(*a, rest);
                (TokModel::Sqrt(Box::new(s.0)), s.1)
            },
            TokModel::Group(ts) => {
                if index < ts.len() {
                    let s = m_calc(ts[index as int], rest);
                    (TokModel::Group(ts.update(index as int, s.0)), s.1)
                } else {
                    (t, None)
                }
            },
            _ => (t, None),
        }
    }
}

/// Replacing the node a path leads to by a computed float, provided that
/// node was indeed awaiting floating-point work.
pub open spec fn m_install(t: TokModel, path: Seq<usize>, bits: u64) -> TokModel
    decreases path.len(),
{
    if path.len() == 0 {
        if local_result(t).1 is Some {
            TokModel::F(FltModel::Bits(bits))
        } else {
            t
        }
    } else {
        let index = path.last();
        let rest = path.drop_last();
        match t {
            TokModel::Add(a, b) => {
                if index == 0 {
                    TokModel::Add(Box::new(m_install(*a, rest, bits)), b)
                } else {
                    TokModel::Add(a, Box::new(m_install(*b, rest, bits)))
                }
            },
            TokModel::Div(a, b) => {
                if index == 0 {
                    TokModel::Div(Box::new(m_install(*a, rest, bits)), b)
                } else {
                    TokModel::Div(a, Box::new(m_install(*b, rest, bits)))
                }
            },
            TokModel::Sub(a, b) => {
                if index == 0 {
                    TokModel::Sub(Box::new(m_install(*a, rest, bits)), b)
                } else {
                    TokModel::Sub(a, Box::new(m_install(*b, rest, bits)))
                }
            },
            TokModel::Mul(a, b) => {
                if index == 0 {
                    TokModel::Mul(Box::new(m_install(*a, rest, bits)), b)
                } else {
                    TokModel::Mul(a, Box::new(m_install(*b, rest, bits)))
                }
            },
            TokModel::Pow(a, b) => {
                if index == 0 {
                    TokModel::Pow(Box::new(m_install(*a, rest, bits)), b)
                } else {
                    TokModel::Pow(a, Box::new(m_install(*b, rest, bits)))
                }
            },
            TokModel::Sin(a) => TokModel::Sin(Box::new(m_install(*a, rest, bits))),
            TokModel::Cos(a) => TokModel::Cos(Box::new(m_install(*a, rest, bits))),
            TokModel::Sqrt(a) => TokModel::Sqrt(Box::new(m_install(*a, rest, bits))),
            TokModel::Group(ts) => {
                if index < ts.len() {
                    TokModel::Group(ts.update(index as int, m_install(ts[index as int], rest, bits)))
                } else {
                    t
                }
            },
            _ => t,
        }
    }
}

/// The drain from entry `pos` on: one visit per entry, stopping early
/// where a visit needs floating-point work. Yields the tree, the entry
/// the drain stopped at, and the pending request if any.
pub open spec fn m_run(g: TokModel, plan: Seq<(Seq<usize>, usize)>, pos: int) -> (
    TokModel,
    int,
    Option<ReqModel>,
)
    decreases plan.len() - pos,
{
    if pos < 0 || pos >= plan.len() {
        (g, pos, None)
    } else {
        let s = m_calc(g, plan[pos].0);
        if s.1 is Some {
            (s.0, pos, s.1)
        } else {
            m_run(s.0, plan, pos + 1)
        }
    }
}

// ---------------------------------------------------------------------
// Reading the result out
// ---------------------------------------------------------------------

/// The length of the leading run of digits.
pub open spec fn m_digit_prefix(d: Seq<u8>) -> int
    decreases d.len(),
{
    if d.len() == 0 {
        0
    } else if !(48 <= d.first() <= 57) {
        0
    } else {
        1 + m_digit_prefix(d.drop_first())
    }
}

/// A decimal literal truncated toward zero: the value of its leading
/// digits, topping out at `i64::MAX`.
pub open spec fn m_dec_trunc(d: Seq<u8>) -> i64 {
    let v = digits_val(d.take(m_digit_prefix(d)));
    if v > i64::MAX {
        i64::MAX
    } else {
        v as i64
    }
}

/// What reading the tree as an integer yields: the integer itself; a
/// float literal truncated from its text; an error for a computed float
/// (truncating it is floating-point work) or an unreduced tree.
pub open spec fn m_get_i64(g: TokModel) -> Result<i64, Error> {
    match g {
        TokModel::I(n) => Ok(n),
        TokModel::F(f) => match f {
            FltModel::Dec(d) => Ok(m_dec_trunc(d)),
            FltModel::Bits(_) => Err(Error::FloatNeeded),
        },
        _ => Err(Error::NotReduced),
    }
}

/// Where the leading digit run provably ends, [`m_digit_prefix`] is that
/// point.
proof fn lemma_digit_prefix_char(d: Seq<u8>, j: int)
    requires
        0 <= j <= d.len(),
        forall|k: int| 0 <= k < j ==> 48 <= #[trigger] d[k] <= 57,
        j < d.len() ==> !(48 <= d[j] <= 57),
    ensures
        m_digit_prefix(d) == j,
    decreases d.len(),
{
    if j == 0 {
    } else {
        assert forall|k: int| 0 <= k < j - 1 implies 48 <= #[trigger] d.drop_first()[k]
            <= 57 by {
            assert(d.drop_first()[k] == d[k + 1]);
        }
        lemma_digit_prefix_char(d.drop_first(), j - 1);
    }
}

/// Where the right-to-left scan of [`m_insert`] stops, the insertion is a
/// plain splice.
proof fn lemma_insert_at(s: Seq<(Seq<usize>, usize)>, e: (Seq<usize>, usize), j: int)
    requires
        0 <= j <= s.len(),
        forall|k: int| j <= k < s.len() ==> (#[trigger] s[k]).1 > e.1,
        j > 0 ==> s[j - 1].1 <= e.1,
    ensures
        m_insert(s, e) == s.take(j) + seq![e] + s.subrange(j, s.len() as int),
    decreases s.len(),
{
    if j == s.len() {
        if s.len() == 0 {
            assert(m_insert(s, e) =~= s.take(j) + seq![e] + s.subrange(j, s.len() as int));
        } else {
            assert(s.last().1 <= e.1);
            assert(m_insert(s, e) =~= s.take(j) + seq![e] + s.subrange(j, s.len() as int));
        }
    } else {
        assert(s.last().1 > e.1);
        lemma_insert_at(s.drop_last(), e, j);
        assert(s.drop_last().take(j) =~= s.take(j));
        assert(s.drop_last().subrange(j, s.drop_last().len() as int) =~= s.subrange(
            j,
            s.len() - 1,
        ));
        assert(m_insert(s.drop_last(), e).push(s.last()) =~= s.take(j) + seq![e] + s.subrange(
            j,
            s.len() as int,
        ));
    }
}

/// The scanner's evaluation session.
pub struct Executor {
    group: Token,
    plan: Vec<PlanEntry>,
    pos: usize,
}

/// The mathematical shadow of [`Executor`].
pub ghost struct ExecutorModel {
    pub group: TokModel,
    pub plan: Seq<(Seq<usize>, usize)>,
    pub pos: usize,
}

impl View for Executor {
    type V = ExecutorModel;

    closed spec fn view(&self) -> ExecutorModel {
        ExecutorModel {
            group: tok_model(self.group),
            plan: plan_model(self.plan@),
            pos: self.pos,
        }
    }
}

/// An element-for-element copy of a path.
fn dup_path(d: &Vec<usize>) -> (r: Vec<usize>)
    ensures
        r@ == d@,
{
    let mut r: Vec<usize> = Vec::new();
    let mut i: usize = 0;
    while i < d.len()
        invariant
            i <= d.len(),
            r@ == d@.take(i as int),
        decreases d.len() - i,
    {
        r.push(d[i]);
        i += 1;
    }
    assert(d@.take(d@.len() as int) == d@);
    r
}

impl Executor {
    /// Wraps a scanner's finished buffer in the document-root group and
    /// lays out the whole drain plan.
    pub fn new(lexer: Lexer) -> (r: Executor)
        ensures
            r@.group == TokModel::Group(lexer@.tokens),
            r@.plan == m_plan(TokModel::Group(lexer@.tokens)),
            r@.pos == 0,
    {
        let group = Token::Group(lexer.tokens);
        let entries = Self::enter(&group);
        let sorted = Self::sort_plan(entries);
        let plan = Self::reverse_plan(sorted);
        Executor { group, plan, pos: 0 }
    }

    /// Enumerates a subtree, exactly [`m_enter`].
    pub fn enter(token: &Token) -> (r: Vec<PlanEntry>)
        ensures
            plan_model(r@) == m_enter(token@),
        decreases token, 0int,
    {
        let mut results: Vec<PlanEntry> = Vec::new();
        results.push((Vec::new(), 0));
        proof {
            assert(plan_model(results@) =~= seq![(Seq::<usize>::empty(), 0usize)]);
        }
        let ghost base = seq![(Seq::<usize>::empty(), 0usize)];
        match token {
            Token::Add(a, b) | Token::Div(a, b) | Token::Sub(a, b) | Token::Mul(a, b)
                | Token::Pow(a, b) => {
                Self::enter_child(&mut results, a, 0, 0);
                Self::enter_child(&mut results, b, 1, 0);
                proof {
                    assert(plan_model(results@) =~= base + (m_enter_child(tok_model(**a), 0, 0)
                        + m_enter_child(tok_model(**b), 1, 0)));
                }
            },
            Token::Sin(a) | Token::Cos(a) | Token::Sqrt(a) => {
                Self::enter_child(&mut results, a, 0, 0);
            },
            Token::Group(ts) => {
                proof {
                    lemma_toks_model_len(ts@);
                    assert(toks_model(ts@).take(0) =~= Seq::<TokModel>::empty());
                }
                let n = ts.len();
                let mut idx: usize = 0;
                while idx < n
                    invariant
                        idx <= n,
                        n == ts@.len(),
                        plan_model(results@) == base + m_enter_group(
                            toks_model(ts@).take(idx as int),
                        ),
                    decreases n - idx,
                {
                    proof {
                        lemma_toks_model_index(ts@, idx as int);
                        assert(toks_model(ts@).take(idx as int + 1).drop_last() =~= toks_model(
                            ts@,
                        ).take(idx as int));
                        assert(toks_model(ts@).take(idx as int + 1).last() == toks_model(
                            ts@,
                        )[idx as int]);
                    }
                    Self::enter_child(&mut results, &ts[idx], idx, 1);
                    proof {
                        assert(plan_model(results@) =~= base + m_enter_group(
                            toks_model(ts@).take(idx as int + 1),
                        ));
                    }
                    idx += 1;
                }
                proof {
                    assert(toks_model(ts@).take(n as int) =~= toks_model(ts@));
                }
            },
            _ => {
                proof {
                    assert(plan_model(results@) =~= base + Seq::<(Seq<usize>, usize)>::empty());
                }
            },
        }
        results
    }

    /// Adds one child's enumeration entries, exactly [`m_enter_child`].
    fn enter_child(results: &mut Vec<PlanEntry>, child: &Token, index: usize, cp: usize)
        ensures
            plan_model(final(results)@) == plan_model(old(results)@) + m_enter_child(
                child@,
                index,
                cp,
            ),
        decreases child, 1int,
    {
        let mut sub = Self::enter(child);
        let nn = child.is_num();
        let ghost sub0 = plan_model(sub@);
        let ghost f = |e: (Seq<usize>, usize)| (m_adjust(e.0, index, child@), m_add_sat(cp, e.1));
        let ghost mut k: int = 0;
        proof {
            assert(plan_model(sub@) =~= sub0.subrange(0, sub0.len() as int));
            assert(sub0.map_values(f).take(0) =~= Seq::<(Seq<usize>, usize)>::empty());
            assert(plan_model(old(results)@) + sub0.map_values(f).take(0) =~= plan_model(
                old(results)@,
            ));
        }
        while sub.len() > 0
            invariant
                0 <= k,
                k + sub@.len() == sub0.len(),
                plan_model(sub@) == sub0.subrange(k, sub0.len() as int),
                plan_model(results@) == plan_model(old(results)@) + sub0.map_values(f).take(k),
            decreases sub@.len(),
        {
            let ghost pre_sub = plan_model(sub@);
            let ghost pre_vec = sub@;
            let (mut d, p) = sub.remove(0);
            proof {
                assert((d@, p) == pre_sub[0]);
                assert(pre_sub[0] == sub0[k]);
                assert forall|i: int| 0 <= i < sub@.len() implies plan_model(sub@)[i]
                    == sub0.subrange(k + 1, sub0.len() as int)[i] by {
                    assert(sub@[i] == pre_vec[i + 1]);
                    assert(pre_sub[i + 1] == sub0[k + 1 + i]);
                }
                assert(plan_model(sub@) =~= sub0.subrange(k + 1, sub0.len() as int));
            }
            let ghost d0 = d@;
            d.push(index);
            if nn {
                let _first = d.remove(0);
                proof {
                    assert(d@ =~= d0.push(index).subrange(1, d0.push(index).len() as int));
                }
            }
            let pr = if p <= usize::MAX - cp {
                cp + p
            } else {
                usize::MAX
            };
            let ghost pre_results = plan_model(results@);
            results.push((d, pr));
            proof {
                assert((d@, pr) == f(sub0[k]));
                assert(sub0.map_values(f).take(k + 1) =~= sub0.map_values(f).take(k).push(
                    f(sub0[k]),
                ));
                assert(plan_model(results@) =~= pre_results.push(f(sub0[k])));
                k = k + 1;
            }
        }
        proof {
            assert(sub0.map_values(f).take(k) =~= sub0.map_values(f));
            assert(m_enter_child(child@, index, cp) == m_enter(child@).map_values(f));
        }
    }

    /// Inserts one entry into a priority-sorted plan, exactly
    /// [`m_insert`].
    fn insert_plan(out: &mut Vec<PlanEntry>, e: PlanEntry)
        ensures
            plan_model(final(out)@) == m_insert(plan_model(old(out)@), (e.0@, e.1)),
    {
        let ghost m0 = plan_model(out@);
        let ghost ge = (e.0@, e.1);
        let pr = e.1;
        let mut j = out.len();
        let mut go = true;
        while go && j > 0
            invariant
                j <= out@.len(),
                out == old(out),
                forall|k: int| j <= k < m0.len() ==> m0[k].1 > pr,
                !go ==> (j > 0 && m0[j - 1].1 <= pr),
            decreases j + (if go { 1int } else { 0 }),
        {
            if out[j - 1].1 <= pr {
                go = false;
            } else {
                j -= 1;
            }
        }
        let ghost jj = j as int;
        out.insert(j, e);
        proof {
            lemma_insert_at(m0, ge, jj);
            assert(plan_model(out@) =~= m0.take(jj) + seq![ge] + m0.subrange(
                jj,
                m0.len() as int,
            ));
        }
    }

    /// Sorts a plan by priority ascending, stably, exactly [`m_sort`].
    fn sort_plan(entries: Vec<PlanEntry>) -> (r: Vec<PlanEntry>)
        ensures
            plan_model(r@) == m_sort(plan_model(entries@)),
    {
        let ghost m0 = plan_model(entries@);
        let mut out: Vec<PlanEntry> = Vec::new();
        let mut rest = entries;
        let ghost mut k: int = 0;
        proof {
            assert(plan_model(rest@) =~= m0.subrange(0, m0.len() as int));
            assert(m0.take(0) =~= Seq::<(Seq<usize>, usize)>::empty());
            assert(plan_model(out@) =~= m_sort(m0.take(0)));
        }
        while rest.len() > 0
            invariant
                0 <= k,
                k + rest@.len() == m0.len(),
                plan_model(rest@) == m0.subrange(k, m0.len() as int),
                plan_model(out@) == m_sort(m0.take(k)),
            decreases rest@.len(),
        {
            let ghost pre_m = plan_model(rest@);
            let ghost pre_vec = rest@;
            let e = rest.remove(0);
            proof {
                assert((e.0@, e.1) == pre_m[0]);
                assert(pre_m[0] == m0[k]);
                assert forall|i: int| 0 <= i < rest@.len() implies plan_model(rest@)[i]
                    == m0.subrange(k + 1, m0.len() as int)[i] by {
                    assert(rest@[i] == pre_vec[i + 1]);
                    assert(pre_m[i + 1] == m0[k + 1 + i]);
                }
                assert(plan_model(rest@) =~= m0.subrange(k + 1, m0.len() as int));
            }
            Self::insert_plan(&mut out, e);
            proof {
                assert(m0.take(k + 1).drop_last() =~= m0.take(k));
                assert(m0.take(k + 1).last() == m0[k]);
                k = k + 1;
            }
        }
        proof {
            assert(m0.take(k) =~= m0);
        }
        out
    }

    /// Reverses a plan.
    fn reverse_plan(v: Vec<PlanEntry>) -> (r: Vec<PlanEntry>)
        ensures
            plan_model(r@) == plan_model(v@).reverse(),
    {
        let ghost m0 = plan_model(v@);
        let mut out: Vec<PlanEntry> = Vec::new();
        let mut src = v;
        proof {
            assert(plan_model(src@) =~= m0.take(src@.len() as int));
        }
        while src.len() > 0
            invariant
                out@.len() + src@.len() == m0.len(),
                plan_model(src@) == m0.take(src@.len() as int),
                forall|i: int|
                    0 <= i < out@.len() ==> plan_model(out@)[i] == m0[m0.len() - 1 - i],
            decreases src@.len(),
        {
            let ghost pre_m = plan_model(src@);
            let ghost pre_out = plan_model(out@);
            let ghost pre_len = src@.len() as int;
            match src.pop() {
                Some(e) => {
                    proof {
                        assert((e.0@, e.1) == pre_m[pre_len - 1]);
                        assert(pre_m[pre_len - 1] == m0[pre_len - 1]);
                        assert forall|i: int| 0 <= i < src@.len() implies plan_model(src@)[i]
                            == m0.take(src@.len() as int)[i] by {
                            assert(plan_model(src@)[i] == pre_m[i]);
                        }
                        assert(plan_model(src@) =~= m0.take(src@.len() as int));
                    }
                    out.push(e);
                    proof {
                        assert forall|i: int| 0 <= i < out@.len() implies plan_model(out@)[i]
                            == m0[m0.len() - 1 - i] by {
                            if i < out@.len() - 1 {
                                assert(plan_model(out@)[i] == pre_out[i]);
                            } else {
                                assert(plan_model(out@)[i] == (e.0@, e.1));
                            }
                        }
                    }
                },
                None => {},
            }
        }
        proof {
            assert(plan_model(out@) =~= m0.reverse());
        }
        out
    }

    /// One drain visit through a path, exactly [`m_calc`].
    fn calculate(token: &mut Token, indexes: Vec<usize>) -> (r: Option<FloatReq>)
        ensures
            ({
                let s = m_calc(old(token)@, indexes@);
                final(token)@ == s.0 && req_opt_model(r) == s.1
            }),
    {
        let mut t = Token::Inf;
        core::mem::swap(token, &mut t);
        let (t2, r) = Self::calc_val(t, indexes);
        *token = t2;
        r
    }

    /// [`Executor::calculate`], by value.
    fn calc_val(t: Token, indexes: Vec<usize>) -> (r: (Token, Option<FloatReq>))
        ensures
            ({
                let s = m_calc(t@, indexes@);
                r.0@ == s.0 && req_opt_model(r.1) == s.1
            }),
        decreases indexes@.len(),
    {
        let mut idxs = indexes;
        match idxs.pop() {
            None => {
                let mut tok = t;
                let q = tok.calculate();
                (tok, q)
            },
            Some(index) => match t {
                Token::Add(a, b) => {
                    if index == 0 {
                        let s = Self::calc_val(*a, idxs);
                        (Token::Add(Box::new(s.0), b), s.1)
                    } else {
                        let s = Self::calc_val(*b, idxs);
                        (Token::Add(a, Box::new(s.0)), s.1)
                    }
                },
                Token::Div(a, b) => {
                    if index == 0 {
                        let s = Self::calc_val(*a, idxs);
                        (Token::Div(Box::new(s.0), b), s.1)
                    } else {
                        let s = Self::calc_val(*b, idxs);
                        (Token::Div(a, Box::new(s.0)), s.1)
                    }
                },
                Token::Sub(a, b) => {
                    if index == 0 {
                        let s = Self::calc_val(*a, idxs);
                        (Token::Sub(Box::new(s.0), b), s.1)
                    } else {
                        let s = Self::calc_val(*b, idxs);
                        (Token::Sub(a, Box::new(s.0)), s.1)
                    }
                },
                Token::Mul(a, b) => {
                    if index == 0 {
                        let s = Self::calc_val(*a, idxs);
                        (Token::Mul(Box::new(s.0), b), s.1)
                    } else {
                        let s = Self::calc_val(*b, idxs);
                        (Token::Mul(a, Box::new(s.0)), s.1)
                    }
                },
                Token::Pow(a, b) => {
                    if index == 0 {
                        let s = Self::calc_val(*a, idxs);
                        (Token::Pow(Box::new(s.0), b), s.1)
                    } else {
                        let s = Self::calc_val(*b, idxs);
                        (Token::Pow(a, Box::new(s.0)), s.1)
                    }
                },
                Token::Sin(a) => {
                    let s = Self::calc_val(*a, idxs);
                    (Token::Sin(Box::new(s.0)), s.1)
                },
                Token::Cos(a) => {
                    let s = Self::calc_val(*a, idxs);
                    (Token::Cos(Box::new(s.0)), s.1)
                },
                Token::Sqrt(a) => {
                    let s = Self::calc_val(*a, idxs);
                    (Token::Sqrt(Box::new(s.0)), s.1)
                },
                Token::Group(mut ts) => {
                    proof {
                        lemma_toks_model_len(ts@);
                    }
                    if index < ts.len() {
                        let ghost ots = ts@;
                        proof {
                            lemma_toks_model_index(ots, index as int);
                        }
                        let sub = ts.remove(index);
                        let s = Self::calc_val(sub, idxs);
                        let ghost fixed = s.0;
                        ts.insert(index, s.0);
                        proof {
                            lemma_toks_model_len(ots);
                            assert(ts@ =~= ots.update(index as int, fixed));
                            assert forall|i: int| 0 <= i < ts@.len() implies toks_model(
                                ots,
                            ).update(index as int, tok_model(fixed))[i] == tok_model(
                                #[trigger] ts@[i],
                            ) by {
                                lemma_toks_model_index(ots, i);
                            }
                            lemma_toks_model_ext(
                                ts@,
                                toks_model(ots).update(index as int, tok_model(fixed)),
                            );
                        }
                        (Token::Group(ts), s.1)
                    } else {
                        (Token::Group(ts), None)
                    }
                },
                other => (other, None),
            },
        }
    }

    /// Drives the drain from where it stands until it finishes or needs
    /// floating-point work, exactly [`m_run`]. Called again while a
    /// request is pending, it hands back the same request.
    pub fn execute(&mut self) -> (r: Option<FloatReq>)
        ensures
            ({
                let s = m_run(old(self)@.group, old(self)@.plan, old(self)@.pos as int);
                final(self)@.group == s.0 && final(self)@.pos == s.1 && req_opt_model(r) == s.2
                    && final(self)@.plan == old(self)@.plan
            }),
    {
        if self.pos >= self.plan.len() {
            return None;
        }
        while self.pos < self.plan.len()
            invariant
                self.pos <= self.plan@.len(),
                self@.plan == old(self)@.plan,
                m_run(old(self)@.group, old(self)@.plan, old(self)@.pos as int) == m_run(
                    self@.group,
                    self@.plan,
                    self@.pos as int,
                ),
            decreases self.plan@.len() - self.pos,
        {
            let path = dup_path(&self.plan[self.pos].0);
            let r = Self::calculate(&mut self.group, path);
            match r {
                Some(req) => {
                    return Some(req);
                },
                None => {
                    self.pos += 1;
                },
            }
        }
        None
    }

    /// Answers the pending floating-point request with the bits of its
    /// result, installs them at the paused node, and drives on.
    pub fn resume(&mut self, bits: u64) -> (r: Option<FloatReq>)
        ensures
            ({
                let m = old(self)@;
                if m.pos < m.plan.len() {
                    let g2 = m_install(m.group, m.plan[m.pos as int].0, bits);
                    let s = m_run(g2, m.plan, m.pos + 1);
                    final(self)@.group == s.0 && final(self)@.pos == s.1 && req_opt_model(r)
                        == s.2 && final(self)@.plan == m.plan
                } else {
                    final(self)@ == m && r is None
                }
            }),
    {
        if self.pos < self.plan.len() {
            let path = dup_path(&self.plan[self.pos].0);
            Self::install(&mut self.group, path, bits);
            self.pos += 1;
            self.execute()
        } else {
            None
        }
    }

    /// Whether the drain stopped early, which happens exactly when a
    /// floating-point request awaits its answer.
    pub fn pending(&self) -> (r: bool)
        ensures
            r == ((self@.pos as int) < self@.plan.len()),
    {
        self.pos < self.plan.len()
    }

    /// Whether a local reduction of this node would need floating-point
    /// work.
    fn awaits_float(t: &Token) -> (r: bool)
        ensures
            r == (local_result(t@).1 is Some),
    {
        match t {
            Token::Add(a, b) => a.is_num() && b.is_num() && !(Self::is_int(a) && Self::is_int(b)),
            Token::Sub(a, b) => a.is_num() && b.is_num() && !(Self::is_int(a) && Self::is_int(b)),
            Token::Mul(a, b) => a.is_num() && b.is_num() && !(Self::is_int(a) && Self::is_int(b)),
            Token::Div(a, b) => a.is_num() && b.is_num() && !b.is_zero() && !(Self::is_int(a)
                && Self::is_int(b)),
            Token::Sin(a) => a.is_num(),
            Token::Cos(a) => a.is_num(),
            Token::Sqrt(a) => a.is_num(),
            Token::Pow(a, b) => a.is_num() && b.is_num(),
            _ => false,
        }
    }

    /// Whether this node is an integer literal.
    fn is_int(t: &Token) -> (r: bool)
        ensures
            r == (t@ is I),
    {
        matches!(t, Token::I(_))
    }

    /// Replaces the node a path leads to by a computed float, exactly
    /// [`m_install`].
    fn install(token: &mut Token, indexes: Vec<usize>, bits: u64)
        ensures
            final(token)@ == m_install(old(token)@, indexes@, bits),
    {
        let mut t = Token::Inf;
        core::mem::swap(token, &mut t);
        let t2 = Self::install_val(t, indexes, bits);
        *token = t2;
    }

    /// [`Executor::install`], by value.
    fn install_val(t: Token, indexes: Vec<usize>, bits: u64) -> (r: Token)
        ensures
            r@ == m_install(t@, indexes@, bits),
        decreases indexes@.len(),
    {
        let mut idxs = indexes;
        match idxs.pop() {
            None => {
                if Self::awaits_float(&t) {
                    Token::F(Flt::Bits(bits))
                } else {
                    t
                }
            },
            Some(index) => match t {
                Token::Add(a, b) => {
                    if index == 0 {
                        Token::Add(Box::new(Self::install_val(*a, idxs, bits)), b)
                    } else {
                        Token::Add(a, Box::new(Self::install_val(*b, idxs, bits)))
                    }
                },
                Token::Div(a, b) => {
                    if index == 0 {
                        Token::Div(Box::new(Self::install_val(*a, idxs, bits)), b)
                    } else {
                        Token::Div(a, Box::new(Self::install_val(*b, idxs, bits)))
                    }
                },
                Token::Sub(a, b) => {
                    if index == 0 {
                        Token::Sub(Box::new(Self::install_val(*a, idxs, bits)), b)
                    } else {
                        Token::Sub(a, Box::new(Self::install_val(*b, idxs, bits)))
                    }
                },
                Token::Mul(a, b) => {
                    if index == 0 {
                        Token::Mul(Box::new(Self::install_val(*a, idxs, bits)), b)
                    } else {
                        Token::Mul(a, Box::new(Self::install_val(*b, idxs, bits)))
                    }
                },
                Token::Pow(a, b) => {
                    if index == 0 {
                        Token::Pow(Box::new(Self::install_val(*a, idxs, bits)), b)
                    } else {
                        Token::Pow(a, Box::new(Self::install_val(*b, idxs, bits)))
                    }
                },
                Token::Sin(a) => Token::Sin(Box::new(Self::install_val(*a, idxs, bits))),
                Token::Cos(a) => Token::Cos(Box::new(Self::install_val(*a, idxs, bits))),
                Token::Sqrt(a) => Token::Sqrt(Box::new(Self::install_val(*a, idxs, bits))),
                Token::Group(mut ts) => {
                    proof {
                        lemma_toks_model_len(ts@);
                    }
                    if index < ts.len() {
                        let ghost ots = ts@;
                        proof {
                            lemma_toks_model_index(ots, index as int);
                        }
                        let sub = ts.remove(index);
                        let fixed = Self::install_val(sub, idxs, bits);
                        let ghost gfixed = fixed;
                        ts.insert(index, fixed);
                        proof {
                            lemma_toks_model_len(ots);
                            assert(ts@ =~= ots.update(index as int, gfixed));
                            assert forall|i: int| 0 <= i < ts@.len() implies toks_model(
                                ots,
                            ).update(index as int, tok_model(gfixed))[i] == tok_model(
                                #[trigger] ts@[i],
                            ) by {
                                lemma_toks_model_index(ots, i);
                            }
                            lemma_toks_model_ext(
                                ts@,
                                toks_model(ots).update(index as int, tok_model(gfixed)),
                            );
                        }
                        Token::Group(ts)
                    } else {
                        Token::Group(ts)
                    }
                },
                other => other,
            },
        }
    }

    /// The tree's value as an integer, exactly [`m_get_i64`].
    pub fn get_i64(&self) -> (r: Result<i64, Error>)
        ensures
            r == m_get_i64(self@.group),
    {
        match &self.group {
            Token::I(n) => Ok(*n),
            Token::F(f) => match f {
                Flt::Dec(d) => Ok(Self::dec_trunc(d)),
                Flt::Bits(_) => Err(Error::FloatNeeded),
            },
            _ => Err(Error::NotReduced),
        }
    }

    /// The tree's value, where it has been reduced to one literal.
    pub fn value(&self) -> (r: Result<Num, Error>)
        ensures
            m_is_num(self@.group) ==> r is Ok && r->Ok_0@ == m_num(self@.group),
            !m_is_num(self@.group) ==> r == Err::<Num, Error>(Error::NotReduced),
    {
        match self.group.as_num() {
            Some(n) => Ok(n),
            None => Err(Error::NotReduced),
        }
    }

    /// Truncates a decimal literal toward zero, exactly [`m_dec_trunc`].
    fn dec_trunc(d: &Vec<u8>) -> (r: i64)
        ensures
            r == m_dec_trunc(d@),
    {
        let n = d.len();
        let mut j: usize = 0;
        let mut scanning = true;
        while scanning && j < n
            invariant
                j <= n,
                forall|k: int| 0 <= k < j ==> 48 <= #[trigger] d@[k] <= 57,
                !scanning ==> (j < n && !(48 <= d@[j as int] <= 57)),
            decreases n - j + (if scanning {
                1int
            } else {
                0
            }),
        {
            if d[j] < 48 || d[j] > 57 {
                scanning = false;
            } else {
                j += 1;
            }
        }
        proof {
            lemma_digit_prefix_char(d@, j as int);
        }
        let ghost ip = d@.take(j as int);
        let mut acc: u64 = 0;
        let mut k: usize = 0;
        proof {
            assert(forall|t: int| 0 <= t < ip.len() ==> 48 <= #[trigger] ip[t] <= 57);
        }
        while k < j
            invariant
                k <= j,
                j <= n,
                n == d@.len(),
                forall|t: int| 0 <= t < j ==> 48 <= #[trigger] d@[t] <= 57,
                acc == digits_val(d@.take(k as int)),
                acc <= 0x7fff_ffff_ffff_ffffu64,
            decreases j - k,
        {
            proof {
                lemma_digits_take_step(d@, k as int);
                assert(d@.take(k as int) =~= ip.take(k as int));
            }
            let dig = (d[k] - 48) as u64;
            if acc > (0x7fff_ffff_ffff_ffffu64 - dig) / 10 {
                proof {
                    lemma_digits_val_prefix(ip, k as int + 1);
                    assert(ip.take(k as int + 1) =~= d@.take(k as int + 1));
                    assert(ip.take(ip.len() as int) =~= ip);
                }
                return i64::MAX;
            }
            acc = acc * 10 + dig;
            k += 1;
        }
        proof {
            assert(d@.take(j as int) =~= ip);
        }
        acc as i64
    }
}

} // verus!
