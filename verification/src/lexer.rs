//! The scanner/reducer.
//!
//! [`Lexer::parse`] consumes the input byte by byte, left to right. Digits
//! and the decimal point gather in a pending-number buffer, letters gather
//! in a word buffer, and every operator or parenthesis flushes the pending
//! number into a literal and then attempts one immediate fold of the
//! working token buffer. The whole policy is written down as a family of
//! spec functions over [`LexerModel`]; every executable step is proved
//! equal to its spec counterpart.

use crate::token::{
    lemma_toks_model_concat, lemma_toks_model_index, lemma_toks_model_len, lemma_toks_model_push,
    lemma_toks_model_subrange, m_is_calculabile, tok_model, toks_model, Flt, FltModel, TokModel,
    Token,
};
use crate::Error;
use vstd::prelude::*;
use vstd::string::StringSliceAdditionalSpecFns;

verus! {

broadcast use vstd::std_specs::vec::axiom_vec_index_decreases;

/// The deepest parenthesis nesting the scanner accepts; one more open
/// scope returns [`Error::TooDeep`].
pub const MAX_NESTING: usize = 64;

/// The scanner state.
#[derive(Debug)]
pub struct Lexer {
    /// The working buffer of built nodes and pending symbols.
    pub tokens: Vec<Token>,
    /// Everything handed to [`Lexer::parse`] so far.
    pub data: Vec<u8>,
    /// The digits (and at most one dot) of the literal being assembled.
    pub number_memory: Vec<u8>,
    /// The letters of the word being assembled (a function name).
    pub memory: Vec<u8>,
    /// The offset of the character being examined, for error reports.
    pub i: usize,
}

/// The mathematical shadow of [`Lexer`].
pub ghost struct LexerModel {
    pub tokens: Seq<TokModel>,
    pub data: Seq<u8>,
    pub number_memory: Seq<u8>,
    pub memory: Seq<u8>,
    pub i: usize,
}

impl Default for Lexer {
    /// A scanner with nothing read yet.
    fn default() -> (r: Self)
        ensures
            r@ == (LexerModel {
                tokens: Seq::<TokModel>::empty(),
                data: Seq::<u8>::empty(),
                number_memory: Seq::<u8>::empty(),
                memory: Seq::<u8>::empty(),
                i: 0usize,
            }),
    {
        Lexer {
            tokens: Vec::new(),
            data: Vec::new(),
            number_memory: Vec::new(),
            memory: Vec::new(),
            i: 0,
        }
    }
}

impl View for Lexer {
    type V = LexerModel;

    open spec fn view(&self) -> LexerModel {
        LexerModel {
            tokens: toks_model(self.tokens@),
            data: self.data@,
            number_memory: self.number_memory@,
            memory: self.memory@,
            i: self.i,
        }
    }
}

// ---------------------------------------------------------------------
// Numeric literals
// ---------------------------------------------------------------------

/// A byte the pending-number buffer may hold: a digit or the dot.
pub open spec fn m_is_num_byte(b: u8) -> bool {
    48 <= b <= 57 || b == 46
}

/// Every byte of the sequence is a digit or the dot.
pub open spec fn m_all_num_bytes(d: Seq<u8>) -> bool {
    forall|k: int| 0 <= k < d.len() ==> m_is_num_byte(#[trigger] d[k])
}

/// How many dots the sequence holds.
pub open spec fn m_dots(d: Seq<u8>) -> int
    decreases d.len(),
{
    if d.len() == 0 {
        0
    } else {
        m_dots(d.drop_last()) + if d.last() == 46u8 {
            1int
        } else {
            0
        }
    }
}

/// The value of a sequence of digit bytes, read in base ten.
pub open spec fn digits_val(d: Seq<u8>) -> int
    decreases d.len(),
{
    if d.len() == 0 {
        0
    } else {
        digits_val(d.drop_last()) * 10 + (d.last() - 48)
    }
}

/// What flushing the pending-number buffer `d` produces, with `at` the
/// offset blamed on failure: a dot-free buffer is an integer literal
/// (rejected when its value exceeds `i64::MAX`); a buffer with one dot and
/// at least one digit is a float literal kept as its text; anything else
/// is malformed.
pub open spec fn m_parse_lit(d: Seq<u8>, at: usize) -> Result<TokModel, Error> {
    if m_dots(d) == 0 {
        if digits_val(d) <= i64::MAX {
            Ok(TokModel::I(digits_val(d) as i64))
        } else {
            Err(Error::MalformedNumber { offset: at })
        }
    } else if m_dots(d) == 1 && m_dots(d) < d.len() {
        Ok(TokModel::F(FltModel::Dec(d)))
    } else {
        Err(Error::MalformedNumber { offset: at })
    }
}

proof fn lemma_dots_take_step(d: Seq<u8>, k: int)
    requires
        0 <= k < d.len(),
    ensures
        m_dots(d.take(k + 1)) == m_dots(d.take(k)) + if d[k] == 46u8 {
            1int
        } else {
            0
        },
{
    assert(d.take(k + 1).drop_last() =~= d.take(k));
    assert(d.take(k + 1).last() == d[k]);
}

pub proof fn lemma_digits_take_step(d: Seq<u8>, k: int)
    requires
        0 <= k < d.len(),
    ensures
        digits_val(d.take(k + 1)) == digits_val(d.take(k)) * 10 + (d[k] - 48),
{
    assert(d.take(k + 1).drop_last() =~= d.take(k));
    assert(d.take(k + 1).last() == d[k]);
}

/// A dot somewhere means at least one dot counted.
proof fn lemma_dots_at_index(d: Seq<u8>, k: int)
    requires
        0 <= k < d.len(),
        d[k] == 46u8,
    ensures
        m_dots(d) >= 1,
    decreases d.len(),
{
    if k == d.len() - 1 {
        lemma_dots_nonneg(d.drop_last());
    } else {
        lemma_dots_at_index(d.drop_last(), k);
    }
}

proof fn lemma_dots_nonneg(d: Seq<u8>)
    ensures
        m_dots(d) >= 0,
    decreases d.len(),
{
    if d.len() > 0 {
        lemma_dots_nonneg(d.drop_last());
    }
}

/// The value of a digit string is never negative.
pub proof fn lemma_digits_val_nonneg(d: Seq<u8>)
    requires
        forall|k: int| 0 <= k < d.len() ==> 48 <= #[trigger] d[k] <= 57,
    ensures
        digits_val(d) >= 0,
    decreases d.len(),
{
    if d.len() > 0 {
        lemma_digits_val_nonneg(d.drop_last());
    }
}

/// Reading more digits never shrinks the value.
pub proof fn lemma_digits_val_prefix(d: Seq<u8>, j: int)
    requires
        forall|k: int| 0 <= k < d.len() ==> 48 <= #[trigger] d[k] <= 57,
        0 <= j <= d.len(),
    ensures
        digits_val(d) >= digits_val(d.take(j)),
    decreases d.len() - j,
{
    if j == d.len() {
        assert(d.take(j) =~= d);
    } else {
        lemma_digits_val_prefix(d, j + 1);
        lemma_digits_take_step(d, j);
        assert(forall|k: int|
            0 <= k < d.take(j).len() ==> 48 <= #[trigger] d.take(j)[k] <= 57);
        lemma_digits_val_nonneg(d.take(j));
    }
}

// ---------------------------------------------------------------------
// The immediate fold
// ---------------------------------------------------------------------

/// A pending operator or function symbol.
pub open spec fn m_is_op_sym(t: TokModel) -> bool {
    t is SAdd || t is SDiv || t is SSub || t is SMul || t is SSin || t is SCos || t is SPow
        || t is SSqrt
}

/// A buffer entry after which `(` does not mean multiplication: a pending
/// operator, function or open-group symbol.
pub open spec fn m_blocks_implicit_mul(t: TokModel) -> bool {
    m_is_op_sym(t) || t is SGroupBegin
}

/// Where the immediate fold strikes: the rightmost position holding an
/// operator or function symbol whose right neighbour is combinable, or -1.
pub open spec fn m_fold_pos(ts: Seq<TokModel>) -> int
    decreases ts.len(),
{
    if ts.len() < 2 {
        -1
    } else if m_is_op_sym(ts[ts.len() - 2]) && m_is_calculabile(ts[ts.len() - 1]) {
        ts.len() - 2
    } else {
        m_fold_pos(ts.drop_last())
    }
}

/// A binary operator at `i` can fold: combinable operands on both sides.
pub open spec fn m_bin_ok(ts: Seq<TokModel>, i: int) -> bool {
    0 < i && i + 1 < ts.len() && m_is_calculabile(ts[i + 1]) && m_is_calculabile(ts[i - 1])
        && ts.len() > 2
}

/// A `pow` symbol at `i` can fold: two combinable entries follow it.
pub open spec fn m_pow_ok(ts: Seq<TokModel>, i: int) -> bool {
    0 <= i && i + 2 < ts.len() && m_is_calculabile(ts[i + 1]) && m_is_calculabile(ts[i + 2])
        && ts.len() > 2
}

/// The buffer without the three entries around a binary symbol at `i`.
pub open spec fn m_remove3(ts: Seq<TokModel>, i: int) -> Seq<TokModel> {
    ts.take(i - 1) + ts.subrange(i + 2, ts.len() as int)
}

/// One fold of the symbol at `i`: a binary operator takes its two
/// neighbours, a function symbol takes what follows it, and the new node
/// is pushed at the tail. A symbol whose operands are not ready leaves the
/// buffer alone.
pub open spec fn m_fold_apply(ts: Seq<TokModel>, i: int) -> Seq<TokModel>
    recommends
        0 <= i,
        i + 1 < ts.len(),
{
    let n = ts.len() as int;
    match ts[i] {
        TokModel::SAdd => {
            if m_bin_ok(ts, i) {
                m_remove3(ts, i).push(TokModel::Add(Box::new(ts[i - 1]), Box::new(ts[i + 1])))
            } else {
                ts
            }
        },
        TokModel::SSub => {
            if m_bin_ok(ts, i) {
                m_remove3(ts, i).push(TokModel::Sub(Box::new(ts[i - 1]), Box::new(ts[i + 1])))
            } else {
                ts
            }
        },
        TokModel::SMul => {
            if m_bin_ok(ts, i) {
                m_remove3(ts, i).push(TokModel::Mul(Box::new(ts[i - 1]), Box::new(ts[i + 1])))
            } else {
                ts
            }
        },
        TokModel::SDiv => {
            if m_bin_ok(ts, i) {
                m_remove3(ts, i).push(TokModel::Div(Box::new(ts[i - 1]), Box::new(ts[i + 1])))
            } else {
                ts
            }
        },
        TokModel::SSin => {
            if n > 1 {
                (ts.take(i) + ts.subrange(i + 2, n)).push(TokModel::Sin(Box::new(ts[i + 1])))
            } else {
                ts
            }
        },
        TokModel::SCos => {
            if n > 1 {
                (ts.take(i) + ts.subrange(i + 2, n)).push(TokModel::Cos(Box::new(ts[i + 1])))
            } else {
                ts
            }
        },
        TokModel::SSqrt => {
            if n > 1 {
                (ts.take(i) + ts.subrange(i + 2, n)).push(TokModel::Sqrt(Box::new(ts[i + 1])))
            } else {
                ts
            }
        },
        TokModel::SPow => {
            if m_pow_ok(ts, i) {
                (ts.take(i) + ts.subrange(i + 3, n)).push(
                    TokModel::Pow(Box::new(ts[i + 1]), Box::new(ts[i + 2])),
                )
            } else {
                ts
            }
        },
        _ => ts,
    }
}

/// At most one immediate fold, at [`m_fold_pos`].
pub open spec fn m_fold_scan(ts: Seq<TokModel>) -> Seq<TokModel> {
    let p = m_fold_pos(ts);
    if p == -1 {
        ts
    } else {
        m_fold_apply(ts, p)
    }
}

// ---------------------------------------------------------------------
// Group bookkeeping
// ---------------------------------------------------------------------

/// The rightmost open-group symbol, or -1.
pub open spec fn m_last_begin(ts: Seq<TokModel>) -> int
    decreases ts.len(),
{
    if ts.len() == 0 {
        -1
    } else if ts.last() is SGroupBegin {
        ts.len() - 1
    } else {
        m_last_begin(ts.drop_last())
    }
}

/// The rightmost open-group symbol is inside the buffer and is one.
proof fn lemma_last_begin_bounds(ts: Seq<TokModel>)
    ensures
        m_last_begin(ts) == -1 || (0 <= m_last_begin(ts) < ts.len() && ts[m_last_begin(ts)]
            is SGroupBegin),
    decreases ts.len(),
{
    if ts.len() > 0 && !(ts.last() is SGroupBegin) {
        lemma_last_begin_bounds(ts.drop_last());
    }
}

/// How many scopes stand open in the buffer: pending group and function
/// symbols.
pub open spec fn m_open_count(ts: Seq<TokModel>) -> int
    decreases ts.len(),
{
    if ts.len() == 0 {
        0
    } else {
        m_open_count(ts.drop_last()) + if ts.last() is SGroupBegin || ts.last() is SSin
            || ts.last() is SCos || ts.last() is SPow || ts.last() is SSqrt {
            1int
        } else {
            0
        }
    }
}

/// What the scanner does when the buffer ends in a group symbol. A fresh
/// `(` after a value inserts the implicit multiplication. A `)` pops back
/// to the matching `(`, folding everything between into one group node; an
/// unmatched `)` is dropped.
pub open spec fn m_group_adjust(ts: Seq<TokModel>) -> Seq<TokModel> {
    let n = ts.len() as int;
    if n > 0 && ts[n - 1] is SGroupBegin {
        let rest = ts.drop_last();
        if rest.len() > 0 && !m_blocks_implicit_mul(rest.last())  {
            rest.push(TokModel::SMul).push(TokModel::SGroupBegin)
        } else {
            ts
        }
    } else if n > 0 && ts[n - 1] is SGroupEnd {
        let rest = ts.drop_last();
        let j = m_last_begin(rest);
        if j >= 0 {
            rest.take(j) + seq![TokModel::Group(rest.subrange(j + 1, rest.len() as int))]
        } else {
            rest
        }
    } else {
        ts
    }
}

// ---------------------------------------------------------------------
// Flush and process
// ---------------------------------------------------------------------

/// Flushing the pending number into the buffer, if there is one.
pub open spec fn m_flush(st: LexerModel) -> Result<LexerModel, Error> {
    if st.number_memory.len() == 0 {
        Ok(st)
    } else {
        match m_parse_lit(st.number_memory, st.i) {
            Ok(t) => Ok(
                LexerModel { tokens: st.tokens.push(t), number_memory: Seq::empty(), ..st },
            ),
            Err(e) => Err(e),
        }
    }
}

/// One whole reduction round: flush the pending number, settle a trailing
/// group symbol, then attempt one immediate fold.
pub open spec fn m_process(st: LexerModel) -> Result<LexerModel, Error> {
    match m_flush(st) {
        Err(e) => Err(e),
        Ok(st1) => Ok(
            LexerModel { tokens: m_fold_scan(m_group_adjust(st1.tokens)), ..st1 },
        ),
    }
}

// ---------------------------------------------------------------------
// The per-character policy
// ---------------------------------------------------------------------

/// Flush, then push a pending operator symbol.
pub open spec fn m_op(st: LexerModel, sym: TokModel) -> Result<LexerModel, Error> {
    match m_process(st) {
        Ok(st1) => Ok(LexerModel { tokens: st1.tokens.push(sym), ..st1 }),
        Err(e) => Err(e),
    }
}

/// What `(` does. A recognised function name in the word buffer becomes
/// the matching function symbol; any other word is an error. A bare `(`
/// opens a group, multiplying implicitly with a value before it. Every
/// open scope past [`MAX_NESTING`] is refused.
pub open spec fn m_open(st: LexerModel) -> Result<LexerModel, Error> {
    if st.memory == seq![115u8, 105u8, 110u8] {  // sin
        m_open_sym(st, TokModel::SSin)
    } else if st.memory == seq![99u8, 111u8, 115u8] {  // cos
        m_open_sym(st, TokModel::SCos)
    } else if st.memory == seq![112u8, 111u8, 119u8] {  // pow
        m_open_sym(st, TokModel::SPow)
    } else if st.memory == seq![115u8, 113u8, 114u8, 116u8] {  // sqrt
        m_open_sym(st, TokModel::SSqrt)
    } else if st.memory.len() > 0 {
        Err(Error::InvalidFunction { offset: st.i })
    } else {
        match m_process(st) {
            Err(e) => Err(e),
            Ok(st1) => {
                if m_open_count(st1.tokens) >= MAX_NESTING {
                    Err(Error::TooDeep { offset: st.i })
                } else {
                    m_process(LexerModel { tokens: st1.tokens.push(TokModel::SGroupBegin), ..st1 })
                }
            },
        }
    }
}

/// Flush, then open one function scope with the given symbol.
pub open spec fn m_open_sym(st: LexerModel, sym: TokModel) -> Result<LexerModel, Error> {
    match m_process(st) {
        Err(e) => Err(e),
        Ok(st1) => {
            if m_open_count(st1.tokens) >= MAX_NESTING {
                Err(Error::TooDeep { offset: st.i })
            } else {
                Ok(LexerModel { tokens: st1.tokens.push(sym), memory: Seq::empty(), ..st1 })
            }
        },
    }
}

/// What `)` does: flush, push the close symbol, and reduce again, which
/// folds the scope just closed.
pub open spec fn m_close(st: LexerModel) -> Result<LexerModel, Error> {
    match m_process(st) {
        Err(e) => Err(e),
        Ok(st1) => m_process(LexerModel { tokens: st1.tokens.push(TokModel::SGroupEnd), ..st1 }),
    }
}

/// The whole per-character policy, with `at` the character's offset.
pub open spec fn m_step(st0: LexerModel, c: u8, at: usize) -> Result<LexerModel, Error> {
    let st = LexerModel { i: at, ..st0 };
    if (48 <= c && c <= 57) || c == 46 {
        Ok(LexerModel { number_memory: st.number_memory.push(c), ..st })
    } else if c == 44 {  // comma: a separator, but it flushes
        m_process(st)
    } else if c == 95 || c == 32 {  // underscore and space: ignored
        Ok(st)
    } else if c == 45 {
        m_op(st, TokModel::SSub)
    } else if c == 43 {
        m_op(st, TokModel::SAdd)
    } else if c == 42 {
        m_op(st, TokModel::SMul)
    } else if c == 47 {
        m_op(st, TokModel::SDiv)
    } else if c == 40 {
        m_open(st)
    } else if c == 41 {
        m_close(st)
    } else if (97 <= c && c <= 122) || (65 <= c && c <= 90) {
        Ok(LexerModel { memory: st.memory.push(c), ..st })
    } else {
        Err(Error::InvalidCharacter { offset: at })
    }
}

/// The scan of everything from offset `k` on, without the final flush.
pub open spec fn m_scan(st: LexerModel, bs: Seq<u8>, k: int) -> Result<LexerModel, Error>
    decreases bs.len() - k,
{
    if k < 0 || k >= bs.len() {
        Ok(st)
    } else {
        match m_step(st, bs[k], k as usize) {
            Ok(st2) => m_scan(st2, bs, k + 1),
            Err(e) => Err(e),
        }
    }
}

/// One whole [`Lexer::parse`] call: remember the input, scan it, and run
/// the final flush.
pub open spec fn m_parse(st: LexerModel, bs: Seq<u8>) -> Result<LexerModel, Error> {
    let st0 = LexerModel { data: st.data + bs, ..st };
    match m_scan(st0, bs, 0) {
        Ok(st1) => m_process(st1),
        Err(e) => Err(e),
    }
}

/// Which operator or function a symbol token stands for.
#[derive(Clone, Copy)]
enum SymKind {
    A,
    S,
    M,
    D,
    Sin,
    Cos,
    Pow,
    Sqrt,
    No,
}

impl Lexer {
    /// The buffer of digit and dot bytes is all the well-formedness the
    /// scanner needs of itself.
    pub open spec fn wf(&self) -> bool {
        m_all_num_bytes(self@.number_memory)
    }

    /// Reads a flushed pending-number buffer into a literal node, exactly
    /// [`m_parse_lit`].
    fn parse_group(data: Vec<u8>, at: usize) -> (r: Result<Token, Error>)
        requires
            m_all_num_bytes(data@),
        ensures
            ({
                let s = m_parse_lit(data@, at);
                match r {
                    Ok(t) => s is Ok && t@ == s->Ok_0,
                    Err(e) => s is Err && e == s->Err_0,
                }
            }),
    {
        let n = data.len();
        let mut dots: usize = 0;
        let mut k: usize = 0;
        while k < n
            invariant
                k <= n,
                dots == m_dots(data@.take(k as int)),
                dots <= k,
            decreases n - k,
        {
            proof {
                lemma_dots_take_step(data@, k as int);
            }
            if data[k] == 46 {
                dots += 1;
            }
            k += 1;
        }
        proof {
            assert(data@.take(n as int) =~= data@);
        }
        if dots == 0 {
            proof {
                assert forall|j: int| 0 <= j < data@.len() implies 48 <= #[trigger] data@[j]
                    <= 57 by {
                    if data@[j] == 46u8 {
                        lemma_dots_at_index(data@, j);
                    }
                }
            }
            let mut acc: u64 = 0;
            let mut k: usize = 0;
            while k < n
                invariant
                    k <= n,
                    acc == digits_val(data@.take(k as int)),
                    acc <= 0x7fff_ffff_ffff_ffffu64,
                decreases n - k,
            {
                proof {
                    lemma_digits_take_step(data@, k as int);
                }
                let d = (data[k] - 48) as u64;
                if acc > (0x7fff_ffff_ffff_ffffu64 - d) / 10 {
                    proof {
                        lemma_digits_val_prefix(data@, k as int + 1);
                    }
                    return Err(Error::MalformedNumber { offset: at });
                }
                acc = acc * 10 + d;
                k += 1;
            }
            Ok(Token::I(acc as i64))
        } else if dots == 1 && dots < n {
            Ok(Token::F(Flt::Dec(data)))
        } else {
            Err(Error::MalformedNumber { offset: at })
        }
    }

    /// Appends one node to the working buffer.
    fn push(&mut self, token: Token)
        ensures
            final(self)@ == (LexerModel {
                tokens: old(self)@.tokens.push(token@),
                ..old(self)@
            }),
    {
        proof {
            lemma_toks_model_push(self.tokens@, token);
        }
        self.tokens.push(token);
    }

    /// Takes the two operands around the binary symbol at `i` out of the
    /// buffer, left one first, where both are combinable.
    fn get_ab(&mut self, i: usize) -> (r: Option<(Token, Token)>)
        requires
            i + 1 < old(self)@.tokens.len(),
        ensures
            m_bin_ok(old(self)@.tokens, i as int) ==> ({
                &&& r is Some
                &&& (r->Some_0).0@ == old(self)@.tokens[i as int - 1]
                &&& (r->Some_0).1@ == old(self)@.tokens[i as int + 1]
                &&& final(self)@ == (LexerModel {
                    tokens: m_remove3(old(self)@.tokens, i as int),
                    ..old(self)@
                })
            }),
            !m_bin_ok(old(self)@.tokens, i as int) ==> r is None && final(self)@ == old(self)@,
    {
        let n = self.tokens.len();
        proof {
            lemma_toks_model_len(self.tokens@);
        }
        if i > 0 {
            proof {
                lemma_toks_model_index(self.tokens@, i as int + 1);
                lemma_toks_model_index(self.tokens@, i as int - 1);
            }
            if self.tokens[i + 1].is_calculabile() && self.tokens[i - 1].is_calculabile()
                && self.tokens.len() > 2 {
                let ghost ots = self.tokens@;
                let a = self.tokens.remove(i - 1);
                let _sym = self.tokens.remove(i - 1);
                let b = self.tokens.remove(i - 1);
                proof {
                    assert(self.tokens@ =~= ots.subrange(0, i as int - 1) + ots.subrange(
                        i as int + 2,
                        ots.len() as int,
                    ));
                    lemma_toks_model_concat(
                        ots.subrange(0, i as int - 1),
                        ots.subrange(i as int + 2, ots.len() as int),
                    );
                    lemma_toks_model_subrange(ots, 0, i as int - 1);
                    lemma_toks_model_subrange(ots, i as int + 2, ots.len() as int);
                    assert(toks_model(ots).take(i as int - 1) =~= toks_model(ots).subrange(
                        0,
                        i as int - 1,
                    ));
                }
                return Some((a, b));
            }
        }
        None
    }

    /// Takes the two entries after the `pow` symbol at `i` out of the
    /// buffer, where both are combinable.
    fn get_ab_liniar(&mut self, i: usize) -> (r: Option<(Token, Token)>)
        requires
            i + 1 < old(self)@.tokens.len(),
        ensures
            m_pow_ok(old(self)@.tokens, i as int) ==> ({
                &&& r is Some
                &&& (r->Some_0).0@ == old(self)@.tokens[i as int + 1]
                &&& (r->Some_0).1@ == old(self)@.tokens[i as int + 2]
                &&& final(self)@ == (LexerModel {
                    tokens: old(self)@.tokens.take(i as int) + old(self)@.tokens.subrange(
                        i as int + 3,
                        old(self)@.tokens.len() as int,
                    ),
                    ..old(self)@
                })
            }),
            !m_pow_ok(old(self)@.tokens, i as int) ==> r is None && final(self)@ == old(self)@,
    {
        let n = self.tokens.len();
        proof {
            lemma_toks_model_len(self.tokens@);
        }
        if i + 2 < n {
            proof {
                lemma_toks_model_index(self.tokens@, i as int + 1);
                lemma_toks_model_index(self.tokens@, i as int + 2);
            }
            if self.tokens[i + 1].is_calculabile() && self.tokens[i + 2].is_calculabile()
                && self.tokens.len() > 2 {
                let ghost ots = self.tokens@;
                let _sym = self.tokens.remove(i);
                let a = self.tokens.remove(i);
                let b = self.tokens.remove(i);
                proof {
                    assert(self.tokens@ =~= ots.subrange(0, i as int) + ots.subrange(
                        i as int + 3,
                        ots.len() as int,
                    ));
                    lemma_toks_model_concat(
                        ots.subrange(0, i as int),
                        ots.subrange(i as int + 3, ots.len() as int),
                    );
                    lemma_toks_model_subrange(ots, 0, i as int);
                    lemma_toks_model_subrange(ots, i as int + 3, ots.len() as int);
                    assert(toks_model(ots).take(i as int) =~= toks_model(ots).subrange(
                        0,
                        i as int,
                    ));
                }
                return Some((a, b));
            }
        }
        None
    }

    /// Takes the entry after the function symbol at `i` out of the buffer.
    fn get_a(&mut self, i: usize) -> (r: Option<Token>)
        requires
            i + 1 < old(self)@.tokens.len(),
        ensures
            r is Some,
            r->Some_0@ == old(self)@.tokens[i as int + 1],
            final(self)@ == (LexerModel {
                tokens: old(self)@.tokens.take(i as int) + old(self)@.tokens.subrange(
                    i as int + 2,
                    old(self)@.tokens.len() as int,
                ),
                ..old(self)@
            }),
    {
        proof {
            lemma_toks_model_len(self.tokens@);
            lemma_toks_model_index(self.tokens@, i as int + 1);
        }
        if self.tokens.len() > 1 {
            let ghost ots = self.tokens@;
            let _sym = self.tokens.remove(i);
            let a = self.tokens.remove(i);
            proof {
                assert(self.tokens@ =~= ots.subrange(0, i as int) + ots.subrange(
                    i as int + 2,
                    ots.len() as int,
                ));
                lemma_toks_model_concat(
                    ots.subrange(0, i as int),
                    ots.subrange(i as int + 2, ots.len() as int),
                );
                lemma_toks_model_subrange(ots, 0, i as int);
                lemma_toks_model_subrange(ots, i as int + 2, ots.len() as int);
                assert(toks_model(ots).take(i as int) =~= toks_model(ots).subrange(0, i as int));
            }
            Some(a)
        } else {
            None
        }
    }

    /// Folds the binary `+` at `i`, where its operands are ready.
    fn add(&mut self, i: usize)
        requires
            i + 1 < old(self)@.tokens.len(),
            old(self)@.tokens[i as int] is SAdd,
        ensures
            final(self)@ == (LexerModel {
                tokens: m_fold_apply(old(self)@.tokens, i as int),
                ..old(self)@
            }),
    {
        match self.get_ab(i) {
            Some((a, b)) => {
                let t = Token::a(a, b);
                self.push(t);
            },
            None => {},
        }
    }

    /// Folds the binary `-` at `i`, where its operands are ready.
    fn sub(&mut self, i: usize)
        requires
            i + 1 < old(self)@.tokens.len(),
            old(self)@.tokens[i as int] is SSub,
        ensures
            final(self)@ == (LexerModel {
                tokens: m_fold_apply(old(self)@.tokens, i as int),
                ..old(self)@
            }),
    {
        match self.get_ab(i) {
            Some((a, b)) => {
                let t = Token::s(a, b);
                self.push(t);
            },
            None => {},
        }
    }

    /// Folds the binary `*` at `i`, where its operands are ready.
    fn mul(&mut self, i: usize)
        requires
            i + 1 < old(self)@.tokens.len(),
            old(self)@.tokens[i as int] is SMul,
        ensures
            final(self)@ == (LexerModel {
                tokens: m_fold_apply(old(self)@.tokens, i as int),
                ..old(self)@
            }),
    {
        match self.get_ab(i) {
            Some((a, b)) => {
                let t = Token::m(a, b);
                self.push(t);
            },
            None => {},
        }
    }

    /// Folds the binary `/` at `i`, where its operands are ready.
    fn div(&mut self, i: usize)
        requires
            i + 1 < old(self)@.tokens.len(),
            old(self)@.tokens[i as int] is SDiv,
        ensures
            final(self)@ == (LexerModel {
                tokens: m_fold_apply(old(self)@.tokens, i as int),
                ..old(self)@
            }),
    {
        match self.get_ab(i) {
            Some((a, b)) => {
                let t = Token::d(a, b);
                self.push(t);
            },
            None => {},
        }
    }

    /// Folds the `sin` symbol at `i` with what follows it.
    fn sin(&mut self, i: usize)
        requires
            i + 1 < old(self)@.tokens.len(),
            old(self)@.tokens[i as int] is SSin,
        ensures
            final(self)@ == (LexerModel {
                tokens: m_fold_apply(old(self)@.tokens, i as int),
                ..old(self)@
            }),
    {
        match self.get_a(i) {
            Some(a) => {
                let t = Token::sin(a);
                self.push(t);
            },
            None => {},
        }
    }

    /// Folds the `cos` symbol at `i` with what follows it.
    fn cos(&mut self, i: usize)
        requires
            i + 1 < old(self)@.tokens.len(),
            old(self)@.tokens[i as int] is SCos,
        ensures
            final(self)@ == (LexerModel {
                tokens: m_fold_apply(old(self)@.tokens, i as int),
                ..old(self)@
            }),
    {
        match self.get_a(i) {
            Some(a) => {
                let t = Token::cos(a);
                self.push(t);
            },
            None => {},
        }
    }

    /// Folds the `pow` symbol at `i` with the two entries after it.
    fn pow(&mut self, i: usize)
        requires
            i + 1 < old(self)@.tokens.len(),
            old(self)@.tokens[i as int] is SPow,
        ensures
            final(self)@ == (LexerModel {
                tokens: m_fold_apply(old(self)@.tokens, i as int),
                ..old(self)@
            }),
    {
        match self.get_ab_liniar(i) {
            Some((a, b)) => {
                let t = Token::pow(a, b);
                self.push(t);
            },
            None => {},
        }
    }

    /// Which operator or function symbol this token is, if any.
    fn sym_kind(t: &Token) -> (k: SymKind)
        ensures
            (k is A) == (t@ is SAdd),
            (k is S) == (t@ is SSub),
            (k is M) == (t@ is SMul),
            (k is D) == (t@ is SDiv),
            (k is Sin) == (t@ is SSin),
            (k is Cos) == (t@ is SCos),
            (k is Pow) == (t@ is SPow),
            (k is Sqrt) == (t@ is SSqrt),
            (k is No) == !m_is_op_sym(t@),
    {
        match t {
            Token::SAdd => SymKind::A,
            Token::SSub => SymKind::S,
            Token::SMul => SymKind::M,
            Token::SDiv => SymKind::D,
            Token::SSin => SymKind::Sin,
            Token::SCos => SymKind::Cos,
            Token::SPow => SymKind::Pow,
            Token::SSqrt => SymKind::Sqrt,
            _ => SymKind::No,
        }
    }

    /// Whether `(` after this token keeps its grouping sense rather than
    /// meaning multiplication.
    fn blocks_implicit_mul(t: &Token) -> (r: bool)
        ensures
            r == m_blocks_implicit_mul(t@),
    {
        matches!(
            t,
            Token::SAdd
                | Token::SDiv
                | Token::SSub
                | Token::SMul
                | Token::SSin
                | Token::SCos
                | Token::SPow
                | Token::SSqrt
                | Token::SGroupBegin
        )
    }

    /// The position of the rightmost open-group symbol in the buffer.
    fn find_last_begin(ts: &Vec<Token>) -> (r: Option<usize>)
        ensures
            ({
                let j = m_last_begin(toks_model(ts@));
                match r {
                    Some(u) => u == j,
                    None => j == -1,
                }
            }),
    {
        proof {
            lemma_toks_model_len(ts@);
            assert(toks_model(ts@).take(ts@.len() as int) =~= toks_model(ts@));
        }
        let mut k = ts.len();
        while k > 0
            invariant
                k <= ts@.len(),
                m_last_begin(toks_model(ts@)) == m_last_begin(toks_model(ts@).take(k as int)),
            decreases k,
        {
            proof {
                lemma_toks_model_index(ts@, k as int - 1);
                assert(toks_model(ts@).take(k as int).drop_last() =~= toks_model(ts@).take(
                    k as int - 1,
                ));
            }
            if matches!(&ts[k - 1], Token::SGroupBegin) {
                return Some(k - 1);
            }
            k -= 1;
        }
        None
    }

    /// Settles a trailing group symbol, exactly [`m_group_adjust`].
    fn group_adjust(&mut self)
        ensures
            final(self)@.tokens == m_group_adjust(old(self)@.tokens),
            final(self)@.data == old(self)@.data,
            final(self)@.number_memory == old(self)@.number_memory,
            final(self)@.memory == old(self)@.memory,
            final(self)@.i == old(self)@.i,
    {
        proof {
            lemma_toks_model_len(self.tokens@);
        }
        let n = self.tokens.len();
        if n == 0 {
            return;
        }
        proof {
            lemma_toks_model_index(self.tokens@, n as int - 1);
        }
        let is_begin = matches!(&self.tokens[n - 1], Token::SGroupBegin);
        let is_end = matches!(&self.tokens[n - 1], Token::SGroupEnd);
        if is_begin {
            let ghost ots = self.tokens@;
            match self.tokens.pop() {
                Some(t) => {
                    proof {
                        assert(self.tokens@ =~= ots.drop_last());
                        lemma_toks_model_subrange(ots, 0, ots.len() - 1);
                        assert(ots.subrange(0, ots.len() - 1) =~= ots.drop_last());
                        assert(toks_model(ots).subrange(0, toks_model(ots).len() - 1)
                            =~= toks_model(ots).drop_last());
                        lemma_toks_model_index(ots, ots.len() - 1);
                    }
                    let mut need_mul = false;
                    let m = self.tokens.len();
                    if m > 0 {
                        proof {
                            lemma_toks_model_index(self.tokens@, m as int - 1);
                        }
                        need_mul = !Self::blocks_implicit_mul(&self.tokens[m - 1]);
                    }
                    if need_mul {
                        proof {
                            lemma_toks_model_push(self.tokens@, Token::SMul);
                        }
                        self.tokens.push(Token::SMul);
                    }
                    proof {
                        lemma_toks_model_push(self.tokens@, t);
                    }
                    self.tokens.push(t);
                    proof {
                        if !need_mul {
                            assert(toks_model(self.tokens@) =~= toks_model(ots));
                        } else {
                            assert(toks_model(self.tokens@) =~= toks_model(ots).drop_last().push(
                                TokModel::SMul,
                            ).push(TokModel::SGroupBegin));
                        }
                    }
                },
                None => {},
            }
        } else if is_end {
            let ghost ots = self.tokens@;
            match self.tokens.pop() {
                Some(_end) => {
                    proof {
                        assert(self.tokens@ =~= ots.drop_last());
                        lemma_toks_model_subrange(ots, 0, ots.len() - 1);
                        assert(ots.subrange(0, ots.len() - 1) =~= ots.drop_last());
                        assert(toks_model(ots).subrange(0, toks_model(ots).len() - 1)
                            =~= toks_model(ots).drop_last());
                        lemma_toks_model_len(self.tokens@);
                    }
                    let ghost rest = self.tokens@;
                    match Self::find_last_begin(&self.tokens) {
                        Some(j) => {
                            proof {
                                lemma_toks_model_len(rest);
                                lemma_last_begin_bounds(toks_model(rest));
                                assert(rest.take(j + 1) + rest.subrange(j + 1, rest.len() as int)
                                    =~= rest);
                            }
                            let mut buffer: Vec<Token> = Vec::new();
                            while self.tokens.len() > j + 1
                                invariant
                                    self.data == old(self).data,
                                    self.number_memory == old(self).number_memory,
                                    self.memory == old(self).memory,
                                    self.i == old(self).i,
                                    j + 1 <= self.tokens@.len(),
                                    j + 1 + buffer@.len() <= rest.len(),
                                    self.tokens@ =~= rest.take(j + 1) + rest.subrange(
                                        j + 1 + buffer@.len(),
                                        rest.len() as int,
                                    ),
                                    buffer@ =~= rest.subrange(j + 1, j + 1 + buffer@.len()),
                                decreases self.tokens@.len(),
                            {
                                let t = self.tokens.remove(j + 1);
                                buffer.push(t);
                            }
                            proof {
                                assert(buffer@ =~= rest.subrange(j + 1, rest.len() as int));
                                assert(self.tokens@ =~= rest.take(j + 1));
                            }
                            self.tokens.pop();
                            proof {
                                assert(self.tokens@ =~= rest.take(j as int));
                            }
                            let g = Token::Group(buffer);
                            proof {
                                lemma_toks_model_push(self.tokens@, g);
                                lemma_toks_model_subrange(rest, 0, j as int);
                                lemma_toks_model_subrange(rest, j + 1, rest.len() as int);
                                assert(toks_model(rest).take(j as int) =~= toks_model(
                                    rest,
                                ).subrange(0, j as int));
                                assert(toks_model(self.tokens@).push(tok_model(g)) =~= toks_model(
                                    rest,
                                ).take(j as int) + seq![
                                    TokModel::Group(
                                        toks_model(rest).subrange(j + 1, toks_model(rest).len() as int),
                                    ),
                                ]);
                            }
                            self.tokens.push(g);
                        },
                        None => {},
                    }
                },
                None => {},
            }
        }
    }

    /// Attempts one immediate fold of the buffer, exactly [`m_fold_scan`].
    fn fold_scan(&mut self)
        ensures
            final(self)@ == (LexerModel {
                tokens: m_fold_scan(old(self)@.tokens),
                ..old(self)@
            }),
    {
        proof {
            lemma_toks_model_len(self.tokens@);
        }
        let ghost m0 = self@.tokens;
        let n = self.tokens.len();
        let mut k = n;
        proof {
            assert(m0.take(n as int) =~= m0);
        }
        while k >= 2
            invariant
                k <= n,
                self@ == old(self)@,
                n == self.tokens@.len(),
                m_fold_pos(m0) == m_fold_pos(m0.take(k as int)),
            decreases k,
        {
            let i = k - 2;
            proof {
                lemma_toks_model_index(self.tokens@, i as int);
                lemma_toks_model_index(self.tokens@, i as int + 1);
                assert(m0.take(k as int).drop_last() =~= m0.take(k as int - 1));
            }
            let kind = Self::sym_kind(&self.tokens[i]);
            let calc_right = self.tokens[i + 1].is_calculabile();
            if calc_right {
                match kind {
                    SymKind::A => {
                        self.add(i);
                        return;
                    },
                    SymKind::S => {
                        self.sub(i);
                        return;
                    },
                    SymKind::M => {
                        self.mul(i);
                        return;
                    },
                    SymKind::D => {
                        self.div(i);
                        return;
                    },
                    SymKind::Sin => {
                        self.sin(i);
                        return;
                    },
                    SymKind::Cos => {
                        self.cos(i);
                        return;
                    },
                    SymKind::Pow => {
                        self.pow(i);
                        return;
                    },
                    SymKind::Sqrt => {
                        self.sqrt(i);
                        return;
                    },
                    SymKind::No => {},
                }
            }
            k -= 1;
        }
    }

    /// Folds the `sqrt` symbol at `i` with what follows it.
    fn sqrt(&mut self, i: usize)
        requires
            i + 1 < old(self)@.tokens.len(),
            old(self)@.tokens[i as int] is SSqrt,
        ensures
            final(self)@ == (LexerModel {
                tokens: m_fold_apply(old(self)@.tokens, i as int),
                ..old(self)@
            }),
    {
        match self.get_a(i) {
            Some(a) => {
                let t = Token::sqrt(a);
                self.push(t);
            },
            None => {},
        }
    }

    /// One whole reduction round, exactly [`m_process`].
    fn process(&mut self) -> (r: Result<(), Error>)
        requires
            old(self).wf(),
        ensures
            ({
                let s = m_process(old(self)@);
                match r {
                    Ok(()) => s is Ok && final(self)@ == s->Ok_0 && final(self).wf(),
                    Err(e) => s is Err && e == s->Err_0,
                }
            }),
    {
        if !self.number_memory.is_empty() {
            let mut buf: Vec<u8> = Vec::new();
            core::mem::swap(&mut self.number_memory, &mut buf);
            match Self::parse_group(buf, self.i) {
                Ok(t) => {
                    self.push(t);
                },
                Err(e) => {
                    return Err(e);
                },
            }
        }
        self.group_adjust();
        self.fold_scan();
        Ok(())
    }

    /// How many scopes stand open in the buffer.
    fn open_count(ts: &Vec<Token>) -> (r: usize)
        ensures
            r == m_open_count(toks_model(ts@)),
    {
        proof {
            lemma_toks_model_len(ts@);
            assert(toks_model(ts@).take(0) =~= Seq::<TokModel>::empty());
        }
        let n = ts.len();
        let mut r: usize = 0;
        let mut k: usize = 0;
        while k < n
            invariant
                k <= n,
                r <= k,
                r == m_open_count(toks_model(ts@).take(k as int)),
            decreases n - k,
        {
            proof {
                lemma_toks_model_index(ts@, k as int);
                assert(toks_model(ts@).take(k as int + 1).drop_last() =~= toks_model(ts@).take(
                    k as int,
                ));
            }
            if matches!(
                &ts[k],
                Token::SGroupBegin | Token::SSin | Token::SCos | Token::SPow | Token::SSqrt
            ) {
                r += 1;
            }
            k += 1;
        }
        proof {
            assert(toks_model(ts@).take(n as int) =~= toks_model(ts@));
        }
        r
    }

    /// Whether the word buffer spells the given three-letter name.
    fn word_is3(mem: &Vec<u8>, a: u8, b: u8, c: u8) -> (r: bool)
        ensures
            r == (mem@ == seq![a, b, c]),
    {
        if mem.len() == 3 {
            let r = mem[0] == a && mem[1] == b && mem[2] == c;
            proof {
                if r {
                    assert(mem@ =~= seq![a, b, c]);
                }
            }
            r
        } else {
            false
        }
    }

    /// Whether the word buffer spells the given four-letter name.
    fn word_is4(mem: &Vec<u8>, a: u8, b: u8, c: u8, d: u8) -> (r: bool)
        ensures
            r == (mem@ == seq![a, b, c, d]),
    {
        if mem.len() == 4 {
            let r = mem[0] == a && mem[1] == b && mem[2] == c && mem[3] == d;
            proof {
                if r {
                    assert(mem@ =~= seq![a, b, c, d]);
                }
            }
            r
        } else {
            false
        }
    }

    /// Flush, check the nesting bound, and open one scope with `sym`,
    /// exactly [`m_open_sym`].
    fn open_sym(&mut self, sym: Token) -> (r: Result<(), Error>)
        requires
            old(self).wf(),
            m_is_op_sym(sym@) || sym@ is SGroupBegin,
        ensures
            ({
                let s = m_open_sym(old(self)@, sym@);
                match r {
                    Ok(()) => s is Ok && final(self)@ == s->Ok_0 && final(self).wf(),
                    Err(e) => s is Err && e == s->Err_0,
                }
            }),
    {
        let at = self.i;
        match self.process() {
            Err(e) => {
                return Err(e);
            },
            Ok(()) => {},
        }
        if Self::open_count(&self.tokens) >= MAX_NESTING {
            return Err(Error::TooDeep { offset: at });
        }
        self.push(sym);
        self.memory.clear();
        Ok(())
    }

    /// What `(` does, exactly [`m_open`].
    fn open_paren(&mut self) -> (r: Result<(), Error>)
        requires
            old(self).wf(),
        ensures
            ({
                let s = m_open(old(self)@);
                match r {
                    Ok(()) => s is Ok && final(self)@ == s->Ok_0 && final(self).wf(),
                    Err(e) => s is Err && e == s->Err_0,
                }
            }),
    {
        if Self::word_is3(&self.memory, 115, 105, 110) {
            self.open_sym(Token::SSin)
        } else if Self::word_is3(&self.memory, 99, 111, 115) {
            self.open_sym(Token::SCos)
        } else if Self::word_is3(&self.memory, 112, 111, 119) {
            self.open_sym(Token::SPow)
        } else if Self::word_is4(&self.memory, 115, 113, 114, 116) {
            self.open_sym(Token::SSqrt)
        } else if !self.memory.is_empty() {
            Err(Error::InvalidFunction { offset: self.i })
        } else {
            let at = self.i;
            match self.process() {
                Err(e) => {
                    return Err(e);
                },
                Ok(()) => {},
            }
            if Self::open_count(&self.tokens) >= MAX_NESTING {
                return Err(Error::TooDeep { offset: at });
            }
            self.push(Token::SGroupBegin);
            self.process()
        }
    }

    /// The whole policy for one character at offset `at`, exactly
    /// [`m_step`].
    fn step(&mut self, c: u8, at: usize) -> (r: Result<(), Error>)
        requires
            old(self).wf(),
        ensures
            ({
                let s = m_step(old(self)@, c, at);
                match r {
                    Ok(()) => s is Ok && final(self)@ == s->Ok_0 && final(self).wf(),
                    Err(e) => s is Err && e == s->Err_0,
                }
            }),
    {
        self.i = at;
        if (48 <= c && c <= 57) || c == 46 {
            self.number_memory.push(c);
            Ok(())
        } else if c == 44 {
            self.process()
        } else if c == 95 || c == 32 {
            Ok(())
        } else if c == 45 {
            match self.process() {
                Ok(()) => {
                    self.push(Token::SSub);
                    Ok(())
                },
                Err(e) => Err(e),
            }
        } else if c == 43 {
            match self.process() {
                Ok(()) => {
                    self.push(Token::SAdd);
                    Ok(())
                },
                Err(e) => Err(e),
            }
        } else if c == 42 {
            match self.process() {
                Ok(()) => {
                    self.push(Token::SMul);
                    Ok(())
                },
                Err(e) => Err(e),
            }
        } else if c == 47 {
            match self.process() {
                Ok(()) => {
                    self.push(Token::SDiv);
                    Ok(())
                },
                Err(e) => Err(e),
            }
        } else if c == 40 {
            self.open_paren()
        } else if c == 41 {
            match self.process() {
                Ok(()) => {
                    self.push(Token::SGroupEnd);
                    self.process()
                },
                Err(e) => Err(e),
            }
        } else if (97 <= c && c <= 122) || (65 <= c && c <= 90) {
            self.memory.push(c);
            Ok(())
        } else {
            Err(Error::InvalidCharacter { offset: at })
        }
    }

    /// Scans the whole of `data`, building nodes and folding as it goes,
    /// exactly [`m_parse`]. On an error the scanner's state is
    /// half-advanced and good only for reading the error back.
    pub fn parse(&mut self, data: &str) -> (r: Result<(), Error>)
        requires
            old(self).wf(),
        ensures
            ({
                let s = m_parse(old(self)@, data.spec_bytes());
                match r {
                    Ok(()) => s is Ok && final(self)@ == s->Ok_0 && final(self).wf(),
                    Err(e) => s is Err && e == s->Err_0,
                }
            }),
    {
        let bytes = data.as_bytes();
        let n = bytes.len();
        let mut k: usize = 0;
        proof {
            assert(self.data@ + bytes@.take(0) =~= self.data@);
        }
        while k < n
            invariant
                k <= n,
                n == bytes@.len(),
                self.data@ == old(self).data@ + bytes@.take(k as int),
                self.tokens == old(self).tokens,
                self.number_memory == old(self).number_memory,
                self.memory == old(self).memory,
                self.i == old(self).i,
            decreases n - k,
        {
            self.data.push(bytes[k]);
            proof {
                assert(old(self).data@ + bytes@.take(k as int + 1) =~= (old(self).data@
                    + bytes@.take(k as int)).push(bytes@[k as int]));
            }
            k += 1;
        }
        proof {
            assert(bytes@.take(n as int) =~= bytes@);
        }
        let ghost st0 = self@;
        let mut k: usize = 0;
        while k < n
            invariant
                k <= n,
                n == bytes@.len(),
                self.wf(),
                m_scan(st0, bytes@, 0) == m_scan(self@, bytes@, k as int),
            decreases n - k,
        {
            let c = bytes[k];
            match self.step(c, k) {
                Ok(()) => {},
                Err(e) => {
                    return Err(e);
                },
            }
            k += 1;
        }
        self.process()
    }
}

} // verus!
