//! The expression tree.
//!
//! One tagged union, [`Token`], serves both phases: the scanner's working
//! buffer (where the transient `S*` symbol variants live) and the finished
//! tree the evaluator reduces. Float values are opaque here: a float
//! literal keeps its decimal text, and a computed float is carried as its
//! IEEE-754 bits; the arithmetic on them is the caller's.

use vstd::prelude::*;

verus! {

broadcast use vstd::std_specs::vec::axiom_vec_index_decreases;

/// A float value as the library carries it: either the decimal text of a
/// literal (digits with at most one `.`), or the IEEE-754 bits of a value
/// some caller computed.
#[derive(Debug, Clone, PartialEq)]
pub enum Flt {
    Dec(Vec<u8>),
    Bits(u64),
}

/// The mathematical shadow of [`Flt`].
pub ghost enum FltModel {
    Dec(Seq<u8>),
    Bits(u64),
}

impl View for Flt {
    type V = FltModel;

    open spec fn view(&self) -> FltModel {
        match self {
            Flt::Dec(d) => FltModel::Dec(d@),
            Flt::Bits(b) => FltModel::Bits(*b),
        }
    }
}

/// One node of the expression tree, or one transient scanner symbol.
#[derive(Debug)]
pub enum Token {
    I(i64),
    F(Flt),

    Add(Box<Token>, Box<Token>),
    Div(Box<Token>, Box<Token>),
    Sub(Box<Token>, Box<Token>),
    Mul(Box<Token>, Box<Token>),

    Sin(Box<Token>),
    Cos(Box<Token>),
    Pow(Box<Token>, Box<Token>),
    Sqrt(Box<Token>),

    Group(Vec<Token>),

    SAdd,
    SDiv,
    SSub,
    SMul,

    SSin,
    SCos,
    SPow,
    SSqrt,

    SGroupBegin,
    SGroupEnd,

    Inf,
}

/// The mathematical shadow of [`Token`]: the same tree with `Seq` in place
/// of `Vec`. All contracts speak of this type.
pub ghost enum TokModel {
    I(i64),
    F(FltModel),

    Add(Box<TokModel>, Box<TokModel>),
    Div(Box<TokModel>, Box<TokModel>),
    Sub(Box<TokModel>, Box<TokModel>),
    Mul(Box<TokModel>, Box<TokModel>),

    Sin(Box<TokModel>),
    Cos(Box<TokModel>),
    Pow(Box<TokModel>, Box<TokModel>),
    Sqrt(Box<TokModel>),

    Group(Seq<TokModel>),

    SAdd,
    SDiv,
    SSub,
    SMul,

    SSin,
    SCos,
    SPow,
    SSqrt,

    SGroupBegin,
    SGroupEnd,

    Inf,
}

/// The model of one token.
pub open spec fn tok_model(t: Token) -> TokModel
    decreases t,
{
    match t {
        Token::I(n) => TokModel::I(n),
        Token::F(f) => TokModel::F(f@),
        Token::Add(a, b) => TokModel::Add(Box::new(tok_model(*a)), Box::new(tok_model(*b))),
        Token::Div(a, b) => TokModel::Div(Box::new(tok_model(*a)), Box::new(tok_model(*b))),
        Token::Sub(a, b) => TokModel::Sub(Box::new(tok_model(*a)), Box::new(tok_model(*b))),
        Token::Mul(a, b) => TokModel::Mul(Box::new(tok_model(*a)), Box::new(tok_model(*b))),
        Token::Sin(a) => TokModel::Sin(Box::new(tok_model(*a))),
        Token::Cos(a) => TokModel::Cos(Box::new(tok_model(*a))),
        Token::Pow(a, b) => TokModel::Pow(Box::new(tok_model(*a)), Box::new(tok_model(*b))),
        Token::Sqrt(a) => TokModel::Sqrt(Box::new(tok_model(*a))),
        Token::Group(ts) => TokModel::Group(toks_model(ts@)),
        Token::SAdd => TokModel::SAdd,
        Token::SDiv => TokModel::SDiv,
        Token::SSub => TokModel::SSub,
        Token::SMul => TokModel::SMul,
        Token::SSin => TokModel::SSin,
        Token::SCos => TokModel::SCos,
        Token::SPow => TokModel::SPow,
        Token::SSqrt => TokModel::SSqrt,
        Token::SGroupBegin => TokModel::SGroupBegin,
        Token::SGroupEnd => TokModel::SGroupEnd,
        Token::Inf => TokModel::Inf,
    }
}

/// The models of a sequence of tokens, in order.
pub open spec fn toks_model(ts: Seq<Token>) -> Seq<TokModel>
    decreases ts,
{
    if ts.len() == 0 {
        Seq::empty()
    } else {
        toks_model(ts.drop_last()).push(tok_model(ts.last()))
    }
}

impl View for Token {
    type V = TokModel;

    open spec fn view(&self) -> TokModel {
        tok_model(*self)
    }
}

/// A literal value: an integer, or an opaque float.
#[derive(Debug, Clone, PartialEq)]
pub enum Num {
    I(i64),
    F(Flt),
}

/// The mathematical shadow of [`Num`].
pub ghost enum NumModel {
    I(i64),
    F(FltModel),
}

impl View for Num {
    type V = NumModel;

    open spec fn view(&self) -> NumModel {
        match self {
            Num::I(n) => NumModel::I(*n),
            Num::F(f) => NumModel::F(f@),
        }
    }
}

/// One floating-point operation the evaluator needs its caller to perform.
/// The caller turns each operand into an `f64` (an integer widens, decimal
/// text is read, bits are reinterpreted), applies the operation, and hands
/// back the bits of the result.
#[derive(Debug, Clone, PartialEq)]
pub enum FloatReq {
    Add(Num, Num),
    Div(Num, Num),
    Sub(Num, Num),
    Mul(Num, Num),
    Pow(Num, Num),
    Sin(Num),
    Cos(Num),
    Sqrt(Num),
}

/// The mathematical shadow of [`FloatReq`].
pub ghost enum ReqModel {
    Add(NumModel, NumModel),
    Div(NumModel, NumModel),
    Sub(NumModel, NumModel),
    Mul(NumModel, NumModel),
    Pow(NumModel, NumModel),
    Sin(NumModel),
    Cos(NumModel),
    Sqrt(NumModel),
}

impl View for FloatReq {
    type V = ReqModel;

    open spec fn view(&self) -> ReqModel {
        match self {
            FloatReq::Add(a, b) => ReqModel::Add(a@, b@),
            FloatReq::Div(a, b) => ReqModel::Div(a@, b@),
            FloatReq::Sub(a, b) => ReqModel::Sub(a@, b@),
            FloatReq::Mul(a, b) => ReqModel::Mul(a@, b@),
            FloatReq::Pow(a, b) => ReqModel::Pow(a@, b@),
            FloatReq::Sin(a) => ReqModel::Sin(a@),
            FloatReq::Cos(a) => ReqModel::Cos(a@),
            FloatReq::Sqrt(a) => ReqModel::Sqrt(a@),
        }
    }
}

/// The model of an optional request.
pub open spec fn req_opt_model(r: Option<FloatReq>) -> Option<ReqModel> {
    match r {
        Some(q) => Some(q@),
        None => None,
    }
}

// ---------------------------------------------------------------------
// Predicates
// ---------------------------------------------------------------------

/// A value-bearing leaf: an integer or float literal.
pub open spec fn m_is_num(t: TokModel) -> bool {
    t is I || t is F
}

/// A node that may take part in a fold: a literal, a composite, or a group
/// (everything but the transient scanner symbols and `Inf`).
pub open spec fn m_is_calculabile(t: TokModel) -> bool {
    match t {
        TokModel::I(_) => true,
        TokModel::F(_) => true,
        TokModel::Group(_) => true,
        TokModel::Add(_, _) => true,
        TokModel::Sub(_, _) => true,
        TokModel::Mul(_, _) => true,
        TokModel::Div(_, _) => true,
        TokModel::Sin(_) => true,
        TokModel::Cos(_) => true,
        TokModel::Pow(_, _) => true,
        TokModel::Sqrt(_) => true,
        _ => false,
    }
}

/// A decimal literal whose value is zero: every byte is a `0` digit or the
/// decimal point.
pub open spec fn m_dec_is_zero(d: Seq<u8>) -> bool {
    forall|i: int| 0 <= i < d.len() ==> (d[i] == 48u8 || d[i] == 46u8)
}

/// A float that compares equal to zero: an all-zero decimal literal, or
/// the bits of IEEE-754 positive or negative zero.
pub open spec fn m_flt_is_zero(f: FltModel) -> bool {
    match f {
        FltModel::Dec(d) => m_dec_is_zero(d),
        FltModel::Bits(b) => b == 0u64 || b == 0x8000_0000_0000_0000u64,
    }
}

/// A literal equal to zero.
pub open spec fn m_is_zero(t: TokModel) -> bool {
    match t {
        TokModel::I(n) => n == 0,
        TokModel::F(f) => m_flt_is_zero(f),
        _ => false,
    }
}

/// Every element of the sequence is a literal.
pub open spec fn m_all_num(ts: Seq<TokModel>) -> bool {
    forall|i: int| 0 <= i < ts.len() ==> m_is_num(#[trigger] ts[i])
}

/// A composite whose direct parts are all literals already, or a group of
/// literals: one local reduction away from (closer to) a value.
pub open spec fn m_is_end(t: TokModel) -> bool {
    match t {
        TokModel::Add(a, b) => m_is_num(*a) && m_is_num(*b),
        TokModel::Div(a, b) => m_is_num(*a) && m_is_num(*b),
        TokModel::Sub(a, b) => m_is_num(*a) && m_is_num(*b),
        TokModel::Mul(a, b) => m_is_num(*a) && m_is_num(*b),
        TokModel::Sin(a) => m_is_num(*a),
        TokModel::Cos(a) => m_is_num(*a),
        TokModel::Pow(a, b) => m_is_num(*a) && m_is_num(*b),
        TokModel::Sqrt(a) => m_is_num(*a),
        TokModel::Group(ts) => m_all_num(ts),
        _ => false,
    }
}

/// The value of a literal node. Meaningful only where [`m_is_num`] holds.
pub open spec fn m_num(t: TokModel) -> NumModel
    recommends
        m_is_num(t),
{
    match t {
        TokModel::I(n) => NumModel::I(n),
        TokModel::F(f) => NumModel::F(f),
        _ => NumModel::I(0),
    }
}

// ---------------------------------------------------------------------
// The integer kernel
// ---------------------------------------------------------------------

/// Integer division, truncating toward zero; division by zero yields zero,
/// and the one overflowing case (`i64::MIN / -1`) wraps to `i64::MIN`.
pub open spec fn div_i64(x: i64, y: i64) -> i64 {
    if y == 0 {
        0
    } else {
        match x.checked_div(y) {
            Some(q) => q,
            None => i64::MIN,
        }
    }
}

// ---------------------------------------------------------------------
// The local reduction step
// ---------------------------------------------------------------------

/// What one local reduction attempt does to a node: the node afterwards,
/// and the floating-point operation the caller owes, if any. Whenever a
/// request is returned the node is unchanged.
///
/// Integer `+ - *` wrap; `/` follows [`div_i64`]. A division whose right
/// operand is a zero literal of either kind yields `I(0)` outright. The
/// trig, root and power operators, and any binary operator with a float
/// operand, become requests. A one-element group collapses to its element.
/// Every other node is left as it is.
pub open spec fn local_result(t: TokModel) -> (TokModel, Option<ReqModel>) {
    match t {
        TokModel::Add(a, b) => {
            if m_is_num(*a) && m_is_num(*b) {
                if *a is I && *b is I {
                    (TokModel::I(((*a)->I_0).wrapping_add((*b)->I_0)), None)
                } else {
                    (t, Some(ReqModel::Add(m_num(*a), m_num(*b))))
                }
            } else {
                (t, None)
            }
        },
        TokModel::Div(a, b) => {
            if m_is_num(*a) && m_is_num(*b) {
                if m_is_zero(*b) {
                    (TokModel::I(0), None)
                } else if *a is I && *b is I {
                    (TokModel::I(div_i64((*a)->I_0, (*b)->I_0)), None)
                } else {
                    (t, Some(ReqModel::Div(m_num(*a), m_num(*b))))
                }
            } else {
                (t, None)
            }
        },
        TokModel::Sub(a, b) => {
            if m_is_num(*a) && m_is_num(*b) {
                if *a is I && *b is I {
                    (TokModel::I(((*a)->I_0).wrapping_sub((*b)->I_0)), None)
                } else {
                    (t, Some(ReqModel::Sub(m_num(*a), m_num(*b))))
                }
            } else {
                (t, None)
            }
        },
        TokModel::Mul(a, b) => {
            if m_is_num(*a) && m_is_num(*b) {
                if *a is I && *b is I {
                    (TokModel::I(((*a)->I_0).wrapping_mul((*b)->I_0)), None)
                } else {
                    (t, Some(ReqModel::Mul(m_num(*a), m_num(*b))))
                }
            } else {
                (t, None)
            }
        },
        TokModel::Sin(a) => {
            if m_is_num(*a) {
                (t, Some(ReqModel::Sin(m_num(*a))))
            } else {
                (t, None)
            }
        },
        TokModel::Cos(a) => {
            if m_is_num(*a) {
                (t, Some(ReqModel::Cos(m_num(*a))))
            } else {
                (t, None)
            }
        },
        TokModel::Sqrt(a) => {
            if m_is_num(*a) {
                (t, Some(ReqModel::Sqrt(m_num(*a))))
            } else {
                (t, None)
            }
        },
        TokModel::Pow(a, b) => {
            if m_is_num(*a) && m_is_num(*b) {
                (t, Some(ReqModel::Pow(m_num(*a), m_num(*b))))
            } else {
                (t, None)
            }
        },
        TokModel::Group(ts) => {
            if ts.len() == 1 {
                (ts[0], None)
            } else {
                (t, None)
            }
        },
        _ => (t, None),
    }
}

// ---------------------------------------------------------------------
// Executable code
// ---------------------------------------------------------------------

/// An element-for-element copy of a byte vector.
fn dup_bytes(d: &Vec<u8>) -> (r: Vec<u8>)
    ensures
        r@ == d@,
{
    let mut r: Vec<u8> = Vec::new();
    let mut i: usize = 0;
    while i < d.len()
        invariant
            i <= d.len(),
            r@ == d@.take(i as int),
        decreases d.len() - i,
    {
        r.push(d[i]);
        i += 1;
    }
    assert(d@.take(d@.len() as int) == d@);
    r
}

impl Flt {
    /// A copy with the same contents.
    pub fn dup(&self) -> (r: Flt)
        ensures
            r@ == self@,
    {
        match self {
            Flt::Dec(d) => Flt::Dec(dup_bytes(d)),
            Flt::Bits(b) => Flt::Bits(*b),
        }
    }

    /// Whether this float compares equal to zero.
    pub fn is_zero(&self) -> (r: bool)
        ensures
            r == m_flt_is_zero(self@),
    {
        match self {
            Flt::Dec(d) => {
                let mut i: usize = 0;
                while i < d.len()
                    invariant
                        i <= d.len(),
                        forall|j: int| 0 <= j < i ==> (d@[j] == 48u8 || d@[j] == 46u8),
                    decreases d.len() - i,
                {
                    if d[i] != 48 && d[i] != 46 {
                        assert(!(d@[i as int] == 48u8 || d@[i as int] == 46u8));
                        return false;
                    }
                    i += 1;
                }
                true
            },
            Flt::Bits(b) => *b == 0 || *b == 0x8000_0000_0000_0000,
        }
    }
}

impl Num {
    /// A copy with the same contents.
    pub fn dup(&self) -> (r: Num)
        ensures
            r@ == self@,
    {
        match self {
            Num::I(n) => Num::I(*n),
            Num::F(f) => Num::F(f.dup()),
        }
    }

    /// The literal tree node carrying this value.
    pub fn into_token(self) -> (r: Token)
        ensures
            r@ == (match self@ {
                NumModel::I(n) => TokModel::I(n),
                NumModel::F(f) => TokModel::F(f),
            }),
    {
        match self {
            Num::I(n) => Token::I(n),
            Num::F(f) => Token::F(f),
        }
    }
}

impl Token {
    pub fn a(a: Token, b: Token) -> (r: Token)
        ensures
            r@ == TokModel::Add(Box::new(a@), Box::new(b@)),
    {
        Token::Add(Box::new(a), Box::new(b))
    }

    pub fn s(a: Token, b: Token) -> (r: Token)
        ensures
            r@ == TokModel::Sub(Box::new(a@), Box::new(b@)),
    {
        Token::Sub(Box::new(a), Box::new(b))
    }

    pub fn m(a: Token, b: Token) -> (r: Token)
        ensures
            r@ == TokModel::Mul(Box::new(a@), Box::new(b@)),
    {
        Token::Mul(Box::new(a), Box::new(b))
    }

    pub fn d(a: Token, b: Token) -> (r: Token)
        ensures
            r@ == TokModel::Div(Box::new(a@), Box::new(b@)),
    {
        Token::Div(Box::new(a), Box::new(b))
    }

    pub fn sin(token: Token) -> (r: Token)
        ensures
            r@ == TokModel::Sin(Box::new(token@)),
    {
        Token::Sin(Box::new(token))
    }

    pub fn cos(token: Token) -> (r: Token)
        ensures
            r@ == TokModel::Cos(Box::new(token@)),
    {
        Token::Cos(Box::new(token))
    }

    pub fn pow(a: Token, b: Token) -> (r: Token)
        ensures
            r@ == TokModel::Pow(Box::new(a@), Box::new(b@)),
    {
        Token::Pow(Box::new(a), Box::new(b))
    }

    pub fn sqrt(token: Token) -> (r: Token)
        ensures
            r@ == TokModel::Sqrt(Box::new(token@)),
    {
        Token::Sqrt(Box::new(token))
    }

    /// Whether this node is a literal.
    pub fn is_num(&self) -> (r: bool)
        ensures
            r == m_is_num(self@),
    {
        matches!(self, Token::I(_) | Token::F(_))
    }

    /// Whether this node may take part in a fold.
    pub fn is_calculabile(&self) -> (r: bool)
        ensures
            r == m_is_calculabile(self@),
    {
        matches!(
            self,
            Token::I(_)
                | Token::F(_)
                | Token::Group(_)
                | Token::Add(_, _)
                | Token::Sub(_, _)
                | Token::Mul(_, _)
                | Token::Div(_, _)
                | Token::Sin(_)
                | Token::Cos(_)
                | Token::Pow(_, _)
                | Token::Sqrt(_)
        )
    }

    /// Whether this node is a literal equal to zero.
    pub fn is_zero(&self) -> (r: bool)
        ensures
            r == m_is_zero(self@),
    {
        match self {
            Token::I(t) => *t == 0,
            Token::F(f) => f.is_zero(),
            _ => false,
        }
    }

    /// Whether every direct part of this composite is already a literal.
    pub fn is_end(&self) -> (r: bool)
        ensures
            r == m_is_end(self@),
    {
        match self {
            Token::Add(a, b) => a.is_num() && b.is_num(),
            Token::Div(a, b) => a.is_num() && b.is_num(),
            Token::Sub(a, b) => a.is_num() && b.is_num(),
            Token::Mul(a, b) => a.is_num() && b.is_num(),
            Token::Sin(a) => a.is_num(),
            Token::Cos(a) => a.is_num(),
            Token::Pow(a, b) => a.is_num() && b.is_num(),
            Token::Sqrt(a) => a.is_num(),
            Token::Group(ts) => {
                let mut i: usize = 0;
                while i < ts.len()
                    invariant
                        i <= ts.len(),
                        forall|j: int| 0 <= j < i ==> m_is_num(#[trigger] toks_model(ts@)[j]),
                    decreases ts.len() - i,
                {
                    if !ts[i].is_num() {
                        proof {
                            lemma_toks_model_index(ts@, i as int);
                            assert(!m_is_num(toks_model(ts@)[i as int]));
                            assert(!m_all_num(toks_model(ts@)));
                        }
                        return false;
                    }
                    proof {
                        lemma_toks_model_index(ts@, i as int);
                    }
                    i += 1;
                }
                proof {
                    lemma_toks_model_len(ts@);
                }
                true
            },
            _ => false,
        }
    }

    /// The value of this node, where it is a literal.
    pub fn as_num(&self) -> (r: Option<Num>)
        ensures
            m_is_num(self@) ==> (r is Some && r->Some_0@ == m_num(self@)),
            !m_is_num(self@) ==> r is None,
    {
        match self {
            Token::I(n) => Some(Num::I(*n)),
            Token::F(f) => Some(Num::F(f.dup())),
            _ => None,
        }
    }

    /// One local reduction attempt, exactly [`local_result`]: the node is
    /// replaced by its reduced form, or left unchanged, and any
    /// floating-point operation the reduction needs is handed back for the
    /// caller to perform.
    pub fn calculate(&mut self) -> (r: Option<FloatReq>)
        ensures
            old(self)@ == tok_model(*old(self)) && ({
                let s = local_result(old(self)@);
                final(self)@ == s.0 && req_opt_model(r) == s.1
            }),
    {
        let mut t = Token::Inf;
        core::mem::swap(self, &mut t);
        let (t2, r) = Self::local_step(t);
        *self = t2;
        r
    }

    /// [`Token::calculate`], by value.
    fn local_step(t: Token) -> (r: (Token, Option<FloatReq>))
        ensures
            ({
                let s = local_result(t@);
                r.0@ == s.0 && req_opt_model(r.1) == s.1
            }),
    {
        match t {
            Token::Add(a, b) => {
                match (a.as_num(), b.as_num()) {
                    (Some(na), Some(nb)) => {
                        match (na, nb) {
                            (Num::I(x), Num::I(y)) => (Token::I(x.wrapping_add(y)), None),
                            (na, nb) => (Token::Add(a, b), Some(FloatReq::Add(na, nb))),
                        }
                    },
                    _ => (Token::Add(a, b), None),
                }
            },
            Token::Div(a, b) => {
                match (a.as_num(), b.as_num()) {
                    (Some(na), Some(nb)) => {
                        if b.is_zero() {
                            (Token::I(0), None)
                        } else {
                            match (na, nb) {
                                (Num::I(x), Num::I(y)) => {
                                    let q = match x.checked_div(y) {
                                        Some(q) => q,
                                        None => i64::MIN,
                                    };
                                    (Token::I(q), None)
                                },
                                (na, nb) => (Token::Div(a, b), Some(FloatReq::Div(na, nb))),
                            }
                        }
                    },
                    _ => (Token::Div(a, b), None),
                }
            },
            Token::Sub(a, b) => {
                match (a.as_num(), b.as_num()) {
                    (Some(na), Some(nb)) => {
                        match (na, nb) {
                            (Num::I(x), Num::I(y)) => (Token::I(x.wrapping_sub(y)), None),
                            (na, nb) => (Token::Sub(a, b), Some(FloatReq::Sub(na, nb))),
                        }
                    },
                    _ => (Token::Sub(a, b), None),
                }
            },
            Token::Mul(a, b) => {
                match (a.as_num(), b.as_num()) {
                    (Some(na), Some(nb)) => {
                        match (na, nb) {
                            (Num::I(x), Num::I(y)) => (Token::I(x.wrapping_mul(y)), None),
                            (na, nb) => (Token::Mul(a, b), Some(FloatReq::Mul(na, nb))),
                        }
                    },
                    _ => (Token::Mul(a, b), None),
                }
            },
            Token::Sin(a) => {
                match a.as_num() {
                    Some(n) => (Token::Sin(a), Some(FloatReq::Sin(n))),
                    None => (Token::Sin(a), None),
                }
            },
            Token::Cos(a) => {
                match a.as_num() {
                    Some(n) => (Token::Cos(a), Some(FloatReq::Cos(n))),
                    None => (Token::Cos(a), None),
                }
            },
            Token::Sqrt(a) => {
                match a.as_num() {
                    Some(n) => (Token::Sqrt(a), Some(FloatReq::Sqrt(n))),
                    None => (Token::Sqrt(a), None),
                }
            },
            Token::Pow(a, b) => {
                match (a.as_num(), b.as_num()) {
                    (Some(na), Some(nb)) => (Token::Pow(a, b), Some(FloatReq::Pow(na, nb))),
                    _ => (Token::Pow(a, b), None),
                }
            },
            Token::Group(mut ts) => {
                proof {
                    lemma_toks_model_len(ts@);
                }
                if ts.len() == 1 {
                    let ghost ots = ts@;
                    match ts.pop() {
                        Some(only) => {
                            proof {
                                assert(ots =~= seq![only]);
                                assert(toks_model(ots) =~= seq![tok_model(only)]) by {
                                    lemma_toks_model_index(ots, 0);
                                }
                            }
                            (only, None)
                        },
                        None => (Token::Group(ts), None),
                    }
                } else {
                    (Token::Group(ts), None)
                }
            },
            other => (other, None),
        }
    }
}

// ---------------------------------------------------------------------
// Facts about the model of a token sequence
// ---------------------------------------------------------------------

/// The model of a sequence has the sequence's length.
pub proof fn lemma_toks_model_len(ts: Seq<Token>)
    ensures
        toks_model(ts).len() == ts.len(),
    decreases ts,
{
    if ts.len() > 0 {
        lemma_toks_model_len(ts.drop_last());
    }
}

/// A sequence of models computed pointwise is the model of the sequence.
pub proof fn lemma_toks_model_ext(a: Seq<Token>, b: Seq<TokModel>)
    requires
        b.len() == a.len(),
        forall|i: int| 0 <= i < a.len() ==> b[i] == tok_model(#[trigger] a[i]),
    ensures
        toks_model(a) == b,
{
    lemma_toks_model_len(a);
    assert forall|i: int| 0 <= i < a.len() implies toks_model(a)[i] == b[i] by {
        lemma_toks_model_index(a, i);
    }
    assert(toks_model(a) =~= b);
}

/// The model of a concatenation is the concatenation of the models.
pub proof fn lemma_toks_model_concat(a: Seq<Token>, b: Seq<Token>)
    ensures
        toks_model(a + b) == toks_model(a) + toks_model(b),
{
    lemma_toks_model_len(a);
    lemma_toks_model_len(b);
    assert forall|i: int| 0 <= i < (a + b).len() implies (toks_model(a) + toks_model(b))[i]
        == tok_model(#[trigger] (a + b)[i]) by {
        if i < a.len() {
            lemma_toks_model_index(a, i);
        } else {
            lemma_toks_model_index(b, i - a.len());
        }
    }
    lemma_toks_model_ext(a + b, toks_model(a) + toks_model(b));
}

/// The model of a subrange is the subrange of the model.
pub proof fn lemma_toks_model_subrange(ts: Seq<Token>, a: int, b: int)
    requires
        0 <= a <= b <= ts.len(),
    ensures
        toks_model(ts.subrange(a, b)) == toks_model(ts).subrange(a, b),
{
    lemma_toks_model_len(ts);
    assert forall|i: int| 0 <= i < ts.subrange(a, b).len() implies toks_model(ts).subrange(a, b)[i]
        == tok_model(#[trigger] ts.subrange(a, b)[i]) by {
        lemma_toks_model_index(ts, a + i);
    }
    lemma_toks_model_ext(ts.subrange(a, b), toks_model(ts).subrange(a, b));
}

/// The model of a push is a push of the model.
pub proof fn lemma_toks_model_push(ts: Seq<Token>, t: Token)
    ensures
        toks_model(ts.push(t)) == toks_model(ts).push(tok_model(t)),
{
    assert(ts.push(t).drop_last() =~= ts);
    assert(ts.push(t).last() == t);
}

/// The model of a sequence is the sequence of the models.
pub proof fn lemma_toks_model_index(ts: Seq<Token>, i: int)
    requires
        0 <= i < ts.len(),
    ensures
        toks_model(ts).len() == ts.len(),
        toks_model(ts)[i] == tok_model(ts[i]),
    decreases ts,
{
    lemma_toks_model_len(ts);
    if i < ts.len() - 1 {
        lemma_toks_model_index(ts.drop_last(), i);
    }
}

} // verus!
