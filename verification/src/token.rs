//! The expression pipeline: tokens, priority-driven reduction into a binary
//! tree, and recursive evaluation.

use vstd::prelude::*;

use crate::rat::Rat;
use crate::rat::rat_add;
use crate::rat::rat_div;
use crate::rat::rat_mul;
use crate::rat::rat_sub;
use crate::rat::rat_wf;
use crate::rat::spec_add;
use crate::rat::spec_div;
use crate::rat::spec_mul;
use crate::rat::spec_sub;
use vstd::multiset::Multiset;
use vstd::pervasive::VecAdditionalExecFns;

verus! {

broadcast use vstd::multiset::group_multiset_axioms;

/// What identifies a token independently of the reduction state that
/// mutates around it: its kind, its text and its numeric payload.
pub type TokenAtom = (TokenKind, Seq<char>, Rat);

/// The kind of a lexical token.
#[derive(Clone, Copy, Debug, PartialEq, Eq, Structural)]
pub enum TokenKind {
    Number,
    Addition,
    Subtraction,
    Multiplication,
    Division,
    RoundBracketOpen,
    RoundBracketClose,
    Invalid,
}

/// How an evaluation can fail.
#[derive(Clone, Copy, Debug, PartialEq, Eq, Structural)]
pub enum EvalError {
    /// The input holds a character outside digits, `+ - * /`, parentheses
    /// and spaces.
    InvalidCharacter,
    /// A numeric literal does not fit the evaluator's integer range.
    MalformedNumber,
    /// The reduction loop could not collapse the input to a single node.
    MalformedExpression,
    /// The right operand of a division evaluated to exactly zero.
    DivisionByZero,
    /// The evaluator reached a node kind that carries no value.
    InternalInvariantViolation,
    /// An intermediate rational left the representable range.
    Overflow,
}

/// One token. Tokens start as flat siblings in a sequence; reduction folds an
/// operator token with its two neighbors into a node, after which the node
/// carries its operands in `left` and `right` and is marked `is_processed`.
pub struct Token {
    pub token_type: TokenKind,
    /// The literal substring that produced the token; diagnostic only.
    pub text: Ghost<Seq<char>>,
    pub left: Option<Box<Token>>,
    pub right: Option<Box<Token>>,
    pub value: Rat,
    pub is_processed: bool,
}

/// Well-formedness of a token tree: every value in it has a positive
/// denominator.
pub open spec fn wf_token(t: Token) -> bool
    decreases t,
{
    &&& rat_wf(t.value)
    &&& (match t.left {
        Some(l) => wf_token(*l),
        None => true,
    })
    &&& (match t.right {
        Some(r) => wf_token(*r),
        None => true,
    })
}

/// The value of a token tree, by a post-order walk: a missing operand counts
/// as zero, a `Number` yields its payload, an operator combines the two
/// operand values, and division by a zero operand fails. A structural kind
/// (a bracket, or `Invalid`) carries no value.
pub open spec fn spec_get_value(t: Token) -> Result<Rat, EvalError>
    decreases t,
{
    let l_r = match t.left {
        Some(l) => spec_get_value(*l),
        None => Ok(Rat { num: 0, den: 1 }),
    };
    let r_r = match t.right {
        Some(r) => spec_get_value(*r),
        None => Ok(Rat { num: 0, den: 1 }),
    };
    match l_r {
        Err(e) => Err(e),
        Ok(l_v) => match r_r {
            Err(e) => Err(e),
            Ok(r_v) => match t.token_type {
                TokenKind::Number => Ok(t.value),
                TokenKind::Addition => match spec_add(l_v, r_v) {
                    Some(v) => Ok(v),
                    None => Err(EvalError::Overflow),
                },
                TokenKind::Subtraction => match spec_sub(l_v, r_v) {
                    Some(v) => Ok(v),
                    None => Err(EvalError::Overflow),
                },
                TokenKind::Division => if r_v.num == 0 {
                    Err(EvalError::DivisionByZero)
                } else {
                    match spec_div(l_v, r_v) {
                        Some(v) => Ok(v),
                        None => Err(EvalError::Overflow),
                    }
                },
                TokenKind::Multiplication => match spec_mul(l_v, r_v) {
                    Some(v) => Ok(v),
                    None => Err(EvalError::Overflow),
                },
                _ => Err(EvalError::InternalInvariantViolation),
            },
        },
    }
}

/// A value that `spec_get_value` returns on a well-formed tree is itself
/// well-formed.
pub proof fn lemma_spec_get_value_wf(t: Token)
    requires
        wf_token(t),
    ensures
        spec_get_value(t) matches Ok(v) ==> rat_wf(v),
    decreases t,
{
    match t.left {
        Some(l) => lemma_spec_get_value_wf(*l),
        None => (),
    }
    match t.right {
        Some(r) => lemma_spec_get_value_wf(*r),
        None => (),
    }
    let l_r = match t.left {
        Some(l) => spec_get_value(*l),
        None => Ok::<Rat, EvalError>(Rat { num: 0, den: 1 }),
    };
    let r_r = match t.right {
        Some(r) => spec_get_value(*r),
        None => Ok::<Rat, EvalError>(Rat { num: 0, den: 1 }),
    };
    if l_r is Ok && r_r is Ok {
        let l_v = l_r->Ok_0;
        let r_v = r_r->Ok_0;
        assert(rat_wf(l_v) && rat_wf(r_v));
        lemma_spec_ops_wf(l_v, r_v);
    }
}

/// The four rational operations keep denominators positive.
proof fn lemma_spec_ops_wf(a: Rat, b: Rat)
    requires
        rat_wf(a),
        rat_wf(b),
    ensures
        spec_add(a, b) matches Some(v) ==> rat_wf(v),
        spec_sub(a, b) matches Some(v) ==> rat_wf(v),
        spec_mul(a, b) matches Some(v) ==> rat_wf(v),
        spec_div(a, b) matches Some(v) ==> rat_wf(v),
{
    assert((a.den as int) * (b.den as int) >= 1) by (nonlinear_arith)
        requires
            a.den >= 1,
            b.den >= 1;
    if b.num != 0 {
        assert((a.den as int) * (b.num as int) != 0) by (nonlinear_arith)
            requires
                a.den >= 1,
                b.num != 0;
    }
}

impl Token {
    /// A blank token: kind `Invalid`, no text, no children, value zero.
    pub fn new() -> (t: Token)
        ensures
            t.token_type == TokenKind::Invalid,
            t.text@ == Seq::<char>::empty(),
            t.left is None,
            t.right is None,
            t.value == (Rat { num: 0, den: 1 }),
            !t.is_processed,
    {
        Token {
            token_type: TokenKind::Invalid,
            text: Ghost(Seq::empty()),
            left: None,
            right: None,
            value: Rat { num: 0, den: 1 },
            is_processed: false,
        }
    }

    /// A fresh leaf token of the given kind, text and value.
    pub fn pre_init(type_: TokenKind, text: Ghost<Seq<char>>, value: Rat) -> (t: Token)
        ensures
            t == (Token {
                token_type: type_,
                text: text,
                left: None,
                right: None,
                value: value,
                is_processed: false,
            }),
    {
        Token {
            token_type: type_,
            text: text,
            left: None,
            right: None,
            value: value,
            is_processed: false,
        }
    }

    /// Evaluate the tree rooted here, exactly as `spec_get_value` states.
    pub fn get_value(&self) -> (r: Result<Rat, EvalError>)
        requires
            wf_token(*self),
        ensures
            r == spec_get_value(*self),
        decreases *self,
    {
        let mut l_v = Rat { num: 0, den: 1 };
        let mut r_v = Rat { num: 0, den: 1 };
        if let Some(v) = &self.left {
            match v.get_value() {
                Ok(x) => {
                    l_v = x;
                }
                Err(e) => {
                    return Err(e);
                }
            }
        }
        if let Some(v) = &self.right {
            match v.get_value() {
                Ok(x) => {
                    r_v = x;
                }
                Err(e) => {
                    return Err(e);
                }
            }
        }
        proof {
            if self.left is Some {
                lemma_spec_get_value_wf(*self.left->Some_0);
            }
            if self.right is Some {
                lemma_spec_get_value_wf(*self.right->Some_0);
            }
        }
        match self.token_type {
            TokenKind::Number => Ok(self.value),
            TokenKind::Addition => match rat_add(l_v, r_v) {
                Some(v) => Ok(v),
                None => Err(EvalError::Overflow),
            },
            TokenKind::Subtraction => match rat_sub(l_v, r_v) {
                Some(v) => Ok(v),
                None => Err(EvalError::Overflow),
            },
            TokenKind::Division => {
                if r_v.num == 0 {
                    Err(EvalError::DivisionByZero)
                } else {
                    match rat_div(l_v, r_v) {
                        Some(v) => Ok(v),
                        None => Err(EvalError::Overflow),
                    }
                }
            }
            TokenKind::Multiplication => match rat_mul(l_v, r_v) {
                Some(v) => Ok(v),
                None => Err(EvalError::Overflow),
            },
            _ => Err(EvalError::InternalInvariantViolation),
        }
    }
}

/// The binding priority of one token at bracket depth `deep`: additive
/// operators bind at `1 + deep`, multiplicative ones at `2 + deep`, and
/// numbers, brackets and already-processed nodes do not bind at all.
pub open spec fn token_priority(t: Token, deep: int) -> int {
    if t.is_processed {
        0
    } else {
        match t.token_type {
            TokenKind::Addition => 1 + deep,
            TokenKind::Subtraction => 1 + deep,
            TokenKind::Multiplication => 2 + deep,
            TokenKind::Division => 2 + deep,
            _ => 0,
        }
    }
}

/// The bracket depth after passing one token: an open bracket raises it by
/// two, a close bracket lowers it by two, so that the shallowest in-bracket
/// priority exceeds any out-of-bracket priority.
pub open spec fn deep_after(t: Token, deep: int) -> int {
    match t.token_type {
        TokenKind::RoundBracketOpen => deep + 2,
        TokenKind::RoundBracketClose => deep - 2,
        _ => deep,
    }
}

/// The left-to-right priority scan from position `i`, carrying the best
/// priority seen, its index, and the current bracket depth. Only a strictly
/// greater priority replaces the best, so the leftmost among equals wins.
pub open spec fn prime_scan(s: Seq<Token>, i: int, prime: int, prime_index: int, deep: int) -> int
    decreases s.len() - i,
{
    if i < 0 || i >= s.len() {
        prime_index
    } else {
        let p = token_priority(s[i], deep);
        let d2 = deep_after(s[i], deep);
        if p > prime {
            prime_scan(s, i + 1, p, i, d2)
        } else {
            prime_scan(s, i + 1, prime, prime_index, d2)
        }
    }
}

/// The index of the token that folds next: the leftmost token of globally
/// highest priority, or `0` when nothing binds.
pub open spec fn spec_prime_index(s: Seq<Token>) -> int {
    prime_scan(s, 0, 0, 0, 0)
}

/// Find the index of the token that the next fold collapses, exactly as
/// `spec_prime_index` states.
pub fn get_prime_index(tokens: &Vec<Token>) -> (r: usize)
    ensures
        r as int == spec_prime_index(tokens@),
        tokens@.len() > 0 ==> (r as int) < tokens@.len(),
        tokens@.len() == 0 ==> r == 0,
{
    let mut prime: i128 = 0;
    let mut prime_index: usize = 0;
    let mut bracket_deep: i128 = 0;
    let n = tokens.len();
    let mut index: usize = 0;
    while index < n
        invariant
            n == tokens@.len(),
            index <= n,
            -2 * (index as int) <= bracket_deep <= 2 * (index as int),
            0 <= prime <= 2 + 2 * (index as int),
            prime_index == 0 || (prime_index as int) < (index as int),
            prime_scan(tokens@, index as int, prime as int, prime_index as int, bracket_deep as int)
                == spec_prime_index(tokens@),
        decreases n - index,
    {
        let t = &tokens[index];
        let mut p: i128 = match t.token_type {
            TokenKind::Addition => 1 + bracket_deep,
            TokenKind::Subtraction => 1 + bracket_deep,
            TokenKind::Multiplication => 2 + bracket_deep,
            TokenKind::Division => 2 + bracket_deep,
            TokenKind::RoundBracketOpen => {
                bracket_deep = bracket_deep + 2;
                0
            }
            TokenKind::RoundBracketClose => {
                bracket_deep = bracket_deep - 2;
                0
            }
            _ => 0,
        };
        if t.is_processed {
            p = 0;
        }
        if p > prime {
            prime = p;
            prime_index = index;
        }
        index = index + 1;
    }
    prime_index
}

/// The bracket depth in force at position `j`: the running effect of every
/// bracket strictly before `j`.
pub open spec fn depth_at(s: Seq<Token>, j: int) -> int
    decreases j,
{
    if j <= 0 {
        0
    } else {
        deep_after(s[j - 1], depth_at(s, j - 1))
    }
}

/// The binding priority of the token at position `j`, at its own depth.
pub open spec fn prio_at(s: Seq<Token>, j: int) -> int {
    token_priority(s[j], depth_at(s, j))
}

proof fn lemma_prime_scan_leftmost(s: Seq<Token>, i: int, prime: int, pi: int, deep: int)
    requires
        0 <= i <= s.len(),
        deep == depth_at(s, i),
    ensures
        (forall|j: int| i <= j < s.len() ==> prio_at(s, j) <= prime) ==> prime_scan(
            s,
            i,
            prime,
            pi,
            deep,
        ) == pi,
        (exists|j: int| i <= j < s.len() && prio_at(s, j) > prime) ==> ({
            let r = prime_scan(s, i, prime, pi, deep);
            &&& i <= r < s.len()
            &&& prio_at(s, r) > prime
            &&& (forall|j: int| i <= j < s.len() ==> prio_at(s, j) <= prio_at(s, r))
            &&& (forall|j: int| i <= j < r ==> prio_at(s, j) < prio_at(s, r))
        }),
    decreases s.len() - i,
{
    if i < s.len() {
        let p = token_priority(s[i], deep);
        let d2 = deep_after(s[i], deep);
        assert(prio_at(s, i) == p);
        assert(depth_at(s, i + 1) == d2);
        if p > prime {
            lemma_prime_scan_leftmost(s, i + 1, p, i, d2);
        } else {
            lemma_prime_scan_leftmost(s, i + 1, prime, pi, d2);
            if exists|j: int| i <= j < s.len() && prio_at(s, j) > prime {
                let w = choose|j: int| i <= j < s.len() && prio_at(s, j) > prime;
                assert(w != i);
                assert(i + 1 <= w < s.len() && prio_at(s, w) > prime);
            }
        }
    }
}

/// The fold always collapses the leftmost token of highest binding
/// priority: a deeper bracket or a higher precedence binds first, and among
/// tokens of equal priority the leftmost wins, which makes operators of
/// equal precedence at equal depth fold left to right.
pub proof fn lemma_prime_index_leftmost_strongest(s: Seq<Token>)
    ensures
        (forall|j: int| 0 <= j < s.len() ==> prio_at(s, j) <= 0) ==> spec_prime_index(s) == 0,
        (exists|j: int| 0 <= j < s.len() && prio_at(s, j) > 0) ==> ({
            let r = spec_prime_index(s);
            &&& 0 <= r < s.len()
            &&& prio_at(s, r) > 0
            &&& (forall|j: int| 0 <= j < s.len() ==> prio_at(s, j) <= prio_at(s, r))
            &&& (forall|j: int| 0 <= j < r ==> prio_at(s, j) < prio_at(s, r))
        }),
{
    lemma_prime_scan_leftmost(s, 0, 0, 0, 0);
}

/// A stack of positions, as mathematical integers.
pub open spec fn stack_ints(st: Seq<usize>) -> Seq<int> {
    st.map_values(|x: usize| x as int)
}

/// Which tokens a bracket-elision pass deletes. The scan walks the sequence
/// left to right keeping a stack of the open brackets still unmatched; when a
/// close bracket matches an open one whose span holds zero or one token, both
/// markers are marked for deletion. Unmatched brackets stay.
pub open spec fn bracket_marks(s: Seq<Token>, i: int, stack: Seq<int>, marks: Seq<bool>) -> Seq<
    bool,
>
    decreases s.len() - i,
{
    if i < 0 || i >= s.len() {
        marks
    } else if s[i].token_type is RoundBracketOpen {
        bracket_marks(s, i + 1, stack.push(i), marks)
    } else if s[i].token_type is RoundBracketClose {
        if stack.len() > 0 {
            let open = stack.last();
            if i - open <= 2 {
                bracket_marks(s, i + 1, stack.drop_last(), marks.update(open, true).update(i, true))
            } else {
                bracket_marks(s, i + 1, stack.drop_last(), marks)
            }
        } else {
            bracket_marks(s, i + 1, stack, marks)
        }
    } else {
        bracket_marks(s, i + 1, stack, marks)
    }
}

/// The subsequence of `s` from `i` on whose positions are not marked.
pub open spec fn remove_marked(s: Seq<Token>, i: int, marks: Seq<bool>) -> Seq<Token>
    decreases s.len() - i,
{
    if i < 0 || i >= s.len() {
        Seq::empty()
    } else if marks[i] {
        remove_marked(s, i + 1, marks)
    } else {
        seq![s[i]] + remove_marked(s, i + 1, marks)
    }
}

/// One bracket-elision pass: delete every matched bracket pair whose content
/// has shrunk to zero or one token.
pub open spec fn spec_remove_bracket(s: Seq<Token>) -> Seq<Token> {
    remove_marked(s, 0, bracket_marks(s, 0, Seq::empty(), Seq::new(s.len(), |j: int| false)))
}

/// Elision never lengthens the sequence.
pub proof fn lemma_remove_marked_len(s: Seq<Token>, i: int, marks: Seq<bool>)
    requires
        0 <= i <= s.len(),
    ensures
        remove_marked(s, i, marks).len() <= s.len() - i,
    decreases s.len() - i,
{
    if i < s.len() {
        lemma_remove_marked_len(s, i + 1, marks);
    }
}

/// Elision keeps every token well-formed: what comes out was in.
pub proof fn lemma_remove_marked_wf(s: Seq<Token>, i: int, marks: Seq<bool>)
    requires
        0 <= i,
        forall|j: int| i <= j < s.len() ==> wf_token(s[j]),
    ensures
        forall|k: int|
            0 <= k < remove_marked(s, i, marks).len() ==> wf_token(remove_marked(s, i, marks)[k]),
    decreases s.len() - i,
{
    if 0 <= i && i < s.len() {
        lemma_remove_marked_wf(s, i + 1, marks);
        let rest = remove_marked(s, i + 1, marks);
        assert forall|k: int|
            0 <= k < remove_marked(s, i, marks).len() implies wf_token(
            remove_marked(s, i, marks)[k],
        ) by {
            if marks[i] {
                assert(remove_marked(s, i, marks)[k] == rest[k]);
            } else if k == 0 {
                assert(remove_marked(s, i, marks)[0] == s[i]);
            } else {
                assert(remove_marked(s, i, marks)[k] == rest[k - 1]);
            }
        }
    }
}

/// Run one bracket-elision pass, exactly as `spec_remove_bracket` states.
pub fn remove_bracket(tokens: Vec<Token>) -> (r: Vec<Token>)
    ensures
        r@ == spec_remove_bracket(tokens@),
{
    let ghost s = tokens@;
    let n = tokens.len();
    let mut marks: Vec<bool> = Vec::new();
    let mut k: usize = 0;
    while k < n
        invariant
            k <= n,
            marks@ =~= Seq::new(k as nat, |j: int| false),
        decreases n - k,
    {
        marks.push(false);
        k = k + 1;
    }
    proof {
        assert(marks@ =~= Seq::new(s.len(), |j: int| false));
        assert(stack_ints(Seq::<usize>::empty()) =~= Seq::<int>::empty());
    }
    let mut stack: Vec<usize> = Vec::new();
    let mut i: usize = 0;
    while i < n
        invariant
            n == s.len(),
            tokens@ == s,
            i <= n,
            marks@.len() == n,
            forall|q: int| 0 <= q < stack@.len() ==> (#[trigger] stack@[q]) < i,
            bracket_marks(s, i as int, stack_ints(stack@), marks@)
                == bracket_marks(s, 0, Seq::empty(), Seq::new(s.len(), |j: int| false)),
        decreases n - i,
    {
        let ghost old_stack = stack@;
        let ghost old_marks = marks@;
        let t = &tokens[i];
        match t.token_type {
            TokenKind::RoundBracketOpen => {
                stack.push(i);
                proof {
                    assert(stack_ints(stack@) =~= stack_ints(old_stack).push(i as int));
                }
            }
            TokenKind::RoundBracketClose => {
                match stack.pop() {
                    Some(open) => {
                        proof {
                            assert(stack_ints(old_stack).last() == open as int);
                            assert(stack_ints(stack@) =~= stack_ints(old_stack).drop_last());
                        }
                        if i - open <= 2 {
                            marks.set(open, true);
                            marks.set(i, true);
                        }
                    }
                    None => {
                        proof {
                            assert(stack_ints(old_stack).len() == 0);
                        }
                    }
                }
            }
            _ => {}
        }
        i = i + 1;
    }
    let mut out: Vec<Token> = Vec::new();
    let mut rest = tokens;
    let ghost m = marks@;
    let mut j: usize = 0;
    while rest.len() > 0
        invariant
            n == s.len(),
            m.len() == n,
            marks@ == m,
            j <= n,
            j + rest@.len() == n,
            rest@ == s.subrange(j as int, n as int),
            out@ + remove_marked(s, j as int, m) == remove_marked(s, 0, m),
        decreases rest@.len(),
    {
        let ghost old_out = out@;
        let t = rest.remove(0);
        proof {
            assert(t == s[j as int]);
            assert(rest@ =~= s.subrange(j as int + 1, n as int));
        }
        if !marks[j] {
            out.push(t);
            proof {
                assert(out@ + remove_marked(s, j as int + 1, m) =~= old_out + remove_marked(
                    s,
                    j as int,
                    m,
                ));
            }
        }
        j = j + 1;
    }
    proof {
        assert(out@ =~= out@ + remove_marked(s, n as int, m));
        assert(out@ == remove_marked(s, 0, m));
    }
    out
}

/// One fold step: the operator at `p` absorbs its immediate neighbors as
/// `left` and `right` children and is marked processed; the three slots
/// collapse into one.
pub open spec fn fold_at(s: Seq<Token>, p: int) -> Seq<Token>
    recommends
        1 <= p < s.len() - 1,
{
    let folded = Token {
        token_type: s[p].token_type,
        text: s[p].text,
        left: Some(Box::new(s[p - 1])),
        right: Some(Box::new(s[p + 1])),
        value: s[p].value,
        is_processed: true,
    };
    s.subrange(0, p - 1).push(folded) + s.subrange(p + 2, s.len() as int)
}

/// Elision never lengthens the sequence.
pub proof fn lemma_remove_bracket_len(s: Seq<Token>)
    ensures
        spec_remove_bracket(s).len() <= s.len(),
{
    lemma_remove_marked_len(s, 0, bracket_marks(s, 0, Seq::empty(), Seq::new(s.len(), |j: int| false)));
}

/// The whole reduction: elide degenerate brackets, find the binding token,
/// fold it with its neighbors, and repeat until one node remains. A sequence
/// that cannot be collapsed to a single node — nothing left, or a binding
/// token with a missing neighbor — is a malformed expression.
pub open spec fn spec_proc(s: Seq<Token>) -> Result<Token, EvalError>
    decreases s.len(),
    via spec_proc_decreases
{
    if s.len() == 1 {
        Ok(s[0])
    } else {
        let e = spec_remove_bracket(s);
        if e.len() == 0 {
            Err(EvalError::MalformedExpression)
        } else {
            let p = spec_prime_index(e);
            if p >= e.len() - 1 || p < 1 {
                if e.len() == 1 {
                    Ok(e[0])
                } else {
                    Err(EvalError::MalformedExpression)
                }
            } else {
                spec_proc(fold_at(e, p))
            }
        }
    }
}

#[via_fn]
proof fn spec_proc_decreases(s: Seq<Token>) {
    if s.len() != 1 {
        lemma_remove_bracket_len(s);
    }
}

/// Reduction preserves well-formedness: a root built out of well-formed
/// tokens is a well-formed tree.
pub proof fn lemma_spec_proc_wf(s: Seq<Token>)
    requires
        forall|j: int| 0 <= j < s.len() ==> wf_token(s[j]),
    ensures
        spec_proc(s) matches Ok(root) ==> wf_token(root),
    decreases s.len(),
{
    if s.len() != 1 {
        let e = spec_remove_bracket(s);
        lemma_remove_marked_wf(s, 0, bracket_marks(s, 0, Seq::empty(), Seq::new(s.len(), |j: int| false)));
        lemma_remove_bracket_len(s);
        if e.len() != 0 {
            let p = spec_prime_index(e);
            if 1 <= p < e.len() - 1 {
                let f = fold_at(e, p);
                assert forall|k: int| 0 <= k < f.len() implies wf_token(f[k]) by {
                    if k < p - 1 {
                        assert(f[k] == e[k]);
                    } else if k == p - 1 {
                        assert(wf_token(e[p - 1]) && wf_token(e[p]) && wf_token(e[p + 1]));
                        assert(f[k] == fold_at(e, p)[p - 1]);
                    } else {
                        assert(f[k] == e[k + 2]);
                    }
                }
                lemma_spec_proc_wf(f);
            }
        }
    }
}

/// Is `k` one of the four operator kinds?
pub open spec fn is_operator_kind(k: TokenKind) -> bool {
    ||| k is Addition
    ||| k is Subtraction
    ||| k is Multiplication
    ||| k is Division
}

/// The structural invariants of a token tree: a processed node is an
/// operator holding exactly one left and one right child, an unprocessed
/// token is a leaf, and so a `Number` — which never binds and is never
/// folded — never acquires children.
pub open spec fn shape_ok(t: Token) -> bool
    decreases t,
{
    &&& (t.is_processed ==> t.left is Some && t.right is Some && is_operator_kind(t.token_type))
    &&& (!t.is_processed ==> t.left is None && t.right is None)
    &&& (match t.left {
        Some(l) => shape_ok(*l),
        None => true,
    })
    &&& (match t.right {
        Some(r) => shape_ok(*r),
        None => true,
    })
}

/// Elision keeps every token well-shaped: what comes out was in.
pub proof fn lemma_remove_marked_shape(s: Seq<Token>, i: int, marks: Seq<bool>)
    requires
        0 <= i,
        forall|j: int| i <= j < s.len() ==> shape_ok(s[j]),
    ensures
        forall|k: int|
            0 <= k < remove_marked(s, i, marks).len() ==> shape_ok(remove_marked(s, i, marks)[k]),
    decreases s.len() - i,
{
    if 0 <= i && i < s.len() {
        lemma_remove_marked_shape(s, i + 1, marks);
        let rest = remove_marked(s, i + 1, marks);
        assert forall|k: int|
            0 <= k < remove_marked(s, i, marks).len() implies shape_ok(
            remove_marked(s, i, marks)[k],
        ) by {
            if marks[i] {
                assert(remove_marked(s, i, marks)[k] == rest[k]);
            } else if k == 0 {
                assert(remove_marked(s, i, marks)[0] == s[i]);
            } else {
                assert(remove_marked(s, i, marks)[k] == rest[k - 1]);
            }
        }
    }
}

/// A fold of an unprocessed operator keeps every token well-shaped.
proof fn lemma_fold_at_shape(e: Seq<Token>, p: int)
    requires
        1 <= p < e.len() - 1,
        !e[p].is_processed,
        is_operator_kind(e[p].token_type),
        forall|j: int| 0 <= j < e.len() ==> shape_ok(e[j]),
    ensures
        forall|k: int| 0 <= k < fold_at(e, p).len() ==> shape_ok(fold_at(e, p)[k]),
{
    let f = fold_at(e, p);
    assert forall|k: int| 0 <= k < f.len() implies shape_ok(f[k]) by {
        if k < p - 1 {
            assert(f[k] == e[k]);
        } else if k == p - 1 {
            assert(shape_ok(e[p - 1]) && shape_ok(e[p]) && shape_ok(e[p + 1]));
            assert(f[k] == fold_at(e, p)[p - 1]);
        } else {
            assert(f[k] == e[k + 2]);
        }
    }
}

/// Reduction builds a strict binary tree: it only ever folds an unprocessed
/// operator token, which absorbs exactly one left and one right child and is
/// marked processed, so a root built out of well-shaped tokens is itself
/// well-shaped.
pub proof fn lemma_spec_proc_shape(s: Seq<Token>)
    requires
        forall|j: int| 0 <= j < s.len() ==> shape_ok(s[j]),
    ensures
        spec_proc(s) matches Ok(root) ==> shape_ok(root),
    decreases s.len(),
{
    if s.len() != 1 {
        let e = spec_remove_bracket(s);
        lemma_remove_marked_shape(s, 0, bracket_marks(s, 0, Seq::empty(), Seq::new(s.len(), |j: int| false)));
        lemma_remove_bracket_len(s);
        if e.len() != 0 {
            let p = spec_prime_index(e);
            if 1 <= p < e.len() - 1 {
                lemma_prime_index_leftmost_strongest(e);
                assert(prio_at(e, p) > 0);
                assert(!e[p].is_processed && is_operator_kind(e[p].token_type));
                lemma_fold_at_shape(e, p);
                lemma_spec_proc_shape(fold_at(e, p));
            }
        }
    }
}

/// A fold moves atoms into the tree but neither invents nor loses one.
proof fn lemma_fold_at_atoms(e: Seq<Token>, p: int)
    requires
        1 <= p < e.len() - 1,
        !e[p].is_processed,
        shape_ok(e[p]),
    ensures
        seq_atoms(fold_at(e, p)) =~= seq_atoms(e),
{
    let a = e.subrange(0, p - 1);
    let mid = seq![e[p - 1], e[p], e[p + 1]];
    let b = e.subrange(p + 2, e.len() as int);
    let f = fold_at(e, p);
    let folded = Token {
        token_type: e[p].token_type,
        text: e[p].text,
        left: Some(Box::new(e[p - 1])),
        right: Some(Box::new(e[p + 1])),
        value: e[p].value,
        is_processed: true,
    };
    assert(f == a.push(folded) + b);
    assert(e =~= a + mid + b);
    lemma_seq_atoms_concat(a + mid, b);
    lemma_seq_atoms_concat(a, mid);
    assert(seq_atoms(Seq::<Token>::empty()) =~= Multiset::<TokenAtom>::empty());
    assert(seq![e[p + 1]].drop_first() =~= Seq::<Token>::empty());
    assert(seq![e[p + 1]][0] == e[p + 1]);
    assert(seq_atoms(seq![e[p + 1]]) =~= tree_atoms(e[p + 1]));
    assert(seq![e[p], e[p + 1]].drop_first() =~= seq![e[p + 1]]);
    assert(seq![e[p], e[p + 1]][0] == e[p]);
    assert(seq_atoms(seq![e[p], e[p + 1]]) =~= tree_atoms(e[p]).add(tree_atoms(e[p + 1])));
    assert(mid.drop_first() =~= seq![e[p], e[p + 1]]);
    assert(mid[0] == e[p - 1]);
    assert(seq_atoms(mid) =~= tree_atoms(e[p - 1]).add(
        tree_atoms(e[p]).add(tree_atoms(e[p + 1])),
    ));
    assert(e[p].left is None && e[p].right is None);
    assert(tree_atoms(e[p]) =~= Multiset::empty().insert(token_atom(e[p])));
    assert(f =~= a + seq![folded] + b);
    lemma_seq_atoms_concat(a + seq![folded], b);
    lemma_seq_atoms_concat(a, seq![folded]);
    assert(seq![folded].drop_first() =~= Seq::<Token>::empty());
    assert(seq![folded][0] == folded);
    assert(seq_atoms(seq![folded]) =~= tree_atoms(folded));
    assert(tree_atoms(folded) =~= tree_atoms(e[p - 1]).add(tree_atoms(e[p + 1])).insert(
        token_atom(e[p]),
    ));
}

/// The atom of one token.
pub open spec fn token_atom(t: Token) -> TokenAtom {
    (t.token_type, t.text@, t.value)
}

/// All atoms in a token tree, counted with multiplicity.
pub open spec fn tree_atoms(t: Token) -> Multiset<TokenAtom>
    decreases t,
{
    let l = match t.left {
        Some(l) => tree_atoms(*l),
        None => Multiset::empty(),
    };
    let r = match t.right {
        Some(r) => tree_atoms(*r),
        None => Multiset::empty(),
    };
    l.add(r).insert(token_atom(t))
}

/// All atoms in a sequence of token trees, counted with multiplicity.
pub open spec fn seq_atoms(s: Seq<Token>) -> Multiset<TokenAtom>
    decreases s.len(),
{
    if s.len() == 0 {
        Multiset::empty()
    } else {
        tree_atoms(s[0]).add(seq_atoms(s.drop_first()))
    }
}

/// Atoms distribute over concatenation.
proof fn lemma_seq_atoms_concat(a: Seq<Token>, b: Seq<Token>)
    ensures
        seq_atoms(a + b) =~= seq_atoms(a).add(seq_atoms(b)),
    decreases a.len(),
{
    if a.len() == 0 {
        assert(a + b =~= b);
    } else {
        assert((a + b).drop_first() =~= a.drop_first() + b);
        assert((a + b)[0] == a[0]);
        lemma_seq_atoms_concat(a.drop_first(), b);
    }
}

/// Every position the bracket scan marks holds a bracket token.
proof fn lemma_bracket_marks_brackets(s: Seq<Token>, i: int, stack: Seq<int>, marks: Seq<bool>)
    requires
        0 <= i,
        marks.len() == s.len(),
        forall|q: int|
            0 <= q < stack.len() ==> 0 <= #[trigger] stack[q] < s.len() && s[stack[q]].token_type
                is RoundBracketOpen,
        forall|j: int|
            0 <= j < s.len() && #[trigger] marks[j] ==> (s[j].token_type is RoundBracketOpen
                || s[j].token_type is RoundBracketClose),
    ensures
        bracket_marks(s, i, stack, marks).len() == s.len(),
        forall|j: int|
            0 <= j < s.len() && #[trigger] bracket_marks(s, i, stack, marks)[j] ==> (
            s[j].token_type is RoundBracketOpen || s[j].token_type is RoundBracketClose),
    decreases s.len() - i,
{
    if 0 <= i && i < s.len() {
        if s[i].token_type is RoundBracketOpen {
            lemma_bracket_marks_brackets(s, i + 1, stack.push(i), marks);
        } else if s[i].token_type is RoundBracketClose {
            if stack.len() > 0 {
                let open = stack.last();
                if i - open <= 2 {
                    lemma_bracket_marks_brackets(
                        s,
                        i + 1,
                        stack.drop_last(),
                        marks.update(open, true).update(i, true),
                    );
                } else {
                    lemma_bracket_marks_brackets(s, i + 1, stack.drop_last(), marks);
                }
            } else {
                lemma_bracket_marks_brackets(s, i + 1, stack, marks);
            }
        } else {
            lemma_bracket_marks_brackets(s, i + 1, stack, marks);
        }
    }
}

/// Elision only ever drops bracket atoms: what comes out counts no atom
/// more often than what went in, and any atom it counts less often is a
/// bracket marker.
proof fn lemma_remove_marked_atoms(s: Seq<Token>, i: int, marks: Seq<bool>)
    requires
        0 <= i <= s.len(),
        marks.len() == s.len(),
        forall|j: int| 0 <= j < s.len() ==> shape_ok(s[j]),
        forall|j: int|
            0 <= j < s.len() && #[trigger] marks[j] ==> (s[j].token_type is RoundBracketOpen
                || s[j].token_type is RoundBracketClose),
    ensures
        forall|a: TokenAtom|
            #[trigger] seq_atoms(remove_marked(s, i, marks)).count(a) <= seq_atoms(
                s.subrange(i, s.len() as int),
            ).count(a),
        forall|a: TokenAtom|
            #[trigger] seq_atoms(remove_marked(s, i, marks)).count(a) < seq_atoms(
                s.subrange(i, s.len() as int),
            ).count(a) ==> (a.0 is RoundBracketOpen || a.0 is RoundBracketClose),
    decreases s.len() - i,
{
    if i < s.len() {
        lemma_remove_marked_atoms(s, i + 1, marks);
        let tail = s.subrange(i + 1, s.len() as int);
        let whole = s.subrange(i, s.len() as int);
        assert(whole =~= seq![s[i]] + tail);
        lemma_seq_atoms_concat(seq![s[i]], tail);
        assert(seq_atoms(Seq::<Token>::empty()) =~= Multiset::<TokenAtom>::empty());
        assert(seq![s[i]].drop_first() =~= Seq::<Token>::empty());
        assert(seq![s[i]][0] == s[i]);
        assert(seq_atoms(seq![s[i]]) =~= tree_atoms(s[i]));
        if marks[i] {
            assert(!s[i].is_processed);
            assert(s[i].left is None && s[i].right is None);
            assert(tree_atoms(s[i]) =~= Multiset::empty().insert(token_atom(s[i])));
            assert(token_atom(s[i]).0 is RoundBracketOpen || token_atom(s[i]).0
                is RoundBracketClose);
        } else {
            lemma_seq_atoms_concat(seq![s[i]], remove_marked(s, i + 1, marks));
        }
    } else {
        assert(s.subrange(i, s.len() as int) =~= Seq::<Token>::empty());
    }
}

/// Reduction neither invents nor loses a token: counted with multiplicity,
/// the nodes of a successfully built tree are a sub-collection of the
/// tokens handed in, and the only tokens ever dropped on the way are the
/// bracket markers that elision removes.
pub proof fn lemma_spec_proc_conserves_tokens(s: Seq<Token>)
    requires
        forall|j: int| 0 <= j < s.len() ==> shape_ok(s[j]),
    ensures
        spec_proc(s) matches Ok(root) ==> forall|a: TokenAtom|
            #[trigger] tree_atoms(root).count(a) <= seq_atoms(s).count(a) && (tree_atoms(
                root,
            ).count(a) < seq_atoms(s).count(a) ==> (a.0 is RoundBracketOpen || a.0
                is RoundBracketClose)),
    decreases s.len(),
{
    if s.len() == 1 {
        assert(seq_atoms(Seq::<Token>::empty()) =~= Multiset::<TokenAtom>::empty());
        assert(s.drop_first() =~= Seq::<Token>::empty());
        assert(seq_atoms(s) =~= tree_atoms(s[0]));
    } else {
        let marks0 = bracket_marks(s, 0, Seq::empty(), Seq::new(s.len(), |j: int| false));
        let e = spec_remove_bracket(s);
        lemma_bracket_marks_brackets(s, 0, Seq::empty(), Seq::new(s.len(), |j: int| false));
        lemma_remove_marked_atoms(s, 0, marks0);
        assert(s.subrange(0, s.len() as int) =~= s);
        lemma_remove_marked_shape(s, 0, marks0);
        lemma_remove_bracket_len(s);
        if e.len() != 0 {
            let p = spec_prime_index(e);
            if 1 <= p < e.len() - 1 {
                lemma_prime_index_leftmost_strongest(e);
                assert(prio_at(e, p) > 0);
                assert(!e[p].is_processed && is_operator_kind(e[p].token_type));
                lemma_fold_at_shape(e, p);
                lemma_fold_at_atoms(e, p);
                lemma_spec_proc_conserves_tokens(fold_at(e, p));
            } else if e.len() == 1 {
                assert(seq_atoms(Seq::<Token>::empty()) =~= Multiset::<TokenAtom>::empty());
                assert(e.drop_first() =~= Seq::<Token>::empty());
                assert(seq_atoms(e) =~= tree_atoms(e[0]));
            }
        }
    }
}

/// Collapse a token sequence to a single root, exactly as `spec_proc`
/// states.
#[verifier::loop_isolation(false)]
pub fn proc(tokens: Vec<Token>) -> (r: Result<Token, EvalError>)
    ensures
        r == spec_proc(tokens@),
{
    let ghost s0 = tokens@;
    let mut tokens = tokens;
    while tokens.len() != 1
        invariant
            spec_proc(tokens@) == spec_proc(s0),
        decreases tokens@.len(),
    {
        let ghost pre = tokens@;
        tokens = remove_bracket(tokens);
        let ghost e = tokens@;
        proof {
            lemma_remove_bracket_len(pre);
        }
        if tokens.len() == 0 {
            return Err(EvalError::MalformedExpression);
        }
        let prime = get_prime_index(&tokens);
        if prime >= tokens.len() - 1 || prime < 1 {
            if tokens.len() == 1 {
                let t = tokens.remove(0);
                return Ok(t);
            } else {
                return Err(EvalError::MalformedExpression);
            }
        }
        let right = tokens.remove(prime + 1);
        let left = tokens.remove(prime - 1);
        let mut op = tokens.remove(prime - 1);
        op.right = Some(Box::new(right));
        op.left = Some(Box::new(left));
        op.is_processed = true;
        tokens.insert(prime - 1, op);
        proof {
            assert(tokens@ =~= fold_at(e, prime as int));
            assert(spec_proc(pre) == spec_proc(fold_at(e, prime as int)));
        }
    }
    let t = tokens.remove(0);
    Ok(t)
}

/// Is `c` a decimal digit?
pub open spec fn is_digit_char(c: char) -> bool {
    48 <= c as u32 <= 57
}

/// The numeric value of a digit character.
pub open spec fn digit_value(c: char) -> int {
    c as u32 - 48
}

/// The characters the tokenizer understands.
pub open spec fn allowed_char(c: char) -> bool {
    ||| is_digit_char(c)
    ||| c == ' '
    ||| c == '+'
    ||| c == '-'
    ||| c == '*'
    ||| c == '/'
    ||| c == '('
    ||| c == ')'
}

/// The integer a string of digits denotes, most significant first.
pub open spec fn digits_val(s: Seq<char>) -> int
    decreases s.len(),
{
    if s.len() == 0 {
        0
    } else {
        10 * digits_val(s.drop_last()) + digit_value(s.last())
    }
}

/// A digit string never denotes a negative integer.
pub proof fn lemma_digits_val_nonneg(s: Seq<char>)
    requires
        forall|k: int| 0 <= k < s.len() ==> is_digit_char(s[k]),
    ensures
        digits_val(s) >= 0,
    decreases s.len(),
{
    if s.len() > 0 {
        lemma_digits_val_nonneg(s.drop_last());
    }
}

/// A prefix of a digit string never denotes more than the whole string.
pub proof fn lemma_digits_val_prefix_le(s: Seq<char>, k: int)
    requires
        forall|q: int| 0 <= q < s.len() ==> is_digit_char(s[q]),
        0 <= k <= s.len(),
    ensures
        digits_val(s.take(k)) <= digits_val(s),
    decreases s.len(),
{
    if k == s.len() {
        assert(s.take(k) =~= s);
    } else {
        assert(s.take(k) =~= s.drop_last().take(k));
        lemma_digits_val_prefix_le(s.drop_last(), k);
        lemma_digits_val_nonneg(s.drop_last());
    }
}

/// The `Number` token a flush emits: the digits' value, negated when the
/// pending sign is negative.
pub open spec fn number_token(text: Seq<char>, negative: bool) -> Token {
    Token {
        token_type: TokenKind::Number,
        text: Ghost(text),
        left: None,
        right: None,
        value: Rat {
            num: (if negative {
                -digits_val(text)
            } else {
                digits_val(text)
            }) as i64,
            den: 1,
        },
        is_processed: false,
    }
}

/// The token an operator or bracket character emits.
pub open spec fn op_token(kind: TokenKind, c: char) -> Token {
    Token {
        token_type: kind,
        text: Ghost(seq![c]),
        left: None,
        right: None,
        value: Rat { num: 0, den: 1 },
        is_processed: false,
    }
}

/// Flush the digit accumulator: emit one `Number` token, or fail when the
/// literal does not fit the evaluator's integer range.
pub open spec fn flush_num(tokens: Seq<Token>, temp: Seq<char>, negative: bool) -> Result<
    Seq<Token>,
    EvalError,
> {
    if digits_val(temp) > i64::MAX {
        Err(EvalError::MalformedNumber)
    } else {
        Ok(tokens.push(number_token(temp, negative)))
    }
}

/// The tokenizer from position `i` on, carrying its whole state: whether a
/// number is being accumulated, the digits seen so far, the pending unary
/// sign, and the tokens already emitted. A `-` that does not follow a number
/// or a close bracket flips the pending sign instead of emitting a token;
/// whitespace separates but emits nothing; any other character outside the
/// grammar fails.
pub open spec fn spec_tokenize_from(
    s: Seq<char>,
    i: int,
    is_num: bool,
    temp: Seq<char>,
    negative: bool,
    tokens: Seq<Token>,
) -> Result<Seq<Token>, EvalError>
    decreases s.len() - i,
{
    if i < 0 || i >= s.len() {
        if is_num {
            flush_num(tokens, temp, negative)
        } else {
            Ok(tokens)
        }
    } else {
        let c = s[i];
        if is_digit_char(c) {
            spec_tokenize_from(s, i + 1, true, temp.push(c), negative, tokens)
        } else {
            let flushed = if is_num {
                flush_num(tokens, temp, negative)
            } else {
                Ok(tokens)
            };
            match flushed {
                Err(e) => Err(e),
                Ok(tks) => {
                    let neg2 = if is_num {
                        false
                    } else {
                        negative
                    };
                    if c == ' ' {
                        spec_tokenize_from(s, i + 1, false, Seq::empty(), neg2, tks)
                    } else if c == '+' {
                        spec_tokenize_from(
                            s,
                            i + 1,
                            false,
                            Seq::empty(),
                            neg2,
                            tks.push(op_token(TokenKind::Addition, c)),
                        )
                    } else if c == '-' {
                        if tks.len() == 0 {
                            spec_tokenize_from(s, i + 1, false, Seq::empty(), !neg2, tks)
                        } else if tks.last().token_type is Number || tks.last().token_type
                            is RoundBracketClose {
                            spec_tokenize_from(
                                s,
                                i + 1,
                                false,
                                Seq::empty(),
                                neg2,
                                tks.push(op_token(TokenKind::Subtraction, c)),
                            )
                        } else {
                            spec_tokenize_from(s, i + 1, false, Seq::empty(), !neg2, tks)
                        }
                    } else if c == '*' {
                        spec_tokenize_from(
                            s,
                            i + 1,
                            false,
                            Seq::empty(),
                            neg2,
                            tks.push(op_token(TokenKind::Multiplication, c)),
                        )
                    } else if c == '/' {
                        spec_tokenize_from(
                            s,
                            i + 1,
                            false,
                            Seq::empty(),
                            neg2,
                            tks.push(op_token(TokenKind::Division, c)),
                        )
                    } else if c == '(' {
                        spec_tokenize_from(
                            s,
                            i + 1,
                            false,
                            Seq::empty(),
                            neg2,
                            tks.push(op_token(TokenKind::RoundBracketOpen, c)),
                        )
                    } else if c == ')' {
                        spec_tokenize_from(
                            s,
                            i + 1,
                            false,
                            Seq::empty(),
                            neg2,
                            tks.push(op_token(TokenKind::RoundBracketClose, c)),
                        )
                    } else {
                        Err(EvalError::InvalidCharacter)
                    }
                }
            }
        }
    }
}

/// Tokenize a whole line.
pub open spec fn spec_tokenize(s: Seq<char>) -> Result<Seq<Token>, EvalError> {
    spec_tokenize_from(s, 0, false, Seq::empty(), false, Seq::empty())
}

/// The whole pipeline: tokenize, reduce to one root, evaluate.
pub open spec fn spec_execute(s: Seq<char>) -> Result<Rat, EvalError> {
    match spec_tokenize(s) {
        Err(e) => Err(e),
        Ok(tokens) => match spec_proc(tokens) {
            Err(e) => Err(e),
            Ok(root) => spec_get_value(root),
        },
    }
}

/// Emit the accumulated digits as one `Number` token, exactly as `flush_num`
/// states.
#[verifier::loop_isolation(false)]
fn flush_number(tokens: &mut Vec<Token>, temp: &Vec<char>, negative: bool) -> (r: Result<
    (),
    EvalError,
>)
    requires
        forall|k: int| 0 <= k < temp@.len() ==> is_digit_char(temp@[k]),
    ensures
        flush_num(old(tokens)@, temp@, negative) matches Ok(ts) ==> r is Ok && final(tokens)@
            == ts,
        flush_num(old(tokens)@, temp@, negative) matches Err(e) ==> r == Err::<(), EvalError>(e)
            && final(tokens)@ == old(tokens)@,
{
    let max_num: u64 = 0x7fff_ffff_ffff_ffff;
    let mut acc: u64 = 0;
    let mut k: usize = 0;
    let n = temp.len();
    while k < n
        invariant
            k <= n,
            acc <= max_num,
            acc as int == digits_val(temp@.take(k as int)),
        decreases n - k,
    {
        let c = temp[k];
        let u: u32 = c as u32;
        let d: u64 = (u - 48) as u64;
        proof {
            assert(temp@.take(k as int + 1).drop_last() =~= temp@.take(k as int));
            assert(temp@.take(k as int + 1).last() == temp@[k as int]);
        }
        if acc > (max_num - d) / 10 {
            proof {
                assert(10 * (acc as int) + (d as int) > max_num as int);
                lemma_digits_val_prefix_le(temp@, k as int + 1);
            }
            return Err(EvalError::MalformedNumber);
        }
        acc = acc * 10 + d;
        k = k + 1;
    }
    proof {
        assert(temp@.take(n as int) =~= temp@);
    }
    let num: i64 = if negative {
        -(acc as i64)
    } else {
        acc as i64
    };
    let t = Token::pre_init(TokenKind::Number, Ghost(temp@), Rat { num: num, den: 1 });
    tokens.push(t);
    Ok(())
}

/// A flush emits a well-formed token.
pub proof fn lemma_number_token_wf(text: Seq<char>, negative: bool)
    ensures
        wf_token(number_token(text, negative)),
{
}

/// Evaluate one line of infix arithmetic, exactly as `spec_execute` states:
/// tokenize the text, reduce the tokens to one binary tree, and fold the
/// tree into an exact rational value. A pending unary minus applies to the
/// next number literal, even across an open bracket, so `-(3+4)` evaluates
/// as `(-3+4)`. A bracket pair around nothing is elided and leaves nothing
/// to reduce, so `()` alone is a malformed expression.
#[verifier::loop_isolation(false)]
pub fn execute(text: String) -> (r: Result<Rat, EvalError>)
    ensures
        r == spec_execute(text@),
        r matches Ok(v) ==> rat_wf(v),
{
    let s = text.as_str();
    let n = s.unicode_len();
    let mut is_num = false;
    let mut tokens: Vec<Token> = Vec::new();
    let mut negative = false;
    let mut temp: Vec<char> = Vec::new();
    let mut i: usize = 0;
    while i < n
        invariant
            n == text@.len(),
            i <= n,
            forall|k: int| 0 <= k < temp@.len() ==> is_digit_char(temp@[k]),
            forall|k: int| 0 <= k < tokens@.len() ==> wf_token(tokens@[k]),
            !is_num ==> temp@.len() == 0,
            spec_tokenize_from(text@, i as int, is_num, temp@, negative, tokens@)
                == spec_tokenize(text@),
        decreases n - i,
    {
        let c = s.get_char(i);
        let u: u32 = c as u32;
        if u >= 48 && u <= 57 {
            is_num = true;
            temp.push(c);
        } else {
            if is_num {
                is_num = false;
                match flush_number(&mut tokens, &temp, negative) {
                    Ok(()) => {}
                    Err(e) => {
                        return Err(e);
                    }
                }
                proof {
                    lemma_number_token_wf(temp@, negative);
                }
                negative = false;
                temp.clear();
            }
            proof {
                assert(temp@ =~= Seq::<char>::empty());
            }
            if c == ' ' {
                // whitespace separates tokens but emits nothing
            } else if c == '+' {
                tokens.push(make_op(TokenKind::Addition, c));
            } else if c == '-' {
                if tokens.len() == 0 {
                    negative = !negative;
                } else {
                    let last_kind = tokens[tokens.len() - 1].token_type;
                    match last_kind {
                        TokenKind::Number => {
                            tokens.push(make_op(TokenKind::Subtraction, c));
                        }
                        TokenKind::RoundBracketClose => {
                            tokens.push(make_op(TokenKind::Subtraction, c));
                        }
                        _ => {
                            negative = !negative;
                        }
                    }
                }
            } else if c == '*' {
                tokens.push(make_op(TokenKind::Multiplication, c));
            } else if c == '/' {
                tokens.push(make_op(TokenKind::Division, c));
            } else if c == '(' {
                tokens.push(make_op(TokenKind::RoundBracketOpen, c));
            } else if c == ')' {
                tokens.push(make_op(TokenKind::RoundBracketClose, c));
            } else {
                return Err(EvalError::InvalidCharacter);
            }
        }
        i = i + 1;
    }
    if is_num {
        match flush_number(&mut tokens, &temp, negative) {
            Ok(()) => {}
            Err(e) => {
                return Err(e);
            }
        }
        proof {
            lemma_number_token_wf(temp@, negative);
        }
    }
    proof {
        assert(spec_tokenize(text@) == Ok::<Seq<Token>, EvalError>(tokens@));
    }
    let ghost token_seq = tokens@;
    let root = match proc(tokens) {
        Ok(t) => t,
        Err(e) => {
            return Err(e);
        }
    };
    proof {
        lemma_spec_proc_wf(token_seq);
        lemma_spec_get_value_wf(root);
    }
    root.get_value()
}

/// The tokenizer's only errors are an invalid character and an oversized
/// literal; on text made entirely of allowed characters, only the latter.
pub proof fn lemma_tokenize_from_errors(
    s: Seq<char>,
    i: int,
    is_num: bool,
    temp: Seq<char>,
    negative: bool,
    tokens: Seq<Token>,
)
    requires
        0 <= i,
    ensures
        spec_tokenize_from(s, i, is_num, temp, negative, tokens) matches Err(e) ==> (e
            is InvalidCharacter || e is MalformedNumber),
        (forall|j: int| i <= j < s.len() ==> allowed_char(s[j])) ==> (spec_tokenize_from(
            s,
            i,
            is_num,
            temp,
            negative,
            tokens,
        ) matches Err(e) ==> e is MalformedNumber),
    decreases s.len() - i,
{
    if i < s.len() {
        let c = s[i];
        if is_digit_char(c) {
            lemma_tokenize_from_errors(s, i + 1, true, temp.push(c), negative, tokens);
        } else {
            let flushed = if is_num {
                flush_num(tokens, temp, negative)
            } else {
                Ok(tokens)
            };
            if flushed is Ok {
                let tks = flushed->Ok_0;
                let neg2 = if is_num {
                    false
                } else {
                    negative
                };
                if c == ' ' {
                    lemma_tokenize_from_errors(s, i + 1, false, Seq::empty(), neg2, tks);
                } else if c == '+' {
                    lemma_tokenize_from_errors(
                        s,
                        i + 1,
                        false,
                        Seq::empty(),
                        neg2,
                        tks.push(op_token(TokenKind::Addition, c)),
                    );
                } else if c == '-' {
                    if tks.len() == 0 {
                        lemma_tokenize_from_errors(s, i + 1, false, Seq::empty(), !neg2, tks);
                    } else if tks.last().token_type is Number || tks.last().token_type
                        is RoundBracketClose {
                        lemma_tokenize_from_errors(
                            s,
                            i + 1,
                            false,
                            Seq::empty(),
                            neg2,
                            tks.push(op_token(TokenKind::Subtraction, c)),
                        );
                    } else {
                        lemma_tokenize_from_errors(s, i + 1, false, Seq::empty(), !neg2, tks);
                    }
                } else if c == '*' {
                    lemma_tokenize_from_errors(
                        s,
                        i + 1,
                        false,
                        Seq::empty(),
                        neg2,
                        tks.push(op_token(TokenKind::Multiplication, c)),
                    );
                } else if c == '/' {
                    lemma_tokenize_from_errors(
                        s,
                        i + 1,
                        false,
                        Seq::empty(),
                        neg2,
                        tks.push(op_token(TokenKind::Division, c)),
                    );
                } else if c == '(' {
                    lemma_tokenize_from_errors(
                        s,
                        i + 1,
                        false,
                        Seq::empty(),
                        neg2,
                        tks.push(op_token(TokenKind::RoundBracketOpen, c)),
                    );
                } else if c == ')' {
                    lemma_tokenize_from_errors(
                        s,
                        i + 1,
                        false,
                        Seq::empty(),
                        neg2,
                        tks.push(op_token(TokenKind::RoundBracketClose, c)),
                    );
                }
            }
        }
    }
}

/// Reduction's only error is a malformed expression.
pub proof fn lemma_spec_proc_errors(s: Seq<Token>)
    ensures
        spec_proc(s) matches Err(e) ==> e is MalformedExpression,
    decreases s.len(),
{
    if s.len() != 1 {
        let e = spec_remove_bracket(s);
        lemma_remove_bracket_len(s);
        if e.len() != 0 {
            let p = spec_prime_index(e);
            if 1 <= p < e.len() - 1 {
                lemma_spec_proc_errors(fold_at(e, p));
            }
        }
    }
}

/// Evaluation of a built tree fails only by a zero divisor, an overflow, or
/// a node kind that carries no value.
pub proof fn lemma_spec_get_value_errors(t: Token)
    ensures
        spec_get_value(t) matches Err(e) ==> (e is DivisionByZero || e is Overflow || e
            is InternalInvariantViolation),
    decreases t,
{
    match t.left {
        Some(l) => lemma_spec_get_value_errors(*l),
        None => (),
    }
    match t.right {
        Some(r) => lemma_spec_get_value_errors(*r),
        None => (),
    }
}

/// On a line made only of digits, `+ - * /`, brackets and spaces, the
/// pipeline never reports an invalid character: it returns a value or one of
/// the other typed errors.
pub proof fn lemma_allowed_chars_no_invalid_character(s: Seq<char>)
    requires
        forall|j: int| 0 <= j < s.len() ==> allowed_char(s[j]),
    ensures
        spec_execute(s) != Err::<Rat, EvalError>(EvalError::InvalidCharacter),
{
    lemma_tokenize_from_errors(s, 0, false, Seq::empty(), false, Seq::empty());
    match spec_tokenize(s) {
        Err(e) => (),
        Ok(tokens) => {
            lemma_spec_proc_errors(tokens);
            match spec_proc(tokens) {
                Err(e) => (),
                Ok(root) => {
                    lemma_spec_get_value_errors(root);
                }
            }
        }
    }
}

/// Appending a well-shaped token keeps every token well-shaped.
proof fn lemma_push_shape(tokens: Seq<Token>, t: Token)
    requires
        forall|j: int| 0 <= j < tokens.len() ==> shape_ok(tokens[j]),
        shape_ok(t),
    ensures
        forall|j: int| 0 <= j < tokens.push(t).len() ==> shape_ok(tokens.push(t)[j]),
{
    assert forall|j: int| 0 <= j < tokens.push(t).len() implies shape_ok(tokens.push(t)[j]) by {
        if j < tokens.len() {
            assert(tokens.push(t)[j] == tokens[j]);
        } else {
            assert(tokens.push(t)[j] == t);
        }
    }
}

/// The tokenizer emits only leaves: fresh, unprocessed, childless tokens.
pub proof fn lemma_tokenize_from_leaves(
    s: Seq<char>,
    i: int,
    is_num: bool,
    temp: Seq<char>,
    negative: bool,
    tokens: Seq<Token>,
)
    requires
        0 <= i,
        forall|j: int| 0 <= j < tokens.len() ==> shape_ok(tokens[j]),
    ensures
        spec_tokenize_from(s, i, is_num, temp, negative, tokens) matches Ok(ts) ==> forall|j: int|
            0 <= j < ts.len() ==> shape_ok(ts[j]),
    decreases s.len() - i,
{
    if i >= s.len() {
        if is_num {
            lemma_push_shape(tokens, number_token(temp, negative));
        }
    } else {
        let c = s[i];
        if is_digit_char(c) {
            lemma_tokenize_from_leaves(s, i + 1, true, temp.push(c), negative, tokens);
        } else {
            let flushed = if is_num {
                flush_num(tokens, temp, negative)
            } else {
                Ok(tokens)
            };
            if flushed is Ok {
                let tks = flushed->Ok_0;
                if is_num {
                    lemma_push_shape(tokens, number_token(temp, negative));
                }
                let neg2 = if is_num {
                    false
                } else {
                    negative
                };
                if c == ' ' {
                    lemma_tokenize_from_leaves(s, i + 1, false, Seq::empty(), neg2, tks);
                } else if c == '+' {
                    lemma_push_shape(tks, op_token(TokenKind::Addition, c));
                    lemma_tokenize_from_leaves(
                        s,
                        i + 1,
                        false,
                        Seq::empty(),
                        neg2,
                        tks.push(op_token(TokenKind::Addition, c)),
                    );
                } else if c == '-' {
                    if tks.len() == 0 {
                        lemma_tokenize_from_leaves(s, i + 1, false, Seq::empty(), !neg2, tks);
                    } else if tks.last().token_type is Number || tks.last().token_type
                        is RoundBracketClose {
                        lemma_push_shape(tks, op_token(TokenKind::Subtraction, c));
                        lemma_tokenize_from_leaves(
                            s,
                            i + 1,
                            false,
                            Seq::empty(),
                            neg2,
                            tks.push(op_token(TokenKind::Subtraction, c)),
                        );
                    } else {
                        lemma_tokenize_from_leaves(s, i + 1, false, Seq::empty(), !neg2, tks);
                    }
                } else if c == '*' {
                    lemma_push_shape(tks, op_token(TokenKind::Multiplication, c));
                    lemma_tokenize_from_leaves(
                        s,
                        i + 1,
                        false,
                        Seq::empty(),
                        neg2,
                        tks.push(op_token(TokenKind::Multiplication, c)),
                    );
                } else if c == '/' {
                    lemma_push_shape(tks, op_token(TokenKind::Division, c));
                    lemma_tokenize_from_leaves(
                        s,
                        i + 1,
                        false,
                        Seq::empty(),
                        neg2,
                        tks.push(op_token(TokenKind::Division, c)),
                    );
                } else if c == '(' {
                    lemma_push_shape(tks, op_token(TokenKind::RoundBracketOpen, c));
                    lemma_tokenize_from_leaves(
                        s,
                        i + 1,
                        false,
                        Seq::empty(),
                        neg2,
                        tks.push(op_token(TokenKind::RoundBracketOpen, c)),
                    );
                } else if c == ')' {
                    lemma_push_shape(tks, op_token(TokenKind::RoundBracketClose, c));
                    lemma_tokenize_from_leaves(
                        s,
                        i + 1,
                        false,
                        Seq::empty(),
                        neg2,
                        tks.push(op_token(TokenKind::RoundBracketClose, c)),
                    );
                }
            }
        }
    }
}

/// Whatever line the pipeline is given, a reduction that succeeds hands the
/// evaluator a strict binary tree: every processed node is an operator with
/// exactly one left and one right child, every unprocessed token is a leaf,
/// and a `Number` never carries children.
pub proof fn lemma_pipeline_builds_strict_binary_tree(s: Seq<char>)
    ensures
        match spec_tokenize(s) {
            Ok(ts) => spec_proc(ts) matches Ok(root) ==> shape_ok(root),
            Err(_) => true,
        },
{
    lemma_tokenize_from_leaves(s, 0, false, Seq::empty(), false, Seq::empty());
    match spec_tokenize(s) {
        Ok(ts) => {
            lemma_spec_proc_shape(ts);
        }
        Err(_) => (),
    }
}

/// Whatever line the pipeline is given, a reduction that succeeds builds
/// its tree out of exactly the tokens the tokenizer emitted: counted with
/// multiplicity no token is invented, and the only tokens dropped on the
/// way are bracket markers.
pub proof fn lemma_pipeline_conserves_tokens(s: Seq<char>)
    ensures
        match spec_tokenize(s) {
            Ok(ts) => spec_proc(ts) matches Ok(root) ==> forall|a: TokenAtom|
                #[trigger] tree_atoms(root).count(a) <= seq_atoms(ts).count(a) && (tree_atoms(
                    root,
                ).count(a) < seq_atoms(ts).count(a) ==> (a.0 is RoundBracketOpen || a.0
                    is RoundBracketClose)),
            Err(_) => true,
        },
{
    lemma_tokenize_from_leaves(s, 0, false, Seq::empty(), false, Seq::empty());
    match spec_tokenize(s) {
        Ok(ts) => {
            lemma_spec_proc_conserves_tokens(ts);
        }
        Err(_) => (),
    }
}

/// A fresh operator or bracket token, exactly as `op_token` states.
fn make_op(kind: TokenKind, c: char) -> (t: Token)
    ensures
        t == op_token(kind, c),
{
    let ghost tx: Seq<char> = seq![c];
    Token::pre_init(kind, Ghost(tx), Rat { num: 0, den: 1 })
}

} // verus!
