//! Circuit compilation: parsing gate descriptions.
//!
//! A circuit is CRLF-separated text; each non-empty line holds one gate
//! `[coef]var <op> [coef]var == [coef]varOut`. Square brackets negate a
//! coefficient; an absent coefficient literal defaults to 1; the output
//! coefficient is always treated as 1. Exactly one operator character
//! must occur outside brackets. The whole grammar is stated by
//! [`spec_parse_circuit`], which the executable parser is proved to
//! implement.

use vstd::prelude::*;
use crate::fr_order;
use crate::field::Scalar;

verus! {

/// A parse failure; any one of these aborts compilation of the circuit.
#[derive(Debug, Clone, Copy, PartialEq, Eq, Structural)]
pub enum ParseError {
    /// No operator character was found outside brackets.
    MissingOperand,
    /// More than one operator character was found outside brackets.
    MultipleOperators,
    /// The operator character is not one of `*`, `+`, `-`, `/`.
    UnsupportedOperation,
    /// An operand's variable part (left, right or output) is empty.
    EmptyOperand,
}

/// The four gate operators.
#[derive(Debug, Clone, Copy, PartialEq, Eq, Structural)]
pub enum GateOp {
    Mul,
    Add,
    Sub,
    Div,
}

/// One parsed circuit instruction.
#[derive(Debug)]
pub struct Gate {
    pub op: GateOp,
    pub left_coeff: Scalar,
    pub left_var: String,
    pub right_coeff: Scalar,
    pub right_var: String,
    pub out_var: String,
}

/// The mathematical content of a gate: signed coefficients as residues,
/// variables as character strings.
pub struct GateModel {
    pub op: GateOp,
    pub lc: int,
    pub lv: Seq<char>,
    pub rc: int,
    pub rv: Seq<char>,
    pub ov: Seq<char>,
}

impl View for Gate {
    type V = GateModel;

    open spec fn view(&self) -> GateModel {
        GateModel {
            op: self.op,
            lc: self.left_coeff@,
            lv: self.left_var@,
            rc: self.right_coeff@,
            rv: self.right_var@,
            ov: self.out_var@,
        }
    }
}

/// The views of a sequence of gates, in order.
pub open spec fn gate_views(s: Seq<Gate>) -> Seq<GateModel> {
    Seq::new(s.len(), |i: int| s[i]@)
}

/// The whitespace characters stripped before parsing.
pub open spec fn is_space_char(c: char) -> bool {
    c == ' ' || c == '\t' || c == '\r' || c == '\n'
}

/// An ASCII decimal digit.
pub open spec fn is_digit_char(c: char) -> bool {
    '0' <= c && c <= '9'
}

/// An ASCII letter; variables consist of these alone.
pub open spec fn is_alpha_char(c: char) -> bool {
    ('a' <= c && c <= 'z') || ('A' <= c && c <= 'Z')
}

/// An arithmetic operator character.
pub open spec fn is_op_char(c: char) -> bool {
    c == '*' || c == '+' || c == '-' || c == '/'
}

/// The bracket-scan state after reading `c`.
pub open spec fn next_shield(sh: bool, c: char) -> bool {
    if c == '[' {
        true
    } else if c == ']' {
        false
    } else {
        sh
    }
}

/// How many operator characters stand outside brackets, scanning with
/// state `sh`.
pub open spec fn count_ops(l: Seq<char>, sh: bool) -> int
    decreases l.len(),
{
    if l.len() == 0 {
        0
    } else {
        let sh2 = next_shield(sh, l[0]);
        (if !sh2 && is_op_char(l[0]) {
            1int
        } else {
            0int
        }) + count_ops(l.drop_first(), sh2)
    }
}

/// The index of the first operator character outside brackets, or -1.
pub open spec fn first_op(l: Seq<char>, sh: bool) -> int
    decreases l.len(),
{
    if l.len() == 0 {
        -1
    } else {
        let sh2 = next_shield(sh, l[0]);
        if !sh2 && is_op_char(l[0]) {
            0
        } else {
            let r = first_op(l.drop_first(), sh2);
            if r < 0 {
                -1
            } else {
                r + 1
            }
        }
    }
}

/// The characters of `l` that satisfy keeping non-space.
pub open spec fn strip_spaces(l: Seq<char>) -> Seq<char>
    decreases l.len(),
{
    if l.len() == 0 {
        l
    } else {
        strip_spaces(l.drop_last()) + (if is_space_char(l.last()) {
            Seq::<char>::empty()
        } else {
            seq![l.last()]
        })
    }
}

/// The digit characters of `l`, in order.
pub open spec fn filter_digits(l: Seq<char>) -> Seq<char>
    decreases l.len(),
{
    if l.len() == 0 {
        l
    } else {
        filter_digits(l.drop_last()) + (if is_digit_char(l.last()) {
            seq![l.last()]
        } else {
            Seq::<char>::empty()
        })
    }
}

/// The letter characters of `l`, in order.
pub open spec fn filter_alpha(l: Seq<char>) -> Seq<char>
    decreases l.len(),
{
    if l.len() == 0 {
        l
    } else {
        filter_alpha(l.drop_last()) + (if is_alpha_char(l.last()) {
            seq![l.last()]
        } else {
            Seq::<char>::empty()
        })
    }
}

/// The numeric value of a digit character.
pub open spec fn digit_val(c: char) -> int {
    c as int - '0' as int
}

/// The value of a decimal digit string.
pub open spec fn dec_val(digits: Seq<char>) -> int
    decreases digits.len(),
{
    if digits.len() == 0 {
        0
    } else {
        dec_val(digits.drop_last()) * 10 + digit_val(digits.last())
    }
}

/// The signed coefficient of an operand segment, as a residue: the
/// digit characters give the magnitude (1 when absent), and a leading
/// `[` negates it in the field.
pub open spec fn coeff_val(seg: Seq<char>) -> int {
    let digits = filter_digits(seg);
    let mag = if digits.len() == 0 {
        1int
    } else {
        dec_val(digits)
    };
    if seg.len() > 0 && seg[0] == '[' {
        (0 - mag % fr_order()) % fr_order()
    } else {
        mag % fr_order()
    }
}

/// Which operator a gate carries, by its operator character.
pub open spec fn op_of_char(c: char) -> Option<GateOp> {
    if c == '*' {
        Some(GateOp::Mul)
    } else if c == '+' {
        Some(GateOp::Add)
    } else if c == '-' {
        Some(GateOp::Sub)
    } else if c == '/' {
        Some(GateOp::Div)
    } else {
        None
    }
}

/// Splits `s` at every non-overlapping occurrence of the two-character
/// delimiter `c1 c2`, leftmost first.
pub open spec fn split_on2(s: Seq<char>, c1: char, c2: char) -> Seq<Seq<char>>
    decreases s.len(),
{
    if s.len() == 0 {
        seq![Seq::<char>::empty()]
    } else if s.len() >= 2 && s[0] == c1 && s[1] == c2 {
        seq![Seq::<char>::empty()] + split_on2(s.subrange(2, s.len() as int), c1, c2)
    } else {
        let rest = split_on2(s.drop_first(), c1, c2);
        seq![seq![s[0]] + rest[0]] + rest.drop_first()
    }
}

pub proof fn lemma_split_on2_len(s: Seq<char>, c1: char, c2: char)
    ensures
        split_on2(s, c1, c2).len() >= 1,
    decreases s.len(),
{
    if s.len() == 0 {
    } else if s.len() >= 2 && s[0] == c1 && s[1] == c2 {
        lemma_split_on2_len(s.subrange(2, s.len() as int), c1, c2);
    } else {
        lemma_split_on2_len(s.drop_first(), c1, c2);
    }
}

/// Without any occurrence of the delimiter, splitting returns the whole
/// string as the only segment.
pub proof fn lemma_split_on2_none(s: Seq<char>, c1: char, c2: char)
    requires
        forall|j: int| 0 <= j < s.len() - 1 ==> !(#[trigger] s[j] == c1 && s[j + 1] == c2),
    ensures
        split_on2(s, c1, c2) == seq![s],
    decreases s.len(),
{
    if s.len() == 0 {
        assert(split_on2(s, c1, c2) =~~= seq![s]);
    } else if s.len() >= 2 && s[0] == c1 && s[1] == c2 {
        assert(s[0] == c1 && s[1] == c2);
        assert(false);
    } else {
        let t = s.drop_first();
        assert forall|j: int| 0 <= j < t.len() - 1 implies !(#[trigger] t[j] == c1 && t[j + 1]
            == c2) by {
            assert(t[j] == s[j + 1]);
            assert(t[j + 1] == s[j + 2]);
        }
        lemma_split_on2_none(t, c1, c2);
        assert(split_on2(s, c1, c2) =~~= seq![s]) by {
            assert(seq![s[0]] + t =~= s);
        }
    }
}

/// With the first occurrence of the delimiter at `i`, the split is the
/// prefix before `i` followed by the split of the suffix after it.
pub proof fn lemma_split_on2_first(s: Seq<char>, c1: char, c2: char, i: int)
    requires
        0 <= i,
        i + 2 <= s.len(),
        s[i] == c1,
        s[i + 1] == c2,
        forall|j: int| 0 <= j < i ==> !(#[trigger] s[j] == c1 && s[j + 1] == c2),
    ensures
        split_on2(s, c1, c2) == seq![s.subrange(0, i)] + split_on2(
            s.subrange(i + 2, s.len() as int),
            c1,
            c2,
        ),
    decreases i,
{
    if i == 0 {
        assert(s.subrange(0, 0) =~= Seq::<char>::empty());
        assert(split_on2(s, c1, c2) =~~= seq![s.subrange(0, 0)] + split_on2(
            s.subrange(2, s.len() as int),
            c1,
            c2,
        ));
    } else {
        assert(!(s[0] == c1 && s[1] == c2));
        let t = s.drop_first();
        assert(t[i - 1] == s[i]);
        assert(t[i] == s[i + 1]);
        assert forall|j: int| 0 <= j < i - 1 implies !(#[trigger] t[j] == c1 && t[j + 1] == c2) by {
            assert(t[j] == s[j + 1]);
            assert(t[j + 1] == s[j + 2]);
        }
        lemma_split_on2_first(t, c1, c2, i - 1);
        let rest = split_on2(t, c1, c2);
        assert(rest == seq![t.subrange(0, i - 1)] + split_on2(t.subrange(i + 1, t.len() as int), c1, c2));
        lemma_split_on2_len(t.subrange(i + 1, t.len() as int), c1, c2);
        assert(rest[0] == t.subrange(0, i - 1));
        assert(seq![s[0]] + t.subrange(0, i - 1) =~= s.subrange(0, i));
        assert(rest.drop_first() =~= split_on2(t.subrange(i + 1, t.len() as int), c1, c2));
        assert(t.subrange(i + 1, t.len() as int) =~= s.subrange(i + 2, s.len() as int));
        assert(split_on2(s, c1, c2) =~~= seq![s.subrange(0, i)] + split_on2(
            s.subrange(i + 2, s.len() as int),
            c1,
            c2,
        ));
    }
}

/// One stripped line parsed into a gate, or the error it raises.
pub open spec fn spec_parse_gate(l: Seq<char>) -> Result<GateModel, ParseError> {
    let cnt = count_ops(l, false);
    if cnt == 0 {
        Err(ParseError::MissingOperand)
    } else if cnt > 1 {
        Err(ParseError::MultipleOperators)
    } else {
        let i = first_op(l, false);
        let left = l.subrange(0, i);
        let rest = l.subrange(i + 1, l.len() as int);
        let segs = split_on2(rest, '=', '=');
        let rightop = segs[0];
        let outseg = segs.last();
        let lv = filter_alpha(left);
        let rv = filter_alpha(rightop);
        let ov = filter_alpha(outseg);
        if lv.len() == 0 || rv.len() == 0 || ov.len() == 0 {
            Err(ParseError::EmptyOperand)
        } else {
            match op_of_char(l[i]) {
                Some(op) => Ok(
                    GateModel {
                        op,
                        lc: coeff_val(left),
                        lv,
                        rc: coeff_val(rightop),
                        rv,
                        ov,
                    },
                ),
                None => Err(ParseError::UnsupportedOperation),
            }
        }
    }
}

/// The lines parsed in order; empty lines are skipped, whitespace is
/// stripped, and the first failing line aborts the parse.
pub open spec fn spec_parse_lines(ls: Seq<Seq<char>>) -> Result<Seq<GateModel>, ParseError>
    decreases ls.len(),
{
    if ls.len() == 0 {
        Ok(Seq::<GateModel>::empty())
    } else if ls[0].len() == 0 {
        spec_parse_lines(ls.drop_first())
    } else {
        match spec_parse_gate(strip_spaces(ls[0])) {
            Err(e) => Err(e),
            Ok(g) => match spec_parse_lines(ls.drop_first()) {
                Err(e) => Err(e),
                Ok(gs) => Ok(seq![g] + gs),
            },
        }
    }
}

/// The whole circuit text parsed: CRLF-separated lines, each non-empty
/// one a gate.
pub open spec fn spec_parse_circuit(s: Seq<char>) -> Result<Seq<GateModel>, ParseError> {
    spec_parse_lines(split_on2(s, '\r', '\n'))
}

/// A positive operator count guarantees a first operator index.
proof fn lemma_first_op_exists(l: Seq<char>, sh: bool)
    ensures
        count_ops(l, sh) > 0 ==> first_op(l, sh) >= 0,
        count_ops(l, sh) >= 0,
    decreases l.len(),
{
    if l.len() > 0 {
        lemma_first_op_exists(l.drop_first(), next_shield(sh, l[0]));
    }
}

/// The first operator index points at an operator character.
proof fn lemma_first_op_props(l: Seq<char>, sh: bool)
    ensures
        first_op(l, sh) >= 0 ==> first_op(l, sh) < l.len() && is_op_char(l[first_op(l, sh)]),
    decreases l.len(),
{
    if l.len() > 0 {
        lemma_first_op_props(l.drop_first(), next_shield(sh, l[0]));
    }
}

/// The views of a vector of character vectors, in order.
pub open spec fn char_seq_views(v: Seq<Vec<char>>) -> Seq<Seq<char>> {
    Seq::new(v.len(), |i: int| v[i]@)
}

/// The gates already parsed, put in front of the rest of the parse.
pub open spec fn prepend_gates(gs: Seq<GateModel>, r: Result<Seq<GateModel>, ParseError>) -> Result<
    Seq<GateModel>,
    ParseError,
> {
    match r {
        Ok(v) => Ok(gs + v),
        Err(e) => Err(e),
    }
}

/// The characters of a string, as a vector.
fn chars_of(s: &str) -> (r: Vec<char>)
    ensures
        r@ == s@,
{
    let n = s.unicode_len();
    let mut r: Vec<char> = Vec::new();
    let mut i: usize = 0;
    while i < n
        invariant
            n == s@.len(),
            i <= n,
            r@ =~= s@.subrange(0, i as int),
        decreases n - i,
    {
        r.push(s.get_char(i));
        proof {
            assert(r@ =~= s@.subrange(0, i as int + 1));
        }
        i += 1;
    }
    proof {
        assert(s@.subrange(0, n as int) =~= s@);
    }
    r
}

/// A copy of the characters in positions `a..b`.
fn subrange_vec(s: &Vec<char>, a: usize, b: usize) -> (r: Vec<char>)
    requires
        a <= b <= s@.len(),
    ensures
        r@ == s@.subrange(a as int, b as int),
{
    let mut r: Vec<char> = Vec::new();
    let mut i: usize = a;
    while i < b
        invariant
            a <= i <= b <= s@.len(),
            r@ =~= s@.subrange(a as int, i as int),
        decreases b - i,
    {
        r.push(s[i]);
        proof {
            assert(r@ =~= s@.subrange(a as int, i as int + 1));
        }
        i += 1;
    }
    proof {
        assert(r@ =~= s@.subrange(a as int, b as int));
    }
    r
}

/// Splits at every non-overlapping occurrence of `c1 c2`.
#[verifier::loop_isolation(false)]
fn split_on2_exec(s: &Vec<char>, c1: char, c2: char) -> (r: Vec<Vec<char>>)
    ensures
        char_seq_views(r@) == split_on2(s@, c1, c2),
{
    let n = s.len();
    let mut out: Vec<Vec<char>> = Vec::new();
    let mut cur: usize = 0;
    let mut i: usize = 0;
    proof {
        assert(char_seq_views(out@) =~= Seq::<Seq<char>>::empty());
        assert(s@.subrange(0, n as int) =~= s@);
        assert(split_on2(s@, c1, c2) =~~= char_seq_views(out@) + split_on2(
            s@.subrange(0, n as int),
            c1,
            c2,
        ));
    }
    while i < n && i + 1 < n
        invariant
            cur <= i <= n,
            n == s@.len(),
            forall|j: int| cur <= j < i ==> !(#[trigger] s@[j] == c1 && s@[j + 1] == c2),
            split_on2(s@, c1, c2) == char_seq_views(out@) + split_on2(
                s@.subrange(cur as int, n as int),
                c1,
                c2,
            ),
        decreases n - i,
    {
        if s[i] == c1 && s[i + 1] == c2 {
            let seg = subrange_vec(s, cur, i);
            proof {
                let suf = s@.subrange(cur as int, n as int);
                assert forall|j: int| 0 <= j < (i - cur) implies !(#[trigger] suf[j] == c1
                    && suf[j + 1] == c2) by {
                    assert(suf[j] == s@[cur + j]);
                    assert(suf[j + 1] == s@[cur + j + 1]);
                }
                assert(suf[i - cur] == c1);
                assert(suf[i - cur + 1] == c2);
                lemma_split_on2_first(suf, c1, c2, i - cur as int);
                assert(suf.subrange(0, i - cur as int) =~= s@.subrange(cur as int, i as int));
                assert(suf.subrange(i - cur as int + 2, suf.len() as int) =~= s@.subrange(
                    i as int + 2,
                    n as int,
                ));
            }
            out.push(seg);
            proof {
                assert(char_seq_views(out@) =~= char_seq_views(out@.drop_last()) + seq![
                    s@.subrange(cur as int, i as int),
                ]);
                assert(split_on2(s@, c1, c2) =~= char_seq_views(out@) + split_on2(
                    s@.subrange(i as int + 2, n as int),
                    c1,
                    c2,
                ));
            }
            cur = i + 2;
            i = i + 2;
        } else {
            i += 1;
        }
    }
    let seg = subrange_vec(s, cur, n);
    proof {
        let suf = s@.subrange(cur as int, n as int);
        assert forall|j: int| 0 <= j < suf.len() - 1 implies !(#[trigger] suf[j] == c1 && suf[j
            + 1] == c2) by {
            assert(suf[j] == s@[cur + j]);
            assert(suf[j + 1] == s@[cur + j + 1]);
            assert(cur + j < i);
        }
        lemma_split_on2_none(suf, c1, c2);
    }
    out.push(seg);
    proof {
        assert(char_seq_views(out@) =~= char_seq_views(out@.drop_last()) + seq![
            s@.subrange(cur as int, n as int),
        ]);
        assert(char_seq_views(out@) =~= split_on2(s@, c1, c2));
    }
    out
}

/// The non-space characters, in order.
fn strip_spaces_exec(l: &Vec<char>) -> (r: Vec<char>)
    ensures
        r@ == strip_spaces(l@),
{
    let mut r: Vec<char> = Vec::new();
    let mut i: usize = 0;
    while i < l.len()
        invariant
            i <= l@.len(),
            r@ == strip_spaces(l@.subrange(0, i as int)),
        decreases l@.len() - i,
    {
        let c = l[i];
        proof {
            let pre = l@.subrange(0, i as int + 1);
            assert(pre.drop_last() =~= l@.subrange(0, i as int));
            assert(pre.last() == c);
        }
        if !(c == ' ' || c == '\t' || c == '\r' || c == '\n') {
            r.push(c);
        }
        proof {
            assert(r@ =~= strip_spaces(l@.subrange(0, i as int + 1)));
        }
        i += 1;
    }
    proof {
        assert(l@.subrange(0, l@.len() as int) =~= l@);
    }
    r
}

/// The digit characters, in order.
fn filter_digits_exec(l: &Vec<char>) -> (r: Vec<char>)
    ensures
        r@ == filter_digits(l@),
{
    let mut r: Vec<char> = Vec::new();
    let mut i: usize = 0;
    while i < l.len()
        invariant
            i <= l@.len(),
            r@ == filter_digits(l@.subrange(0, i as int)),
        decreases l@.len() - i,
    {
        let c = l[i];
        proof {
            let pre = l@.subrange(0, i as int + 1);
            assert(pre.drop_last() =~= l@.subrange(0, i as int));
            assert(pre.last() == c);
        }
        if '0' <= c && c <= '9' {
            r.push(c);
        }
        proof {
            assert(r@ =~= filter_digits(l@.subrange(0, i as int + 1)));
        }
        i += 1;
    }
    proof {
        assert(l@.subrange(0, l@.len() as int) =~= l@);
    }
    r
}

/// The letter characters, in order.
fn filter_alpha_exec(l: &Vec<char>) -> (r: Vec<char>)
    ensures
        r@ == filter_alpha(l@),
{
    let mut r: Vec<char> = Vec::new();
    let mut i: usize = 0;
    while i < l.len()
        invariant
            i <= l@.len(),
            r@ == filter_alpha(l@.subrange(0, i as int)),
        decreases l@.len() - i,
    {
        let c = l[i];
        proof {
            let pre = l@.subrange(0, i as int + 1);
            assert(pre.drop_last() =~= l@.subrange(0, i as int));
            assert(pre.last() == c);
        }
        if ('a' <= c && c <= 'z') || ('A' <= c && c <= 'Z') {
            r.push(c);
        }
        proof {
            assert(r@ =~= filter_alpha(l@.subrange(0, i as int + 1)));
        }
        i += 1;
    }
    proof {
        assert(l@.subrange(0, l@.len() as int) =~= l@);
    }
    r
}

/// Relies on `String::push`: appends one character to the string.
#[verifier::external_body]
fn push_char(s: &mut String, c: char)
    ensures
        final(s)@ == old(s)@.push(c),
{
    s.push(c);
}

/// The characters collected into a `String`.
fn string_of(chars: &Vec<char>) -> (r: String)
    ensures
        r@ == chars@,
{
    let mut r = String::new();
    let mut i: usize = 0;
    while i < chars.len()
        invariant
            i <= chars@.len(),
            r@ =~= chars@.subrange(0, i as int),
        decreases chars@.len() - i,
    {
        push_char(&mut r, chars[i]);
        proof {
            assert(r@ =~= chars@.subrange(0, i as int + 1));
        }
        i += 1;
    }
    proof {
        assert(chars@.subrange(0, chars@.len() as int) =~= chars@);
    }
    r
}

/// One pass over a line: how many operator characters stand outside
/// brackets, and where the first one is.
#[verifier::loop_isolation(false)]
fn ops_scan(l: &Vec<char>) -> (r: (usize, Option<usize>))
    ensures
        r.0 == count_ops(l@, false),
        (match r.1 {
            Some(fi) => first_op(l@, false) == fi as int,
            None => first_op(l@, false) == -1,
        }),
{
    let mut cnt: usize = 0;
    let mut first: Option<usize> = None;
    let mut sh = false;
    let mut i: usize = 0;
    proof {
        assert(l@.skip(0) =~= l@);
    }
    while i < l.len()
        invariant
            i <= l@.len(),
            cnt <= i,
            count_ops(l@, false) == cnt + count_ops(l@.skip(i as int), sh),
            (match first {
                Some(fi) => first_op(l@, false) == fi as int && fi < i,
                None => first_op(l@, false) == (if first_op(l@.skip(i as int), sh) < 0 {
                    -1int
                } else {
                    i + first_op(l@.skip(i as int), sh)
                }),
            }),
        decreases l@.len() - i,
    {
        let c = l[i];
        let sh2 = if c == '[' {
            true
        } else if c == ']' {
            false
        } else {
            sh
        };
        let isop = c == '*' || c == '+' || c == '-' || c == '/';
        proof {
            let tl = l@.skip(i as int);
            assert(tl.len() > 0);
            assert(tl[0] == l@[i as int]);
            assert(tl.drop_first() =~= l@.skip(i as int + 1));
            assert(count_ops(tl, sh) == (if !next_shield(sh, tl[0]) && is_op_char(tl[0]) {
                1int
            } else {
                0int
            }) + count_ops(tl.drop_first(), next_shield(sh, tl[0])));
        }
        if !sh2 && isop {
            if first.is_none() {
                first = Some(i);
            }
            cnt += 1;
        }
        sh = sh2;
        i += 1;
    }
    proof {
        assert(l@.skip(l@.len() as int) =~= Seq::<char>::empty());
    }
    (cnt, first)
}

/// The signed coefficient of an operand segment, as a field element.
#[verifier::loop_isolation(false)]
fn coeff_scalar(seg: &Vec<char>) -> (r: Scalar)
    ensures
        r@ == coeff_val(seg@),
{
    let digits = filter_digits_exec(seg);
    let ten = Scalar::from_u64(10);
    let mut mag: Scalar;
    if digits.len() == 0 {
        mag = Scalar::from_u64(1);
        proof {
            assert(1int % fr_order() == 1);
        }
    } else {
        mag = Scalar::from_u64(0);
        let mut i: usize = 0;
        proof {
            assert(digits@.subrange(0, 0) =~= Seq::<char>::empty());
            assert(0int % fr_order() == 0);
        }
        while i < digits.len()
            invariant
                i <= digits@.len(),
                mag@ == dec_val(digits@.subrange(0, i as int)) % fr_order(),
            decreases digits@.len() - i,
        {
            let c = digits[i];
            proof {
                let pre = digits@.subrange(0, i as int + 1);
                assert(pre.drop_last() =~= digits@.subrange(0, i as int));
                assert(pre.last() == c);
                assert(is_digit_char(c)) by {
                    lemma_filter_digits_all(seg@);
                }
            }
            let d = char_digit(c);
            let next = mag.mul(&ten).add(&d);
            proof {
                let m = fr_order();
                let dv = dec_val(digits@.subrange(0, i as int));
                assert(ten@ == 10);
                assert(next@ == (((dv % m) * 10) % m + d@) % m);
                vstd::arithmetic::div_mod::lemma_mul_mod_noop_left(dv, 10, m);
                assert(((dv % m) * 10) % m == (dv * 10) % m);
                // fold the remaining outer reduction into one modulus
                vstd::arithmetic::div_mod::lemma_add_mod_noop(dv * 10, digit_val(c), m);
                vstd::arithmetic::div_mod::lemma_add_mod_noop((dv * 10) % m, digit_val(c), m);
                vstd::arithmetic::div_mod::lemma_mod_twice(dv * 10, m);
                assert(next@ == (dv * 10 + digit_val(c)) % m);
            }
            mag = next;
            i += 1;
        }
        proof {
            assert(digits@.subrange(0, digits@.len() as int) =~= digits@);
        }
    }
    if seg.len() > 0 {
        let c0 = seg[0];
        if c0 == '[' {
            let z = Scalar::from_u64(0);
            let r = z.sub(&mag);
            return r;
        }
    }
    mag
}

/// The digit character as a field element.
fn char_digit(c: char) -> (r: Scalar)
    requires
        is_digit_char(c),
    ensures
        r@ == digit_val(c),
{
    let v = (c as u32) - ('0' as u32);
    proof {
        assert(v <= 9);
    }
    Scalar::from_u64(v as u64)
}

/// Every character the digit filter keeps is a digit.
proof fn lemma_filter_digits_all(l: Seq<char>)
    ensures
        forall|i: int| 0 <= i < filter_digits(l).len() ==> is_digit_char(
            #[trigger] filter_digits(l)[i],
        ),
    decreases l.len(),
{
    if l.len() > 0 {
        lemma_filter_digits_all(l.drop_last());
        let pre = filter_digits(l.drop_last());
        assert forall|i: int| 0 <= i < filter_digits(l).len() implies is_digit_char(
            filter_digits(l)[i],
        ) by {
            if i < pre.len() {
                assert(filter_digits(l)[i] == pre[i]);
            } else {
                assert(is_digit_char(l.last()));
                assert(filter_digits(l)[i] == l.last());
            }
        }
    }
}

/// Decomposes one raw operand: the coefficient substring (with a minus
/// sign when the operand stood in brackets) and the variable substring.
pub fn shield_brack_parser(op: &str) -> (r: (String, String))
    requires
        op@.len() > 0,
    ensures
        r.0@ == (if op@[0] == '[' {
            seq!['-'] + filter_digits(op@)
        } else {
            filter_digits(op@)
        }),
        r.1@ == filter_alpha(op@),
{
    let chars = chars_of(op);
    let digits = filter_digits_exec(&chars);
    let alpha = filter_alpha_exec(&chars);
    let operand = string_of(&alpha);
    let first = chars[0];
    if first == '[' {
        let mut coeff = String::new();
        push_char(&mut coeff, '-');
        let digits_str = string_of(&digits);
        let coeff2 = coeff.concat(digits_str.as_str());
        proof {
            assert(coeff2@ =~= seq!['-'] + filter_digits(op@));
        }
        (coeff2, operand)
    } else {
        (string_of(&digits), operand)
    }
}

/// One stripped line parsed into a gate.
fn parse_gate_line(l: &Vec<char>) -> (r: Result<Gate, ParseError>)
    ensures
        (match (r, spec_parse_gate(l@)) {
            (Ok(g), Ok(m)) => g@ == m,
            (Err(e), Err(e2)) => e == e2,
            _ => false,
        }),
{
    let (cnt, firstidx) = ops_scan(l);
    if cnt == 0 {
        return Err(ParseError::MissingOperand);
    }
    if cnt > 1 {
        return Err(ParseError::MultipleOperators);
    }
    proof {
        lemma_first_op_exists(l@, false);
        lemma_first_op_props(l@, false);
    }
    let i = match firstidx {
        Some(fi) => fi,
        None => {
            proof {
                assert(false);
            }
            vstd::pervasive::unreached()
        },
    };
    let n = l.len();
    proof {
        assert(i < n);
    }
    let left = subrange_vec(l, 0, i);
    let rest = subrange_vec(l, i + 1, n);
    let segs = split_on2_exec(&rest, '=', '=');
    proof {
        lemma_split_on2_len(rest@, '=', '=');
        assert(char_seq_views(segs@).len() == segs@.len());
    }
    let rightop = &segs[0];
    let outseg = &segs[segs.len() - 1];
    proof {
        assert(rightop@ == char_seq_views(segs@)[0]);
        assert(outseg@ == char_seq_views(segs@).last());
    }
    let lv = filter_alpha_exec(&left);
    let rv = filter_alpha_exec(rightop);
    let ov = filter_alpha_exec(outseg);
    if lv.len() == 0 || rv.len() == 0 || ov.len() == 0 {
        return Err(ParseError::EmptyOperand);
    }
    let lc = coeff_scalar(&left);
    let rc = coeff_scalar(rightop);
    let opchar = l[i];
    let op = if opchar == '*' {
        GateOp::Mul
    } else if opchar == '+' {
        GateOp::Add
    } else if opchar == '-' {
        GateOp::Sub
    } else if opchar == '/' {
        GateOp::Div
    } else {
        proof {
            assert(false);
        }
        return Err(ParseError::UnsupportedOperation);
    };
    let g = Gate {
        op,
        left_coeff: lc,
        left_var: string_of(&lv),
        right_coeff: rc,
        right_var: string_of(&rv),
        out_var: string_of(&ov),
    };
    Ok(g)
}

/// Parses a whole circuit text into its gate sequence: CRLF-separated
/// lines, whitespace stripped, each non-empty line one gate in the form
/// `[coef]var <op> [coef]var == [coef]varOut`. The first malformed line
/// aborts the parse with its error; no partial circuit is produced.
#[verifier::loop_isolation(false)]
pub fn parse_circuit(source: &str) -> (r: Result<Vec<Gate>, ParseError>)
    ensures
        (match (r, spec_parse_circuit(source@)) {
            (Ok(v), Ok(ms)) => gate_views(v@) == ms,
            (Err(e), Err(e2)) => e == e2,
            _ => false,
        }),
{
    let chars = chars_of(source);
    let lines = split_on2_exec(&chars, '\r', '\n');
    let ghost lv = char_seq_views(lines@);
    let mut out: Vec<Gate> = Vec::new();
    let mut i: usize = 0;
    proof {
        assert(lv.skip(0) =~= lv);
        assert(gate_views(out@) =~= Seq::<GateModel>::empty());
        assert(spec_parse_lines(lv) == prepend_gates(
            gate_views(out@),
            spec_parse_lines(lv.skip(0)),
        )) by {
            match spec_parse_lines(lv) {
                Ok(v) => {
                    assert(gate_views(out@) + v =~= v);
                },
                Err(_) => {},
            }
        }
    }
    while i < lines.len()
        invariant
            i <= lines@.len(),
            lv.len() == lines@.len(),
            spec_parse_lines(lv) == prepend_gates(
                gate_views(out@),
                spec_parse_lines(lv.skip(i as int)),
            ),
        decreases lines@.len() - i,
    {
        let line = &lines[i];
        let ghost tl = lv.skip(i as int);
        proof {
            assert(tl.len() > 0);
            assert(tl[0] == lv[i as int]);
            assert(tl[0] == line@);
            assert(tl.drop_first() =~= lv.skip(i as int + 1));
        }
        if line.len() > 0 {
            let stripped = strip_spaces_exec(line);
            match parse_gate_line(&stripped) {
                Ok(g) => {
                    let ghost old_out = gate_views(out@);
                    out.push(g);
                    proof {
                        assert(gate_views(out@) =~= old_out + seq![g@]);
                        assert(spec_parse_gate(strip_spaces(tl[0])) == Ok::<
                            GateModel,
                            ParseError,
                        >(g@));
                        match spec_parse_lines(tl.drop_first()) {
                            Ok(gs) => {
                                assert(spec_parse_lines(tl) == Ok::<Seq<GateModel>, ParseError>(
                                    seq![g@] + gs,
                                ));
                                assert(old_out + (seq![g@] + gs) =~= (old_out + seq![g@]) + gs);
                            },
                            Err(_) => {},
                        }
                    }
                },
                Err(e) => {
                    proof {
                        assert(spec_parse_lines(tl) == Err::<Seq<GateModel>, ParseError>(e));
                    }
                    return Err(e);
                },
            }
        }
        i += 1;
    }
    proof {
        assert(lv.skip(lines@.len() as int) =~= Seq::<Seq<char>>::empty());
        match spec_parse_lines(lv) {
            Ok(v) => {
                assert(gate_views(out@) + Seq::<GateModel>::empty() =~= gate_views(out@));
            },
            Err(_) => {},
        }
    }
    Ok(out)
}

/// A gate's parsed coefficients are reduced residues.
pub open spec fn gate_wf(g: GateModel) -> bool {
    0 <= g.lc < fr_order() && 0 <= g.rc < fr_order()
}

/// A parsed coefficient is a reduced residue.
pub proof fn lemma_coeff_val_range(seg: Seq<char>)
    ensures
        0 <= coeff_val(seg) < fr_order(),
{
    let m = fr_order();
    let digits = filter_digits(seg);
    let mag = if digits.len() == 0 {
        1int
    } else {
        dec_val(digits)
    };
    if seg.len() > 0 && seg[0] == '[' {
        vstd::arithmetic::div_mod::lemma_mod_bound(0 - mag % m, m);
    } else {
        vstd::arithmetic::div_mod::lemma_mod_bound(mag, m);
    }
}

/// Every gate a parse yields has reduced coefficients.
pub proof fn lemma_parse_lines_wf(ls: Seq<Seq<char>>)
    ensures
        spec_parse_lines(ls) matches Ok(gs) ==> forall|i: int| 0 <= i < gs.len() ==> gate_wf(
            #[trigger] gs[i],
        ),
    decreases ls.len(),
{
    if ls.len() == 0 {
    } else if ls[0].len() == 0 {
        lemma_parse_lines_wf(ls.drop_first());
    } else {
        lemma_parse_lines_wf(ls.drop_first());
        match spec_parse_gate(strip_spaces(ls[0])) {
            Err(_) => {},
            Ok(g) => {
                let l = strip_spaces(ls[0]);
                let i = first_op(l, false);
                lemma_coeff_val_range(l.subrange(0, i));
                let rest = l.subrange(i + 1, l.len() as int);
                lemma_coeff_val_range(split_on2(rest, '=', '=')[0]);
                match spec_parse_lines(ls.drop_first()) {
                    Err(_) => {},
                    Ok(gs) => {
                        let all = seq![g] + gs;
                        assert forall|j: int| 0 <= j < all.len() implies gate_wf(
                            #[trigger] all[j],
                        ) by {
                            if j > 0 {
                                assert(all[j] == gs[j - 1]);
                            }
                        }
                    },
                }
            },
        }
    }
}

/// Every gate of a parsed circuit has reduced coefficients.
pub proof fn lemma_parse_circuit_wf(s: Seq<char>)
    ensures
        spec_parse_circuit(s) matches Ok(gs) ==> forall|i: int| 0 <= i < gs.len() ==> gate_wf(
            #[trigger] gs[i],
        ),
{
    lemma_parse_lines_wf(split_on2(s, '\r', '\n'));
}

} // verus!
