//! Rewrites an expression so that operator precedence is spelled out with
//! parentheses: a left-to-right scan that knows no binding strengths then
//! reads it the way it is meant.
use vstd::prelude::*;
use crate::text::{is_digit, is_letter};

verus! {

pub open spec fn is_num_char(c: char) -> bool {
    is_digit(c) || c == '.'
}

/// The characters an expression may be written with.
pub open spec fn is_expression_char(c: char) -> bool {
    is_letter(c) || is_digit(c) || c == '^' || c == '*' || c == '/' || c == '(' || c == ')' || c
        == '+' || c == '-' || c == '.'
}

pub open spec fn expression_chars(s: Seq<char>) -> bool {
    forall|k: int| 0 <= k < s.len() ==> is_expression_char(#[trigger] s[k])
}

pub open spec fn is_additive(c: char) -> bool {
    c == '+' || c == '-'
}

pub open spec fn is_multiplicative(c: char) -> bool {
    c == '*' || c == '/'
}

/// Scanning from `i` with `depth` parentheses open: the index just past the `)`
/// that closes the first of them, if there is one.
pub open spec fn close_from(s: Seq<char>, i: int, depth: nat) -> Option<int>
    decreases s.len() - i,
{
    if i < 0 || i >= s.len() {
        None
    } else if s[i] == '(' {
        close_from(s, i + 1, depth + 1)
    } else if s[i] == ')' {
        if depth <= 1 {
            Some(i + 1)
        } else {
            close_from(s, i + 1, (depth - 1) as nat)
        }
    } else {
        close_from(s, i + 1, depth)
    }
}

/// For a `(` at `i`: the index just past its matching `)`.
pub open spec fn group_end(s: Seq<char>, i: int) -> Option<int> {
    close_from(s, i + 1, 1)
}

/// The end of the unit that starts at `i`: a whole parenthesized group (an
/// unclosed one runs to the end), or one character.
pub open spec fn unit_end(s: Seq<char>, i: int) -> int {
    if s[i] == '(' {
        match group_end(s, i) {
            Some(k) => k,
            None => s.len() as int,
        }
    } else {
        i + 1
    }
}

pub open spec fn num_end(s: Seq<char>, i: int) -> int
    decreases s.len() - i,
{
    if 0 <= i < s.len() && is_num_char(s[i]) {
        num_end(s, i + 1)
    } else {
        i
    }
}

pub open spec fn word_end(s: Seq<char>, i: int) -> int
    decreases s.len() - i,
{
    if 0 <= i < s.len() && is_letter(s[i]) {
        word_end(s, i + 1)
    } else {
        i
    }
}

pub open spec fn digits_end(s: Seq<char>, i: int) -> int
    decreases s.len() - i,
{
    if 0 <= i < s.len() && is_digit(s[i]) {
        digits_end(s, i + 1)
    } else {
        i
    }
}

/// The end of the operand that starts at `i` (a group, a number or a run of
/// letters), or `i` where none starts there.
pub open spec fn operand_end(s: Seq<char>, i: int) -> int {
    if i < 0 || i >= s.len() {
        i
    } else if s[i] == '(' {
        unit_end(s, i)
    } else if is_num_char(s[i]) {
        num_end(s, i)
    } else if is_letter(s[i]) {
        word_end(s, i)
    } else {
        i
    }
}

/// The end of the additive term that starts at `i`: the next `+` or `-` outside
/// any group, or the end.
pub open spec fn term_end(s: Seq<char>, i: int) -> int
    decreases s.len() - i,
    via term_end_decreases
{
    if 0 <= i < s.len() {
        if is_additive(s[i]) {
            i
        } else {
            term_end(s, unit_end(s, i))
        }
    } else {
        i
    }
}

/// Whether a `*` or `/` stands outside any group between `i` and `j`.
pub open spec fn has_product(s: Seq<char>, i: int, j: int) -> bool
    decreases s.len() - i,
    via has_product_decreases
{
    if 0 <= i < j && i < s.len() {
        if is_multiplicative(s[i]) {
            true
        } else {
            has_product(s, unit_end(s, i), j)
        }
    } else {
        false
    }
}

pub open spec fn parenthesized(s: Seq<char>) -> Seq<char> {
    seq!['('] + s + seq![')']
}

/// Exponent grouping from `i` on: each `base^exponent` becomes
/// `(base^(exponent))`, and a chain `a^b^c` becomes `((a^(b))^(c))`.
pub open spec fn exponents_from(s: Seq<char>, i: int) -> Seq<char>
    decreases s.len() - i, 0int,
    via exponents_from_decreases
{
    if i < 0 || i >= s.len() {
        Seq::empty()
    } else {
        let e = operand_end(s, i);
        if e <= i {
            seq![s[i]] + exponents_from(s, i + 1)
        } else {
            power_chain(s, s.subrange(i, e), e)
        }
    }
}

/// An operand read up to `e`, raised by every `^exponent` that follows it,
/// then the rest of the grouping.
pub open spec fn power_chain(s: Seq<char>, base: Seq<char>, e: int) -> Seq<char>
    decreases s.len() - e, 1int,
    via power_chain_decreases
{
    if e < 0 || e > s.len() {
        base
    } else if e < s.len() && s[e] == '^' && operand_end(s, e + 1) > e + 1 {
        let e2 = operand_end(s, e + 1);
        power_chain(s, parenthesized(base + seq!['^'] + parenthesized(s.subrange(e + 1, e2))), e2)
    } else {
        base + exponents_from(s, e)
    }
}

/// Multiplicative grouping from `i` on: each additive term that holds a `*` or
/// `/` outside any group is wrapped in one pair of parentheses.
pub open spec fn products_from(s: Seq<char>, i: int) -> Seq<char>
    decreases s.len() - i,
    via products_from_decreases
{
    if i < 0 || i > s.len() {
        Seq::empty()
    } else {
        let j = term_end(s, i);
        let t = s.subrange(i, j);
        let w = if has_product(s, i, j) {
            parenthesized(t)
        } else {
            t
        };
        if j < s.len() {
            w + seq![s[j]] + products_from(s, j + 1)
        } else {
            w
        }
    }
}

/// Whether `s[i..j]` is one closed parenthesized group.
pub open spec fn is_group(s: Seq<char>, i: int, j: int) -> bool {
    0 <= i < s.len() && s[i] == '(' && group_end(s, i) == Some(j)
}

/// Whether every unit of `s[i..j]` outside any group is a plain character or a
/// group that closes: no stray `)`, and no `(` left open.
pub open spec fn balanced_units(s: Seq<char>, i: int, j: int) -> bool
    decreases s.len() - i,
    via balanced_units_decreases
{
    if 0 <= i < j && i < s.len() {
        if s[i] == ')' {
            false
        } else if s[i] == '(' && group_end(s, i) is None {
            false
        } else {
            balanced_units(s, unit_end(s, i), j)
        }
    } else {
        true
    }
}

/// Whether the term `s[i..j]` after a sign gets parentheses: it is not empty,
/// balanced, and not already one group.
pub open spec fn wraps_term(s: Seq<char>, i: int, j: int, first: bool) -> bool {
    !first && j > i && balanced_units(s, i, j) && !is_group(s, i, j)
}

/// Additive grouping from `i` on: each term after a `+` or `-` that is not
/// empty, balanced and not already one group is wrapped in parentheses.
pub open spec fn signed_terms_from(s: Seq<char>, i: int, first: bool) -> Seq<char>
    decreases s.len() - i,
    via signed_terms_from_decreases
{
    if i < 0 || i > s.len() {
        Seq::empty()
    } else {
        let j = term_end(s, i);
        let t = s.subrange(i, j);
        let w = if wraps_term(s, i, j, first) {
            parenthesized(t)
        } else {
            t
        };
        if j < s.len() {
            w + seq![s[j]] + signed_terms_from(s, j + 1, false)
        } else {
            w
        }
    }
}

/// Removal of redundant parentheses from `i` on: `(digits)` becomes `digits`.
pub open spec fn unwrapped_from(s: Seq<char>, i: int) -> Seq<char>
    decreases s.len() - i,
{
    if i < 0 || i >= s.len() {
        Seq::empty()
    } else {
        let k = digits_end(s, i + 1);
        if s[i] == '(' && k > i + 1 && k < s.len() && s[k] == ')' {
            s.subrange(i + 1, k) + unwrapped_from(s, k + 1)
        } else {
            seq![s[i]] + unwrapped_from(s, i + 1)
        }
    }
}

/// Some `+` or `-` occurs in `s`.
pub open spec fn has_sum_sign(s: Seq<char>) -> bool {
    exists|k: int| 0 <= k < s.len() && is_additive(#[trigger] s[k])
}

/// One of `+ - * /` occurs in `s`.
pub open spec fn has_arithmetic(s: Seq<char>) -> bool {
    exists|k: int| 0 <= k < s.len() && (is_additive(#[trigger] s[k]) || is_multiplicative(s[k]))
}

/// The exponent step: skipped where no `+ - * /` occurs, as nothing then binds
/// less tightly than `^`.
pub open spec fn exponent_step(s: Seq<char>) -> Seq<char> {
    if has_arithmetic(s) {
        exponents_from(s, 0)
    } else {
        s
    }
}

/// The product step: skipped where no `+` or `-` occurs.
pub open spec fn product_step(s: Seq<char>) -> Seq<char> {
    if has_sum_sign(s) {
        products_from(s, 0)
    } else {
        s
    }
}

/// The four rewrites of one level, in their order.
pub open spec fn level(s: Seq<char>) -> Seq<char> {
    unwrapped_from(signed_terms_from(product_step(exponent_step(s)), 0, true), 0)
}

/// An expression with precedence made explicit: every closed group is
/// normalized first, then the level that holds them.
pub open spec fn normalized(t: Seq<char>) -> Seq<char>
    decreases t.len(), 1int, 0int,
{
    level(groups_normalized_from(t, 0))
}

/// `s` from `i` on, with the content of each closed group normalized.
pub open spec fn groups_normalized_from(s: Seq<char>, i: int) -> Seq<char>
    decreases s.len(), 0int, s.len() - i,
    via groups_normalized_from_decreases
{
    if i < 0 || i >= s.len() {
        Seq::empty()
    } else if s[i] == '(' && group_end(s, i) is Some {
        let e = group_end(s, i)->Some_0;
        parenthesized(normalized(s.subrange(i + 1, e - 1))) + groups_normalized_from(s, e)
    } else {
        seq![s[i]] + groups_normalized_from(s, i + 1)
    }
}

pub proof fn lemma_close_from(s: Seq<char>, i: int, depth: nat)
    ensures
        close_from(s, i, depth) matches Some(k) ==> i < k <= s.len() && s[k - 1] == ')',
    decreases s.len() - i,
{
    if 0 <= i < s.len() {
        if s[i] == '(' {
            lemma_close_from(s, i + 1, depth + 1);
        } else if s[i] == ')' {
            if depth > 1 {
                lemma_close_from(s, i + 1, (depth - 1) as nat);
            }
        } else {
            lemma_close_from(s, i + 1, depth);
        }
    }
}

pub proof fn lemma_unit_end(s: Seq<char>, i: int)
    requires
        0 <= i < s.len(),
    ensures
        i < unit_end(s, i) <= s.len(),
{
    lemma_close_from(s, i + 1, 1);
}

proof fn lemma_num_end(s: Seq<char>, i: int)
    requires
        0 <= i <= s.len(),
    ensures
        i <= num_end(s, i) <= s.len(),
        forall|k: int| i <= k < num_end(s, i) ==> is_num_char(#[trigger] s[k]),
    decreases s.len() - i,
{
    if i < s.len() && is_num_char(s[i]) {
        lemma_num_end(s, i + 1);
    }
}

pub proof fn lemma_word_end(s: Seq<char>, i: int)
    requires
        0 <= i <= s.len(),
    ensures
        i <= word_end(s, i) <= s.len(),
    decreases s.len() - i,
{
    if i < s.len() && is_letter(s[i]) {
        lemma_word_end(s, i + 1);
    }
}

proof fn lemma_digits_end(s: Seq<char>, i: int)
    requires
        0 <= i <= s.len(),
    ensures
        i <= digits_end(s, i) <= s.len(),
    decreases s.len() - i,
{
    if i < s.len() && is_digit(s[i]) {
        lemma_digits_end(s, i + 1);
    }
}

pub proof fn lemma_operand_end(s: Seq<char>, i: int)
    requires
        0 <= i <= s.len(),
    ensures
        i <= operand_end(s, i) <= s.len(),
{
    if i < s.len() {
        lemma_unit_end(s, i);
        lemma_num_end(s, i);
        lemma_word_end(s, i);
    }
}

pub proof fn lemma_term_end(s: Seq<char>, i: int)
    requires
        0 <= i <= s.len(),
    ensures
        i <= term_end(s, i) <= s.len(),
        term_end(s, i) < s.len() ==> is_additive(s[term_end(s, i)]),
    decreases s.len() - i,
{
    if i < s.len() && !is_additive(s[i]) {
        lemma_unit_end(s, i);
        lemma_term_end(s, unit_end(s, i));
    }
}

#[via_fn]
proof fn term_end_decreases(s: Seq<char>, i: int) {
    if 0 <= i < s.len() {
        lemma_unit_end(s, i);
    }
}

#[via_fn]
proof fn has_product_decreases(s: Seq<char>, i: int, j: int) {
    if 0 <= i < j && i < s.len() {
        lemma_unit_end(s, i);
    }
}

#[via_fn]
proof fn exponents_from_decreases(s: Seq<char>, i: int) {
    if 0 <= i < s.len() {
        lemma_operand_end(s, i);
    }
}

#[via_fn]
proof fn power_chain_decreases(s: Seq<char>, base: Seq<char>, e: int) {
    if 0 <= e < s.len() {
        lemma_operand_end(s, e + 1);
    }
}

#[via_fn]
proof fn products_from_decreases(s: Seq<char>, i: int) {
    if 0 <= i <= s.len() {
        lemma_term_end(s, i);
    }
}

#[via_fn]
proof fn balanced_units_decreases(s: Seq<char>, i: int, j: int) {
    if 0 <= i < j && i < s.len() {
        lemma_unit_end(s, i);
    }
}

#[via_fn]
proof fn signed_terms_from_decreases(s: Seq<char>, i: int, first: bool) {
    if 0 <= i <= s.len() {
        lemma_term_end(s, i);
    }
}

#[via_fn]
proof fn groups_normalized_from_decreases(s: Seq<char>, i: int) {
    if 0 <= i < s.len() {
        lemma_close_from(s, i + 1, 1);
    }
}

/// Appends `s[a..b]` to `out`.
pub fn push_range(out: &mut Vec<char>, s: &Vec<char>, a: usize, b: usize)
    requires
        a <= b <= s.len(),
    ensures
        final(out)@ == old(out)@ + s@.subrange(a as int, b as int),
{
    let ghost start = old(out)@;
    let mut k: usize = a;
    while k < b
        invariant
            a <= k <= b <= s.len(),
            out@ == start + s@.subrange(a as int, k as int),
        decreases b - k,
    {
        out.push(s[k]);
        k = k + 1;
        assert(out@ =~= start + s@.subrange(a as int, k as int));
    }
}

/// A copy of `s[a..b]`.
pub fn copy_range(s: &Vec<char>, a: usize, b: usize) -> (r: Vec<char>)
    requires
        a <= b <= s.len(),
    ensures
        r@ == s@.subrange(a as int, b as int),
{
    let mut out: Vec<char> = Vec::new();
    push_range(&mut out, s, a, b);
    assert(out@ =~= s@.subrange(a as int, b as int));
    out
}

pub(crate) fn group_end_of(s: &Vec<char>, i: usize) -> (r: Option<usize>)
    requires
        i < s.len(),
    ensures
        match r {
            Some(k) => group_end(s@, i as int) == Some(k as int),
            None => group_end(s@, i as int) is None,
        },
{
    let mut j: usize = i + 1;
    let mut depth: usize = 1;
    while j < s.len()
        invariant
            i < j <= s.len(),
            1 <= depth <= j - i,
            close_from(s@, j as int, depth as nat) == close_from(s@, i + 1, 1),
        decreases s.len() - j,
    {
        let c = s[j];
        if c == '(' {
            depth = depth + 1;
        } else if c == ')' {
            if depth <= 1 {
                return Some(j + 1);
            }
            depth = depth - 1;
        }
        j = j + 1;
    }
    None
}

fn unit_end_of(s: &Vec<char>, i: usize) -> (r: usize)
    requires
        i < s.len(),
    ensures
        r == unit_end(s@, i as int),
{
    if s[i] == '(' {
        match group_end_of(s, i) {
            Some(k) => k,
            None => s.len(),
        }
    } else {
        i + 1
    }
}

pub(crate) fn num_end_of(s: &Vec<char>, i: usize) -> (r: usize)
    requires
        i <= s.len(),
    ensures
        r == num_end(s@, i as int),
{
    let mut j: usize = i;
    while j < s.len() && (('0' <= s[j] && s[j] <= '9') || s[j] == '.')
        invariant
            i <= j <= s.len(),
            num_end(s@, j as int) == num_end(s@, i as int),
        decreases s.len() - j,
    {
        j = j + 1;
    }
    j
}

fn word_end_of(s: &Vec<char>, i: usize) -> (r: usize)
    requires
        i <= s.len(),
    ensures
        r == word_end(s@, i as int),
{
    let mut j: usize = i;
    while j < s.len() && 'a' <= s[j] && s[j] <= 'z'
        invariant
            i <= j <= s.len(),
            word_end(s@, j as int) == word_end(s@, i as int),
        decreases s.len() - j,
    {
        j = j + 1;
    }
    j
}

fn digits_end_of(s: &Vec<char>, i: usize) -> (r: usize)
    requires
        i <= s.len(),
    ensures
        r == digits_end(s@, i as int),
{
    let mut j: usize = i;
    while j < s.len() && '0' <= s[j] && s[j] <= '9'
        invariant
            i <= j <= s.len(),
            digits_end(s@, j as int) == digits_end(s@, i as int),
        decreases s.len() - j,
    {
        j = j + 1;
    }
    j
}

fn operand_end_of(s: &Vec<char>, i: usize) -> (r: usize)
    requires
        i <= s.len(),
    ensures
        r == operand_end(s@, i as int),
{
    if i >= s.len() {
        i
    } else if s[i] == '(' {
        unit_end_of(s, i)
    } else if ('0' <= s[i] && s[i] <= '9') || s[i] == '.' {
        num_end_of(s, i)
    } else if 'a' <= s[i] && s[i] <= 'z' {
        word_end_of(s, i)
    } else {
        i
    }
}

fn term_end_of(s: &Vec<char>, i: usize) -> (r: usize)
    requires
        i <= s.len(),
    ensures
        r == term_end(s@, i as int),
{
    let mut j: usize = i;
    while j < s.len()
        invariant
            i <= j <= s.len(),
            term_end(s@, j as int) == term_end(s@, i as int),
        decreases s.len() - j,
    {
        if s[j] == '+' || s[j] == '-' {
            return j;
        }
        proof {
            lemma_unit_end(s@, j as int);
        }
        j = unit_end_of(s, j);
    }
    j
}

fn has_product_of(s: &Vec<char>, i: usize, j: usize) -> (r: bool)
    requires
        i <= j <= s.len(),
    ensures
        r == has_product(s@, i as int, j as int),
{
    let mut k: usize = i;
    while k < j
        invariant
            i <= k <= s.len(),
            j <= s.len(),
            has_product(s@, k as int, j as int) == has_product(s@, i as int, j as int),
        decreases s.len() - k,
    {
        if s[k] == '*' || s[k] == '/' {
            return true;
        }
        proof {
            lemma_unit_end(s@, k as int);
        }
        k = unit_end_of(s, k);
    }
    false
}

/// Exponent grouping: each `base^exponent` becomes `(base^(exponent))`, and
/// a chain `a^b^c` becomes `((a^(b))^(c))`.
pub fn group_exponents(s: &Vec<char>) -> (r: Vec<char>)
    ensures
        r@ == exponents_from(s@, 0),
{
    let mut out: Vec<char> = Vec::new();
    let mut i: usize = 0;
    while i < s.len()
        invariant
            i <= s.len(),
            out@ + exponents_from(s@, i as int) == exponents_from(s@, 0),
        decreases s.len() - i,
    {
        let ghost before = out@;
        let ghost rest = exponents_from(s@, i as int);
        proof {
            lemma_operand_end(s@, i as int);
        }
        let e = operand_end_of(s, i);
        if e <= i {
            out.push(s[i]);
            i = i + 1;
            proof {
                assert(out@ + exponents_from(s@, i as int) =~= before + rest);
            }
        } else {
            let mut base = copy_range(s, i, e);
            let mut j: usize = e;
            while j < s.len() && s[j] == '^' && operand_end_of(s, j + 1) > j + 1
                invariant
                    i < j <= s.len(),
                    power_chain(s@, base@, j as int) == rest,
                decreases s.len() - j,
            {
                proof {
                    lemma_operand_end(s@, j + 1);
                }
                let e2 = operand_end_of(s, j + 1);
                let mut next: Vec<char> = Vec::new();
                next.push('(');
                push_range(&mut next, &base, 0, base.len());
                next.push('^');
                next.push('(');
                push_range(&mut next, s, j + 1, e2);
                next.push(')');
                next.push(')');
                proof {
                    assert(base@.subrange(0, base@.len() as int) =~= base@);
                    assert(next@ =~= parenthesized(
                        base@ + seq!['^'] + parenthesized(s@.subrange(j + 1, e2 as int)),
                    ));
                }
                base = next;
                j = e2;
            }
            push_range(&mut out, &base, 0, base.len());
            proof {
                assert(base@.subrange(0, base@.len() as int) =~= base@);
                assert(rest == base@ + exponents_from(s@, j as int));
                assert(out@ + exponents_from(s@, j as int) =~= before + rest);
            }
            i = j;
        }
    }
    assert(out@ + exponents_from(s@, i as int) =~= out@);
    out
}

/// Multiplicative grouping: each additive term that holds a `*` or `/`
/// outside any group is wrapped in parentheses.
pub fn group_products(s: &Vec<char>) -> (r: Vec<char>)
    ensures
        r@ == products_from(s@, 0),
{
    let mut out: Vec<char> = Vec::new();
    let mut i: usize = 0;
    loop
        invariant
            i <= s.len(),
            out@ + products_from(s@, i as int) == products_from(s@, 0),
        decreases s.len() - i,
    {
        let ghost before = out@;
        let ghost rest = products_from(s@, i as int);
        proof {
            lemma_term_end(s@, i as int);
        }
        let j = term_end_of(s, i);
        let wrap = has_product_of(s, i, j);
        if wrap {
            out.push('(');
        }
        push_range(&mut out, s, i, j);
        if wrap {
            out.push(')');
        }
        if j < s.len() {
            out.push(s[j]);
            i = j + 1;
            proof {
                let piece = out@.subrange(before.len() as int, out@.len() as int);
                assert(out@ =~= before + piece);
                assert(rest =~= piece + products_from(s@, i as int));
                assert(out@ + products_from(s@, i as int) =~= before + rest);
            }
        } else {
            proof {
                let piece = out@.subrange(before.len() as int, out@.len() as int);
                assert(out@ =~= before + piece);
                assert(rest =~= piece);
            }
            return out;
        }
    }
}

fn is_group_at(s: &Vec<char>, i: usize, j: usize) -> (r: bool)
    ensures
        r == is_group(s@, i as int, j as int),
{
    if i < s.len() && s[i] == '(' {
        match group_end_of(s, i) {
            Some(k) => k == j,
            None => false,
        }
    } else {
        false
    }
}

fn balanced_units_of(s: &Vec<char>, i: usize, j: usize) -> (r: bool)
    requires
        i <= j <= s.len(),
    ensures
        r == balanced_units(s@, i as int, j as int),
{
    let mut k: usize = i;
    while k < j
        invariant
            i <= k <= s.len(),
            j <= s.len(),
            balanced_units(s@, k as int, j as int) == balanced_units(s@, i as int, j as int),
        decreases s.len() - k,
    {
        if s[k] == ')' {
            return false;
        }
        if s[k] == '(' {
            if group_end_of(s, k).is_none() {
                return false;
            }
        }
        proof {
            lemma_unit_end(s@, k as int);
        }
        k = unit_end_of(s, k);
    }
    true
}

/// Additive grouping: each term after a `+` or `-` that is not empty, balanced
/// and not already one group is wrapped in parentheses.
pub fn group_signed_terms(s: &Vec<char>) -> (r: Vec<char>)
    ensures
        r@ == signed_terms_from(s@, 0, true),
{
    let mut out: Vec<char> = Vec::new();
    let mut i: usize = 0;
    let mut first = true;
    loop
        invariant
            i <= s.len(),
            out@ + signed_terms_from(s@, i as int, first) == signed_terms_from(s@, 0, true),
        decreases s.len() - i,
    {
        let ghost before = out@;
        let ghost rest = signed_terms_from(s@, i as int, first);
        proof {
            lemma_term_end(s@, i as int);
        }
        let j = term_end_of(s, i);
        let wrap = !first && j > i && balanced_units_of(s, i, j) && !is_group_at(s, i, j);
        if wrap {
            out.push('(');
        }
        push_range(&mut out, s, i, j);
        if wrap {
            out.push(')');
        }
        if j < s.len() {
            out.push(s[j]);
            i = j + 1;
            first = false;
            proof {
                let piece = out@.subrange(before.len() as int, out@.len() as int);
                assert(out@ =~= before + piece);
                assert(rest =~= piece + signed_terms_from(s@, i as int, first));
                assert(out@ + signed_terms_from(s@, i as int, first) =~= before + rest);
            }
        } else {
            proof {
                let piece = out@.subrange(before.len() as int, out@.len() as int);
                assert(out@ =~= before + piece);
                assert(rest =~= piece);
            }
            return out;
        }
    }
}

/// Removal of redundant parentheses: `(digits)` becomes `digits`.
pub fn unwrap_numbers(s: &Vec<char>) -> (r: Vec<char>)
    ensures
        r@ == unwrapped_from(s@, 0),
{
    let mut out: Vec<char> = Vec::new();
    let mut i: usize = 0;
    while i < s.len()
        invariant
            i <= s.len(),
            out@ + unwrapped_from(s@, i as int) == unwrapped_from(s@, 0),
        decreases s.len() - i,
    {
        let ghost before = out@;
        let ghost rest = unwrapped_from(s@, i as int);
        proof {
            lemma_digits_end(s@, i + 1);
        }
        let k = digits_end_of(s, i + 1);
        if s[i] == '(' && k > i + 1 && k < s.len() && s[k] == ')' {
            push_range(&mut out, s, i + 1, k);
            i = k + 1;
        } else {
            out.push(s[i]);
            i = i + 1;
        }
        proof {
            let piece = out@.subrange(before.len() as int, out@.len() as int);
            assert(out@ =~= before + piece);
            assert(rest =~= piece + unwrapped_from(s@, i as int));
            assert(out@ + unwrapped_from(s@, i as int) =~= before + rest);
        }
    }
    assert(out@ + unwrapped_from(s@, i as int) =~= out@);
    out
}

fn has_sum_sign_of(s: &Vec<char>) -> (r: bool)
    ensures
        r == has_sum_sign(s@),
{
    let mut k: usize = 0;
    while k < s.len()
        invariant
            k <= s.len(),
            forall|m: int| 0 <= m < k ==> !is_additive(#[trigger] s@[m]),
        decreases s.len() - k,
    {
        if s[k] == '+' || s[k] == '-' {
            assert(is_additive(s@[k as int]));
            return true;
        }
        k = k + 1;
    }
    false
}

fn has_arithmetic_of(s: &Vec<char>) -> (r: bool)
    ensures
        r == has_arithmetic(s@),
{
    let mut k: usize = 0;
    while k < s.len()
        invariant
            k <= s.len(),
            forall|m: int|
                0 <= m < k ==> !(is_additive(#[trigger] s@[m]) || is_multiplicative(s@[m])),
        decreases s.len() - k,
    {
        if s[k] == '+' || s[k] == '-' || s[k] == '*' || s[k] == '/' {
            assert(is_additive(s@[k as int]) || is_multiplicative(s@[k as int]));
            return true;
        }
        k = k + 1;
    }
    false
}

/// The exponent step, skipped where no `+ - * /` occurs.
pub fn exponent_step_of(s: &Vec<char>) -> (r: Vec<char>)
    ensures
        r@ == exponent_step(s@),
{
    if has_arithmetic_of(s) {
        group_exponents(s)
    } else {
        assert(s@.subrange(0, s@.len() as int) =~= s@);
        copy_range(s, 0, s.len())
    }
}

/// The product step, skipped where no `+` or `-` occurs.
pub fn product_step_of(s: &Vec<char>) -> (r: Vec<char>)
    ensures
        r@ == product_step(s@),
{
    if has_sum_sign_of(s) {
        group_products(s)
    } else {
        assert(s@.subrange(0, s@.len() as int) =~= s@);
        copy_range(s, 0, s.len())
    }
}

/// The four rewrites of one level, in order: exponents, products, signed
/// terms, and removal of parentheses round bare digits.
pub fn normalize_level(s: &Vec<char>) -> (r: Vec<char>)
    ensures
        r@ == level(s@),
{
    let a = exponent_step_of(s);
    let b = product_step_of(&a);
    let c = group_signed_terms(&b);
    unwrap_numbers(&c)
}

/// The expression with precedence made explicit at every level.
pub fn normalize(t: &Vec<char>) -> (r: Vec<char>)
    ensures
        r@ == normalized(t@),
    decreases t@.len(),
{
    let mut out: Vec<char> = Vec::new();
    let mut i: usize = 0;
    while i < t.len()
        invariant
            i <= t.len(),
            out@ + groups_normalized_from(t@, i as int) == groups_normalized_from(t@, 0),
        decreases t.len() - i,
    {
        let ghost before = out@;
        let ghost rest = groups_normalized_from(t@, i as int);
        let mut done = false;
        if t[i] == '(' {
            match group_end_of(t, i) {
                Some(e) => {
                    proof {
                        lemma_close_from(t@, i + 1, 1);
                    }
                    let inner = copy_range(t, i + 1, e - 1);
                    let n = normalize(&inner);
                    out.push('(');
                    push_range(&mut out, &n, 0, n.len());
                    out.push(')');
                    assert(n@.subrange(0, n@.len() as int) =~= n@);
                    i = e;
                    done = true;
                },
                None => {},
            }
        }
        if !done {
            out.push(t[i]);
            i = i + 1;
        }
        proof {
            let piece = out@.subrange(before.len() as int, out@.len() as int);
            assert(out@ =~= before + piece);
            assert(rest =~= piece + groups_normalized_from(t@, i as int));
            assert(out@ + groups_normalized_from(t@, i as int) =~= before + rest);
        }
    }
    assert(out@ + groups_normalized_from(t@, i as int) =~= out@);
    normalize_level(&out)
}

proof fn lemma_chars_concat(a: Seq<char>, b: Seq<char>)
    requires
        expression_chars(a),
        expression_chars(b),
    ensures
        expression_chars(a + b),
{
    assert forall|k: int| 0 <= k < (a + b).len() implies is_expression_char(#[trigger] (a + b)[k]) by {
        if k < a.len() {
            assert((a + b)[k] == a[k]);
        } else {
            assert((a + b)[k] == b[k - a.len()]);
        }
    }
}

proof fn lemma_chars_subrange(s: Seq<char>, i: int, j: int)
    requires
        expression_chars(s),
        0 <= i <= j <= s.len(),
    ensures
        expression_chars(s.subrange(i, j)),
{
    assert forall|k: int| 0 <= k < j - i implies is_expression_char(#[trigger] s.subrange(i, j)[k]) by {
        assert(s.subrange(i, j)[k] == s[k + i]);
    }
}

proof fn lemma_chars_wrapped(s: Seq<char>)
    requires
        expression_chars(s),
    ensures
        expression_chars(parenthesized(s)),
        parenthesized(s).len() > 0,
{
    assert(expression_chars(seq!['(']));
    assert(expression_chars(seq![')']));
    lemma_chars_concat(seq!['('], s);
    lemma_chars_concat(seq!['('] + s, seq![')']);
}

proof fn lemma_exponents_chars(s: Seq<char>, i: int)
    requires
        expression_chars(s),
        0 <= i,
    ensures
        expression_chars(exponents_from(s, i)),
        i < s.len() ==> exponents_from(s, i).len() > 0,
    decreases s.len() - i, 0int,
{
    if i < s.len() {
        lemma_operand_end(s, i);
        let e = operand_end(s, i);
        if e <= i {
            lemma_exponents_chars(s, i + 1);
            assert(expression_chars(seq![s[i]]));
            lemma_chars_concat(seq![s[i]], exponents_from(s, i + 1));
        } else {
            lemma_chars_subrange(s, i, e);
            lemma_power_chain_chars(s, s.subrange(i, e), e);
        }
    }
}

proof fn lemma_power_chain_chars(s: Seq<char>, base: Seq<char>, e: int)
    requires
        expression_chars(s),
        expression_chars(base),
        base.len() > 0,
        0 <= e <= s.len(),
    ensures
        expression_chars(power_chain(s, base, e)),
        power_chain(s, base, e).len() > 0,
    decreases s.len() - e, 1int,
{
    if e < s.len() && s[e] == '^' && operand_end(s, e + 1) > e + 1 {
        lemma_operand_end(s, e + 1);
        let e2 = operand_end(s, e + 1);
        lemma_chars_subrange(s, e + 1, e2);
        lemma_chars_wrapped(s.subrange(e + 1, e2));
        assert(expression_chars(seq!['^']));
        lemma_chars_concat(base, seq!['^']);
        lemma_chars_concat(base + seq!['^'], parenthesized(s.subrange(e + 1, e2)));
        lemma_chars_wrapped(base + seq!['^'] + parenthesized(s.subrange(e + 1, e2)));
        lemma_power_chain_chars(
            s,
            parenthesized(base + seq!['^'] + parenthesized(s.subrange(e + 1, e2))),
            e2,
        );
    } else {
        lemma_exponents_chars(s, e);
        lemma_chars_concat(base, exponents_from(s, e));
    }
}

proof fn lemma_products_chars(s: Seq<char>, i: int)
    requires
        expression_chars(s),
        0 <= i <= s.len(),
    ensures
        expression_chars(products_from(s, i)),
        i < s.len() ==> products_from(s, i).len() > 0,
    decreases s.len() - i,
{
    lemma_term_end(s, i);
    let j = term_end(s, i);
    let t = s.subrange(i, j);
    lemma_chars_subrange(s, i, j);
    lemma_chars_wrapped(t);
    let w = if has_product(s, i, j) {
        parenthesized(t)
    } else {
        t
    };
    if j < s.len() {
        lemma_products_chars(s, j + 1);
        assert(expression_chars(seq![s[j]]));
        lemma_chars_concat(w, seq![s[j]]);
        lemma_chars_concat(w + seq![s[j]], products_from(s, j + 1));
    }
}

proof fn lemma_signed_terms_chars(s: Seq<char>, i: int, first: bool)
    requires
        expression_chars(s),
        0 <= i <= s.len(),
    ensures
        expression_chars(signed_terms_from(s, i, first)),
        i < s.len() ==> signed_terms_from(s, i, first).len() > 0,
    decreases s.len() - i,
{
    lemma_term_end(s, i);
    let j = term_end(s, i);
    let t = s.subrange(i, j);
    lemma_chars_subrange(s, i, j);
    lemma_chars_wrapped(t);
    let w = if wraps_term(s, i, j, first) {
        parenthesized(t)
    } else {
        t
    };
    if j < s.len() {
        lemma_signed_terms_chars(s, j + 1, false);
        assert(expression_chars(seq![s[j]]));
        lemma_chars_concat(w, seq![s[j]]);
        lemma_chars_concat(w + seq![s[j]], signed_terms_from(s, j + 1, false));
    }
}

proof fn lemma_unwrapped_chars(s: Seq<char>, i: int)
    requires
        expression_chars(s),
        0 <= i,
    ensures
        expression_chars(unwrapped_from(s, i)),
        i < s.len() ==> unwrapped_from(s, i).len() > 0,
    decreases s.len() - i,
{
    if i < s.len() {
        lemma_digits_end(s, i + 1);
        let k = digits_end(s, i + 1);
        if s[i] == '(' && k > i + 1 && k < s.len() && s[k] == ')' {
            lemma_unwrapped_chars(s, k + 1);
            lemma_chars_subrange(s, i + 1, k);
            lemma_chars_concat(s.subrange(i + 1, k), unwrapped_from(s, k + 1));
        } else {
            lemma_unwrapped_chars(s, i + 1);
            assert(expression_chars(seq![s[i]]));
            lemma_chars_concat(seq![s[i]], unwrapped_from(s, i + 1));
        }
    }
}

proof fn lemma_level_chars(s: Seq<char>)
    requires
        expression_chars(s),
    ensures
        expression_chars(level(s)),
        s.len() > 0 ==> level(s).len() > 0,
{
    lemma_exponents_chars(s, 0);
    let a = exponent_step(s);
    lemma_products_chars(a, 0);
    let b = product_step(a);
    lemma_signed_terms_chars(b, 0, true);
    lemma_unwrapped_chars(signed_terms_from(b, 0, true), 0);
}

/// Normalizing keeps an expression within the characters expressions are
/// written with, and keeps a nonempty one nonempty.
pub proof fn lemma_normalized_chars(t: Seq<char>)
    requires
        expression_chars(t),
    ensures
        expression_chars(normalized(t)),
        t.len() > 0 ==> normalized(t).len() > 0,
    decreases t.len(), 1int,
{
    lemma_groups_normalized_chars(t, 0);
    lemma_level_chars(groups_normalized_from(t, 0));
}

proof fn lemma_groups_normalized_chars(s: Seq<char>, i: int)
    requires
        expression_chars(s),
        0 <= i,
    ensures
        expression_chars(groups_normalized_from(s, i)),
        i < s.len() ==> groups_normalized_from(s, i).len() > 0,
    decreases s.len(), 0int, s.len() - i,
{
    if i < s.len() {
        if s[i] == '(' && group_end(s, i) is Some {
            let e = group_end(s, i)->Some_0;
            lemma_close_from(s, i + 1, 1);
            lemma_chars_subrange(s, i + 1, e - 1);
            lemma_normalized_chars(s.subrange(i + 1, e - 1));
            lemma_chars_wrapped(normalized(s.subrange(i + 1, e - 1)));
            lemma_groups_normalized_chars(s, e);
            lemma_chars_concat(
                parenthesized(normalized(s.subrange(i + 1, e - 1))),
                groups_normalized_from(s, e),
            );
        } else {
            lemma_groups_normalized_chars(s, i + 1);
            assert(expression_chars(seq![s[i]]));
            lemma_chars_concat(seq![s[i]], groups_normalized_from(s, i + 1));
        }
    }
}

pub open spec fn shifted(r: Option<int>, a: int) -> Option<int> {
    match r {
        Some(e) => Some(e + a),
        None => None,
    }
}

/// The scans look only forward: from `i` on, `s` scans as its suffix from `a` does.
proof fn lemma_close_local(s: Seq<char>, a: int, i: int, d: nat)
    requires
        0 <= a <= i,
        a <= s.len(),
    ensures
        close_from(s, i, d) == shifted(close_from(s.subrange(a, s.len() as int), i - a, d), a),
    decreases s.len() - i,
{
    let t = s.subrange(a, s.len() as int);
    if i < s.len() {
        assert(t[i - a] == s[i]);
        if s[i] == '(' {
            lemma_close_local(s, a, i + 1, d + 1);
        } else if s[i] == ')' {
            if d > 1 {
                lemma_close_local(s, a, i + 1, (d - 1) as nat);
            }
        } else {
            lemma_close_local(s, a, i + 1, d);
        }
    }
}

proof fn lemma_unit_local(s: Seq<char>, a: int, i: int)
    requires
        0 <= a <= i < s.len(),
    ensures
        unit_end(s, i) == unit_end(s.subrange(a, s.len() as int), i - a) + a,
        group_end(s, i) == shifted(group_end(s.subrange(a, s.len() as int), i - a), a),
{
    lemma_close_local(s, a, i + 1, 1);
    assert(s.subrange(a, s.len() as int)[i - a] == s[i]);
}

proof fn lemma_term_local(s: Seq<char>, a: int, i: int)
    requires
        0 <= a <= i <= s.len(),
    ensures
        term_end(s, i) == term_end(s.subrange(a, s.len() as int), i - a) + a,
    decreases s.len() - i,
{
    let t = s.subrange(a, s.len() as int);
    if i < s.len() {
        assert(t[i - a] == s[i]);
        if !is_additive(s[i]) {
            lemma_unit_end(s, i);
            lemma_unit_local(s, a, i);
            lemma_term_local(s, a, unit_end(s, i));
        }
    }
}

proof fn lemma_balanced_local(s: Seq<char>, a: int, i: int, j: int)
    requires
        0 <= a <= i <= s.len(),
    ensures
        balanced_units(s, i, j) == balanced_units(s.subrange(a, s.len() as int), i - a, j - a),
    decreases s.len() - i,
{
    let t = s.subrange(a, s.len() as int);
    if i < s.len() {
        assert(t[i - a] == s[i]);
        lemma_unit_end(s, i);
        lemma_unit_local(s, a, i);
        if i < j && s[i] != ')' && !(s[i] == '(' && group_end(s, i) is None) {
            lemma_balanced_local(s, a, unit_end(s, i), j);
        }
    }
}

proof fn lemma_signed_terms_local(s: Seq<char>, a: int, i: int, first: bool)
    requires
        0 <= a <= i <= s.len(),
    ensures
        signed_terms_from(s, i, first) == signed_terms_from(
            s.subrange(a, s.len() as int),
            i - a,
            first,
        ),
    decreases s.len() - i,
{
    let t = s.subrange(a, s.len() as int);
    lemma_term_end(s, i);
    lemma_term_local(s, a, i);
    let j = term_end(s, i);
    lemma_balanced_local(s, a, i, j);
    if i < s.len() {
        lemma_unit_local(s, a, i);
        assert(t[i - a] == s[i]);
    }
    assert(s.subrange(i, j) =~= t.subrange(i - a, j - a));
    if j < s.len() {
        assert(t[j - a] == s[j]);
        lemma_signed_terms_local(s, a, j + 1, false);
    }
}

/// A group that closes is scanned the same in any text that agrees with it up to its end.
proof fn lemma_close_agree(x: Seq<char>, y: Seq<char>, m: int, d: nat, e: int)
    requires
        0 <= m,
        close_from(x, m, d) == Some(e),
        e <= y.len(),
        forall|k: int| m <= k < e ==> x[k] == y[k],
    ensures
        close_from(y, m, d) == Some(e),
    decreases x.len() - m,
{
    lemma_close_from(x, m, d);
    assert(x[m] == y[m]);
    if x[m] == '(' {
        lemma_close_agree(x, y, m + 1, d + 1, e);
    } else if x[m] == ')' {
        if d > 1 {
            lemma_close_agree(x, y, m + 1, (d - 1) as nat, e);
        }
    } else {
        lemma_close_agree(x, y, m + 1, d, e);
    }
}

/// Inside `extra` more open parentheses, a group that closes leaves them open.
proof fn lemma_close_deeper(y: Seq<char>, m: int, n: nat, e: int, extra: nat)
    requires
        0 <= m,
        n >= 1,
        extra >= 1,
        close_from(y, m, n) == Some(e),
    ensures
        close_from(y, m, n + extra) == close_from(y, e, extra),
    decreases y.len() - m,
{
    lemma_close_from(y, m, n);
    if y[m] == '(' {
        lemma_close_deeper(y, m + 1, n + 1, e, extra);
    } else if y[m] == ')' {
        if n > 1 {
            lemma_close_deeper(y, m + 1, (n - 1) as nat, e, extra);
        } else {
            assert((n + extra - 1) as nat == extra);
        }
    } else {
        lemma_close_deeper(y, m + 1, n, e, extra);
    }
}

/// A term that ends at a sign scans the same in any text that agrees with it
/// up to that sign.
proof fn lemma_term_agree(x: Seq<char>, y: Seq<char>, i: int)
    requires
        0 <= i,
        term_end(x, i) < x.len(),
        term_end(x, i) < y.len(),
        forall|k: int| 0 <= k <= term_end(x, i) ==> x[k] == y[k],
    ensures
        term_end(y, i) == term_end(x, i),
        balanced_units(y, i, term_end(x, i)) == balanced_units(x, i, term_end(x, i)),
        is_group(y, i, term_end(x, i)) == is_group(x, i, term_end(x, i)),
    decreases x.len() - i,
{
    let j = term_end(x, i);
    if i < x.len() {
        lemma_term_end(x, i);
        assert(x[i] == y[i]);
        if !is_additive(x[i]) {
            lemma_unit_end(x, i);
            let u = unit_end(x, i);
            lemma_term_end(x, u);
            if x[i] == '(' {
                lemma_close_from(x, i + 1, 1);
                if let Some(e) = group_end(x, i) {
                    lemma_close_agree(x, y, i + 1, 1, e);
                }
            }
            lemma_term_agree(x, y, u);
        }
    }
}

/// A `(` before a balanced term that a `)` follows closes at that `)`.
proof fn lemma_balanced_close(x: Seq<char>, y: Seq<char>, k: int, j: int)
    requires
        0 <= k <= j,
        term_end(x, k) == j,
        balanced_units(x, k, j),
        j < y.len(),
        y[j] == ')',
        forall|m: int| k <= m < j ==> x[m] == y[m],
    ensures
        close_from(y, k, 1) == Some(j + 1),
    decreases j - k,
{
    if k < j {
        lemma_term_end(x, k);
        assert(x[k] == y[k]);
        lemma_unit_end(x, k);
        let u = unit_end(x, k);
        lemma_term_end(x, u);
        if x[k] == '(' {
            let e = group_end(x, k)->Some_0;
            lemma_close_from(x, k + 1, 1);
            lemma_close_agree(x, y, k + 1, 1, e);
            lemma_close_deeper(y, k + 1, 1, e, 1);
        }
        lemma_balanced_close(x, y, u, j);
    }
}

/// Applying the additive grouping to its own output changes nothing.
pub proof fn lemma_signed_terms_idempotent(s: Seq<char>, i: int, first: bool)
    requires
        0 <= i <= s.len(),
    ensures
        signed_terms_from(signed_terms_from(s, i, first), 0, first) == signed_terms_from(
            s,
            i,
            first,
        ),
    decreases s.len() - i,
{
    let j = term_end(s, i);
    lemma_term_end(s, i);
    let t = s.subrange(i, j);
    let x0 = s.subrange(i, s.len() as int);
    lemma_term_local(s, i, i);
    lemma_balanced_local(s, i, i, j);
    if i < s.len() {
        lemma_unit_local(s, i, i);
    }
    let wrap = wraps_term(s, i, j, first);
    let w = if wrap {
        parenthesized(t)
    } else {
        t
    };
    let o = signed_terms_from(s, i, first);
    if wrap {
        // the added `(` closes at the added `)`
        let xx = seq!['('] + x0;
        assert(xx.subrange(1, xx.len() as int) =~= x0);
        lemma_term_local(xx, 1, 1);
        lemma_balanced_local(xx, 1, 1, j - i + 1);
        assert forall|m: int| 1 <= m < j - i + 1 implies xx[m] == o[m] by {
            assert(xx[m] == s[m - 1 + i]);
        }
        lemma_balanced_close(xx, o, 1, j - i + 1);
        assert(group_end(o, 0) == Some(j - i + 2));
    }
    if j == s.len() {
        assert(o == w);
        if wrap {
            assert(term_end(o, j - i + 2) == j - i + 2);
            assert(term_end(o, 0) == o.len());
            assert(o.subrange(0, o.len() as int) =~= o);
        } else {
            assert(x0 =~= t);
            lemma_signed_terms_local(s, i, i, first);
        }
    } else {
        let c = s[j];
        let rest = signed_terms_from(s, j + 1, false);
        lemma_signed_terms_idempotent(s, j + 1, false);
        assert(o == w + seq![c] + rest);
        let o_rest_at = w.len() as int + 1;
        assert(o.subrange(o_rest_at, o.len() as int) =~= rest);
        lemma_signed_terms_local(o, o_rest_at, o_rest_at, false);
        assert(o[w.len() as int] == c);
        if wrap {
            lemma_unit_end(o, 0);
            assert(term_end(o, w.len() as int) == w.len());
            assert(term_end(o, 0) == w.len());
            assert(o.subrange(0, w.len() as int) =~= w);
        } else {
            assert forall|k: int| 0 <= k <= j - i implies x0[k] == o[k] by {
                assert(x0[k] == s[k + i]);
            }
            lemma_term_agree(x0, o, 0);
            assert(o.subrange(0, j - i) =~= t);
        }
    }
}

} // verus!
