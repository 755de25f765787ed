//! The token tree of an expression and the scanner that builds it.
use vstd::prelude::*;
use vstd::string::*;
use crate::error::{Fault, ParseError};
use crate::normalize::{
    copy_range, exponent_step, exponent_step_of, group_end, group_end_of, group_signed_terms,
    is_num_char, lemma_close_from, lemma_signed_terms_idempotent, normalize, normalized, num_end, num_end_of, product_step,
    product_step_of, signed_terms_from, unwrap_numbers, unwrapped_from,
};
use crate::text::{
    chars_of, is_alpha, is_alpha_char, is_digit, lowercase, lowered, needs_lowering_of,
    string_of, strip, stripped,
};

verus! {

broadcast use vstd::std_specs::vec::group_vec_axioms, vstd::seq::group_seq_axioms;

/// An operator of the expression language.
#[derive(Debug, Clone, PartialEq)]
pub enum Token {
    Add,
    Subtract,
    Multiply,
    Divide,
    Pow,
    /// The built-in `test(a,b)`, with the texts of its two numbers.
    TestFunction { a: String, b: String },
}

/// An operator, with the texts of its numbers as sequences of characters.
pub enum Op {
    Add,
    Subtract,
    Multiply,
    Divide,
    Pow,
    TestFunction(Seq<char>, Seq<char>),
}

impl View for Token {
    type V = Op;

    open spec fn view(&self) -> Op {
        match self {
            Token::Add => Op::Add,
            Token::Subtract => Op::Subtract,
            Token::Multiply => Op::Multiply,
            Token::Divide => Op::Divide,
            Token::Pow => Op::Pow,
            Token::TestFunction { a, b } => Op::TestFunction(a@, b@),
        }
    }
}

impl Token {
    /// A copy of this operator.
    pub fn duplicate(&self) -> (r: Token)
        ensures
            r@ == self@,
    {
        match self {
            Token::Add => Token::Add,
            Token::Subtract => Token::Subtract,
            Token::Multiply => Token::Multiply,
            Token::Divide => Token::Divide,
            Token::Pow => Token::Pow,
            Token::TestFunction { a, b } => Token::TestFunction { a: a.clone(), b: b.clone() },
        }
    }
}

/// One entry of a token tree.
#[derive(Debug, PartialEq)]
pub enum QueueItem {
    Variable(String),
    /// A number literal as written: digits with at most one `.`.
    Number(String),
    Token(Token),
    /// A parenthesized group.
    Queue(TokenQueue),
}

/// A token tree: the entries of one level, and the normalized text they were read from.
#[derive(Debug, PartialEq)]
pub struct TokenQueue {
    pub queue_items: Vec<QueueItem>,
    pub input_representation: String,
}

/// The model of a `QueueItem`.
pub enum Item {
    Variable(Seq<char>),
    Number(Seq<char>),
    Operator(Op),
    Nested(Tree),
}

/// The model of a `TokenQueue`.
pub struct Tree {
    pub items: Seq<Item>,
    pub text: Seq<char>,
}

pub open spec fn item_view(it: QueueItem) -> Item
    decreases it,
{
    match it {
        QueueItem::Variable(v) => Item::Variable(v@),
        QueueItem::Number(n) => Item::Number(n@),
        QueueItem::Token(t) => Item::Operator(t@),
        QueueItem::Queue(q) => Item::Nested(
            Tree { items: items_view(q.queue_items@), text: q.input_representation@ },
        ),
    }
}

pub open spec fn items_view(items: Seq<QueueItem>) -> Seq<Item>
    decreases items,
    via items_view_decreases
{
    if items.len() == 0 {
        Seq::empty()
    } else {
        items_view(items.drop_last()).push(item_view(items.last()))
    }
}

#[via_fn]
proof fn items_view_decreases(items: Seq<QueueItem>) {
    if items.len() > 0 {
        let p = items.drop_last();
        assert forall|i2: int| 0 <= i2 < p.len() && #[trigger] vstd::pervasive::trigger(p[i2]) implies exists|i1: int|
            0 <= i1 < items.len() && items[i1] == p[i2] by {
            assert(items[i2] == p[i2]);
        }
        vstd::seq::axiom_seq_len_decreases(items, p);
    }
}

impl View for TokenQueue {
    type V = Tree;

    open spec fn view(&self) -> Tree {
        Tree { items: items_view(self.queue_items@), text: self.input_representation@ }
    }
}

pub proof fn lemma_items_view(items: Seq<QueueItem>)
    ensures
        items_view(items).len() == items.len(),
        forall|k: int| 0 <= k < items.len() ==> #[trigger] items_view(items)[k] == item_view(items[k]),
    decreases items.len(),
{
    if items.len() > 0 {
        lemma_items_view(items.drop_last());
    }
}

proof fn lemma_items_view_push(items: Seq<QueueItem>, x: QueueItem)
    ensures
        items_view(items.push(x)) == items_view(items).push(item_view(x)),
{
    assert(items.push(x).drop_last() =~= items);
}

pub open spec fn glyph_op(c: char) -> Option<Op> {
    if c == '+' {
        Some(Op::Add)
    } else if c == '-' {
        Some(Op::Subtract)
    } else if c == '*' {
        Some(Op::Multiply)
    } else if c == '/' {
        Some(Op::Divide)
    } else if c == '^' {
        Some(Op::Pow)
    } else {
        None
    }
}

/// No two `.` in `t`.
pub open spec fn at_most_one_dot(t: Seq<char>) -> bool {
    forall|k1: int, k2: int|
        0 <= k1 < t.len() && 0 <= k2 < t.len() && #[trigger] t[k1] == '.' && #[trigger] t[k2]
            == '.' ==> k1 == k2
}

/// A number as the built-in call writes it: digits, with at most one `.` between digits.
pub open spec fn is_number_text(t: Seq<char>) -> bool {
    &&& t.len() > 0
    &&& is_digit(t[0])
    &&& is_digit(t.last())
    &&& forall|k: int| 0 <= k < t.len() ==> is_num_char(#[trigger] t[k])
    &&& at_most_one_dot(t)
}

/// The first index from `i` on where `c` stands, or the length.
pub open spec fn index_from(t: Seq<char>, c: char, i: int) -> int
    decreases t.len() - i,
{
    if 0 <= i < t.len() {
        if t[i] == c {
            i
        } else {
            index_from(t, c, i + 1)
        }
    } else {
        t.len() as int
    }
}

/// The built-in call `test(a,b)`, where `a` and `b` are numbers.
pub open spec fn test_call(b: Seq<char>) -> Option<Op> {
    if b.len() >= 6 && b[0] == 't' && b[1] == 'e' && b[2] == 's' && b[3] == 't' && b[4] == '('
        && b.last() == ')' {
        let inner = b.subrange(5, b.len() - 1);
        let k = index_from(inner, ',', 0);
        if 0 <= k < inner.len() && is_number_text(inner.subrange(0, k)) && is_number_text(
            inner.subrange(k + 1, inner.len() as int),
        ) {
            Some(Op::TestFunction(inner.subrange(0, k), inner.subrange(k + 1, inner.len() as int)))
        } else {
            None
        }
    } else {
        None
    }
}

/// Some declared name starts with `b`.
pub open spec fn prefix_of_some(b: Seq<char>, names: Seq<Seq<char>>) -> bool {
    exists|k: int|
        0 <= k < names.len() && b.len() <= names[k].len() && #[trigger] names[k].subrange(
            0,
            b.len() as int,
        ) == b
}

/// The word that starts at `i`, read with `s[i..j]` in the buffer: it grows one
/// character at a time while it is the start of a declared name, and ends as
/// soon as it is the built-in call or a declared name.
pub open spec fn resolve(s: Seq<char>, i: int, j: int, names: Seq<Seq<char>>) -> Result<
    (Item, int),
    Fault,
>
    decreases s.len() - j,
{
    let b = s.subrange(i, j);
    if !prefix_of_some(b, names) {
        Err(Fault::UnknownVariable(b))
    } else if test_call(b) is Some {
        Ok((Item::Operator(test_call(b)->Some_0), j))
    } else if names.contains(b) {
        Ok((Item::Variable(b), j))
    } else if j >= s.len() {
        Err(Fault::UnableToFind("Variable "@ + b))
    } else {
        resolve(s, i, j + 1, names)
    }
}

pub open spec fn prefixed(p: Seq<Item>, r: Result<Seq<Item>, Fault>) -> Result<Seq<Item>, Fault> {
    match r {
        Ok(rest) => Ok(p + rest),
        Err(f) => Err(f),
    }
}

/// The entries that `s` from `i` on reads as, with `names` declared.
pub open spec fn scan(s: Seq<char>, i: int, names: Seq<Seq<char>>) -> Result<Seq<Item>, Fault>
    decreases s.len(), s.len() - i,
    via scan_decreases
{
    if i < 0 || i >= s.len() {
        Ok(Seq::empty())
    } else if s[i] == '(' {
        match group_end(s, i) {
            None => Err(Fault::UnclosedParenthesis),
            Some(e) => {
                let content = s.subrange(i + 1, e - 1);
                match scan(content, 0, names) {
                    Err(f) => Err(f),
                    Ok(inner) => prefixed(
                        seq![Item::Nested(Tree { items: inner, text: content })],
                        scan(s, e, names),
                    ),
                }
            },
        }
    } else if is_digit(s[i]) {
        let e = num_end(s, i);
        let lit = s.subrange(i, e);
        if !at_most_one_dot(lit) {
            Err(Fault::DoubleDecimal)
        } else {
            prefixed(seq![Item::Number(lit)], scan(s, e, names))
        }
    } else if glyph_op(s[i]) is Some {
        prefixed(seq![Item::Operator(glyph_op(s[i])->Some_0)], scan(s, i + 1, names))
    } else if is_alpha(s[i]) {
        match resolve(s, i, i + 1, names) {
            Err(f) => Err(f),
            Ok((item, next)) => prefixed(seq![item], scan(s, next, names)),
        }
    } else {
        scan(s, i + 1, names)
    }
}

proof fn lemma_resolve(s: Seq<char>, i: int, j: int, names: Seq<Seq<char>>)
    requires
        0 <= i < j <= s.len(),
    ensures
        resolve(s, i, j, names) matches Ok((_, n)) ==> i < n <= s.len(),
    decreases s.len() - j,
{
    let b = s.subrange(i, j);
    if prefix_of_some(b, names) && !(test_call(b) is Some) && !names.contains(b) && j < s.len() {
        lemma_resolve(s, i, j + 1, names);
    }
}

proof fn lemma_num_end_past(s: Seq<char>, i: int)
    requires
        0 <= i < s.len(),
        is_num_char(s[i]),
    ensures
        i < num_end(s, i) <= s.len(),
    decreases s.len() - i,
{
    assert(num_end(s, i) == num_end(s, i + 1));
    if i + 1 < s.len() && is_num_char(s[i + 1]) {
        lemma_num_end_past(s, i + 1);
    } else {
        assert(num_end(s, i + 1) == i + 1);
    }
}

#[via_fn]
proof fn scan_decreases(s: Seq<char>, i: int, names: Seq<Seq<char>>) {
    if 0 <= i < s.len() {
        lemma_close_from(s, i + 1, 1);
        if is_digit(s[i]) {
            lemma_num_end_past(s, i);
        }
        lemma_resolve(s, i, i + 1, names);
    }
}

/// The declared names as sequences of characters.
pub open spec fn names_of(vars: Seq<String>) -> Seq<Seq<char>> {
    vars.map_values(|v: String| v@)
}

/// What the scanner reads from an expression as given: stripped of white
/// space, lower-cased, and normalized.
pub open spec fn prepared(input: Seq<char>) -> Seq<char> {
    normalized(lowered(stripped(input)))
}

/// Every variable in `it`, nested trees included, is one of `names`.
pub open spec fn item_declared(it: Item, names: Seq<Seq<char>>) -> bool
    decreases it,
{
    match it {
        Item::Variable(v) => names.contains(v),
        Item::Nested(t) => forall|k: int|
            0 <= k < t.items.len() ==> item_declared(#[trigger] t.items[k], names),
        _ => true,
    }
}

/// Every variable in `items`, nested trees included, is one of `names`.
pub open spec fn all_declared(items: Seq<Item>, names: Seq<Seq<char>>) -> bool {
    forall|k: int| 0 <= k < items.len() ==> item_declared(#[trigger] items[k], names)
}

proof fn lemma_resolve_declared(s: Seq<char>, i: int, j: int, names: Seq<Seq<char>>)
    requires
        0 <= i < j <= s.len(),
    ensures
        resolve(s, i, j, names) matches Ok((it, _)) ==> item_declared(it, names),
    decreases s.len() - j,
{
    let b = s.subrange(i, j);
    if prefix_of_some(b, names) && !(test_call(b) is Some) && !names.contains(b) && j < s.len() {
        lemma_resolve_declared(s, i, j + 1, names);
    }
}

proof fn lemma_prefixed_declared(x: Item, r: Result<Seq<Item>, Fault>, names: Seq<Seq<char>>)
    requires
        item_declared(x, names),
        r matches Ok(rest) ==> all_declared(rest, names),
    ensures
        prefixed(seq![x], r) matches Ok(items) ==> all_declared(items, names),
{
    if r is Ok {
        let items = seq![x] + r->Ok_0;
        assert forall|k: int| 0 <= k < items.len() implies item_declared(#[trigger] items[k], names) by {
            if k > 0 {
                assert(items[k] == r->Ok_0[k - 1]);
            }
        }
    }
}

/// A scanned tree names no variable that was not declared.
pub proof fn lemma_scan_declared(s: Seq<char>, i: int, names: Seq<Seq<char>>)
    requires
        0 <= i,
    ensures
        scan(s, i, names) matches Ok(items) ==> all_declared(items, names),
    decreases s.len(), s.len() - i,
{
    if i < s.len() {
        lemma_close_from(s, i + 1, 1);
        if s[i] == '(' {
            if let Some(e) = group_end(s, i) {
                let content = s.subrange(i + 1, e - 1);
                lemma_scan_declared(content, 0, names);
                lemma_scan_declared(s, e, names);
                if let Ok(inner) = scan(content, 0, names) {
                    let x = Item::Nested(Tree { items: inner, text: content });
                    assert(item_declared(x, names));
                    lemma_prefixed_declared(x, scan(s, e, names), names);
                }
            }
        } else if is_digit(s[i]) {
            lemma_num_end_past(s, i);
            let e = num_end(s, i);
            lemma_scan_declared(s, e, names);
            lemma_prefixed_declared(Item::Number(s.subrange(i, e)), scan(s, e, names), names);
        } else if glyph_op(s[i]) is Some {
            lemma_scan_declared(s, i + 1, names);
            lemma_prefixed_declared(
                Item::Operator(glyph_op(s[i])->Some_0),
                scan(s, i + 1, names),
                names,
            );
        } else if is_alpha(s[i]) {
            lemma_resolve(s, i, i + 1, names);
            lemma_resolve_declared(s, i, i + 1, names);
            if let Ok((x, next)) = resolve(s, i, i + 1, names) {
                lemma_scan_declared(s, next, names);
                lemma_prefixed_declared(x, scan(s, next, names), names);
            }
        } else {
            lemma_scan_declared(s, i + 1, names);
        }
    }
}

/// The declared names, held as characters.
pub open spec fn view_names(vc: Seq<Vec<char>>) -> Seq<Seq<char>> {
    vc.map_values(|v: Vec<char>| v@)
}

pub open spec fn items_outcome(r: Result<Vec<QueueItem>, ParseError>) -> Result<Seq<Item>, Fault> {
    match r {
        Ok(v) => Ok(items_view(v@)),
        Err(e) => Err(e@),
    }
}

fn glyph_token(c: char) -> (r: Option<Token>)
    ensures
        match r {
            Some(t) => glyph_op(c) == Some(t@),
            None => glyph_op(c) is None,
        },
{
    if c == '+' {
        Some(Token::Add)
    } else if c == '-' {
        Some(Token::Subtract)
    } else if c == '*' {
        Some(Token::Multiply)
    } else if c == '/' {
        Some(Token::Divide)
    } else if c == '^' {
        Some(Token::Pow)
    } else {
        None
    }
}

/// Whether `s[i..j]` holds at most one `.`.
fn dots_ok(s: &Vec<char>, i: usize, j: usize) -> (r: bool)
    requires
        i <= j <= s.len(),
    ensures
        r == at_most_one_dot(s@.subrange(i as int, j as int)),
{
    let ghost t = s@.subrange(i as int, j as int);
    let mut first: Option<usize> = None;
    let mut k: usize = i;
    while k < j
        invariant
            i <= k <= j <= s.len(),
            t == s@.subrange(i as int, j as int),
            forall|a: int, b: int|
                i <= a < k && i <= b < k && #[trigger] s@[a] == '.' && #[trigger] s@[b] == '.'
                    ==> a == b,
            match first {
                Some(d) => i <= d < k && s@[d as int] == '.',
                None => forall|m: int| i <= m < k ==> #[trigger] s@[m] != '.',
            },
        decreases j - k,
    {
        if s[k] == '.' {
            match first {
                Some(d) => {
                    proof {
                        assert(t[d - i] == '.' && t[k - i] == '.');
                    }
                    return false;
                },
                None => {
                    first = Some(k);
                },
            }
        }
        k = k + 1;
    }
    proof {
        assert forall|k1: int, k2: int|
            0 <= k1 < t.len() && 0 <= k2 < t.len() && #[trigger] t[k1] == '.' && #[trigger] t[k2]
                == '.' implies k1 == k2 by {
            assert(s@[k1 + i] == '.' && s@[k2 + i] == '.');
        }
    }
    true
}

fn number_text_ok(t: &Vec<char>) -> (r: bool)
    ensures
        r == is_number_text(t@),
{
    if t.len() == 0 {
        return false;
    }
    if !('0' <= t[0] && t[0] <= '9') || !('0' <= t[t.len() - 1] && t[t.len() - 1] <= '9') {
        return false;
    }
    let mut k: usize = 0;
    while k < t.len()
        invariant
            k <= t.len(),
            forall|m: int| 0 <= m < k ==> is_num_char(#[trigger] t@[m]),
        decreases t.len() - k,
    {
        if !(('0' <= t[k] && t[k] <= '9') || t[k] == '.') {
            return false;
        }
        k = k + 1;
    }
    assert(t@.subrange(0, t@.len() as int) =~= t@);
    dots_ok(t, 0, t.len())
}

fn index_of_char(t: &Vec<char>, c: char) -> (r: usize)
    ensures
        r == index_from(t@, c, 0),
{
    let mut k: usize = 0;
    while k < t.len()
        invariant
            k <= t.len(),
            index_from(t@, c, k as int) == index_from(t@, c, 0),
        decreases t.len() - k,
    {
        if t[k] == c {
            return k;
        }
        k = k + 1;
    }
    k
}

/// The built-in call `test(a,b)` read from `b`, if it is one.
fn test_call_of(b: &Vec<char>) -> (r: Option<Token>)
    ensures
        match r {
            Some(t) => test_call(b@) == Some(t@),
            None => test_call(b@) is None,
        },
{
    if b.len() >= 6 && b[0] == 't' && b[1] == 'e' && b[2] == 's' && b[3] == 't' && b[4] == '('
        && b[b.len() - 1] == ')' {
        let inner = copy_range(b, 5, b.len() - 1);
        let k = index_of_char(&inner, ',');
        if k < inner.len() {
            let first = copy_range(&inner, 0, k);
            let second = copy_range(&inner, k + 1, inner.len());
            if number_text_ok(&first) && number_text_ok(&second) {
                return Some(Token::TestFunction { a: string_of(&first), b: string_of(&second) });
            }
        }
    }
    None
}

fn chars_equal(a: &Vec<char>, b: &Vec<char>) -> (r: bool)
    ensures
        r == (a@ == b@),
{
    if a.len() != b.len() {
        return false;
    }
    let mut k: usize = 0;
    while k < a.len()
        invariant
            k <= a.len() == b.len(),
            forall|m: int| 0 <= m < k ==> a@[m] == b@[m],
        decreases a.len() - k,
    {
        if a[k] != b[k] {
            return false;
        }
        k = k + 1;
    }
    assert(a@ =~= b@);
    true
}

/// Whether `v` starts with `b`.
fn starts_with(v: &Vec<char>, b: &Vec<char>) -> (r: bool)
    ensures
        r == (b@.len() <= v@.len() && v@.subrange(0, b@.len() as int) == b@),
{
    if b.len() > v.len() {
        return false;
    }
    let mut k: usize = 0;
    while k < b.len()
        invariant
            k <= b.len() <= v.len(),
            forall|m: int| 0 <= m < k ==> v@[m] == b@[m],
        decreases b.len() - k,
    {
        if v[k] != b[k] {
            assert(v@.subrange(0, b@.len() as int)[k as int] != b@[k as int]);
            return false;
        }
        k = k + 1;
    }
    assert(v@.subrange(0, b@.len() as int) =~= b@);
    true
}

fn starts_some(vc: &Vec<Vec<char>>, b: &Vec<char>) -> (r: bool)
    ensures
        r == prefix_of_some(b@, view_names(vc@)),
{
    let ghost names = view_names(vc@);
    let mut k: usize = 0;
    while k < vc.len()
        invariant
            k <= vc.len(),
            names == view_names(vc@),
            forall|m: int|
                0 <= m < k ==> !(b@.len() <= names[m].len() && #[trigger] names[m].subrange(
                    0,
                    b@.len() as int,
                ) == b@),
        decreases vc.len() - k,
    {
        if starts_with(&vc[k], b) {
            assert(names[k as int] == vc@[k as int]@);
            return true;
        }
        assert(names[k as int] == vc@[k as int]@);
        k = k + 1;
    }
    false
}

fn declared_in(vc: &Vec<Vec<char>>, b: &Vec<char>) -> (r: bool)
    ensures
        r == view_names(vc@).contains(b@),
{
    let ghost names = view_names(vc@);
    let mut k: usize = 0;
    while k < vc.len()
        invariant
            k <= vc.len(),
            names == view_names(vc@),
            forall|m: int| 0 <= m < k ==> names[m] != b@,
        decreases vc.len() - k,
    {
        assert(names[k as int] == vc@[k as int]@);
        if chars_equal(&vc[k], b) {
            return true;
        }
        k = k + 1;
    }
    false
}

/// Reads the word that starts at `i`: a declared name, or the built-in call.
fn resolve_at(s: &Vec<char>, i: usize, vc: &Vec<Vec<char>>) -> (r: Result<(QueueItem, usize), ParseError>)
    requires
        i < s.len(),
    ensures
        match r {
            Ok((it, n)) => resolve(s@, i as int, i + 1, view_names(vc@)) == Ok::<(Item, int), Fault>(
                (item_view(it), n as int),
            ),
            Err(e) => resolve(s@, i as int, i + 1, view_names(vc@)) == Err::<(Item, int), Fault>(e@),
        },
{
    let ghost names = view_names(vc@);
    let mut j: usize = i + 1;
    loop
        invariant
            i < j <= s.len(),
            names == view_names(vc@),
            resolve(s@, i as int, j as int, names) == resolve(s@, i as int, i + 1, names),
        decreases s.len() - j,
    {
        let b = copy_range(s, i, j);
        if !starts_some(vc, &b) {
            return Err(ParseError::UnknownVariable(string_of(&b)));
        }
        match test_call_of(&b) {
            Some(t) => {
                return Ok((QueueItem::Token(t), j));
            },
            None => {},
        }
        if declared_in(vc, &b) {
            return Ok((QueueItem::Variable(string_of(&b)), j));
        }
        if j >= s.len() {
            let mut m = String::from_str("Variable ");
            let w = string_of(&b);
            m.append(w.as_str());
            return Err(ParseError::UnableToFind(m));
        }
        j = j + 1;
    }
}

/// Reads `s` into the entries of a token tree, with the names in `vc` declared.
fn tokenize(s: &Vec<char>, vc: &Vec<Vec<char>>) -> (r: Result<Vec<QueueItem>, ParseError>)
    ensures
        items_outcome(r) == scan(s@, 0, view_names(vc@)),
    decreases s@.len(),
{
    let ghost names = view_names(vc@);
    let mut out: Vec<QueueItem> = Vec::new();
    let mut i: usize = 0;
    while i < s.len()
        invariant
            i <= s.len(),
            names == view_names(vc@),
            scan(s@, 0, names) == prefixed(items_view(out@), scan(s@, i as int, names)),
        decreases s.len() - i,
    {
        let ghost old_out = out@;
        let c = s[i];
        if c == '(' {
            match group_end_of(s, i) {
                None => {
                    return Err(ParseError::UnclosedParenthesis);
                },
                Some(e) => {
                    proof {
                        lemma_close_from(s@, i + 1, 1);
                    }
                    let content = copy_range(s, i + 1, e - 1);
                    match tokenize(&content, vc) {
                        Err(f) => {
                            return Err(f);
                        },
                        Ok(inner) => {
                            let text = string_of(&content);
                            let q = TokenQueue { queue_items: inner, input_representation: text };
                            let it = QueueItem::Queue(q);
                            out.push(it);
                            proof {
                                lemma_items_view_push(old_out, it);
                                assert(items_view(old_out) + (seq![item_view(it)] + scan(s@, e as int, names)
                                    ->Ok_0) =~= items_view(out@) + scan(s@, e as int, names)->Ok_0);
                            }
                            i = e;
                        },
                    }
                },
            }
        } else if '0' <= c && c <= '9' {
            proof {
                lemma_num_end_past(s@, i as int);
            }
            let e = num_end_of(s, i);
            if !dots_ok(s, i, e) {
                return Err(ParseError::DoubleDecimal);
            }
            let lit = copy_range(s, i, e);
            let it = QueueItem::Number(string_of(&lit));
            out.push(it);
            proof {
                lemma_items_view_push(old_out, it);
                assert(items_view(old_out) + (seq![item_view(it)] + scan(s@, e as int, names)->Ok_0)
                    =~= items_view(out@) + scan(s@, e as int, names)->Ok_0);
            }
            i = e;
        } else {
            match glyph_token(c) {
                Some(t) => {
                    let it = QueueItem::Token(t);
                    out.push(it);
                    proof {
                        lemma_items_view_push(old_out, it);
                        assert(items_view(old_out) + (seq![item_view(it)] + scan(
                            s@,
                            i + 1,
                            names,
                        )->Ok_0) =~= items_view(out@) + scan(s@, i + 1, names)->Ok_0);
                    }
                    i = i + 1;
                },
                None => {
                    if is_alpha_char(c) {
                        proof {
                            lemma_resolve(s@, i as int, i + 1, names);
                        }
                        match resolve_at(s, i, vc) {
                            Err(f) => {
                                return Err(f);
                            },
                            Ok((it, next)) => {
                                out.push(it);
                                proof {
                                    lemma_items_view_push(old_out, it);
                                    assert(items_view(old_out) + (seq![item_view(it)] + scan(
                                        s@,
                                        next as int,
                                        names,
                                    )->Ok_0) =~= items_view(out@) + scan(
                                        s@,
                                        next as int,
                                        names,
                                    )->Ok_0);
                                }
                                i = next;
                            },
                        }
                    } else {
                        i = i + 1;
                    }
                },
            }
        }
    }
    assert(items_view(out@) + Seq::<Item>::empty() =~= items_view(out@));
    Ok(out)
}

impl TokenQueue {
    /// Reads an expression into a token tree, with `variables` the declared
    /// names; every variable of the tree is one of them.
    pub fn new(input: &str, variables: &[String]) -> (r: Result<TokenQueue, ParseError>)
        ensures
            match r {
                Ok(q) => q@.text == prepared(input@) && scan(prepared(input@), 0, names_of(
                    variables@,
                )) == Ok::<Seq<Item>, Fault>(q@.items) && all_declared(q@.items, names_of(variables@)),
                Err(e) => scan(prepared(input@), 0, names_of(variables@)) == Err::<Seq<Item>, Fault>(e@),
            },
    {
        let mut vc: Vec<Vec<char>> = Vec::new();
        let mut k: usize = 0;
        while k < variables.len()
            invariant
                k <= variables@.len(),
                vc@.len() == k,
                forall|m: int| 0 <= m < k ==> #[trigger] vc@[m]@ == variables@[m]@,
            decreases variables@.len() - k,
        {
            vc.push(chars_of(variables[k].as_str()));
            k = k + 1;
        }
        assert(view_names(vc@) =~= names_of(variables@));
        let raw = chars_of(input);
        let trimmed = strip(&raw);
        let lower_chars = if needs_lowering_of(&trimmed) {
            let trimmed_text = string_of(&trimmed);
            let lower = lowercase(trimmed_text.as_str());
            chars_of(lower.as_str())
        } else {
            trimmed
        };
        let norm = normalize(&lower_chars);
        proof {
            lemma_scan_declared(norm@, 0, names_of(variables@));
        }
        match tokenize(&norm, &vc) {
            Ok(items) => Ok(TokenQueue { queue_items: items, input_representation: string_of(&norm) }),
            Err(e) => Err(e),
        }
    }

    /// Makes precedence explicit with parentheses, at every level of nesting.
    pub fn add_parenthesis(input: &str) -> (r: String)
        ensures
            r@ == normalized(input@),
    {
        string_of(&normalize(&chars_of(input)))
    }

    /// Wraps each `base^exponent` as `(base^(exponent))`, where some `+ - * /`
    /// occurs; text without them comes back as it is.
    pub fn add_parenthesis_exponent(input: &str) -> (r: String)
        ensures
            r@ == exponent_step(input@),
    {
        string_of(&exponent_step_of(&chars_of(input)))
    }

    /// Wraps each additive term that holds a `*` or `/` in parentheses, where
    /// some `+` or `-` occurs; text without them comes back as it is.
    pub fn add_parenthesis_multiplication(input: &str) -> (r: String)
        ensures
            r@ == product_step(input@),
    {
        string_of(&product_step_of(&chars_of(input)))
    }

    /// Wraps each term after a `+` or `-` that is not empty, balanced and not
    /// already one group; applied to its own result it changes nothing.
    pub fn add_most_basic_parenthesis(input: &str) -> (r: String)
        ensures
            r@ == signed_terms_from(input@, 0, true),
            signed_terms_from(r@, 0, true) == r@,
    {
        proof {
            lemma_signed_terms_idempotent(input@, 0, true);
        }
        string_of(&group_signed_terms(&chars_of(input)))
    }

    /// Turns each `(digits)` into `digits`.
    pub fn remove_parenthesis(input: &str) -> (r: String)
        ensures
            r@ == unwrapped_from(input@, 0),
    {
        string_of(&unwrap_numbers(&chars_of(input)))
    }

    /// The entries of the top level.
    pub fn items(&self) -> (r: &Vec<QueueItem>)
        ensures
            r@ == self.queue_items@,
    {
        &self.queue_items
    }
}

} // verus!
