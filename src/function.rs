//! Function definitions `name(var1,var2,...)=expression`.
use vstd::prelude::*;
use vstd::string::*;
use crate::error::{message_of, Fault, ParseError};
use crate::eval::{evaluated, Expr};
use crate::normalize::{
    copy_range, is_expression_char, lemma_normalized_chars, lemma_word_end,
    normalized, word_end,
};
use crate::text::{
    chars_of, is_alpha, is_alpha_char, is_digit, is_letter, is_plain_lower, is_white,
    lemma_stripped_plain, needs_lowering, string_of,
};
use crate::token::{
    index_from, item_view, items_view, lemma_items_view, names_of, prepared, scan, Item,
    QueueItem, TokenQueue, Tree,
};

verus! {

broadcast use vstd::std_specs::vec::group_vec_axioms, vstd::seq::group_seq_axioms;

pub open spec fn is_word_char(c: char) -> bool {
    is_alpha(c) || is_digit(c) || c == '_'
}


/// A list of names: runs of letters, each followed by at most one comma.
pub open spec fn is_name_list(t: Seq<char>) -> bool {
    &&& t.len() > 0
    &&& is_letter(t[0])
    &&& forall|k: int| 0 <= k < t.len() ==> is_letter(#[trigger] t[k]) || t[k] == ','
    &&& forall|k: int| 0 <= k < t.len() - 1 && #[trigger] t[k] == ',' ==> t[k + 1] != ','
}

/// Where the parts of a definition `name(names)=expression` end: the index of
/// the `(` after the name and of the `)` after the names.
pub open spec fn definition_bounds(s: Seq<char>) -> Option<(int, int)> {
    let p = index_from(s, '(', 0);
    let q = index_from(s, ')', p + 1);
    if 1 <= p < s.len() && q + 2 < s.len() && s[q + 1] == '='
        && (forall|k: int| 0 <= k < p ==> is_word_char(#[trigger] s[k]))
        && is_name_list(s.subrange(p + 1, q)) && (forall|k: int|
        q + 2 <= k < s.len() ==> is_expression_char(#[trigger] s[k])) {
        Some((p, q))
    } else {
        None
    }
}

/// The names of a comma-separated list from `i` on.
pub open spec fn split_from(t: Seq<char>, i: int) -> Seq<Seq<char>>
    decreases t.len() - i,
    via split_from_decreases
{
    if i < 0 || i > t.len() {
        Seq::empty()
    } else {
        let c = index_from(t, ',', i);
        if c < t.len() {
            seq![t.subrange(i, c)] + split_from(t, c + 1)
        } else {
            seq![t.subrange(i, t.len() as int)]
        }
    }
}

proof fn lemma_index_from(t: Seq<char>, c: char, i: int)
    requires
        0 <= i,
    ensures
        i <= index_from(t, c, i) || (i > t.len() && index_from(t, c, i) == t.len()),
        index_from(t, c, i) <= t.len(),
        index_from(t, c, i) < t.len() ==> t[index_from(t, c, i)] == c,
        forall|k: int| i <= k < index_from(t, c, i) ==> t[k] != c,
    decreases t.len() - i,
{
    if i < t.len() && t[i] != c {
        lemma_index_from(t, c, i + 1);
    }
}

#[via_fn]
proof fn split_from_decreases(t: Seq<char>, i: int) {
    if 0 <= i <= t.len() {
        lemma_index_from(t, ',', i);
    }
}

pub open spec fn is_alnum(c: char) -> bool {
    is_letter(c) || is_digit(c)
}

pub open spec fn alnum_end(s: Seq<char>, i: int) -> int
    decreases s.len() - i,
{
    if 0 <= i < s.len() && is_alnum(s[i]) {
        alnum_end(s, i + 1)
    } else {
        i
    }
}

proof fn lemma_alnum_end(s: Seq<char>, i: int)
    requires
        0 <= i <= s.len(),
    ensures
        i <= alnum_end(s, i) <= s.len(),
    decreases s.len() - i,
{
    if i < s.len() && is_alnum(s[i]) {
        lemma_alnum_end(s, i + 1);
    }
}

/// Whether the expression from `i` on has the loose shape of one: runs of
/// letters and digits, each perhaps opened by `(` and perhaps closed by one of
/// `+ - ^ / * )`. The state says what came last: nothing (0), `(` (1), a
/// letter or digit (2), a closing sign (3).
pub open spec fn shape_from(s: Seq<char>, i: int, state: int) -> bool
    decreases s.len() - i,
{
    if i < 0 || i >= s.len() {
        state == 2 || state == 3
    } else {
        let c = s[i];
        if is_alnum(c) {
            shape_from(s, i + 1, 2)
        } else if c == '(' {
            state != 1 && shape_from(s, i + 1, 1)
        } else if c == '+' || c == '-' || c == '^' || c == '/' || c == '*' || c == ')' {
            state == 2 && shape_from(s, i + 1, 3)
        } else {
            false
        }
    }
}

/// Whether the text looks like a definition at all, though it may break the grammar.
pub open spec fn resembles_definition(s: Seq<char>) -> bool {
    let p = word_end(s, 0);
    let q = alnum_end(s, p + 1);
    1 <= p < s.len() && s[p] == '(' && p + 1 < q && q + 1 < s.len() && s[q] == ')' && s[q + 1]
        == '=' && shape_from(s, q + 2, 0)
}

/// Whether `v` occurs as a variable in `items` from `k` on, nested trees included.
pub open spec fn mentions_from(items: Seq<Item>, k: int, v: Seq<char>) -> bool
    decreases items, items.len() - k,
{
    if 0 <= k < items.len() {
        item_mentions(items[k], v) || mentions_from(items, k + 1, v)
    } else {
        false
    }
}

pub open spec fn item_mentions(it: Item, v: Seq<char>) -> bool
    decreases it,
{
    match it {
        Item::Variable(w) => w == v,
        Item::Nested(t) => mentions_from(t.items, 0, v),
        _ => false,
    }
}

/// A compiled function: its name, its declared variables, its token tree.
pub struct Compiled {
    pub name: Seq<char>,
    pub variables: Seq<Seq<char>>,
    pub tree: Tree,
}

/// What a definition compiles to, or the error that stops it.
pub open spec fn compiled(s: Seq<char>) -> Result<Compiled, Fault> {
    match definition_bounds(s) {
        None => if resembles_definition(s) {
            Err(Fault::UnableToParse)
        } else {
            Err(Fault::NoFunctionDefined)
        },
        Some((p, q)) => {
            let vars = split_from(s.subrange(p + 1, q), 0);
            let expr = s.subrange(q + 2, s.len() as int);
            match scan(prepared(expr), 0, vars) {
                Err(f) => Err(f),
                Ok(items) => if forall|k: int|
                    0 <= k < vars.len() ==> mentions_from(items, 0, #[trigger] vars[k]) {
                    Ok(
                        Compiled {
                            name: s.subrange(0, p),
                            variables: vars,
                            tree: Tree { items, text: prepared(expr) },
                        },
                    )
                } else {
                    Err(Fault::VariableDefinitionAndUseMismatch)
                },
            }
        },
    }
}

/// A function compiled from its definition.
#[derive(Debug, PartialEq)]
pub struct Function {
    pub name: String,
    pub tokens: TokenQueue,
    pub variables: Vec<String>,
}

impl View for Function {
    type V = Compiled;

    open spec fn view(&self) -> Compiled {
        Compiled { name: self.name@, variables: names_of(self.variables@), tree: self.tokens@ }
    }
}

pub open spec fn function_outcome(r: Result<Function, ParseError>) -> Result<Compiled, Fault> {
    match r {
        Ok(f) => Ok(f@),
        Err(e) => Err(e@),
    }
}

/// The names joined with commas.
pub open spec fn joined(vars: Seq<Seq<char>>) -> Seq<char>
    decreases vars.len(),
{
    if vars.len() == 0 {
        Seq::empty()
    } else if vars.len() == 1 {
        vars[0]
    } else {
        joined(vars.drop_last()) + ","@ + vars.last()
    }
}

proof fn lemma_joined_prepend(a: Seq<char>, rest: Seq<Seq<char>>)
    requires
        rest.len() >= 1,
    ensures
        joined(seq![a] + rest) == a + ","@ + joined(rest),
    decreases rest.len(),
{
    let x = seq![a] + rest;
    if rest.len() == 1 {
        assert(x.drop_last() =~= seq![a]);
        assert(joined(seq![a]) == a);
    } else {
        assert(x.drop_last() =~= seq![a] + rest.drop_last());
        lemma_joined_prepend(a, rest.drop_last());
        assert(a + ","@ + joined(rest.drop_last()) + ","@ + rest.last() =~= a + ","@ + (joined(
            rest.drop_last(),
        ) + ","@ + rest.last()));
    }
}

proof fn lemma_split_from_nonempty(t: Seq<char>, i: int)
    requires
        0 <= i <= t.len(),
    ensures
        split_from(t, i).len() >= 1,
    decreases t.len() - i,
{
    lemma_index_from(t, ',', i);
    let c = index_from(t, ',', i);
    if c < t.len() {
        lemma_split_from_nonempty(t, c + 1);
    }
}

/// Joining the names of a comma-separated list with commas gives the list back.
proof fn lemma_joined_split(t: Seq<char>, i: int)
    requires
        0 <= i <= t.len(),
    ensures
        joined(split_from(t, i)) == t.subrange(i, t.len() as int),
    decreases t.len() - i,
{
    lemma_index_from(t, ',', i);
    let c = index_from(t, ',', i);
    if c < t.len() {
        lemma_joined_split(t, c + 1);
        lemma_split_from_nonempty(t, c + 1);
        lemma_joined_prepend(t.subrange(i, c), split_from(t, c + 1));
        reveal_strlit(",");
        assert(t.subrange(i, c) + ","@ + t.subrange(c + 1, t.len() as int) =~= t.subrange(
            i,
            t.len() as int,
        ));
    } else {
        assert(split_from(t, i) =~= seq![t.subrange(i, t.len() as int)]);
    }
}

/// The text of a compiled function: `name(var1,var2,...)=` and its normalized expression.
pub open spec fn representation(c: Compiled) -> Seq<char> {
    c.name + "("@ + joined(c.variables) + ")="@ + c.tree.text
}

proof fn lemma_index_at(t: Seq<char>, c: char, i: int, p: int)
    requires
        0 <= i <= p < t.len(),
        t[p] == c,
        forall|k: int| i <= k < p ==> t[k] != c,
    ensures
        index_from(t, c, i) == p,
    decreases p - i,
{
    if i < p {
        lemma_index_at(t, c, i + 1, p);
    }
}

/// Compiling the text that `internal_representation` gives back yields the
/// same function again, wherever normalizing the stored expression once more
/// leaves it as it is.
pub proof fn lemma_representation_round_trip(s: Seq<char>)
    requires
        compiled(s) is Ok,
        normalized(compiled(s)->Ok_0.tree.text) == compiled(s)->Ok_0.tree.text,
    ensures
        compiled(representation(compiled(s)->Ok_0)) == compiled(s),
{
    let c = compiled(s)->Ok_0;
    let (p, q) = definition_bounds(s)->Some_0;
    let pp = index_from(s, '(', 0);
    lemma_index_from(s, '(', 0);
    lemma_index_from(s, ')', pp + 1);
    let name = s.subrange(0, p);
    let list = s.subrange(p + 1, q);
    let vars = split_from(list, 0);
    let expr = s.subrange(q + 2, s.len() as int);
    // the expression is plain: already stripped and lower-case
    assert forall|k: int| 0 <= k < expr.len() implies is_expression_char(#[trigger] expr[k]) by {
        assert(expr[k] == s[k + q + 2]);
    }
    assert forall|k: int| 0 <= k < expr.len() implies !is_white(#[trigger] expr[k]) by {
        assert(is_expression_char(expr[k]));
    }
    lemma_stripped_plain(expr);
    assert(!needs_lowering(expr)) by {
        assert forall|k: int| 0 <= k < expr.len() implies is_plain_lower(#[trigger] expr[k]) by {
            assert(is_expression_char(expr[k]));
        }
    }
    let text = normalized(expr);
    assert(c.tree.text == text);
    lemma_normalized_chars(expr);
    // the list of names comes back as it was
    lemma_joined_split(list, 0);
    assert(list.subrange(0, list.len() as int) =~= list);
    assert(joined(c.variables) == list);
    let r = representation(c);
    reveal_strlit("(");
    reveal_strlit(")=");
    assert(r =~= name + seq!['('] + list + seq![')', '='] + text);
    assert(r.len() == s.len() - expr.len() + text.len());
    assert forall|k: int| 0 <= k < p implies r[k] == s[k] by {}
    assert forall|k: int| p + 1 <= k < q implies r[k] == s[k] by {}
    assert(r[p] == '(');
    assert(r[q] == ')');
    assert(r[q + 1] == '=');
    lemma_index_at(r, '(', 0, p);
    lemma_index_at(r, ')', p + 1, q);
    assert(r.subrange(p + 1, q) =~= list);
    assert(r.subrange(0, p) =~= name);
    let rest = r.subrange(q + 2, r.len() as int);
    assert(rest =~= text);
    assert forall|k: int| q + 2 <= k < r.len() implies is_expression_char(#[trigger] r[k]) by {
        assert(r[k] == text[k - q - 2]);
    }
    assert forall|k: int| 0 <= k < p implies is_word_char(#[trigger] r[k]) by {
        assert(r[k] == s[k]);
    }
    assert(definition_bounds(r) == Some((p, q)));
    // the stored expression reads as itself
    assert forall|k: int| 0 <= k < text.len() implies !is_white(#[trigger] text[k]) by {
        assert(is_expression_char(text[k]));
    }
    lemma_stripped_plain(text);
    assert(!needs_lowering(text)) by {
        assert forall|k: int| 0 <= k < text.len() implies is_plain_lower(#[trigger] text[k]) by {
            assert(is_expression_char(text[k]));
        }
    }
    assert(prepared(text) == text);
}

fn index_of_from(t: &Vec<char>, c: char, i: usize) -> (r: usize)
    ensures
        r == index_from(t@, c, i as int),
{
    let mut k: usize = i;
    if k > t.len() {
        return t.len();
    }
    while k < t.len()
        invariant
            i <= k <= t.len(),
            index_from(t@, c, k as int) == index_from(t@, c, i as int),
        decreases t.len() - k,
    {
        if t[k] == c {
            return k;
        }
        k = k + 1;
    }
    k
}

fn is_name_list_of(t: &Vec<char>) -> (r: bool)
    ensures
        r == is_name_list(t@),
{
    if t.len() == 0 || !('a' <= t[0] && t[0] <= 'z') {
        return false;
    }
    let mut k: usize = 0;
    while k < t.len()
        invariant
            k <= t.len(),
            forall|m: int| 0 <= m < k ==> is_letter(#[trigger] t@[m]) || t@[m] == ',',
            forall|m: int| 0 <= m < k && m < t.len() - 1 && #[trigger] t@[m] == ',' ==> t@[m + 1] != ',',
        decreases t.len() - k,
    {
        let c = t[k];
        if !(('a' <= c && c <= 'z') || c == ',') {
            return false;
        }
        if c == ',' && k + 1 < t.len() && t[k + 1] == ',' {
            return false;
        }
        k = k + 1;
    }
    true
}

fn all_word_chars(s: &Vec<char>, p: usize) -> (r: bool)
    requires
        p <= s.len(),
    ensures
        r == forall|m: int| 0 <= m < p ==> is_word_char(#[trigger] s@[m]),
{
    let mut k: usize = 0;
    while k < p
        invariant
            k <= p <= s.len(),
            forall|m: int| 0 <= m < k ==> is_word_char(#[trigger] s@[m]),
        decreases p - k,
    {
        let c = s[k];
        if !(is_alpha_char(c) || ('0' <= c && c <= '9') || c == '_') {
            assert(!is_word_char(s@[k as int]));
            return false;
        }
        k = k + 1;
    }
    true
}

fn all_expression_chars(s: &Vec<char>, from: usize) -> (r: bool)
    requires
        from <= s.len(),
    ensures
        r == forall|m: int| from <= m < s@.len() ==> is_expression_char(#[trigger] s@[m]),
{
    let mut k: usize = from;
    while k < s.len()
        invariant
            from <= k <= s.len(),
            forall|m: int| from <= m < k ==> is_expression_char(#[trigger] s@[m]),
        decreases s.len() - k,
    {
        let c = s[k];
        if !(('a' <= c && c <= 'z') || ('0' <= c && c <= '9') || c == '^' || c == '*' || c == '/'
            || c == '(' || c == ')' || c == '+' || c == '-' || c == '.') {
            assert(!is_expression_char(s@[k as int]));
            return false;
        }
        k = k + 1;
    }
    true
}

fn definition_bounds_of(s: &Vec<char>) -> (r: Option<(usize, usize)>)
    ensures
        match r {
            Some((p, q)) => definition_bounds(s@) == Some((p as int, q as int)),
            None => definition_bounds(s@) is None,
        },
{
    let p = index_of_from(s, '(', 0);
    if p < 1 || p >= s.len() {
        return None;
    }
    let q = index_of_from(s, ')', p + 1);
    proof {
        lemma_index_from(s@, ')', p + 1);
    }
    if q >= s.len() || s.len() - q <= 2 || s[q + 1] != '=' {
        return None;
    }
    if !all_word_chars(s, p) {
        return None;
    }
    let names = copy_range(s, p + 1, q);
    if !is_name_list_of(&names) {
        return None;
    }
    if !all_expression_chars(s, q + 2) {
        return None;
    }
    Some((p, q))
}

fn alnum_end_of(s: &Vec<char>, i: usize) -> (r: usize)
    requires
        i <= s.len(),
    ensures
        r == alnum_end(s@, i as int),
{
    let mut j: usize = i;
    while j < s.len() && (('a' <= s[j] && s[j] <= 'z') || ('0' <= s[j] && s[j] <= '9'))
        invariant
            i <= j <= s.len(),
            alnum_end(s@, j as int) == alnum_end(s@, i as int),
        decreases s.len() - j,
    {
        j = j + 1;
    }
    j
}

fn letters_end_of(s: &Vec<char>) -> (r: usize)
    ensures
        r == word_end(s@, 0),
{
    let mut j: usize = 0;
    while j < s.len() && 'a' <= s[j] && s[j] <= 'z'
        invariant
            j <= s.len(),
            word_end(s@, j as int) == word_end(s@, 0),
        decreases s.len() - j,
    {
        j = j + 1;
    }
    j
}

fn shape_from_of(s: &Vec<char>, i: usize) -> (r: bool)
    requires
        i <= s.len(),
    ensures
        r == shape_from(s@, i as int, 0),
{
    let mut state: u8 = 0;
    let mut k: usize = i;
    while k < s.len()
        invariant
            i <= k <= s.len(),
            state <= 3,
            shape_from(s@, k as int, state as int) == shape_from(s@, i as int, 0),
        decreases s.len() - k,
    {
        let c = s[k];
        if ('a' <= c && c <= 'z') || ('0' <= c && c <= '9') {
            state = 2;
        } else if c == '(' {
            if state == 1 {
                return false;
            }
            state = 1;
        } else if c == '+' || c == '-' || c == '^' || c == '/' || c == '*' || c == ')' {
            if state != 2 {
                return false;
            }
            state = 3;
        } else {
            return false;
        }
        k = k + 1;
    }
    state == 2 || state == 3
}

fn resembles_of(s: &Vec<char>) -> (r: bool)
    ensures
        r == resembles_definition(s@),
{
    let p = letters_end_of(s);
    proof {
        lemma_word_end(s@, 0);
    }
    if p < 1 || p >= s.len() || s[p] != '(' {
        return false;
    }
    let q = alnum_end_of(s, p + 1);
    proof {
        lemma_alnum_end(s@, p + 1);
    }
    if q <= p + 1 || q >= s.len() || q + 1 >= s.len() || s[q] != ')' || s[q + 1] != '=' {
        return false;
    }
    shape_from_of(s, q + 2)
}

fn split_names(t: &Vec<char>) -> (r: Vec<String>)
    ensures
        names_of(r@) == split_from(t@, 0),
{
    let mut out: Vec<String> = Vec::new();
    let mut i: usize = 0;
    loop
        invariant
            i <= t.len(),
            names_of(out@) + split_from(t@, i as int) == split_from(t@, 0),
        decreases t.len() - i,
    {
        let ghost before = out@;
        proof {
            lemma_index_from(t@, ',', i as int);
        }
        let c = index_of_from(t, ',', i);
        let part = string_of(&copy_range(t, i, c));
        out.push(part);
        proof {
            assert(names_of(out@) =~= names_of(before).push(part@));
        }
        if c < t.len() {
            proof {
                assert(names_of(out@) + split_from(t@, c + 1) =~= names_of(before) + split_from(
                    t@,
                    i as int,
                ));
            }
            i = c + 1;
        } else {
            proof {
                assert(names_of(out@) =~= names_of(before) + split_from(t@, i as int));
            }
            return out;
        }
    }
}

fn item_mentions_of(it: &QueueItem, v: &String) -> (r: bool)
    ensures
        r == item_mentions(item_view(*it), v@),
    decreases it,
{
    match it {
        QueueItem::Variable(w) => *w == *v,
        QueueItem::Queue(q) => mentions_of(&q.queue_items, v),
        _ => false,
    }
}

fn mentions_of(items: &Vec<QueueItem>, v: &String) -> (r: bool)
    ensures
        r == mentions_from(items_view(items@), 0, v@),
    decreases items,
{
    let ghost tree = items_view(items@);
    proof {
        lemma_items_view(items@);
    }
    let mut k: usize = 0;
    while k < items.len()
        invariant
            k <= items.len(),
            tree == items_view(items@),
            tree.len() == items@.len(),
            forall|m: int| 0 <= m < items@.len() ==> #[trigger] tree[m] == item_view(items@[m]),
            mentions_from(tree, k as int, v@) == mentions_from(tree, 0, v@),
        decreases items.len() - k,
    {
        assert(tree[k as int] == item_view(items@[k as int]));
        if item_mentions_of(&items[k], v) {
            return true;
        }
        k = k + 1;
    }
    false
}

fn all_mentioned(tokens: &TokenQueue, variables: &Vec<String>) -> (r: bool)
    ensures
        r == forall|k: int|
            0 <= k < variables@.len() ==> mentions_from(
                tokens@.items,
                0,
                #[trigger] names_of(variables@)[k],
            ),
{
    let ghost vars = names_of(variables@);
    let ghost items = tokens@.items;
    let mut k: usize = 0;
    while k < variables.len()
        invariant
            k <= variables.len(),
            vars == names_of(variables@),
            items == tokens@.items,
            forall|m: int| 0 <= m < k ==> mentions_from(items, 0, #[trigger] vars[m]),
        decreases variables.len() - k,
    {
        assert(vars[k as int] == variables@[k as int]@);
        if !mentions_of(&tokens.queue_items, &variables[k]) {
            assert(!mentions_from(items, 0, vars[k as int]));
            return false;
        }
        k = k + 1;
    }
    true
}

impl Function {
    /// Compiles a definition `name(var1,var2,...)=expression`.
    pub fn parse(input: &str) -> (r: Result<Function, ParseError>)
        ensures
            function_outcome(r) == compiled(input@),
    {
        let s = chars_of(input);
        match definition_bounds_of(&s) {
            None => {
                if resembles_of(&s) {
                    Err(ParseError::UnableToParse)
                } else {
                    Err(ParseError::NoFunctionDefined)
                }
            },
            Some((p, q)) => {
                proof {
                    lemma_index_from(s@, ')', p + 1);
                }
                let name = string_of(&copy_range(&s, 0, p));
                let list = copy_range(&s, p + 1, q);
                let variables = split_names(&list);
                let expr = string_of(&copy_range(&s, q + 2, s.len()));
                match TokenQueue::new(expr.as_str(), variables.as_slice()) {
                    Err(e) => Err(e),
                    Ok(tokens) => {
                        if !all_mentioned(&tokens, &variables) {
                            return Err(ParseError::VariableDefinitionAndUseMismatch);
                        }
                        Ok(Function { name, tokens, variables })
                    },
                }
            },
        }
    }

    /// The definition as it was compiled: `name(var1,var2,...)=` and the normalized expression.
    pub fn internal_representation(&self) -> (r: String)
        ensures
            r@ == representation(self@),
    {
        let mut out = self.name.clone();
        out.append("(");
        let mut k: usize = 0;
        let ghost head = out@;
        while k < self.variables.len()
            invariant
                k <= self.variables.len(),
                out@ == head + joined(names_of(self.variables@).subrange(0, k as int)),
            decreases self.variables.len() - k,
        {
            let ghost vars = names_of(self.variables@);
            proof {
                let next = vars.subrange(0, k + 1);
                assert(next.drop_last() =~= vars.subrange(0, k as int));
                assert(next.last() == self.variables@[k as int]@);
            }
            if k > 0 {
                out.append(",");
            } else {
                assert(joined(vars.subrange(0, 0)) =~= Seq::<char>::empty());
            }
            out.append(self.variables[k].as_str());
            k = k + 1;
            proof {
                let next = vars.subrange(0, k as int);
                if k > 1 {
                    assert(out@ =~= head + joined(next));
                } else {
                    assert(out@ =~= head + joined(next));
                }
            }
        }
        assert(names_of(self.variables@).subrange(0, self.variables@.len() as int) =~= names_of(
            self.variables@,
        ));
        out.append(")=");
        out.append(self.tokens.input_representation.as_str());
        out
    }

    /// The expression the function computes; `Variable(k)` stands for its `k`-th declared variable.
    pub fn expression(&self) -> (r: Result<Expr, ParseError>)
        ensures
            crate::eval::expr_outcome(r) == evaluated(self@.tree.items, self@.variables),
    {
        self.tokens.calculate(&self.variables)
    }
}

impl<'a> TryFrom<&'a str> for Function {
    type Error = ParseError;

    /// Compiles a definition, as `Function::parse` does.
    fn try_from(input: &'a str) -> Result<Function, ParseError> {
        Function::parse(input)
    }
}

/// `try_from` carries no spec of its own: what it returns is stated by `Function::parse`.
impl<'a> vstd::std_specs::convert::TryFromSpecImpl<&'a str> for Function {
    open spec fn obeys_try_from_spec() -> bool {
        false
    }

    open spec fn try_from_spec(v: &'a str) -> Result<Function, ParseError> {
        Err(ParseError::UnableToParse)
    }
}

impl TryFrom<String> for Function {
    type Error = ParseError;

    /// Compiles a definition, as `Function::parse` does.
    fn try_from(input: String) -> Result<Function, ParseError> {
        Function::parse(input.as_str())
    }
}

/// `try_from` carries no spec of its own: what it returns is stated by `Function::parse`.
impl vstd::std_specs::convert::TryFromSpecImpl<String> for Function {
    open spec fn obeys_try_from_spec() -> bool {
        false
    }

    open spec fn try_from_spec(v: String) -> Result<Function, ParseError> {
        Err(ParseError::UnableToParse)
    }
}

/// A definition as typed by a user.
pub struct FunctionInput(pub String);

/// The error to show for a definition: from compiling it, or else from
/// evaluating it with every variable bound; none where both succeed.
pub open spec fn input_error(s: Seq<char>) -> Option<Seq<char>> {
    match compiled(s) {
        Err(f) => Some(message_of(f)),
        Ok(c) => match evaluated(c.tree.items, c.variables) {
            Err(f) => Some(message_of(f)),
            Ok(_) => None,
        },
    }
}

impl FunctionInput {
    pub fn func(&self) -> (r: Result<Function, ParseError>)
        ensures
            function_outcome(r) == compiled(self.0@),
    {
        Function::parse(self.0.as_str())
    }

    /// The message of what goes wrong with this definition, if anything does.
    pub fn err(&self) -> (r: Option<String>)
        ensures
            match r {
                Some(m) => input_error(self.0@) == Some(m@),
                None => input_error(self.0@) is None,
            },
    {
        match self.func() {
            Err(e) => Some(e.message()),
            Ok(f) => match f.expression() {
                Err(e) => Some(e.message()),
                Ok(_) => None,
            },
        }
    }

    /// The name of the defined function.
    pub fn name(&self) -> (r: Result<String, ParseError>)
        ensures
            match r {
                Ok(n) => compiled(self.0@) matches Ok(c) && c.name == n@,
                Err(e) => compiled(self.0@) == Err::<Compiled, Fault>(e@),
            },
    {
        match self.func() {
            Ok(f) => Ok(f.name),
            Err(e) => Err(e),
        }
    }
}

} // verus!
