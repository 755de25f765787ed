//! The fold of a token tree under a set of bound names. Numbers stay as the
//! texts they were written as: the fold decides which operation applies to
//! what, in which order, and which error stops it; the result is the
//! expression that arithmetic then computes.
use vstd::prelude::*;
use vstd::string::*;
use crate::error::{Fault, ParseError};
use crate::token::{
    item_view, items_view, lemma_items_view, names_of, Item, Op, QueueItem, Token, TokenQueue,
};

verus! {

broadcast use vstd::std_specs::vec::group_vec_axioms, vstd::seq::group_seq_axioms;

/// What a token tree computes.
#[derive(Debug, PartialEq)]
pub enum Expr {
    /// A number literal as written.
    Number(String),
    /// The value bound to the name at this index of the bound names.
    Variable(usize),
    /// An operator applied to a left and a right operand.
    Apply(Token, Box<Expr>, Box<Expr>),
}

/// The model of an `Expr`.
pub enum Term {
    Number(Seq<char>),
    Variable(nat),
    Apply(Op, Box<Term>, Box<Term>),
}

pub open spec fn term_of(e: Expr) -> Term
    decreases e,
{
    match e {
        Expr::Number(t) => Term::Number(t@),
        Expr::Variable(k) => Term::Variable(k as nat),
        Expr::Apply(op, l, r) => Term::Apply(op@, Box::new(term_of(*l)), Box::new(term_of(*r))),
    }
}

impl View for Expr {
    type V = Term;

    open spec fn view(&self) -> Term {
        term_of(*self)
    }
}

/// The first index from `k` on where `v` is bound.
pub open spec fn lookup(names: Seq<Seq<char>>, v: Seq<char>, k: int) -> Option<nat>
    decreases names.len() - k,
{
    if 0 <= k < names.len() {
        if names[k] == v {
            Some(k as nat)
        } else {
            lookup(names, v, k + 1)
        }
    } else {
        None
    }
}

/// An operand that follows another operand multiplies into it.
pub open spec fn juxtaposed(acc: Option<Term>, v: Term) -> Term {
    match acc {
        None => v,
        Some(a) => Term::Apply(Op::Multiply, Box::new(a), Box::new(v)),
    }
}

/// The value of one operand: a number, a bound name, or a nested tree.
pub open spec fn operand(it: Item, names: Seq<Seq<char>>) -> Result<Term, Fault>
    decreases it,
{
    match it {
        Item::Number(t) => Ok(Term::Number(t)),
        Item::Variable(v) => match lookup(names, v, 0) {
            Some(k) => Ok(Term::Variable(k)),
            None => Err(Fault::UnableToFind("variable: \""@ + v + "\""@)),
        },
        Item::Nested(tree) => fold(tree.items, 0, None, names),
        Item::Operator(_) => Err(Fault::InvalidTokenPosition),
    }
}

/// The left-to-right fold of `items` from `i` on, with `acc` what is folded so far.
pub open spec fn fold(items: Seq<Item>, i: int, acc: Option<Term>, names: Seq<Seq<char>>) -> Result<
    Term,
    Fault,
>
    decreases items, items.len() - i,
{
    if i < 0 || i >= items.len() {
        match acc {
            Some(t) => Ok(t),
            None => Err(Fault::UnableToParse),
        }
    } else {
        match items[i] {
            Item::Operator(op) => {
                if i + 1 >= items.len() || items[i + 1] is Operator || acc is None {
                    Err(Fault::InvalidTokenPosition)
                } else {
                    match operand(items[i + 1], names) {
                        Err(f) => Err(f),
                        Ok(v) => fold(
                            items,
                            i + 2,
                            Some(Term::Apply(op, Box::new(acc->Some_0), Box::new(v))),
                            names,
                        ),
                    }
                }
            },
            _ => match operand(items[i], names) {
                Err(f) => Err(f),
                Ok(v) => fold(items, i + 1, Some(juxtaposed(acc, v)), names),
            },
        }
    }
}

/// What a token tree evaluates to, with `names` bound.
pub open spec fn evaluated(tree: Seq<Item>, names: Seq<Seq<char>>) -> Result<Term, Fault> {
    fold(tree, 0, None, names)
}

pub open spec fn expr_outcome(r: Result<Expr, ParseError>) -> Result<Term, Fault> {
    match r {
        Ok(e) => Ok(e@),
        Err(e) => Err(e@),
    }
}

fn lookup_name(names: &Vec<String>, v: &String) -> (r: Option<usize>)
    ensures
        match r {
            Some(k) => lookup(names_of(names@), v@, 0) == Some(k as nat),
            None => lookup(names_of(names@), v@, 0) is None,
        },
{
    let ghost ns = names_of(names@);
    let mut k: usize = 0;
    while k < names.len()
        invariant
            k <= names.len(),
            ns == names_of(names@),
            lookup(ns, v@, k as int) == lookup(ns, v@, 0),
        decreases names.len() - k,
    {
        assert(ns[k as int] == names@[k as int]@);
        if names[k] == *v {
            return Some(k);
        }
        k = k + 1;
    }
    None
}

fn operand_expr(it: &QueueItem, names: &Vec<String>) -> (r: Result<Expr, ParseError>)
    ensures
        expr_outcome(r) == operand(item_view(*it), names_of(names@)),
    decreases it,
{
    match it {
        QueueItem::Number(t) => Ok(Expr::Number(t.clone())),
        QueueItem::Variable(v) => match lookup_name(names, v) {
            Some(k) => Ok(Expr::Variable(k)),
            None => {
                let mut m = String::from_str("variable: \"");
                m.append(v.as_str());
                m.append("\"");
                Err(ParseError::UnableToFind(m))
            },
        },
        QueueItem::Queue(q) => fold_items(&q.queue_items, names),
        QueueItem::Token(_) => Err(ParseError::InvalidTokenPosition),
    }
}

fn fold_items(items: &Vec<QueueItem>, names: &Vec<String>) -> (r: Result<Expr, ParseError>)
    ensures
        expr_outcome(r) == evaluated(items_view(items@), names_of(names@)),
    decreases items,
{
    let ghost ns = names_of(names@);
    let ghost tree = items_view(items@);
    proof {
        lemma_items_view(items@);
    }
    let mut acc: Option<Expr> = None;
    let mut i: usize = 0;
    while i < items.len()
        invariant
            i <= items.len(),
            ns == names_of(names@),
            tree == items_view(items@),
            tree.len() == items@.len(),
            forall|k: int| 0 <= k < items@.len() ==> #[trigger] tree[k] == item_view(items@[k]),
            evaluated(tree, ns) == fold(
                tree,
                i as int,
                match acc {
                    Some(e) => Some(e@),
                    None => None,
                },
                ns,
            ),
        decreases items.len() - i,
    {
        assert(tree[i as int] == item_view(items@[i as int]));
        match &items[i] {
            QueueItem::Token(op) => {
                if i + 1 >= items.len() {
                    return Err(ParseError::InvalidTokenPosition);
                }
                assert(tree[i + 1] == item_view(items@[i + 1]));
                if let QueueItem::Token(_) = &items[i + 1] {
                    return Err(ParseError::InvalidTokenPosition);
                }
                match acc {
                    None => {
                        return Err(ParseError::InvalidTokenPosition);
                    },
                    Some(a) => {
                        match operand_expr(&items[i + 1], names) {
                            Err(f) => {
                                return Err(f);
                            },
                            Ok(v) => {
                                acc = Some(Expr::Apply(op.duplicate(), Box::new(a), Box::new(v)));
                                i = i + 2;
                            },
                        }
                    },
                }
            },
            _ => {
                match operand_expr(&items[i], names) {
                    Err(f) => {
                        return Err(f);
                    },
                    Ok(v) => {
                        acc = match acc {
                            None => Some(v),
                            Some(a) => Some(Expr::Apply(Token::Multiply, Box::new(a), Box::new(v))),
                        };
                        i = i + 1;
                    },
                }
            },
        }
    }
    match acc {
        Some(e) => Ok(e),
        None => Err(ParseError::UnableToParse),
    }
}

proof fn lemma_fold_extended(
    pre: Seq<Item>,
    x: Item,
    names: Seq<Seq<char>>,
    i: int,
    acc: Option<Term>,
)
    requires
        0 <= i <= pre.len(),
        fold(pre, i, acc, names) is Ok,
        !(x is Operator),
    ensures
        fold(pre.push(x), i, acc, names) == fold(
            pre + seq![Item::Operator(Op::Multiply), x],
            i,
            acc,
            names,
        ),
    decreases pre.len() - i,
{
    let a = pre.push(x);
    let b = pre + seq![Item::Operator(Op::Multiply), x];
    if i == pre.len() {
        assert(a[i] == x);
        assert(b[i] == Item::Operator(Op::Multiply));
        assert(b[i + 1] == x);
        match operand(x, names) {
            Err(f) => {},
            Ok(v) => {
                assert(fold(a, i + 1, Some(juxtaposed(acc, v)), names) == Ok::<Term, Fault>(
                    juxtaposed(acc, v),
                ));
                assert(fold(
                    b,
                    i + 2,
                    Some(Term::Apply(Op::Multiply, Box::new(acc->Some_0), Box::new(v))),
                    names,
                ) == Ok::<Term, Fault>(
                    Term::Apply(Op::Multiply, Box::new(acc->Some_0), Box::new(v)),
                ));
            },
        }
    } else {
        assert(a[i] == pre[i]);
        assert(b[i] == pre[i]);
        match pre[i] {
            Item::Operator(op) => {
                assert(a[i + 1] == pre[i + 1]);
                assert(b[i + 1] == pre[i + 1]);
                match operand(pre[i + 1], names) {
                    Err(f) => {},
                    Ok(v) => {
                        lemma_fold_extended(
                            pre,
                            x,
                            names,
                            i + 2,
                            Some(Term::Apply(op, Box::new(acc->Some_0), Box::new(v))),
                        );
                    },
                }
            },
            _ => {
                match operand(pre[i], names) {
                    Err(f) => {},
                    Ok(v) => {
                        lemma_fold_extended(pre, x, names, i + 1, Some(juxtaposed(acc, v)));
                    },
                }
            },
        }
    }
}

/// Writing an operand right after a value multiplies it in exactly as an
/// explicit `*` does: once the items before it fold to a value, the tree with
/// the operand appended and the tree with `*` and the operand appended
/// evaluate to the same expression, or fail alike, under every binding.
pub proof fn lemma_juxtaposition_is_multiplication(
    pre: Seq<Item>,
    x: Item,
    names: Seq<Seq<char>>,
)
    requires
        evaluated(pre, names) is Ok,
        !(x is Operator),
    ensures
        evaluated(pre.push(x), names) == evaluated(
            pre + seq![Item::Operator(Op::Multiply), x],
            names,
        ),
{
    lemma_fold_extended(pre, x, names, 0, None);
}

impl TokenQueue {
    /// Folds the tree with `variables` the bound names: the expression it
    /// computes, in which `Variable(k)` stands for the value bound to
    /// `variables[k]`, or the error that stops the fold.
    pub fn calculate(&self, variables: &Vec<String>) -> (r: Result<Expr, ParseError>)
        ensures
            expr_outcome(r) == evaluated(self@.items, names_of(variables@)),
    {
        fold_items(&self.queue_items, variables)
    }
}

} // verus!
