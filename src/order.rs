//! The order in which the children of an error tree are kept and visited:
//! named fields first, by their names, then list items, by their indices.
use vstd::prelude::*;
use vstd::string::*;

verus! {

/// One step on the way from the root of an error tree down to one of its
/// nodes: a named field or a list item.
pub enum PathStep {
    Field(Seq<char>),
    Item(nat),
}

/// Lexicographic order of strings by their characters' code points (which
/// is the order of their UTF-8 bytes, the order of `str`).
pub open spec fn chars_lt(a: Seq<char>, b: Seq<char>) -> bool
    decreases a.len(),
{
    if a.len() == 0 {
        b.len() > 0
    } else if b.len() == 0 {
        false
    } else if a[0] != b[0] {
        (a[0] as int) < (b[0] as int)
    } else {
        chars_lt(a.drop_first(), b.drop_first())
    }
}

/// Fields come before items; fields are ordered by name, items by index.
pub open spec fn step_lt(a: PathStep, b: PathStep) -> bool {
    match (a, b) {
        (PathStep::Field(x), PathStep::Field(y)) => chars_lt(x, y),
        (PathStep::Field(_), PathStep::Item(_)) => true,
        (PathStep::Item(_), PathStep::Field(_)) => false,
        (PathStep::Item(i), PathStep::Item(j)) => i < j,
    }
}

pub proof fn lemma_chars_lt_irreflexive(a: Seq<char>)
    ensures
        !chars_lt(a, a),
    decreases a.len(),
{
    if a.len() > 0 {
        lemma_chars_lt_irreflexive(a.drop_first());
    }
}

pub proof fn lemma_chars_lt_transitive(a: Seq<char>, b: Seq<char>, c: Seq<char>)
    requires
        chars_lt(a, b),
        chars_lt(b, c),
    ensures
        chars_lt(a, c),
    decreases a.len(),
{
    if a.len() > 0 && b.len() > 0 && c.len() > 0 && a[0] == b[0] && b[0] == c[0] {
        lemma_chars_lt_transitive(a.drop_first(), b.drop_first(), c.drop_first());
    }
}

pub proof fn lemma_chars_lt_total(a: Seq<char>, b: Seq<char>)
    ensures
        a == b || chars_lt(a, b) || chars_lt(b, a),
    decreases a.len(),
{
    if a.len() > 0 && b.len() > 0 {
        if a[0] == b[0] {
            lemma_chars_lt_total(a.drop_first(), b.drop_first());
            if a.drop_first() == b.drop_first() {
                assert(a =~= seq![a[0]] + a.drop_first());
                assert(b =~= seq![b[0]] + b.drop_first());
            }
        } else {
            assert((a[0] as int) != (b[0] as int));
        }
    } else if a.len() == 0 && b.len() == 0 {
        assert(a =~= b);
    }
}

pub proof fn lemma_chars_lt_asymmetric(a: Seq<char>, b: Seq<char>)
    requires
        chars_lt(a, b),
    ensures
        !chars_lt(b, a),
{
    if chars_lt(b, a) {
        lemma_chars_lt_transitive(a, b, a);
        lemma_chars_lt_irreflexive(a);
    }
}

/// Two strings that agree on their first `i` characters compare as what
/// follows those characters does.
proof fn lemma_chars_lt_skip(a: Seq<char>, b: Seq<char>, i: int)
    requires
        0 <= i <= a.len(),
        i <= b.len(),
        a.subrange(0, i) == b.subrange(0, i),
    ensures
        chars_lt(a, b) == chars_lt(a.subrange(i, a.len() as int), b.subrange(i, b.len() as int)),
    decreases i,
{
    if i > 0 {
        assert(a[0] == a.subrange(0, i)[0]);
        assert(b[0] == b.subrange(0, i)[0]);
        assert(a.drop_first().subrange(0, i - 1) =~= a.subrange(0, i).drop_first());
        assert(b.drop_first().subrange(0, i - 1) =~= b.subrange(0, i).drop_first());
        lemma_chars_lt_skip(a.drop_first(), b.drop_first(), i - 1);
        assert(a.drop_first().subrange(i - 1, a.len() - 1) =~= a.subrange(i, a.len() as int));
        assert(b.drop_first().subrange(i - 1, b.len() - 1) =~= b.subrange(i, b.len() as int));
    } else {
        assert(a.subrange(0, a.len() as int) =~= a);
        assert(b.subrange(0, b.len() as int) =~= b);
    }
}

pub proof fn lemma_step_lt_irreflexive(a: PathStep)
    ensures
        !step_lt(a, a),
{
    if let PathStep::Field(x) = a {
        lemma_chars_lt_irreflexive(x);
    }
}

pub proof fn lemma_step_lt_transitive(a: PathStep, b: PathStep, c: PathStep)
    requires
        step_lt(a, b),
        step_lt(b, c),
    ensures
        step_lt(a, c),
{
    if let (PathStep::Field(x), PathStep::Field(y), PathStep::Field(z)) = (a, b, c) {
        lemma_chars_lt_transitive(x, y, z);
    }
}

pub proof fn lemma_step_lt_total(a: PathStep, b: PathStep)
    ensures
        a == b || step_lt(a, b) || step_lt(b, a),
{
    if let (PathStep::Field(x), PathStep::Field(y)) = (a, b) {
        lemma_chars_lt_total(x, y);
    }
}

pub proof fn lemma_step_lt_asymmetric(a: PathStep, b: PathStep)
    requires
        step_lt(a, b),
    ensures
        !step_lt(b, a),
{
    if let (PathStep::Field(x), PathStep::Field(y)) = (a, b) {
        lemma_chars_lt_asymmetric(x, y);
    }
}

/// Whether `a` comes before `b` in the order of [chars_lt].
pub fn str_less(a: &str, b: &str) -> (r: bool)
    ensures
        r == chars_lt(a@, b@),
{
    let la: usize = a.unicode_len();
    let lb: usize = b.unicode_len();
    let mut i: usize = 0;
    while i < la && i < lb
        invariant
            la == a@.len(),
            lb == b@.len(),
            i <= la,
            i <= lb,
            a@.subrange(0, i as int) == b@.subrange(0, i as int),
        decreases la - i,
    {
        let ca = a.get_char(i);
        let cb = b.get_char(i);
        if ca != cb {
            proof {
                lemma_chars_lt_skip(a@, b@, i as int);
                let ra = a@.subrange(i as int, a@.len() as int);
                let rb = b@.subrange(i as int, b@.len() as int);
                assert(ra[0] == ca && rb[0] == cb);
            }
            return (ca as u32) < (cb as u32);
        }
        proof {
            assert(a@.subrange(0, i + 1) =~= a@.subrange(0, i as int).push(ca));
            assert(b@.subrange(0, i + 1) =~= b@.subrange(0, i as int).push(cb));
        }
        i = i + 1;
    }
    proof {
        lemma_chars_lt_skip(a@, b@, i as int);
    }
    i < lb
}

} // verus!
