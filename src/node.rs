//! The error tree: the errors of a value, and under them the trees of its
//! fields and items.
use vstd::prelude::*;
use crate::order::{PathStep, step_lt, str_less, lemma_step_lt_irreflexive,
    lemma_step_lt_transitive, lemma_step_lt_total, lemma_step_lt_asymmetric};
use crate::error::ValidationError;
use crate::text::{PathElement, path_text, steps_text, step_text, report_text, pair_views,
    fmt_step, join_report};
use vstd::string::*;

verus! {

/// Whether `a` comes before `b` among the children of a node.
fn element_less(a: &PathElement, b: &PathElement) -> (r: bool)
    ensures
        r == step_lt(a.step(), b.step()),
{
    match (a, b) {
        (PathElement::Name(x), PathElement::Name(y)) => str_less(x.as_str(), y.as_str()),
        (PathElement::Name(_), PathElement::Index(_)) => true,
        (PathElement::Index(_), PathElement::Name(_)) => false,
        (PathElement::Index(i), PathElement::Index(j)) => *i < *j,
    }
}

/// The errors found in a value: its own ("direct") errors, in the order
/// they were added, and the trees of its fields and items that hold errors.
/// Fields come before items; fields are kept in the order of their names,
/// items in the order of their indices, and a field or item without errors
/// is never kept.
#[derive(Debug)]
pub struct ValidationNode {
    errors: Vec<ValidationError>,
    children: Vec<(PathElement, ValidationNode)>,
}

/// The keys of `es` are in strictly increasing order.
spec fn entries_sorted(es: Seq<(PathElement, ValidationNode)>) -> bool {
    forall|i: int, j: int|
        0 <= i < j < es.len() ==> step_lt(#[trigger] es[i].0.step(), #[trigger] es[j].0.step())
}

/// An index of `es` whose key is `s`, if there is one.
spec fn entry_index(es: Seq<(PathElement, ValidationNode)>, s: PathStep) -> int {
    choose|i: int| 0 <= i < es.len() && #[trigger] es[i].0.step() == s
}

/// The tree kept under `s` in `es`.
spec fn entry_at(es: Seq<(PathElement, ValidationNode)>, s: PathStep) -> Option<ValidationNode> {
    if exists|i: int| 0 <= i < es.len() && #[trigger] es[i].0.step() == s {
        Some(es[entry_index(es, s)].1)
    } else {
        None
    }
}

/// In a sorted list, a key finds its own entry.
proof fn lemma_entry_at(es: Seq<(PathElement, ValidationNode)>, i: int)
    requires
        entries_sorted(es),
        0 <= i < es.len(),
    ensures
        entry_at(es, es[i].0.step()) == Some(es[i].1),
{
    let s = es[i].0.step();
    assert(0 <= i < es.len() && es[i].0.step() == s);
    let j = entry_index(es, s);
    if j != i {
        lemma_step_lt_irreflexive(s);
    }
}

/// In a sorted list, inserting an entry changes only what its own key
/// finds.
proof fn lemma_entries_insert(
    old: Seq<(PathElement, ValidationNode)>,
    new: Seq<(PathElement, ValidationNode)>,
    i: int,
    s: PathStep,
)
    requires
        0 <= i <= old.len(),
        new == old.insert(i, new[i]),
        entries_sorted(old),
        entries_sorted(new),
    ensures
        s == new[i].0.step() ==> entry_at(new, s) == Some(new[i].1),
        s != new[i].0.step() ==> entry_at(new, s) == entry_at(old, s),
{
    lemma_entry_at(new, i);
    if s != new[i].0.step() {
        if exists|j: int| 0 <= j < new.len() && #[trigger] new[j].0.step() == s {
            let j = entry_index(new, s);
            lemma_entry_at(new, j);
            let oj = if j < i { j } else { j - 1 };
            assert(old[oj] == new[j]);
            lemma_entry_at(old, oj);
        }
        if exists|j: int| 0 <= j < old.len() && #[trigger] old[j].0.step() == s {
            let j = entry_index(old, s);
            lemma_entry_at(old, j);
            let nj = if j < i { j } else { j + 1 };
            assert(old[j] == new[nj]);
            lemma_entry_at(new, nj);
        }
    }
}

/// In a sorted list, replacing the tree under a key changes only what that
/// key finds.
proof fn lemma_entries_update(
    old: Seq<(PathElement, ValidationNode)>,
    new: Seq<(PathElement, ValidationNode)>,
    i: int,
    s: PathStep,
)
    requires
        0 <= i < old.len(),
        new == old.update(i, new[i]),
        new[i].0.step() == old[i].0.step(),
        entries_sorted(old),
    ensures
        entries_sorted(new),
        s == new[i].0.step() ==> entry_at(new, s) == Some(new[i].1),
        s != new[i].0.step() ==> entry_at(new, s) == entry_at(old, s),
{
    assert forall|a: int, b: int| 0 <= a < b < new.len() implies step_lt(
        #[trigger] new[a].0.step(),
        #[trigger] new[b].0.step(),
    ) by {
        assert(new[a].0.step() == old[a].0.step() && new[b].0.step() == old[b].0.step());
    }
    lemma_entry_at(new, i);
    if s != new[i].0.step() {
        if exists|j: int| 0 <= j < new.len() && #[trigger] new[j].0.step() == s {
            let j = entry_index(new, s);
            lemma_entry_at(new, j);
            lemma_entry_at(old, j);
        }
        if exists|j: int| 0 <= j < old.len() && #[trigger] old[j].0.step() == s {
            let j = entry_index(old, s);
            lemma_entry_at(old, j);
            lemma_entry_at(new, j);
        }
    }
}

/// Appending no errors, on either side, changes nothing.
proof fn lemma_add_empty(s: Seq<ValidationError>)
    ensures
        s + Seq::<ValidationError>::empty() == s,
        Seq::<ValidationError>::empty() + s == s,
{
    assert(s + Seq::<ValidationError>::empty() =~= s);
    assert(Seq::<ValidationError>::empty() + s =~= s);
}

/// The errors that attaching `c` under `s` adds at `p`.
pub open spec fn attached(
    s: PathStep,
    c: ValidationNode,
    p: Seq<PathStep>,
) -> Seq<ValidationError> {
    if p.len() > 0 && p[0] == s {
        c.errs_at(p.drop_first())
    } else {
        seq![]
    }
}

/// The errors at `p` of the trees in `results` when each hangs under its
/// index.
pub open spec fn indexed_errs(
    results: Seq<ValidationNode>,
    p: Seq<PathStep>,
) -> Seq<ValidationError> {
    if p.len() > 0 && p[0] is Item && p[0]->Item_0 < results.len() {
        results[p[0]->Item_0 as int].errs_at(p.drop_first())
    } else {
        seq![]
    }
}

/// The errors at `p` of the trees in `results` when each hangs under the
/// field name beside it, in this order.
pub open spec fn named_errs(
    names: Seq<Seq<char>>,
    results: Seq<ValidationNode>,
    p: Seq<PathStep>,
) -> Seq<ValidationError>
    decreases results.len(),
{
    if results.len() == 0 || names.len() != results.len() {
        seq![]
    } else {
        named_errs(names.drop_last(), results.drop_last(), p) + attached(
            PathStep::Field(names.last()),
            results.last(),
            p,
        )
    }
}

/// The errors at `p` of `o` that its direct errors and its entries from
/// index `m` on hold.
spec fn rest_errs(o: ValidationNode, m: int, p: Seq<PathStep>) -> Seq<ValidationError> {
    if p.len() == 0 {
        o.errors@
    } else {
        match entry_at(o.children@.subrange(m, o.children@.len() as int), p[0]) {
            Some(c) => c.errs_at(p.drop_first()),
            None => seq![],
        }
    }
}

impl ValidationNode {
    #[verifier::type_invariant]
    spec fn inv(&self) -> bool {
        self.wf()
    }

    pub closed spec fn child_count(&self) -> int {
        self.children@.len() as int
    }

    /// The errors of the value itself, in the order they were added.
    pub closed spec fn direct_errors(&self) -> Seq<ValidationError> {
        self.errors@
    }

    /// No errors, here or below.
    pub closed spec fn spec_is_ok(&self) -> bool {
        self.errors@.len() == 0 && self.children@.len() == 0
    }

    /// Children in increasing key order, each one well formed and holding
    /// errors.
    pub closed spec fn wf(&self) -> bool
        decreases self,
    {
        &&& entries_sorted(self.children@)
        &&& forall|i: int|
            0 <= i < self.children@.len() ==> {
                &&& (#[trigger] self.children@[i]).1.wf()
                &&& !self.children@[i].1.spec_is_ok()
            }
    }

    /// The direct errors of the node that `p` leads to, or none where `p`
    /// leads to no node.
    pub closed spec fn errs_at(&self, p: Seq<PathStep>) -> Seq<ValidationError>
        decreases p.len(),
    {
        if p.len() == 0 {
            self.errors@
        } else {
            match entry_at(self.children@, p[0]) {
                Some(c) => c.errs_at(p.drop_first()),
                None => seq![],
            }
        }
    }

    /// The path to the first error of a traversal that visits a node's
    /// direct errors, then its fields, then its items.
    pub closed spec fn first_path(&self) -> Seq<PathStep>
        decreases self,
    {
        if self.errors@.len() > 0 {
            seq![]
        } else if self.children@.len() > 0 {
            seq![self.children@[0].0.step()] + self.children@[0].1.first_path()
        } else {
            seq![]
        }
    }

    /// The first error of that traversal.
    pub closed spec fn first_error(&self) -> ValidationError
        decreases self,
    {
        if self.errors@.len() > 0 {
            self.errors@[0]
        } else if self.children@.len() > 0 {
            self.children@[0].1.first_error()
        } else {
            arbitrary()
        }
    }

    /// An empty tree has no errors anywhere.
    pub proof fn lemma_ok_has_no_errors(&self, p: Seq<PathStep>)
        requires
            self.spec_is_ok(),
        ensures
            self.errs_at(p) == Seq::<ValidationError>::empty(),
    {
    }

    /// A tree that is not empty has its first error where
    /// [ValidationNode::first_path] leads.
    pub proof fn lemma_first_error_at_first_path(&self)
        requires
            self.wf(),
            !self.spec_is_ok(),
        ensures
            self.errs_at(self.first_path()).len() > 0,
            self.errs_at(self.first_path())[0] == self.first_error(),
        decreases self,
    {
        if self.errors@.len() == 0 {
            let c = self.children@[0];
            c.1.lemma_first_error_at_first_path();
            lemma_entry_at(self.children@, 0);
            let p = self.first_path();
            assert(p[0] == c.0.step());
            assert(p.drop_first() =~= c.1.first_path());
        }
    }

    /// An empty tree: no errors.
    pub fn ok() -> (r: Self)
        ensures
            r.spec_is_ok(),
            r.direct_errors().len() == 0,
    {
        ValidationNode { errors: Vec::new(), children: Vec::new() }
    }

    /// Whether the tree holds no errors at all.
    #[verifier::when_used_as_spec(spec_is_ok)]
    pub fn is_ok(&self) -> (r: bool)
        ensures
            r == self.spec_is_ok(),
    {
        self.errors.len() == 0 && self.children.len() == 0
    }

    /// Attaches `child` under `key`, merged with what is already there.
    fn and_child(self, key: PathElement, child: Self) -> (r: Self)
        ensures
            forall|p: Seq<PathStep>|
                #[trigger] r.errs_at(p) == self.errs_at(p) + attached(key.step(), child, p),
            child.spec_is_ok() ==> r == self,
        decreases child, 1nat,
    {
        proof {
            use_type_invariant(&self);
            use_type_invariant(&child);
        }
        if child.is_ok() {
            proof {
                assert forall|p: Seq<PathStep>|
                    #[trigger] self.errs_at(p)
                        == self.errs_at(p) + attached(key.step(), child, p) by {
                    if p.len() > 0 {
                        child.lemma_ok_has_no_errors(p.drop_first());
                    }
                    lemma_add_empty(self.errs_at(p));
                }
            }
            return self;
        }
        let ghost s0 = self;
        let ghost ks = key.step();
        let ValidationNode { errors, mut children } = self;
        let ghost old_ch = children@;
        let len: usize = children.len();
        let mut i: usize = len;
        while i > 0 && element_less(&key, &children[i - 1].0)
            invariant
                children@ == old_ch,
                len == old_ch.len(),
                i <= len,
                ks == key.step(),
                forall|j: int| i <= j < len ==> step_lt(ks, #[trigger] old_ch[j].0.step()),
            decreases i,
        {
            i = i - 1;
        }
        if i > 0 && !element_less(&children[i - 1].0, &key) {
            let (k, existing) = children.remove(i - 1);
            proof {
                lemma_step_lt_total(k.step(), ks);
                assert(s0.children@[i - 1].1 == existing);
            }
            let merged = existing.merge(child);
            proof {
                use_type_invariant(&merged);
                existing.lemma_first_error_at_first_path();
                let fp = existing.first_path();
                assert(merged.errs_at(fp) == existing.errs_at(fp) + child.errs_at(fp));
                if merged.spec_is_ok() {
                    merged.lemma_ok_has_no_errors(fp);
                }
            }
            children.insert(i - 1, (k, merged));
            proof {
                let new_ch = children@;
                assert(new_ch =~= old_ch.update(i - 1, (k, merged)));
                let r = ValidationNode { errors, children };
                assert forall|p: Seq<PathStep>|
                    #[trigger] r.errs_at(p) == s0.errs_at(p) + attached(ks, child, p) by {
                    if p.len() == 0 {
                        lemma_add_empty(s0.errs_at(p));
                    } else {
                        lemma_entries_update(old_ch, new_ch, i - 1, p[0]);
                        if p[0] == ks {
                            lemma_entry_at(old_ch, i - 1);
                            let q = p.drop_first();
                            assert(old_ch[i - 1].0.step() == ks);
                            assert(entry_at(new_ch, ks) == Some(merged));
                            assert(entry_at(old_ch, ks) == Some(existing));
                            assert(r.errs_at(p) == merged.errs_at(q));
                            assert(s0.errs_at(p) == existing.errs_at(q));
                            assert(attached(ks, child, p) == child.errs_at(q));
                        } else {
                            lemma_add_empty(s0.errs_at(p));
                        }
                    }
                }
                lemma_entries_update(old_ch, new_ch, i - 1, ks);
                assert forall|j: int| 0 <= j < new_ch.len() implies {
                    &&& (#[trigger] new_ch[j]).1.wf()
                    &&& !new_ch[j].1.spec_is_ok()
                } by {
                    if j != i - 1 {
                        assert(new_ch[j] == old_ch[j]);
                    }
                }
            }
            ValidationNode { errors, children }
        } else {
            proof {
                if i > 0 {
                    lemma_step_lt_total(old_ch[i - 1].0.step(), ks);
                }
            }
            children.insert(i, (key, child));
            proof {
                let new_ch = children@;
                assert(new_ch =~= old_ch.insert(i as int, (key, child)));
                assert forall|a: int, b: int| 0 <= a < b < new_ch.len() implies step_lt(
                    #[trigger] new_ch[a].0.step(),
                    #[trigger] new_ch[b].0.step(),
                ) by {
                    if b == i {
                        assert(new_ch[a] == old_ch[a]);
                        if a < i - 1 {
                            lemma_step_lt_transitive(old_ch[a].0.step(), old_ch[i - 1].0.step(),
                                ks);
                        }
                    } else if a == i {
                        assert(new_ch[b] == old_ch[b - 1]);
                    } else if a < i {
                        if b < i {
                            assert(new_ch[a] == old_ch[a] && new_ch[b] == old_ch[b]);
                        } else {
                            assert(new_ch[a] == old_ch[a] && new_ch[b] == old_ch[b - 1]);
                        }
                    } else {
                        assert(new_ch[a] == old_ch[a - 1] && new_ch[b] == old_ch[b - 1]);
                    }
                }
                assert forall|j: int| 0 <= j < new_ch.len() implies {
                    &&& (#[trigger] new_ch[j]).1.wf()
                    &&& !new_ch[j].1.spec_is_ok()
                } by {
                    if j < i {
                        assert(new_ch[j] == old_ch[j]);
                    } else if j > i {
                        assert(new_ch[j] == old_ch[j - 1]);
                    }
                }
                let r = ValidationNode { errors, children };
                assert forall|p: Seq<PathStep>|
                    #[trigger] r.errs_at(p) == s0.errs_at(p) + attached(ks, child, p) by {
                    if p.len() == 0 {
                        lemma_add_empty(s0.errs_at(p));
                    } else {
                        lemma_entries_insert(old_ch, new_ch, i as int, p[0]);
                        if p[0] == ks {
                            if exists|j: int| 0 <= j < old_ch.len()
                                && #[trigger] old_ch[j].0.step() == ks {
                                let j = entry_index(old_ch, ks);
                                if j < i {
                                    if j < i - 1 {
                                        lemma_step_lt_transitive(old_ch[j].0.step(),
                                            old_ch[i - 1].0.step(), ks);
                                    }
                                }
                                lemma_step_lt_irreflexive(ks);
                            }
                            lemma_add_empty(child.errs_at(p.drop_first()));
                        } else {
                            lemma_add_empty(s0.errs_at(p));
                        }
                    }
                }
            }
            ValidationNode { errors, children }
        }
    }

    /// Whether the tree holds at least one error.
    pub fn is_err(&self) -> (r: bool)
        ensures
            r == !self.spec_is_ok(),
    {
        !self.is_ok()
    }

    /// `Ok(())` for a tree without errors, the tree itself otherwise.
    pub fn result(self) -> (r: Result<(), Self>)
        ensures
            self.spec_is_ok() <==> r is Ok,
            r is Err ==> r->Err_0 == self,
    {
        if self.is_ok() {
            Ok(())
        } else {
            Err(self)
        }
    }

    /// A tree with one direct error.
    pub fn error(error: ValidationError) -> (r: Self)
        ensures
            r.direct_errors() == seq![error],
            forall|p: Seq<PathStep>|
                #[trigger] r.errs_at(p) == if p.len() == 0 { seq![error] } else { seq![] },
    {
        let mut errors = Vec::new();
        errors.push(error);
        ValidationNode { errors, children: Vec::new() }
    }

    /// Adds one direct error after the others.
    pub fn and_error(self, error: ValidationError) -> (r: Self)
        ensures
            r.direct_errors() == self.direct_errors().push(error),
            forall|p: Seq<PathStep>| p.len() > 0 ==> #[trigger] r.errs_at(p) == self.errs_at(p),
    {
        proof {
            use_type_invariant(&self);
        }
        let ValidationNode { mut errors, children } = self;
        errors.push(error);
        ValidationNode { errors, children }
    }

    /// A tree with the error that `f` makes if `condition` holds, and an
    /// empty tree otherwise; `f` is called only in the first case.
    pub fn error_if<F: FnOnce() -> ValidationError>(condition: bool, f: F) -> (r: Self)
        requires
            condition ==> f.requires(()),
        ensures
            !condition ==> r.spec_is_ok(),
            condition ==> r.direct_errors().len() == 1 && f.ensures((), r.direct_errors()[0]),
            forall|p: Seq<PathStep>|
                p.len() > 0 ==> #[trigger] r.errs_at(p) == Seq::<ValidationError>::empty(),
    {
        let mut errors = Vec::new();
        if condition {
            errors.push(f());
        }
        ValidationNode { errors, children: Vec::new() }
    }

    /// Adds the error that `f` makes if `condition` holds; `f` is called only
    /// then.
    pub fn and_error_if<F: FnOnce() -> ValidationError>(self, condition: bool, f: F) -> (r: Self)
        requires
            condition ==> f.requires(()),
        ensures
            !condition ==> r == self,
            condition ==> r.direct_errors().len() == self.direct_errors().len() + 1
                && r.direct_errors().drop_last() == self.direct_errors()
                && f.ensures((), r.direct_errors().last()),
            forall|p: Seq<PathStep>| p.len() > 0 ==> #[trigger] r.errs_at(p) == self.errs_at(p),
    {
        if condition {
            let r = self.and_error(f());
            assert(r.direct_errors().drop_last() =~= self.direct_errors());
            r
        } else {
            self
        }
    }

    /// A tree with these direct errors, in this order.
    pub fn errors(errors: Vec<ValidationError>) -> (r: Self)
        ensures
            r.direct_errors() == errors@,
            forall|p: Seq<PathStep>|
                p.len() > 0 ==> #[trigger] r.errs_at(p) == Seq::<ValidationError>::empty(),
    {
        ValidationNode { errors, children: Vec::new() }
    }

    /// Adds these direct errors after the others, in this order.
    pub fn and_errors(self, errors: Vec<ValidationError>) -> (r: Self)
        ensures
            r.direct_errors() == self.direct_errors() + errors@,
            forall|p: Seq<PathStep>| p.len() > 0 ==> #[trigger] r.errs_at(p) == self.errs_at(p),
    {
        proof {
            use_type_invariant(&self);
        }
        let ValidationNode { errors: mut errs, children } = self;
        let mut more = errors;
        errs.append(&mut more);
        ValidationNode { errors: errs, children }
    }

    /// A tree that holds `errors` under the field `name`; an empty tree if
    /// `errors` is empty.
    pub fn field(name: &str, errors: Self) -> (r: Self)
        ensures
            forall|p: Seq<PathStep>|
                #[trigger] r.errs_at(p) == attached(PathStep::Field(name@), errors, p),
            errors.spec_is_ok() ==> r.spec_is_ok(),
    {
        let r = ValidationNode::ok().and_field(name, errors);
        proof {
            assert forall|p: Seq<PathStep>|
                #[trigger] r.errs_at(p) == attached(PathStep::Field(name@), errors, p) by {
                lemma_add_empty(attached(PathStep::Field(name@), errors, p));
            }
        }
        r
    }

    /// Adds `errors` under the field `name`, merged with what the field
    /// already holds; returns `self` unchanged if `errors` is empty.
    pub fn and_field(self, name: &str, errors: Self) -> (r: Self)
        ensures
            forall|p: Seq<PathStep>|
                #[trigger] r.errs_at(p)
                    == self.errs_at(p) + attached(PathStep::Field(name@), errors, p),
            errors.spec_is_ok() ==> r == self,
    {
        self.and_child(PathElement::Name(String::from_str(name)), errors)
    }

    /// A tree that holds `errors` under the item `index`; an empty tree if
    /// `errors` is empty.
    pub fn item(index: usize, errors: Self) -> (r: Self)
        ensures
            forall|p: Seq<PathStep>|
                #[trigger] r.errs_at(p) == attached(PathStep::Item(index as nat), errors, p),
            errors.spec_is_ok() ==> r.spec_is_ok(),
    {
        let r = ValidationNode::ok().and_item(index, errors);
        proof {
            assert forall|p: Seq<PathStep>|
                #[trigger] r.errs_at(p) == attached(PathStep::Item(index as nat), errors, p) by {
                lemma_add_empty(attached(PathStep::Item(index as nat), errors, p));
            }
        }
        r
    }

    /// Adds `errors` under the item `index`, merged with what the item
    /// already holds; returns `self` unchanged if `errors` is empty.
    pub fn and_item(self, index: usize, errors: Self) -> (r: Self)
        ensures
            forall|p: Seq<PathStep>|
                #[trigger] r.errs_at(p)
                    == self.errs_at(p) + attached(PathStep::Item(index as nat), errors, p),
            errors.spec_is_ok() ==> r == self,
    {
        self.and_child(PathElement::Index(index), errors)
    }

    /// Collects, for each item of `items` at its index, the tree that `f`
    /// makes of index and item.
    pub fn items<T, F: Fn(usize, &T) -> ValidationNode>(items: &[T], f: F) -> (r: Self)
        requires
            forall|i: int|
                0 <= i < items@.len() ==> f.requires((i as usize, #[trigger] &items@[i])),
        ensures
            exists|results: Seq<ValidationNode>|
                {
                    &&& results.len() == items@.len()
                    &&& forall|i: int|
                        0 <= i < items@.len()
                            ==> f.ensures((i as usize, &items@[i]), #[trigger] results[i])
                    &&& forall|p: Seq<PathStep>| #[trigger] r.errs_at(p) == indexed_errs(results, p)
                },
    {
        let mut r = ValidationNode::ok();
        let ghost mut results: Seq<ValidationNode> = seq![];
        let n: usize = items.len();
        let mut i: usize = 0;
        proof {
            assert forall|p: Seq<PathStep>| #[trigger] r.errs_at(p) == indexed_errs(results, p) by {
                r.lemma_ok_has_no_errors(p);
            }
        }
        while i < n
            invariant
                n == items@.len(),
                i <= n,
                results.len() == i,
                forall|j: int|
                    0 <= j < items@.len() ==> f.requires((j as usize, #[trigger] &items@[j])),
                forall|j: int|
                    0 <= j < i ==> f.ensures((j as usize, &items@[j]), #[trigger] results[j]),
                forall|p: Seq<PathStep>| #[trigger] r.errs_at(p) == indexed_errs(results, p),
            decreases n - i,
        {
            let node = f(i, &items[i]);
            let ghost r0 = r;
            let ghost res0 = results;
            r = r.and_item(i, node);
            proof {
                results = results.push(node);
                assert forall|p: Seq<PathStep>|
                    #[trigger] r.errs_at(p) == indexed_errs(results, p) by {
                    assert(r.errs_at(p)
                        == r0.errs_at(p) + attached(PathStep::Item(i as nat), node, p));
                    assert(r0.errs_at(p) == indexed_errs(res0, p));
                    if p.len() > 0 && p[0] == PathStep::Item(i as nat) {
                        lemma_add_empty(node.errs_at(p.drop_first()));
                    } else {
                        if p.len() > 0 && p[0] is Item && p[0]->Item_0 < results.len() {
                            assert(results[p[0]->Item_0 as int] == res0[p[0]->Item_0 as int]);
                        }
                        lemma_add_empty(r0.errs_at(p));
                    }
                }
            }
            i = i + 1;
        }
        r
    }

    /// Adds the trees that [ValidationNode::items] collects.
    pub fn and_items<T, F: Fn(usize, &T) -> ValidationNode>(self, items: &[T], f: F) -> (r: Self)
        requires
            forall|i: int|
                0 <= i < items@.len() ==> f.requires((i as usize, #[trigger] &items@[i])),
        ensures
            exists|results: Seq<ValidationNode>|
                {
                    &&& results.len() == items@.len()
                    &&& forall|i: int|
                        0 <= i < items@.len()
                            ==> f.ensures((i as usize, &items@[i]), #[trigger] results[i])
                    &&& forall|p: Seq<PathStep>|
                        #[trigger] r.errs_at(p) == self.errs_at(p) + indexed_errs(results, p)
                },
    {
        let collected = ValidationNode::items(items, f);
        let r = self.merge(collected);
        proof {
            let results = choose|results: Seq<ValidationNode>|
                {
                    &&& results.len() == items@.len()
                    &&& forall|i: int|
                        0 <= i < items@.len()
                            ==> f.ensures((i as usize, &items@[i]), #[trigger] results[i])
                    &&& forall|p: Seq<PathStep>|
                        #[trigger] collected.errs_at(p) == indexed_errs(results, p)
                };
            assert forall|p: Seq<PathStep>|
                #[trigger] r.errs_at(p) == self.errs_at(p) + indexed_errs(results, p) by {
                assert(collected.errs_at(p) == indexed_errs(results, p));
            }
        }
        r
    }

    /// Collects, for each pair of `entries`, the tree that `f` makes of key
    /// and value, under the key written with `Display`; a key is written
    /// only when its tree holds errors.
    pub fn fields<K: std::fmt::Display, V, F: Fn(&K, &V) -> ValidationNode>(
        entries: &[(K, V)],
        f: F,
    ) -> (r: Self)
        requires
            forall|i: int|
                0 <= i < entries@.len() ==> f.requires((#[trigger] &entries@[i].0, &entries@[i].1)),
        ensures
            exists|names: Seq<Seq<char>>, results: Seq<ValidationNode>|
                {
                    &&& results.len() == entries@.len()
                    &&& names.len() == entries@.len()
                    &&& forall|i: int|
                        0 <= i < entries@.len()
                            ==> f.ensures((&entries@[i].0, &entries@[i].1), #[trigger] results[i])
                    &&& forall|i: int|
                        0 <= i < entries@.len() && !(#[trigger] results[i]).spec_is_ok()
                            ==> exists|s: String|
                            s@ == names[i] && to_string_from_display_ensures::<K>(&entries@[i].0, s)
                    &&& forall|p: Seq<PathStep>|
                        #[trigger] r.errs_at(p) == named_errs(names, results, p)
                },
    {
        let mut r = ValidationNode::ok();
        let ghost mut results: Seq<ValidationNode> = seq![];
        let ghost mut names: Seq<Seq<char>> = seq![];
        let n: usize = entries.len();
        let mut i: usize = 0;
        proof {
            assert forall|p: Seq<PathStep>|
                #[trigger] r.errs_at(p) == named_errs(names, results, p) by {
                r.lemma_ok_has_no_errors(p);
            }
        }
        while i < n
            invariant
                n == entries@.len(),
                i <= n,
                results.len() == i,
                names.len() == i,
                forall|j: int|
                    0 <= j < entries@.len()
                        ==> f.requires((#[trigger] &entries@[j].0, &entries@[j].1)),
                forall|j: int|
                    0 <= j < i
                        ==> f.ensures((&entries@[j].0, &entries@[j].1), #[trigger] results[j]),
                forall|j: int|
                    0 <= j < i && !(#[trigger] results[j]).spec_is_ok() ==> exists|s: String|
                        s@ == names[j] && to_string_from_display_ensures::<K>(&entries@[j].0, s),
                forall|p: Seq<PathStep>| #[trigger] r.errs_at(p) == named_errs(names, results, p),
            decreases n - i,
        {
            let entry = &entries[i];
            let node = f(&entry.0, &entry.1);
            let ghost r0 = r;
            let ghost res0 = results;
            let ghost names0 = names;
            if node.is_err() {
                let key = entry.0.to_string();
                r = r.and_field(key.as_str(), node);
                proof {
                    names = names.push(key@);
                }
            } else {
                proof {
                    names = names.push(Seq::<char>::empty());
                    assert forall|p: Seq<PathStep>|
                        #[trigger] attached(PathStep::Field(Seq::<char>::empty()), node, p)
                            == Seq::<ValidationError>::empty() by {
                        if p.len() > 0 {
                            node.lemma_ok_has_no_errors(p.drop_first());
                        }
                    }
                }
            }
            proof {
                results = results.push(node);
                assert(results.drop_last() =~= res0);
                assert(names.drop_last() =~= names0);
                assert forall|p: Seq<PathStep>|
                    #[trigger] r.errs_at(p) == named_errs(names, results, p) by {
                    assert(named_errs(names, results, p) == named_errs(names0, res0, p) + attached(
                        PathStep::Field(names.last()),
                        node,
                        p,
                    ));
                    if node.spec_is_ok() {
                        assert(attached(PathStep::Field(names.last()), node, p)
                            == Seq::<ValidationError>::empty());
                        lemma_add_empty(r0.errs_at(p));
                    }
                }
                assert forall|j: int|
                    0 <= j < i + 1
                        && !(#[trigger] results[j]).spec_is_ok() implies exists|s: String|
                        s@ == names[j] && to_string_from_display_ensures::<K>(&entries@[j].0,
                            s) by {
                    if j < i {
                        assert(results[j] == res0[j] && names[j] == names0[j]);
                    }
                }
            }
            i = i + 1;
        }
        r
    }

    /// Adds the trees that [ValidationNode::fields] collects.
    pub fn and_fields<K: std::fmt::Display, V, F: Fn(&K, &V) -> ValidationNode>(
        self,
        entries: &[(K, V)],
        f: F,
    ) -> (r: Self)
        requires
            forall|i: int|
                0 <= i < entries@.len() ==> f.requires((#[trigger] &entries@[i].0, &entries@[i].1)),
        ensures
            exists|names: Seq<Seq<char>>, results: Seq<ValidationNode>|
                {
                    &&& results.len() == entries@.len()
                    &&& names.len() == entries@.len()
                    &&& forall|i: int|
                        0 <= i < entries@.len()
                            ==> f.ensures((&entries@[i].0, &entries@[i].1), #[trigger] results[i])
                    &&& forall|i: int|
                        0 <= i < entries@.len() && !(#[trigger] results[i]).spec_is_ok()
                            ==> exists|s: String|
                            s@ == names[i] && to_string_from_display_ensures::<K>(&entries@[i].0, s)
                    &&& forall|p: Seq<PathStep>|
                        #[trigger] r.errs_at(p) == self.errs_at(p) + named_errs(names, results, p)
                },
    {
        let collected = ValidationNode::fields(entries, f);
        let r = self.merge(collected);
        proof {
            let (names, results) = choose|names: Seq<Seq<char>>, results: Seq<ValidationNode>|
                {
                    &&& results.len() == entries@.len()
                    &&& names.len() == entries@.len()
                    &&& forall|i: int|
                        0 <= i < entries@.len()
                            ==> f.ensures((&entries@[i].0, &entries@[i].1), #[trigger] results[i])
                    &&& forall|i: int|
                        0 <= i < entries@.len() && !(#[trigger] results[i]).spec_is_ok()
                            ==> exists|s: String|
                            s@ == names[i] && to_string_from_display_ensures::<K>(&entries@[i].0, s)
                    &&& forall|p: Seq<PathStep>|
                        #[trigger] collected.errs_at(p) == named_errs(names, results, p)
                };
            assert forall|p: Seq<PathStep>|
                #[trigger] r.errs_at(p) == self.errs_at(p) + named_errs(names, results, p) by {
                assert(collected.errs_at(p) == named_errs(names, results, p));
            }
        }
        r
    }

    /// Keeps only the first error of the traversal: the first direct error
    /// if there is one (and nothing else), otherwise the reduced first
    /// field, otherwise the reduced first item; an empty tree stays empty.
    pub fn first(self) -> (r: Self)
        ensures
            self.direct_errors().len() > 0 ==> r.direct_errors() == seq![self.direct_errors()[0]]
                && r.child_count() == 0,
            self.spec_is_ok() ==> r.spec_is_ok(),
            !self.spec_is_ok() ==> forall|p: Seq<PathStep>|
                #[trigger] r.errs_at(p) == if p == self.first_path() {
                seq![self.first_error()]
            } else {
                Seq::<ValidationError>::empty()
            },
        decreases self,
    {
        proof {
            use_type_invariant(&self);
        }
        let ghost s0 = self;
        let ValidationNode { mut errors, mut children } = self;
        if errors.len() > 0 {
            errors.truncate(1);
            let r = ValidationNode { errors, children: Vec::new() };
            proof {
                assert(r.errors@ =~= seq![s0.errors@[0]]);
                assert forall|p: Seq<PathStep>| #[trigger] r.errs_at(p) == if p == s0.first_path() {
                    seq![s0.first_error()]
                } else {
                    Seq::<ValidationError>::empty()
                } by {
                    if p.len() == 0 {
                        assert(p =~= s0.first_path());
                    }
                }
            }
            r
        } else if children.len() > 0 {
            let (k, c) = children.remove(0);
            proof {
                assert(s0.children@[0] == (k, c));
                assert(decreases_to!(s0 => s0.children));
                assert(decreases_to!(s0.children => s0.children@[0]));
                assert(decreases_to!(s0 => c));
            }
            proof {
                assert(s0.children@[0].1.wf() && !s0.children@[0].1.spec_is_ok());
                assert(!c.spec_is_ok());
            }
            let fc = c.first();
            proof {
                use_type_invariant(&fc);
                assert(fc.errs_at(c.first_path()) == seq![c.first_error()]);
                if fc.spec_is_ok() {
                    fc.lemma_ok_has_no_errors(c.first_path());
                }
                assert(!fc.spec_is_ok());
            }
            let mut one = Vec::new();
            one.push((k, fc));
            proof {
                assert(one@ =~= seq![(k, fc)]);
                assert(entries_sorted(one@));
            }
            let r = ValidationNode { errors, children: one };
            proof {
                assert forall|p: Seq<PathStep>| #[trigger] r.errs_at(p) == if p == s0.first_path() {
                    seq![s0.first_error()]
                } else {
                    Seq::<ValidationError>::empty()
                } by {
                    let fp = s0.first_path();
                    assert(s0.errors@.len() == 0);
                    assert(fp == seq![k.step()] + c.first_path());
                    assert(s0.first_error() == c.first_error());
                    if p.len() == 0 {
                        assert(p != fp);
                    } else {
                        lemma_entry_at(r.children@, 0);
                        let q = p.drop_first();
                        if p[0] == k.step() {
                            assert(entry_at(r.children@, p[0]) == Some(fc));
                            assert(r.errs_at(p) == fc.errs_at(q));
                            if q == c.first_path() {
                                assert(p =~= fp);
                            } else {
                                assert(fp.drop_first() =~= c.first_path());
                                assert(p != fp);
                            }
                        } else {
                            if exists|j: int| 0 <= j < r.children@.len()
                                && #[trigger] r.children@[j].0.step() == p[0] {
                                assert(false);
                            }
                            assert(p[0] != fp[0]);
                        }
                    }
                }
            }
            r
        } else {
            ValidationNode { errors, children }
        }
    }

    /// The lines of the report for the subtree at `path`: a pair of path
    /// text and error text for each direct error, then the lines of each
    /// field in the order of their names, then those of each item in the
    /// order of their indices.
    pub closed spec fn lines(&self, path: Seq<PathStep>) -> Seq<(Seq<char>, Seq<char>)>
        decreases self, self.child_count() + 1,
    {
        self.errors@.map_values(|e: ValidationError| (path_text(path), e.text()))
            + self.child_lines(path, self.child_count())
    }

    /// The lines of the first `n` children.
    spec fn child_lines(&self, path: Seq<PathStep>, n: int) -> Seq<(Seq<char>, Seq<char>)>
        decreases self, n,
    {
        if n <= 0 || n > self.child_count() {
            seq![]
        } else {
            proof {
                assert(decreases_to!(self => self.children));
            }
            self.child_lines(path, n - 1) + self.children@[n - 1].1.lines(
                path.push(self.children@[n - 1].0.step()),
            )
        }
    }

    /// The lines of the whole report, in the order of the traversal.
    pub open spec fn report_lines(&self) -> Seq<(Seq<char>, Seq<char>)> {
        self.lines(seq![])
    }

    /// Appends the lines of this subtree, at `path`, whose text is `prefix`.
    fn collect_lines(
        &self,
        path: Ghost<Seq<PathStep>>,
        prefix: &String,
        at_root: bool,
        out: &mut Vec<(String, String)>,
    )
        requires
            prefix@ == steps_text(path@),
            at_root == (path@.len() == 0),
        ensures
            pair_views(final(out)@) == pair_views(old(out)@) + self.lines(path@),
        decreases self,
    {
        proof {
            reveal_strlit(".");
        }
        let here = if at_root {
            String::from_str(".")
        } else {
            prefix.clone()
        };
        assert(here@ == path_text(path@));
        let ghost start = pair_views(out@);
        let ghost el = self.errors@.map_values(|e: ValidationError| (path_text(path@), e.text()));
        let n: usize = self.errors.len();
        let mut j: usize = 0;
        while j < n
            invariant
                n == self.errors@.len(),
                j <= n,
                here@ == path_text(path@),
                el == self.errors@.map_values(|e: ValidationError| (path_text(path@), e.text())),
                pair_views(out@) == start + el.subrange(0, j as int),
            decreases n - j,
        {
            let t = self.errors[j].to_text();
            let h = here.clone();
            let ghost before = out@;
            out.push((h, t));
            proof {
                assert(el[j as int] == (path_text(path@), self.errors@[j as int].text()));
                assert(pair_views(out@) =~= pair_views(before).push((h@, t@)));
                assert(pair_views(out@) =~= start + el.subrange(0, j + 1));
            }
            j = j + 1;
        }
        assert(el.subrange(0, n as int) =~= el);
        let m: usize = self.children.len();
        let mut k: usize = 0;
        while k < m
            invariant
                m == self.children@.len(),
                k <= m,
                prefix@ == steps_text(path@),
                at_root == (path@.len() == 0),
                pair_views(out@) == start + el + self.child_lines(path@, k as int),
            decreases m - k,
        {
            let entry = &self.children[k];
            let ghost step = entry.0.step();
            let mut child_prefix = prefix.clone();
            fmt_step(&entry.0, at_root, &mut child_prefix);
            let ghost child_path = path@.push(step);
            proof {
                assert(child_path.drop_last() =~= path@);
                assert(child_prefix@ =~= steps_text(path@) + step_text(step, path@.len() == 0));
                assert(decreases_to!(self => self.children));
                assert(decreases_to!(self.children => self.children@[k as int]));
            }
            entry.1.collect_lines(Ghost(child_path), &child_prefix, false, out);
            assert(pair_views(out@) =~= start + el + self.child_lines(path@, k + 1));
            k = k + 1;
        }
    }

    /// The report as pairs of path and error description, one pair for each
    /// direct error anywhere in the tree, in the order of the traversal.
    pub fn to_pairs(&self) -> (r: Vec<(String, String)>)
        ensures
            pair_views(r@) == self.report_lines(),
    {
        let mut out = Vec::new();
        let root = String::new();
        self.collect_lines(Ghost(Seq::empty()), &root, true, &mut out);
        assert(pair_views(out@) =~= self.report_lines());
        out
    }

    /// The report: one line `path: error` for each direct error anywhere in
    /// the tree, in the order of the traversal, joined by newlines; empty for
    /// a tree without errors.
    pub fn to_string(&self) -> (r: String)
        ensures
            r@ == report_text(self.report_lines()),
    {
        let pairs = self.to_pairs();
        join_report(&pairs)
    }

    /// Adds the errors of `other` to those of `self`, recursively: the
    /// direct errors of `other` follow those of `self`, and a field or item
    /// that both trees hold gets the merge of both subtrees.
    pub fn merge(self, other: Self) -> (r: Self)
        ensures
            forall|p: Seq<PathStep>| #[trigger] r.errs_at(p) == self.errs_at(p) + other.errs_at(p),
        decreases other, 0nat,
    {
        proof {
            use_type_invariant(&self);
            use_type_invariant(&other);
        }
        let ghost s0 = self;
        let ghost o0 = other;
        let ValidationNode { errors: mut errs, children } = self;
        let ValidationNode { errors: mut other_errs, children: mut other_ch } = other;
        errs.append(&mut other_errs);
        let mut r = ValidationNode { errors: errs, children };
        let ghost oc = o0.children@;
        proof {
            assert forall|p: Seq<PathStep>|
                #[trigger] r.errs_at(p) == s0.errs_at(p) + rest_errs(o0, oc.len() as int, p) by {
                if p.len() > 0 {
                    assert(oc.subrange(oc.len() as int, oc.len() as int)
                        =~= Seq::<(PathElement, ValidationNode)>::empty());
                    lemma_add_empty(s0.errs_at(p));
                }
            }
        }
        while other_ch.len() > 0
            invariant
                oc == o0.children@,
                o0 == other,
                other_ch@ == oc.subrange(0, other_ch@.len() as int),
                other_ch@.len() <= oc.len(),
                o0.wf(),
                forall|p: Seq<PathStep>|
                    #[trigger] r.errs_at(p)
                        == s0.errs_at(p) + rest_errs(o0, other_ch@.len() as int, p),
            decreases other_ch@.len(),
        {
            let ghost m = other_ch@.len() as int;
            let entry = other_ch.pop();
            let (k, c) = match entry {
                Some(e) => e,
                None => {
                    assert(false);
                    return r;
                },
            };
            proof {
                assert(oc[m - 1] == (k, c));
                assert(decreases_to!(o0 => o0.children));
                assert(decreases_to!(o0.children => o0.children@[m - 1]));
                assert(decreases_to!(o0 => c));
                assert(decreases_to!(o0, 0nat => c, 1nat));
            }
            let ghost r0 = r;
            r = r.and_child(k, c);
            proof {
                let tail = oc.subrange(m, oc.len() as int);
                let tail1 = oc.subrange(m - 1, oc.len() as int);
                assert(tail1 =~= tail.insert(0, (k, c)));
                assert(entries_sorted(tail)) by {
                    assert forall|a: int, b: int| 0 <= a < b < tail.len() implies step_lt(
                        #[trigger] tail[a].0.step(),
                        #[trigger] tail[b].0.step(),
                    ) by {
                        assert(tail[a] == oc[a + m] && tail[b] == oc[b + m]);
                    }
                }
                assert(entries_sorted(tail1)) by {
                    assert forall|a: int, b: int| 0 <= a < b < tail1.len() implies step_lt(
                        #[trigger] tail1[a].0.step(),
                        #[trigger] tail1[b].0.step(),
                    ) by {
                        assert(tail1[a] == oc[a + m - 1] && tail1[b] == oc[b + m - 1]);
                    }
                }
                assert forall|p: Seq<PathStep>|
                    #[trigger] r.errs_at(p) == s0.errs_at(p) + rest_errs(o0, m - 1, p) by {
                    assert(r.errs_at(p) == r0.errs_at(p) + attached(k.step(), c, p));
                    if p.len() == 0 {
                        lemma_add_empty(r0.errs_at(p));
                    } else {
                        lemma_entries_insert(tail, tail1, 0, p[0]);
                        if p[0] == k.step() {
                            if exists|j: int| 0 <= j < tail.len() && #[trigger] tail[j].0.step()
                                == p[0] {
                                let j = entry_index(tail, p[0]);
                                assert(tail1[j + 1] == tail[j]);
                                lemma_step_lt_irreflexive(p[0]);
                            }
                            assert(s0.errs_at(p) + Seq::<ValidationError>::empty()
                                + c.errs_at(p.drop_first())
                                    =~= s0.errs_at(p) + c.errs_at(p.drop_first()));
                        } else {
                            lemma_add_empty(r0.errs_at(p));
                        }
                    }
                }
            }
        }
        proof {
            assert forall|p: Seq<PathStep>|
                #[trigger] r.errs_at(p) == s0.errs_at(p) + o0.errs_at(p) by {
                assert(oc.subrange(0, oc.len() as int) =~= oc);
            }
        }
        r
    }

}


/// `r` holds, at every path, the errors of `a` followed by those of `b`:
/// what [ValidationNode::merge] returns.
pub open spec fn merged(a: ValidationNode, b: ValidationNode, r: ValidationNode) -> bool {
    forall|p: Seq<PathStep>| #[trigger] r.errs_at(p) == a.errs_at(p) + b.errs_at(p)
}

/// `r` is `base` with `x` attached under `s`: what
/// [ValidationNode::and_field] and [ValidationNode::and_item] return.
pub open spec fn attached_to(base: ValidationNode, s: PathStep, x: ValidationNode,
    r: ValidationNode) -> bool {
    forall|p: Seq<PathStep>| #[trigger] r.errs_at(p) == base.errs_at(p) + attached(s, x, p)
}

/// Some entry of `es` has the key `s`.
spec fn has_key(es: Seq<(PathElement, ValidationNode)>, s: PathStep) -> bool {
    exists|i: int| 0 <= i < es.len() && #[trigger] es[i].0.step() == s
}

/// Two sorted key lists that hold the same keys are the same list.
proof fn lemma_sorted_same_keys(xs: Seq<(PathElement, ValidationNode)>, ys: Seq<(PathElement,
    ValidationNode)>)
    requires
        entries_sorted(xs),
        entries_sorted(ys),
        forall|s: PathStep| #[trigger] has_key(xs, s) <==> has_key(ys, s),
    ensures
        xs.len() == ys.len(),
        forall|i: int| 0 <= i < xs.len() ==> #[trigger] xs[i].0.step() == ys[i].0.step(),
    decreases xs.len(),
{
    if xs.len() == 0 {
        if ys.len() > 0 {
            let s = ys[0].0.step();
            assert(0 <= 0 < ys.len() && ys[0].0.step() == s);
            assert(has_key(ys, s));
            assert(!has_key(xs, s));
        }
    } else if ys.len() == 0 {
        let s = xs[0].0.step();
        assert(0 <= 0 < xs.len() && xs[0].0.step() == s);
        assert(has_key(xs, s));
        assert(!has_key(ys, s));
    } else {
        let hx = xs[0].0.step();
        let hy = ys[0].0.step();
        assert(0 <= 0 < xs.len() && xs[0].0.step() == hx);
        assert(0 <= 0 < ys.len() && ys[0].0.step() == hy);
        assert(has_key(xs, hx) && has_key(ys, hy));
        assert(has_key(ys, hx) && has_key(xs, hy));
        let j = choose|j: int| 0 <= j < ys.len() && #[trigger] ys[j].0.step() == hx;
        let i = choose|i: int| 0 <= i < xs.len() && #[trigger] xs[i].0.step() == hy;
        if hx != hy {
            assert(j > 0 && i > 0);
            assert(step_lt(ys[0].0.step(), ys[j].0.step()));
            assert(step_lt(xs[0].0.step(), xs[i].0.step()));
            lemma_step_lt_asymmetric(hx, hy);
        }
        let tx = xs.drop_first();
        let ty = ys.drop_first();
        assert forall|s: PathStep| #[trigger] has_key(tx, s) <==> has_key(ty, s) by {
            if has_key(tx, s) {
                let i = choose|i: int| 0 <= i < tx.len() && #[trigger] tx[i].0.step() == s;
                assert(xs[i + 1].0.step() == s);
                assert(step_lt(hx, s));
                assert(has_key(xs, s));
                let j = choose|j: int| 0 <= j < ys.len() && #[trigger] ys[j].0.step() == s;
                if j == 0 {
                    lemma_step_lt_irreflexive(s);
                }
                assert(ty[j - 1].0.step() == s);
                assert(has_key(ty, s));
            }
            if has_key(ty, s) {
                let j = choose|j: int| 0 <= j < ty.len() && #[trigger] ty[j].0.step() == s;
                assert(ys[j + 1].0.step() == s);
                assert(step_lt(hy, s));
                assert(has_key(ys, s));
                assert(has_key(xs, s));
                let i = choose|i: int| 0 <= i < xs.len() && #[trigger] xs[i].0.step() == s;
                if i == 0 {
                    lemma_step_lt_irreflexive(s);
                }
                assert(tx[i - 1].0.step() == s);
                assert(has_key(tx, s));
            }
        }
        lemma_sorted_same_keys(tx, ty);
        assert forall|i: int|
            0 <= i < xs.len() implies #[trigger] xs[i].0.step() == ys[i].0.step() by {
            if i > 0 {
                assert(tx[i - 1] == xs[i] && ty[i - 1] == ys[i]);
            }
        }
    }
}

impl ValidationNode {
    /// The same shape: the same direct errors, the same keys in the same
    /// order, and subtrees of the same shape under them.
    pub closed spec fn same_tree(&self, other: &Self) -> bool
        decreases self,
    {
        &&& self.errors@ == other.errors@
        &&& self.children@.len() == other.children@.len()
        &&& forall|i: int|
            0 <= i < self.children@.len() ==> {
                &&& (#[trigger] self.children@[i]).0.step() == other.children@[i].0.step()
                &&& self.children@[i].1.same_tree(&other.children@[i].1)
            }
    }

    /// A tree is kept in one form only: two trees with the same errors at
    /// every path have the same shape.
    pub proof fn lemma_canonical(&self, other: &Self)
        requires
            self.wf(),
            other.wf(),
            forall|p: Seq<PathStep>| #[trigger] self.errs_at(p) == other.errs_at(p),
        ensures
            self.same_tree(other),
        decreases self,
    {
        assert(self.errs_at(seq![]) == other.errs_at(seq![]));
        let xs = self.children@;
        let ys = other.children@;
        assert forall|s: PathStep| #[trigger] has_key(xs, s) <==> has_key(ys, s) by {
            if has_key(xs, s) {
                let i = choose|i: int| 0 <= i < xs.len() && #[trigger] xs[i].0.step() == s;
                lemma_entry_at(xs, i);
                let c = xs[i].1;
                c.lemma_first_error_at_first_path();
                let p = seq![s] + c.first_path();
                assert(p.drop_first() =~= c.first_path());
                assert(self.errs_at(p) == other.errs_at(p));
                if !has_key(ys, s) {
                    assert(entry_at(ys, s) is None);
                }
            }
            if has_key(ys, s) {
                let j = choose|j: int| 0 <= j < ys.len() && #[trigger] ys[j].0.step() == s;
                lemma_entry_at(ys, j);
                let c = ys[j].1;
                c.lemma_first_error_at_first_path();
                let p = seq![s] + c.first_path();
                assert(p.drop_first() =~= c.first_path());
                assert(self.errs_at(p) == other.errs_at(p));
                if !has_key(xs, s) {
                    assert(entry_at(xs, s) is None);
                }
            }
        }
        lemma_sorted_same_keys(xs, ys);
        assert forall|i: int| 0 <= i < xs.len() implies {
            &&& (#[trigger] xs[i]).0.step() == ys[i].0.step()
            &&& xs[i].1.same_tree(&ys[i].1)
        } by {
            let s = xs[i].0.step();
            lemma_entry_at(xs, i);
            lemma_entry_at(ys, i);
            let a = xs[i].1;
            let b = ys[i].1;
            assert forall|q: Seq<PathStep>| #[trigger] a.errs_at(q) == b.errs_at(q) by {
                let p = seq![s] + q;
                assert(p.drop_first() =~= q);
                assert(self.errs_at(p) == other.errs_at(p));
            }
            assert(decreases_to!(self => self.children));
            a.lemma_canonical(&b);
        }
    }

    /// Trees of the same shape have the same report lines.
    proof fn lemma_same_lines(&self, other: &Self, path: Seq<PathStep>)
        requires
            self.same_tree(other),
        ensures
            self.lines(path) == other.lines(path),
        decreases self, self.child_count() + 1,
    {
        self.lemma_same_child_lines(other, path, self.child_count());
    }

    proof fn lemma_same_child_lines(&self, other: &Self, path: Seq<PathStep>, n: int)
        requires
            self.same_tree(other),
        ensures
            self.child_lines(path, n) == other.child_lines(path, n),
        decreases self, n,
    {
        if 0 < n <= self.child_count() {
            self.lemma_same_child_lines(other, path, n - 1);
            let step = self.children@[n - 1].0.step();
            assert(decreases_to!(self => self.children));
            self.children@[n - 1].1.lemma_same_lines(&other.children@[n - 1].1, path.push(step));
        }
    }

    /// Merging with an empty tree, on either side, gives back the other
    /// tree: the same errors everywhere, and the same shape.
    pub proof fn lemma_merge_identity(e: Self, x: Self, left: Self, right: Self)
        requires
            e.spec_is_ok(),
            x.wf(),
            left.wf(),
            right.wf(),
            merged(e, x, left),
            merged(x, e, right),
        ensures
            left.same_tree(&x),
            right.same_tree(&x),
    {
        assert forall|p: Seq<PathStep>| #[trigger] left.errs_at(p) == x.errs_at(p) by {
            e.lemma_ok_has_no_errors(p);
            lemma_add_empty(x.errs_at(p));
        }
        assert forall|p: Seq<PathStep>| #[trigger] right.errs_at(p) == x.errs_at(p) by {
            e.lemma_ok_has_no_errors(p);
            lemma_add_empty(x.errs_at(p));
        }
        left.lemma_canonical(&x);
        right.lemma_canonical(&x);
    }

    /// Merging is associative: `(a + b) + c` and `a + (b + c)` hold the same
    /// errors everywhere, in the same order, and have the same shape.
    pub proof fn lemma_merge_associative(
        a: Self,
        b: Self,
        c: Self,
        ab: Self,
        ab_c: Self,
        bc: Self,
        a_bc: Self,
    )
        requires
            ab_c.wf(),
            a_bc.wf(),
            merged(a, b, ab),
            merged(ab, c, ab_c),
            merged(b, c, bc),
            merged(a, bc, a_bc),
        ensures
            forall|p: Seq<PathStep>| #[trigger] ab_c.errs_at(p) == a_bc.errs_at(p),
            ab_c.same_tree(&a_bc),
    {
        assert forall|p: Seq<PathStep>| #[trigger] ab_c.errs_at(p) == a_bc.errs_at(p) by {
            assert(ab_c.errs_at(p) == ab.errs_at(p) + c.errs_at(p));
            assert(a_bc.errs_at(p) == a.errs_at(p) + bc.errs_at(p));
            assert(a.errs_at(p) + b.errs_at(p) + c.errs_at(p)
                =~= a.errs_at(p) + (b.errs_at(p) + c.errs_at(p)));
        }
        ab_c.lemma_canonical(&a_bc);
    }

    /// Attaching two trees under the same key merges them there: the
    /// subtree under that key holds the errors of the first, then those of
    /// the second.
    pub proof fn lemma_same_key_merges(base: Self, s: PathStep, x: Self, y: Self, r1: Self,
        r2: Self)
        requires
            base.spec_is_ok(),
            attached_to(base, s, x, r1),
            attached_to(r1, s, y, r2),
        ensures
            forall|q: Seq<PathStep>|
                #[trigger] r2.errs_at(seq![s] + q) == x.errs_at(q) + y.errs_at(q),
    {
        assert forall|q: Seq<PathStep>|
            #[trigger] r2.errs_at(seq![s] + q) == x.errs_at(q) + y.errs_at(q) by {
            let p = seq![s] + q;
            assert(p.drop_first() =~= q);
            base.lemma_ok_has_no_errors(p);
            assert(r1.errs_at(p) == base.errs_at(p) + attached(s, x, p));
            lemma_add_empty(x.errs_at(q));
        }
    }

    /// The order in which trees are attached under two different keys does
    /// not change the report: fields are reported in the order of their
    /// names and items in the order of their indices, whatever the order in
    /// which they were added.
    pub proof fn lemma_attach_order(
        base: Self,
        s1: PathStep,
        x: Self,
        s2: PathStep,
        y: Self,
        r1: Self,
        r12: Self,
        r2: Self,
        r21: Self,
    )
        requires
            s1 != s2,
            r12.wf(),
            r21.wf(),
            attached_to(base, s1, x, r1),
            attached_to(r1, s2, y, r12),
            attached_to(base, s2, y, r2),
            attached_to(r2, s1, x, r21),
        ensures
            r12.report_lines() == r21.report_lines(),
    {
        assert forall|p: Seq<PathStep>| #[trigger] r12.errs_at(p) == r21.errs_at(p) by {
            assert(r12.errs_at(p) == r1.errs_at(p) + attached(s2, y, p));
            assert(r21.errs_at(p) == r2.errs_at(p) + attached(s1, x, p));
            assert(r1.errs_at(p) == base.errs_at(p) + attached(s1, x, p));
            assert(r2.errs_at(p) == base.errs_at(p) + attached(s2, y, p));
            if p.len() > 0 && p[0] == s1 {
                assert(attached(s2, y, p) == Seq::<ValidationError>::empty());
                assert(r12.errs_at(p) =~= r21.errs_at(p));
            } else if p.len() > 0 && p[0] == s2 {
                assert(attached(s1, x, p) == Seq::<ValidationError>::empty());
                assert(r12.errs_at(p) =~= r21.errs_at(p));
            } else {
                assert(r12.errs_at(p) =~= r21.errs_at(p));
            }
        }
        r12.lemma_canonical(&r21);
        r12.lemma_same_lines(&r21, seq![]);
    }
}


impl ValidationNode {
    /// The number of direct errors anywhere in the tree.
    pub closed spec fn error_count(&self) -> nat
        decreases self, self.child_count() + 1,
    {
        self.errors@.len() + self.child_error_count(self.child_count())
    }

    spec fn child_error_count(&self, n: int) -> nat
        decreases self, n,
    {
        if n <= 0 || n > self.child_count() {
            0
        } else {
            proof {
                assert(decreases_to!(self => self.children));
            }
            self.child_error_count(n - 1) + self.children@[n - 1].1.error_count()
        }
    }

    /// The report has exactly one line for each direct error anywhere in the
    /// tree; the pairs of [ValidationNode::to_pairs] are those lines split at
    /// the `: ` after the path, and [ValidationNode::to_string] joins them.
    pub proof fn lemma_one_line_per_error(&self, path: Seq<PathStep>)
        ensures
            self.lines(path).len() == self.error_count(),
            forall|i: int|
                0 <= i < self.direct_errors().len()
                    ==> #[trigger] self.lines(path)[i]
                        == (path_text(path), self.direct_errors()[i].text()),
        decreases self, self.child_count() + 1,
    {
        self.lemma_child_lines_count(path, self.child_count());
    }

    proof fn lemma_child_lines_count(&self, path: Seq<PathStep>, n: int)
        ensures
            self.child_lines(path, n).len() == self.child_error_count(n),
        decreases self, n,
    {
        if 0 < n <= self.child_count() {
            self.lemma_child_lines_count(path, n - 1);
            assert(decreases_to!(self => self.children));
            let step = self.children@[n - 1].0.step();
            self.children@[n - 1].1.lemma_one_line_per_error(path.push(step));
        }
    }
}

} // verus!
