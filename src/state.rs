//! The persisted record of one branch and the views derived from it.
use indexmap::IndexSet;
use vstd::prelude::*;
use vstd::string::{StrSliceExecFns, StringExecFns};

verus! {

#[verifier::external_type_specification]
#[verifier::external_body]
#[verifier::reject_recursive_types(T)]
#[verifier::reject_recursive_types(S)]
pub struct ExIndexSet<T, S>(IndexSet<T, S>);

/// The strings an `IndexSet` holds, in insertion order.
pub uninterp spec fn set_items(s: IndexSet<String>) -> Seq<Seq<char>>;

/// Relies on `IndexSet::new`: an empty set.
#[verifier::external_body]
pub(crate) fn names_new() -> (r: IndexSet<String>)
    ensures
        set_items(r) == Seq::<Seq<char>>::empty(),
{
    IndexSet::new()
}

/// Relies on `IndexSet::len`: the number of items.
#[verifier::external_body]
pub(crate) fn names_len(s: &IndexSet<String>) -> (r: usize)
    ensures
        r == set_items(*s).len(),
{
    s.len()
}

/// Relies on indexing an `IndexSet` by position, which panics past its end.
#[verifier::external_body]
pub(crate) fn names_at(s: &IndexSet<String>, i: usize) -> (r: &String)
    requires
        i < set_items(*s).len(),
    ensures
        r@ == set_items(*s)[i as int],
{
    &s[i]
}

/// Relies on `IndexSet::get_index_of`: the position of the item equal to `x`, if any.
#[verifier::external_body]
pub(crate) fn names_position(s: &IndexSet<String>, x: &String) -> (r: Option<usize>)
    ensures
        r is None <==> !set_items(*s).contains(x@),
        r matches Some(i) ==> i < set_items(*s).len() && set_items(*s)[i as int] == x@,
{
    s.get_index_of(x)
}

/// Relies on `IndexSet::contains`.
#[verifier::external_body]
pub(crate) fn names_contains(s: &IndexSet<String>, x: &String) -> (r: bool)
    ensures
        r == set_items(*s).contains(x@),
{
    s.contains(x)
}

/// Relies on `IndexSet::insert`: an item not yet present goes at the end; an
/// equal item already present stays where it is and nothing changes.
#[verifier::external_body]
pub(crate) fn names_insert(s: &mut IndexSet<String>, x: String) -> (r: bool)
    ensures
        r == !set_items(*old(s)).contains(x@),
        r ==> set_items(*final(s)) == set_items(*old(s)).push(x@),
        !r ==> set_items(*final(s)) == set_items(*old(s)),
{
    s.insert(x)
}

/// Relies on `IndexSet::shift_remove`: the item equal to `x`, if any, is
/// taken out and the others keep their order.
#[verifier::external_body]
pub(crate) fn names_shift_remove(s: &mut IndexSet<String>, x: &String) -> (r: bool)
    requires
        set_items(*old(s)).no_duplicates(),
    ensures
        r == set_items(*old(s)).contains(x@),
        set_items(*final(s)) == without(set_items(*old(s)), x@),
{
    s.shift_remove(x)
}

/// Relies on `Clone` of `IndexSet`: the same items in the same order.
#[verifier::external_body]
pub(crate) fn names_clone(s: &IndexSet<String>) -> (r: IndexSet<String>)
    ensures
        set_items(r) == set_items(*s),
{
    s.clone()
}

/// The name of a branch's record file: the branch name with each `/` written as `__`.
pub open spec fn record_name(s: Seq<char>) -> Seq<char>
    decreases s.len(),
{
    if s.len() == 0 {
        s
    } else if s.last() == '/' {
        record_name(s.drop_last()) + seq!['_', '_']
    } else {
        record_name(s.drop_last()).push(s.last())
    }
}

/// The file name under which the record of branch `name` is kept.
pub fn record_file_name(name: &str) -> (r: String)
    ensures
        r@ == record_name(name@),
{
    let under = "__";
    proof {
        reveal_strlit("__");
    }
    let n = name.unicode_len();
    let mut r = String::new();
    let mut i: usize = 0;
    assert(name@.take(0) =~= Seq::<char>::empty());
    while i < n
        invariant
            n == name@.len(),
            i <= n,
            under@ == seq!['_', '_'],
            r@ == record_name(name@.take(i as int)),
        decreases n - i,
    {
        assert(name@.take(i + 1).drop_last() =~= name@.take(i as int));
        assert(name@.take(i + 1).last() == name@[i as int]);
        if name.get_char(i) == '/' {
            r.append(under);
        } else {
            let c = name.substring_char(i, i + 1);
            assert(c@ =~= seq![name@[i as int]]);
            r.append(c);
            assert(r@ =~= record_name(name@.take(i as int)).push(name@[i as int]));
        }
        i = i + 1;
    }
    assert(name@.take(n as int) =~= name@);
    r
}

/// The characters of each string of a sequence.
pub open spec fn strs(v: Seq<String>) -> Seq<Seq<char>> {
    v.map_values(|s: String| s@)
}

/// What a branch depends on, with the implicit default dependency filled in:
/// a branch that names no dependency depends on the default branch, and the
/// default branch itself depends on nothing.
pub open spec fn effective_deps(name: Seq<char>, default: Seq<char>, deps: Seq<Seq<char>>) -> Seq<
    Seq<char>,
> {
    if deps.len() == 0 {
        if name == default {
            Seq::empty()
        } else {
            seq![default]
        }
    } else {
        deps
    }
}

/// `s` with every occurrence of `x` taken out, the rest in order.
pub open spec fn without(s: Seq<Seq<char>>, x: Seq<char>) -> Seq<Seq<char>>
    decreases s.len(),
{
    if s.len() == 0 {
        s
    } else if s.last() == x {
        without(s.drop_last(), x)
    } else {
        without(s.drop_last(), x).push(s.last())
    }
}

/// `s` without the names that `req` holds, the rest in order.
pub open spec fn keep_out(s: Seq<Seq<char>>, req: Seq<Seq<char>>) -> Seq<Seq<char>>
    decreases s.len(),
{
    if s.len() == 0 {
        s
    } else if req.contains(s.last()) {
        keep_out(s.drop_last(), req)
    } else {
        keep_out(s.drop_last(), req).push(s.last())
    }
}

pub proof fn lemma_keep_out_none(s: Seq<Seq<char>>, req: Seq<Seq<char>>)
    requires
        req.len() == 0,
    ensures
        keep_out(s, req) == s,
    decreases s.len(),
{
    if s.len() > 0 {
        lemma_keep_out_none(s.drop_last(), req);
        assert(s.drop_last().push(s.last()) =~= s);
    }
}

pub proof fn lemma_without_absent(s: Seq<Seq<char>>, x: Seq<char>)
    requires
        !s.contains(x),
    ensures
        without(s, x) == s,
    decreases s.len(),
{
    if s.len() > 0 {
        assert(!s.drop_last().contains(x)) by {
            if s.drop_last().contains(x) {
                let t = choose|t: int| 0 <= t < s.drop_last().len() && s.drop_last()[t] == x;
                assert(s[t] == x);
            }
        }
        lemma_without_absent(s.drop_last(), x);
        assert(s.last() != x);
        assert(s.drop_last().push(s.last()) =~= s);
    }
}

/// Taking out one more name after `keep_out` is `keep_out` with that name added.
pub proof fn lemma_without_keep_out(s: Seq<Seq<char>>, r: Seq<Seq<char>>, d: Seq<char>)
    ensures
        without(keep_out(s, r), d) == keep_out(s, r.push(d)),
    decreases s.len(),
{
    if s.len() > 0 {
        let l = s.last();
        let k = keep_out(s.drop_last(), r);
        lemma_without_keep_out(s.drop_last(), r, d);
        lemma_contains_push(r, d, l);
        if !r.contains(l) {
            assert(k.push(l).drop_last() =~= k);
            assert(k.push(l).last() == l);
        }
    } else {
        assert(without(s, d) == s);
    }
}

pub proof fn lemma_without_contains(s: Seq<Seq<char>>, x: Seq<char>, y: Seq<char>)
    ensures
        without(s, x).contains(y) <==> (s.contains(y) && y != x),
    decreases s.len(),
{
    if s.len() > 0 {
        lemma_without_contains(s.drop_last(), x, y);
        assert(s =~= s.drop_last().push(s.last()));
        if s.drop_last().contains(y) {
            let k = choose|k: int| 0 <= k < s.drop_last().len() && s.drop_last()[k] == y;
            assert(s[k] == y);
        }
        if without(s.drop_last(), x).contains(y) {
            let k = choose|k: int|
                0 <= k < without(s.drop_last(), x).len() && without(s.drop_last(), x)[k] == y;
            assert(without(s, x).contains(y)) by {
                if s.last() != x {
                    assert(without(s, x)[k] == y);
                }
            }
        }
        if s.contains(y) && y != x {
            let k = choose|k: int| 0 <= k < s.len() && s[k] == y;
            if k < s.len() - 1 {
                assert(s.drop_last()[k] == y);
            } else {
                assert(without(s, x).last() == y);
            }
        }
        if without(s, x).contains(y) && !without(s.drop_last(), x).contains(y) {
            assert(s.last() != x);
            assert(without(s, x) == without(s.drop_last(), x).push(s.last()));
            let k = choose|k: int| 0 <= k < without(s, x).len() && without(s, x)[k] == y;
            assert(k == without(s.drop_last(), x).len());
        }
    }
}

pub proof fn lemma_without_no_duplicates(s: Seq<Seq<char>>, x: Seq<char>)
    requires
        s.no_duplicates(),
    ensures
        without(s, x).no_duplicates(),
    decreases s.len(),
{
    if s.len() > 0 {
        let d = s.drop_last();
        assert(d.no_duplicates()) by {
            assert forall|a: int, b: int| 0 <= a < d.len() && 0 <= b < d.len() && a != b implies d[a] != d[b] by {
                assert(d[a] == s[a] && d[b] == s[b]);
            }
        }
        lemma_without_no_duplicates(d, x);
        if s.last() != x {
            lemma_without_contains(d, x, s.last());
            assert(!d.contains(s.last())) by {
                if d.contains(s.last()) {
                    let k = choose|k: int| 0 <= k < d.len() && d[k] == s.last();
                    assert(s[k] == s[s.len() - 1]);
                }
            }
            let w = without(d, x);
            assert forall|a: int, b: int| 0 <= a < w.push(s.last()).len() && 0 <= b < w.push(s.last()).len() && a != b implies w.push(s.last())[a] != w.push(s.last())[b] by {
                if a == w.len() {
                    assert(w[b] == w.push(s.last())[b]);
                    assert(w.contains(w[b]));
                } else if b == w.len() {
                    assert(w[a] == w.push(s.last())[a]);
                    assert(w.contains(w[a]));
                }
            }
        }
    }
}

pub proof fn lemma_contains_push(s: Seq<Seq<char>>, y: Seq<char>, x: Seq<char>)
    ensures
        s.push(y).contains(x) <==> (s.contains(x) || x == y),
{
    if s.push(y).contains(x) && x != y {
        let t = choose|t: int| 0 <= t < s.push(y).len() && s.push(y)[t] == x;
        assert(s[t] == x);
    }
    if s.contains(x) {
        let t = choose|t: int| 0 <= t < s.len() && s[t] == x;
        assert(s.push(y)[t] == x);
    }
    if x == y {
        assert(s.push(y)[s.len() as int] == x);
    }
}

pub proof fn lemma_take_push_contains(s: Seq<Seq<char>>, k: int)
    requires
        0 <= k < s.len(),
    ensures
        s.take(k + 1) == s.take(k).push(s[k]),
{
    assert(s.take(k + 1) =~= s.take(k).push(s[k]));
}

/// The annotation kept for one branch between runs.
#[derive(Debug)]
pub struct BranchState {
    /// Branches this one depends on, in the order they were added.
    pub deps: IndexSet<String>,
    /// An external review reference, opaque here.
    pub pr: Option<u32>,
    /// The dependency this branch was last rebased onto.
    pub base: Option<String>,
    /// Set while the branch's last rebase is unconfirmed.
    pub dirty: bool,
}

impl BranchState {
    /// The names of the dependencies, in order.
    pub open spec fn dep_names(&self) -> Seq<Seq<char>> {
        set_items(self.deps)
    }

    pub open spec fn wf(&self) -> bool {
        self.dep_names().no_duplicates()
    }

    /// The dependencies as a list, in order.
    pub fn dep_list(&self) -> (r: Vec<String>)
        ensures
            strs(r@) == self.dep_names(),
    {
        let n = names_len(&self.deps);
        let mut r: Vec<String> = Vec::new();
        let mut i: usize = 0;
        while i < n
            invariant
                n == self.dep_names().len(),
                i <= n,
                strs(r@) == self.dep_names().take(i as int),
            decreases n - i,
        {
            let ghost prev = strs(r@);
            r.push(names_at(&self.deps, i).clone());
            assert(strs(r@) =~= prev.push(self.dep_names()[i as int]));
            assert(self.dep_names().take(i + 1) =~= self.dep_names().take(i as int).push(
                self.dep_names()[i as int],
            ));
            i = i + 1;
        }
        assert(self.dep_names().take(n as int) =~= self.dep_names());
        r
    }

    /// The record of a branch seen for the first time.
    pub fn empty() -> (r: BranchState)
        ensures
            r.dep_names().len() == 0,
            r.pr.is_none(),
            r.base.is_none(),
            !r.dirty,
            r.wf(),
    {
        BranchState { deps: names_new(), pr: None, base: None, dirty: false }
    }
}

/// Whether `v` holds a string equal to `s`.
pub fn contains_str(v: &Vec<String>, s: &String) -> (r: bool)
    ensures
        r == strs(v@).contains(s@),
{
    let mut i: usize = 0;
    while i < v.len()
        invariant
            i <= v.len(),
            forall|k: int| 0 <= k < i ==> v@[k]@ != s@,
        decreases v.len() - i,
    {
        if v[i] == *s {
            assert(strs(v@)[i as int] == s@);
            return true;
        }
        i = i + 1;
    }
    assert forall|k: int| 0 <= k < strs(v@).len() implies strs(v@)[k] != s@ by {
        assert(strs(v@)[k] == v@[k]@);
    }
    false
}

/// `v` without the strings equal to `x`.
pub fn remove_str(v: &Vec<String>, x: &String) -> (r: Vec<String>)
    ensures
        strs(r@) == without(strs(v@), x@),
{
    let mut r: Vec<String> = Vec::new();
    let mut i: usize = 0;
    while i < v.len()
        invariant
            i <= v.len(),
            strs(r@) == without(strs(v@).take(i as int), x@),
        decreases v.len() - i,
    {
        let ghost before = strs(v@).take(i as int);
        assert(strs(v@).take(i + 1).drop_last() =~= before);
        if v[i] != *x {
            r.push(v[i].clone());
            assert(strs(r@) =~= without(before, x@).push(v@[i as int]@));
        }
        i = i + 1;
        assert(strs(r@) =~= without(strs(v@).take(i as int), x@));
    }
    assert(strs(v@).take(v.len() as int) =~= strs(v@));
    r
}

} // verus!
