//! Discourse representation structures: referents and conditions gathered in
//! a context, lifted to the parent context when the context is popped.

use vstd::prelude::*;
use crate::transient_repr::RepContent;

verus! {

/// A predication condition, with the depth of the context it came from.
#[derive(Debug)]
pub struct DrsCondition {
    pub predicate: String,
    pub args: Vec<String>,
    /// 0 for a top-level condition; `n` for one lifted from depth `n`.
    pub origin_depth: usize,
}

/// The model of a condition.
pub struct CondView {
    pub predicate: Seq<char>,
    pub args: Seq<Seq<char>>,
    pub origin_depth: usize,
}

/// The views of strings.
pub open spec fn names_view(v: Seq<String>) -> Seq<Seq<char>> {
    v.map_values(|s: String| s@)
}

impl View for DrsCondition {
    type V = CondView;

    open spec fn view(&self) -> CondView {
        CondView { predicate: self.predicate@, args: names_view(self.args@), origin_depth: self.origin_depth }
    }
}

/// The views of conditions.
pub open spec fn conds_view(v: Seq<DrsCondition>) -> Seq<CondView> {
    v.map_values(|c: DrsCondition| c@)
}

fn names_eq(a: &Vec<String>, b: &Vec<String>) -> (r: bool)
    ensures
        r == (names_view(a@) == names_view(b@)),
{
    if a.len() != b.len() {
        proof {
            assert(names_view(a@).len() != names_view(b@).len());
        }
        return false;
    }
    let n = a.len();
    let mut i: usize = 0;
    while i < n
        invariant
            n == a@.len(),
            n == b@.len(),
            i <= n,
            forall|j: int| 0 <= j < i ==> a@[j]@ == b@[j]@,
        decreases n - i,
    {
        if !a[i].eq(&b[i]) {
            proof {
                assert(names_view(a@)[i as int] != names_view(b@)[i as int]);
            }
            return false;
        }
        i = i + 1;
    }
    proof {
        assert(names_view(a@) =~= names_view(b@));
    }
    true
}

/// Whether two conditions are equal field by field.
pub fn cond_eq(a: &DrsCondition, b: &DrsCondition) -> (r: bool)
    ensures
        r == (a@ == b@),
{
    a.predicate.eq(&b.predicate) && names_eq(&a.args, &b.args) && a.origin_depth == b.origin_depth
}

impl PartialEq for DrsCondition {
    fn eq(&self, other: &Self) -> (r: bool) {
        cond_eq(self, other)
    }
}

impl vstd::std_specs::cmp::PartialEqSpecImpl for DrsCondition {
    open spec fn obeys_eq_spec() -> bool {
        true
    }

    open spec fn eq_spec(&self, other: &Self) -> bool {
        self@ == other@
    }
}

pub(crate) fn copy_names(v: &Vec<String>) -> (r: Vec<String>)
    ensures
        names_view(r@) == names_view(v@),
{
    let mut out: Vec<String> = Vec::new();
    let n = v.len();
    let mut i: usize = 0;
    while i < n
        invariant
            n == v@.len(),
            i <= n,
            out@.len() == i,
            forall|j: int| 0 <= j < i ==> out@[j]@ == v@[j]@,
        decreases n - i,
    {
        out.push(v[i].clone());
        i = i + 1;
    }
    proof {
        assert(names_view(out@) =~= names_view(v@));
    }
    out
}

/// A copy of a condition.
pub fn copy_cond(c: &DrsCondition) -> (r: DrsCondition)
    ensures
        r@ == c@,
{
    DrsCondition { predicate: c.predicate.clone(), args: copy_names(&c.args), origin_depth: c.origin_depth }
}

impl Clone for DrsCondition {
    fn clone(&self) -> (r: Self)
        ensures
            r@ == self@,
    {
        copy_cond(self)
    }
}

/// Discourse referents and conditions accumulated within a context.
#[derive(Debug, Default)]
pub struct Drs {
    pub referents: Vec<String>,
    pub conditions: Vec<DrsCondition>,
}

/// `p` followed by the elements of `c` that are not yet present, in order.
pub open spec fn merge_seq<T>(p: Seq<T>, c: Seq<T>) -> Seq<T>
    decreases c.len(),
{
    if c.len() == 0 {
        p
    } else {
        let m = merge_seq(p, c.drop_last());
        if m.contains(c.last()) {
            m
        } else {
            m.push(c.last())
        }
    }
}

/// The merge holds exactly the elements of both, and starts with `p`.
pub proof fn lemma_merge_seq<T>(p: Seq<T>, c: Seq<T>)
    ensures
        forall|x: T| #[trigger] merge_seq(p, c).contains(x) <==> p.contains(x) || c.contains(x),
        merge_seq(p, c).len() >= p.len(),
        merge_seq(p, c).subrange(0, p.len() as int) == p,
    decreases c.len(),
{
    if c.len() > 0 {
        let r = c.drop_last();
        lemma_merge_seq(p, r);
        let m = merge_seq(p, r);
        assert forall|x: T| #[trigger] merge_seq(p, c).contains(x) <==> p.contains(x) || c.contains(x) by {
            if c.contains(x) && !r.contains(x) {
                let k = choose|k: int| 0 <= k < c.len() && c[k] == x;
                if k < r.len() {
                    assert(r[k] == x);
                }
            }
            if r.contains(x) {
                let k = choose|k: int| 0 <= k < r.len() && r[k] == x;
                assert(c[k] == x);
            }
            if !m.contains(c.last()) {
                if m.push(c.last()).contains(x) {
                    let k = choose|k: int| 0 <= k < m.push(c.last()).len() && m.push(c.last())[k] == x;
                    if k < m.len() {
                        assert(m[k] == x);
                    }
                }
                if m.contains(x) {
                    let k = choose|k: int| 0 <= k < m.len() && m[k] == x;
                    assert(m.push(c.last())[k] == x);
                }
                assert(m.push(c.last())[m.len() as int] == c.last());
            }
        }
        if !m.contains(c.last()) {
            assert(m.push(c.last()).subrange(0, p.len() as int) =~= m.subrange(0, p.len() as int));
        }
    }
}

/// Merging a sequence whose elements are all present changes nothing.
pub proof fn lemma_merge_present<T>(q: Seq<T>, c: Seq<T>)
    requires
        forall|x: T| c.contains(x) ==> q.contains(x),
    ensures
        merge_seq(q, c) == q,
    decreases c.len(),
{
    if c.len() > 0 {
        let r = c.drop_last();
        assert forall|x: T| r.contains(x) implies q.contains(x) by {
            let k = choose|k: int| 0 <= k < r.len() && r[k] == x;
            assert(c[k] == x);
        }
        lemma_merge_present(q, r);
        assert(c.contains(c.last()));
    }
}

/// Merging keeps a sequence free of duplicates.
pub proof fn lemma_merge_no_duplicates<T>(p: Seq<T>, c: Seq<T>)
    requires
        p.no_duplicates(),
    ensures
        merge_seq(p, c).no_duplicates(),
    decreases c.len(),
{
    if c.len() > 0 {
        let r = c.drop_last();
        lemma_merge_no_duplicates(p, r);
        let m = merge_seq(p, r);
        if !m.contains(c.last()) {
            let n = m.push(c.last());
            assert forall|i: int, j: int| 0 <= i < n.len() && 0 <= j < n.len() && i != j implies n[i]
                != n[j] by {
                if i == m.len() as int {
                    assert(n[j] == m[j]);
                } else if j == m.len() as int {
                    assert(n[i] == m[i]);
                } else {
                    assert(n[i] == m[i] && n[j] == m[j]);
                }
            }
        }
    }
}

/// Lifting into a parent adds every referent and condition of the child,
/// keeps the parent's own entries first and in order, adds nothing else, and
/// lifting the same child again changes nothing. A parent without duplicates
/// stays without duplicates.
pub proof fn law_lift_merge<T>(p: Seq<T>, c: Seq<T>)
    ensures
        forall|x: T| #[trigger] merge_seq(p, c).contains(x) <==> p.contains(x) || c.contains(x),
        merge_seq(p, c).subrange(0, p.len() as int) == p,
        merge_seq(merge_seq(p, c), c) == merge_seq(p, c),
        p.no_duplicates() ==> merge_seq(p, c).no_duplicates(),
{
    lemma_merge_seq(p, c);
    assert forall|x: T| c.contains(x) implies merge_seq(p, c).contains(x) by {}
    lemma_merge_present(merge_seq(p, c), c);
    if p.no_duplicates() {
        lemma_merge_no_duplicates(p, c);
    }
}

fn contains_string(v: &Vec<String>, x: &String) -> (b: bool)
    ensures
        b == names_view(v@).contains(x@),
{
    let n = v.len();
    let mut i: usize = 0;
    while i < n
        invariant
            n == v@.len(),
            i <= n,
            forall|j: int| 0 <= j < i ==> v@[j]@ != x@,
        decreases n - i,
    {
        if v[i].eq(x) {
            proof {
                assert(names_view(v@)[i as int] == x@);
            }
            return true;
        }
        i = i + 1;
    }
    proof {
        if names_view(v@).contains(x@) {
            let j = choose|j: int| 0 <= j < names_view(v@).len() && names_view(v@)[j] == x@;
            assert(v@[j]@ == x@);
        }
    }
    false
}

fn contains_cond(v: &Vec<DrsCondition>, x: &DrsCondition) -> (b: bool)
    ensures
        b == conds_view(v@).contains(x@),
{
    let n = v.len();
    let mut i: usize = 0;
    while i < n
        invariant
            n == v@.len(),
            i <= n,
            forall|j: int| 0 <= j < i ==> v@[j]@ != x@,
        decreases n - i,
    {
        if cond_eq(&v[i], x) {
            proof {
                assert(conds_view(v@)[i as int] == x@);
            }
            return true;
        }
        i = i + 1;
    }
    proof {
        if conds_view(v@).contains(x@) {
            let j = choose|j: int| 0 <= j < conds_view(v@).len() && conds_view(v@)[j] == x@;
            assert(v@[j]@ == x@);
        }
    }
    false
}

/// Append to `dst` each string of `src` that it lacks, in order.
pub(crate) fn merge_names_into(dst: &mut Vec<String>, src: &Vec<String>)
    ensures
        names_view(final(dst)@) == merge_seq(names_view(old(dst)@), names_view(src@)),
{
    let ghost p0 = names_view(dst@);
    let ghost c0 = names_view(src@);
    let n = src.len();
    let mut i: usize = 0;
    while i < n
        invariant
            n == src@.len(),
            c0 == names_view(src@),
            i <= n,
            names_view(dst@) == merge_seq(p0, c0.subrange(0, i as int)),
        decreases n - i,
    {
        let present = contains_string(dst, &src[i]);
        proof {
            let next = c0.subrange(0, i + 1);
            assert(next.drop_last() =~= c0.subrange(0, i as int));
            assert(next.last() == src@[i as int]@);
        }
        if !present {
            let ghost before = dst@;
            dst.push(src[i].clone());
            proof {
                assert(names_view(dst@) =~= names_view(before).push(src@[i as int]@));
            }
        }
        i = i + 1;
    }
    proof {
        assert(c0.subrange(0, n as int) =~= c0);
    }
}

/// Append to `dst` a copy of each condition of `src` that it lacks, in order.
fn merge_conds_into(dst: &mut Vec<DrsCondition>, src: &Vec<DrsCondition>)
    ensures
        conds_view(final(dst)@) == merge_seq(conds_view(old(dst)@), conds_view(src@)),
{
    let ghost q0 = conds_view(dst@);
    let ghost d0 = conds_view(src@);
    let m = src.len();
    let mut k: usize = 0;
    while k < m
        invariant
            m == src@.len(),
            d0 == conds_view(src@),
            k <= m,
            conds_view(dst@) == merge_seq(q0, d0.subrange(0, k as int)),
        decreases m - k,
    {
        let present = contains_cond(dst, &src[k]);
        proof {
            let next = d0.subrange(0, k + 1);
            assert(next.drop_last() =~= d0.subrange(0, k as int));
            assert(next.last() == src@[k as int]@);
        }
        if !present {
            let ghost before = dst@;
            let c = copy_cond(&src[k]);
            dst.push(c);
            proof {
                assert(conds_view(dst@) =~= conds_view(before).push(src@[k as int]@));
            }
        }
        k = k + 1;
    }
    proof {
        assert(d0.subrange(0, m as int) =~= d0);
    }
}

/// The conditions that a discourse update brings at `depth`: one per
/// predicate, with no arguments.
pub open spec fn depth_conds(predicates: Seq<Seq<char>>, depth: usize) -> Seq<CondView> {
    predicates.map_values(|p: Seq<char>| CondView { predicate: p, args: Seq::empty(), origin_depth: depth })
}

/// `after` is `before` having taken in `content` at `depth`.
pub open spec fn extended_by(after: Drs, before: Drs, content: RepContent, depth: usize) -> bool {
    match content {
        RepContent::DrsUpdate { referents, conditions } => {
            &&& names_view(after.referents@) == merge_seq(names_view(before.referents@), names_view(referents@))
            &&& conds_view(after.conditions@) == merge_seq(
                conds_view(before.conditions@),
                depth_conds(names_view(conditions@), depth),
            )
        },
        _ => after.referents@ == before.referents@ && after.conditions@ == before.conditions@,
    }
}

impl Drs {
    /// Lift referents and conditions to `parent`: each one that the parent
    /// lacks is appended, in order.
    pub fn lift_to(&self, parent: &mut Drs)
        ensures
            names_view(final(parent).referents@) == merge_seq(
                names_view(old(parent).referents@),
                names_view(self.referents@),
            ),
            conds_view(final(parent).conditions@) == merge_seq(
                conds_view(old(parent).conditions@),
                conds_view(self.conditions@),
            ),
    {
        merge_names_into(&mut parent.referents, &self.referents);
        merge_conds_into(&mut parent.conditions, &self.conditions);
    }

    /// Take in the referents and conditions of a discourse update, as
    /// conditions of depth 0. Other content changes nothing.
    pub fn extend_from_tr(&mut self, content: &RepContent)
        ensures
            extended_by(*final(self), *old(self), *content, 0),
    {
        self.extend_from_tr_at_depth(content, 0);
    }

    /// Take in the referents and conditions of a discourse update: each
    /// referent and each condition (a predicate with no arguments, of origin
    /// `depth`) that is not yet present is appended, in order. Other content
    /// changes nothing.
    pub fn extend_from_tr_at_depth(&mut self, content: &RepContent, depth: usize)
        ensures
            extended_by(*final(self), *old(self), *content, depth),
    {
        match content {
            RepContent::DrsUpdate { referents, conditions } => {
                merge_names_into(&mut self.referents, referents);
                let mut conds: Vec<DrsCondition> = Vec::new();
                let n = conditions.len();
                let mut i: usize = 0;
                while i < n
                    invariant
                        n == conditions@.len(),
                        i <= n,
                        conds_view(conds@) == depth_conds(names_view(conditions@), depth).subrange(
                            0,
                            i as int,
                        ),
                    decreases n - i,
                {
                    let c = DrsCondition {
                        predicate: conditions[i].clone(),
                        args: Vec::new(),
                        origin_depth: depth,
                    };
                    proof {
                        assert(names_view(c.args@) =~= Seq::<Seq<char>>::empty());
                        assert(c@ == depth_conds(names_view(conditions@), depth)[i as int]);
                    }
                    let ghost before = conds@;
                    let ghost cv = c@;
                    conds.push(c);
                    proof {
                        assert(conds_view(conds@) =~= conds_view(before).push(cv));
                        assert(conds_view(conds@) =~= depth_conds(names_view(conditions@), depth).subrange(
                            0,
                            i + 1,
                        ));
                    }
                    i = i + 1;
                }
                proof {
                    assert(depth_conds(names_view(conditions@), depth).subrange(0, n as int)
                        =~= depth_conds(names_view(conditions@), depth));
                }
                merge_conds_into(&mut self.conditions, &conds);
            },
            _ => {},
        }
    }
}

} // verus!
