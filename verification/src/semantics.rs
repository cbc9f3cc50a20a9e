//! Sentence-level propositions, discourse updates and modal type extraction
//! over lambda terms, and composition of modal types.

use vstd::prelude::*;
use crate::types::{ModalType, ModalMode, Direction, TypeCategory, spec_apply, spec_compatible};
use crate::lambda::{
    LambdaTerm,
    Term,
    ReductionError,
    display_text,
    display_term,
    model,
    model_args,
    lemma_model_args,
    normalizes_in,
    cycles_in,
};

verus! {

// ─── Decimal numerals ────────────────────────────────────────────────────────

/// The decimal digit character of `d` (for `d < 10`).
pub open spec fn digit_char(d: nat) -> char {
    if d == 0 {
        '0'
    } else if d == 1 {
        '1'
    } else if d == 2 {
        '2'
    } else if d == 3 {
        '3'
    } else if d == 4 {
        '4'
    } else if d == 5 {
        '5'
    } else if d == 6 {
        '6'
    } else if d == 7 {
        '7'
    } else if d == 8 {
        '8'
    } else {
        '9'
    }
}

/// The decimal numeral of `n`, without leading zeros.
pub open spec fn decimal(n: nat) -> Seq<char>
    decreases n,
{
    if n < 10 {
        seq![digit_char(n)]
    } else {
        decimal(n / 10) + seq![digit_char(n % 10)]
    }
}

pub(crate) fn digit_str(d: usize) -> (s: &'static str)
    requires
        d < 10,
    ensures
        s@ == seq![digit_char(d as nat)],
{
    proof {
        reveal_strlit("0");
        reveal_strlit("1");
        reveal_strlit("2");
        reveal_strlit("3");
        reveal_strlit("4");
        reveal_strlit("5");
        reveal_strlit("6");
        reveal_strlit("7");
        reveal_strlit("8");
        reveal_strlit("9");
    }
    if d == 0 {
        "0"
    } else if d == 1 {
        "1"
    } else if d == 2 {
        "2"
    } else if d == 3 {
        "3"
    } else if d == 4 {
        "4"
    } else if d == 5 {
        "5"
    } else if d == 6 {
        "6"
    } else if d == 7 {
        "7"
    } else if d == 8 {
        "8"
    } else {
        "9"
    }
}

/// The decimal numeral of `n`.
pub fn decimal_string(n: usize) -> (s: String)
    ensures
        s@ == decimal(n as nat),
    decreases n,
{
    if n < 10 {
        String::from_str(digit_str(n))
    } else {
        let mut s = decimal_string(n / 10);
        s.append(digit_str(n % 10));
        s
    }
}

// ─── Propositions ────────────────────────────────────────────────────────────

/// `ARG`
pub open spec fn arg_text() -> Seq<char> {
    seq!['A', 'R', 'G']
}

/// `ROOT`
pub open spec fn root_text() -> Seq<char> {
    seq!['R', 'O', 'O', 'T']
}

/// `ARG` followed by the position of the argument.
pub open spec fn arg_label(i: nat) -> Seq<char> {
    arg_text() + decimal(i)
}

/// The predicate at the head of a term, or `ROOT`.
pub open spec fn root_of(t: Term) -> Seq<char> {
    match t {
        Term::Pred(p, _) => p,
        Term::App(f, _) => match *f {
            Term::Pred(p, _) => p,
            _ => root_text(),
        },
        _ => root_text(),
    }
}

/// Role labels and fillers: the arguments of a predicate, numbered, and the
/// arguments of applications, in order.
pub open spec fn roles_of(t: Term) -> Seq<(Seq<char>, Seq<char>)>
    decreases t,
{
    match t {
        Term::Pred(_, args) => Seq::new(
            args.len(),
            |i: int| (arg_label(i as nat), display_text(args[i])),
        ),
        Term::App(f, a) => roles_of(*f).push((arg_text(), display_text(*a))),
        _ => Seq::empty(),
    }
}

/// The views of pairs of strings.
pub open spec fn pairs_view(v: Seq<(String, String)>) -> Seq<(Seq<char>, Seq<char>)> {
    v.map_values(|p: (String, String)| (p.0@, p.1@))
}

/// The views of strings.
pub open spec fn strings_view(v: Seq<String>) -> Seq<Seq<char>> {
    v.map_values(|s: String| s@)
}

/// A proposition read off a lambda term: its head, its roles and its text.
#[derive(Debug)]
pub struct PropositionGraph {
    pub root: String,
    pub roles: Vec<(String, String)>,
    pub lambda_str: String,
}

/// The mathematical model of a proposition.
pub struct PropositionView {
    pub root: Seq<char>,
    pub roles: Seq<(Seq<char>, Seq<char>)>,
    pub lambda_str: Seq<char>,
}

impl View for PropositionGraph {
    type V = PropositionView;

    open spec fn view(&self) -> PropositionView {
        PropositionView {
            root: self.root@,
            roles: pairs_view(self.roles@),
            lambda_str: self.lambda_str@,
        }
    }
}

/// The proposition of a term.
pub open spec fn proposition_of(t: Term) -> PropositionView {
    PropositionView { root: root_of(t), roles: roles_of(t), lambda_str: display_text(t) }
}

fn root_name(t: &LambdaTerm) -> (s: String)
    ensures
        s@ == root_of(t@),
{
    proof {
        reveal_with_fuel(model, 2);
        reveal_strlit("ROOT");
    }
    match t {
        LambdaTerm::Pred(p, _) => p.clone(),
        LambdaTerm::App(f, _) => match &**f {
            LambdaTerm::Pred(p, _) => p.clone(),
            _ => String::from_str("ROOT"),
        },
        _ => String::from_str("ROOT"),
    }
}

fn extract_roles(t: &LambdaTerm) -> (r: Vec<(String, String)>)
    ensures
        pairs_view(r@) == roles_of(t@),
    decreases t,
{
    match t {
        LambdaTerm::Pred(_, args) => {
            proof {
                lemma_model_args(args@);
            }
            let ghost m = model_args(args@);
            let mut out: Vec<(String, String)> = Vec::new();
            let n = args.len();
            let mut i: usize = 0;
            while i < n
                invariant
                    n == args.len(),
                    i <= n,
                    m == model_args(args@),
                    m.len() == n,
                    forall|j: int| 0 <= j < n ==> #[trigger] m[j] == model(args@[j]),
                    out.len() == i,
                    forall|j: int|
                        0 <= j < i ==> #[trigger] out@[j].0@ == arg_label(j as nat) && out@[j].1@
                            == display_text(m[j]),
                decreases n - i,
            {
                let mut label = String::from_str("ARG");
                let num = decimal_string(i);
                label.append(num.as_str());
                proof {
                    reveal_strlit("ARG");
                }
                let text = display_term(&args[i]);
                out.push((label, text));
                i = i + 1;
            }
            proof {
                assert(pairs_view(out@) =~= roles_of(t@));
            }
            out
        },
        LambdaTerm::App(f, a) => {
            let mut roles = extract_roles(f);
            let ghost before = roles@;
            let text = display_term(a);
            let label = String::from_str("ARG");
            proof {
                reveal_strlit("ARG");
                assert(label@ =~= arg_text());
            }
            roles.push((label, text));
            proof {
                assert(roles@ == before.push((label, text)));
                assert(pairs_view(roles@) =~= pairs_view(before).push((arg_text(), display_text(a@))));
            }
            roles
        },
        _ => {
            let out: Vec<(String, String)> = Vec::new();
            proof {
                assert(pairs_view(out@) =~= roles_of(t@));
            }
            out
        },
    }
}

impl PropositionGraph {
    /// The head predicate (or `ROOT`), the roles and the text of `term`.
    pub fn from_lambda(term: &LambdaTerm) -> (r: PropositionGraph)
        ensures
            r@ == proposition_of(term@),
    {
        let root = root_name(term);
        let roles = extract_roles(term);
        let lambda_str = display_term(term);
        PropositionGraph { root, roles, lambda_str }
    }
}

// ─── Discourse updates ───────────────────────────────────────────────────────

/// The binders of a term, in order, through abstractions and applications.
pub open spec fn drs_refs(t: Term) -> Seq<Seq<char>>
    decreases t,
{
    match t {
        Term::Abs(v, _, b) => seq![v] + drs_refs(*b),
        Term::App(f, a) => drs_refs(*f) + drs_refs(*a),
        _ => Seq::empty(),
    }
}

/// The texts of the predications of a term, through abstractions and applications.
pub open spec fn drs_conds(t: Term) -> Seq<Seq<char>>
    decreases t,
{
    match t {
        Term::Abs(_, _, b) => drs_conds(*b),
        Term::Pred(_, _) => seq![display_text(t)],
        Term::App(f, a) => drs_conds(*f) + drs_conds(*a),
        _ => Seq::empty(),
    }
}

/// The elements of `refs` that are not in `parent`, in order.
pub open spec fn not_in(refs: Seq<Seq<char>>, parent: Seq<Seq<char>>) -> Seq<Seq<char>>
    decreases refs.len(),
{
    if refs.len() == 0 {
        Seq::empty()
    } else {
        let rest = not_in(refs.drop_last(), parent);
        if parent.contains(refs.last()) {
            rest
        } else {
            rest.push(refs.last())
        }
    }
}

/// New discourse referents and conditions contributed by a term.
#[derive(Debug)]
pub struct DrsUpdate {
    pub new_referents: Vec<String>,
    pub new_conditions: Vec<String>,
}

fn collect_drs(t: &LambdaTerm, refs: &mut Vec<String>, conds: &mut Vec<String>)
    ensures
        strings_view(final(refs)@) == strings_view(old(refs)@) + drs_refs(t@),
        strings_view(final(conds)@) == strings_view(old(conds)@) + drs_conds(t@),
    decreases t,
{
    let ghost r0 = refs@;
    let ghost c0 = conds@;
    match t {
        LambdaTerm::Abs(v, _, b) => {
            refs.push(v.clone());
            let ghost r1 = refs@;
            collect_drs(b, refs, conds);
            proof {
                assert(strings_view(r1) =~= strings_view(r0) + seq![v@]);
                assert(strings_view(refs@) =~= strings_view(r0) + drs_refs(t@));
                assert(strings_view(conds@) =~= strings_view(c0) + drs_conds(t@));
            }
        },
        LambdaTerm::Pred(_, _) => {
            let text = display_term(t);
            conds.push(text);
            proof {
                assert(strings_view(refs@) =~= strings_view(r0) + drs_refs(t@));
                assert(strings_view(conds@) =~= strings_view(c0) + drs_conds(t@));
            }
        },
        LambdaTerm::App(f, a) => {
            collect_drs(f, refs, conds);
            collect_drs(a, refs, conds);
            proof {
                assert(strings_view(refs@) =~= strings_view(r0) + drs_refs(t@));
                assert(strings_view(conds@) =~= strings_view(c0) + drs_conds(t@));
            }
        },
        _ => {
            proof {
                assert(strings_view(refs@) =~= strings_view(r0) + drs_refs(t@));
                assert(strings_view(conds@) =~= strings_view(c0) + drs_conds(t@));
            }
        },
    }
}

/// Whether `x` is one of `v`.
pub fn contains_name(v: &[String], x: &String) -> (b: bool)
    ensures
        b == strings_view(v@).contains(x@),
{
    let n = v.len();
    let mut i: usize = 0;
    while i < n
        invariant
            n == v@.len(),
            i <= n,
            forall|j: int| 0 <= j < i ==> v@[j]@ != x@,
        decreases n - i,
    {
        if v[i].eq(x) {
            proof {
                assert(strings_view(v@)[i as int] == x@);
            }
            return true;
        }
        i = i + 1;
    }
    proof {
        if strings_view(v@).contains(x@) {
            let j = choose|j: int| 0 <= j < strings_view(v@).len() && strings_view(v@)[j] == x@;
            assert(v@[j]@ == x@);
        }
    }
    false
}

impl DrsUpdate {
    /// The binders of `term` that are not in `parent_refs`, and the texts of
    /// its predications.
    pub fn from_lambda(term: &LambdaTerm, parent_refs: &[String]) -> (r: DrsUpdate)
        ensures
            strings_view(r.new_referents@) == not_in(drs_refs(term@), strings_view(parent_refs@)),
            strings_view(r.new_conditions@) == drs_conds(term@),
    {
        let mut referents: Vec<String> = Vec::new();
        let mut conditions: Vec<String> = Vec::new();
        collect_drs(term, &mut referents, &mut conditions);
        proof {
            assert(strings_view(Seq::<String>::empty()) =~= Seq::<Seq<char>>::empty());
            assert(strings_view(referents@) =~= drs_refs(term@));
            assert(strings_view(conditions@) =~= drs_conds(term@));
        }
        let ghost all = strings_view(referents@);
        let ghost parent = strings_view(parent_refs@);
        let mut kept: Vec<String> = Vec::new();
        let n = referents.len();
        let mut i: usize = 0;
        while i < n
            invariant
                n == referents.len(),
                i <= n,
                all == strings_view(referents@),
                parent == strings_view(parent_refs@),
                strings_view(kept@) == not_in(all.subrange(0, i as int), parent),
            decreases n - i,
        {
            let inside = contains_name(parent_refs, &referents[i]);
            proof {
                let next = all.subrange(0, i + 1);
                assert(next.drop_last() =~= all.subrange(0, i as int));
                assert(next.last() == referents@[i as int]@);
            }
            if !inside {
                let ghost before = kept@;
                kept.push(referents[i].clone());
                proof {
                    assert(strings_view(kept@) =~= strings_view(before).push(referents@[i as int]@));
                }
            }
            i = i + 1;
        }
        proof {
            assert(all.subrange(0, n as int) =~= all);
        }
        DrsUpdate { new_referents: kept, new_conditions: conditions }
    }
}

// ─── Type map ────────────────────────────────────────────────────────────────

/// Predicate names and their modal types; each name occurs once.
#[derive(Debug)]
pub struct TypeMap {
    entries: Vec<(String, ModalType)>,
}

/// The map that a list of entries describes, later entries winning.
pub open spec fn entries_map(s: Seq<(String, ModalType)>) -> Map<Seq<char>, ModalType>
    decreases s.len(),
{
    if s.len() == 0 {
        Map::empty()
    } else {
        entries_map(s.drop_last()).insert(s.last().0@, s.last().1)
    }
}

/// No name occurs twice.
pub open spec fn unique_names(s: Seq<(String, ModalType)>) -> bool {
    forall|i: int, j: int| 0 <= i < j < s.len() ==> #[trigger] s[i].0@ != #[trigger] s[j].0@
}

/// With unique names, the map holds exactly the entries.
pub proof fn lemma_entries_map(s: Seq<(String, ModalType)>)
    requires
        unique_names(s),
    ensures
        forall|k: Seq<char>|
            #[trigger] entries_map(s).contains_key(k) <==> exists|i: int|
                0 <= i < s.len() && #[trigger] s[i].0@ == k,
        forall|i: int| 0 <= i < s.len() ==> #[trigger] entries_map(s)[s[i].0@] == s[i].1,
    decreases s.len(),
{
    if s.len() > 0 {
        let t = s.drop_last();
        assert(unique_names(t)) by {
            assert forall|i: int, j: int| 0 <= i < j < t.len() implies #[trigger] t[i].0@
                != #[trigger] t[j].0@ by {
                assert(t[i] == s[i] && t[j] == s[j]);
            }
        }
        lemma_entries_map(t);
        let n = s.len() - 1;
        assert(entries_map(s) == entries_map(t).insert(s[n].0@, s[n].1));
        assert forall|k: Seq<char>|
            #[trigger] entries_map(s).contains_key(k) <==> exists|i: int|
                0 <= i < s.len() && #[trigger] s[i].0@ == k by {
            if entries_map(s).contains_key(k) && k != s[n].0@ {
                assert(entries_map(t).contains_key(k));
                let i = choose|i: int| 0 <= i < t.len() && #[trigger] t[i].0@ == k;
                assert(s[i].0@ == k);
            }
            if exists|i: int| 0 <= i < s.len() && #[trigger] s[i].0@ == k {
                let i = choose|i: int| 0 <= i < s.len() && #[trigger] s[i].0@ == k;
                if i < n {
                    assert(t[i].0@ == k);
                }
            }
        }
        assert forall|i: int| 0 <= i < s.len() implies #[trigger] entries_map(s)[s[i].0@] == s[i].1 by {
            if i < n {
                assert(t[i] == s[i]);
                assert(s[i].0@ != s[n].0@);
            }
        }
    }
}

impl View for TypeMap {
    type V = Map<Seq<char>, ModalType>;

    closed spec fn view(&self) -> Map<Seq<char>, ModalType> {
        entries_map(self.entries@)
    }
}

impl TypeMap {
    /// Each name occurs once.
    pub closed spec fn wf(&self) -> bool {
        unique_names(self.entries@)
    }

    /// The empty map.
    pub fn new() -> (r: TypeMap)
        ensures
            r.wf(),
            r@ == Map::<Seq<char>, ModalType>::empty(),
    {
        TypeMap { entries: Vec::new() }
    }

    /// The type of `name`, if it has one.
    pub fn get(&self, name: &String) -> (r: Option<ModalType>)
        requires
            self.wf(),
        ensures
            match r {
                Some(t) => self@.contains_key(name@) && self@[name@] == t,
                None => !self@.contains_key(name@),
            },
    {
        proof {
            lemma_entries_map(self.entries@);
        }
        let n = self.entries.len();
        let mut i: usize = 0;
        while i < n
            invariant
                n == self.entries@.len(),
                unique_names(self.entries@),
                i <= n,
                forall|j: int| 0 <= j < i ==> self.entries@[j].0@ != name@,
            decreases n - i,
        {
            if self.entries[i].0.eq(name) {
                proof {
                    lemma_entries_map(self.entries@);
                    assert(entries_map(self.entries@)[self.entries@[i as int].0@] == self.entries@[i as int].1);
                }
                return Some(self.entries[i].1);
            }
            i = i + 1;
        }
        None
    }

    /// Give `name` the type `ty`, replacing any type it had.
    pub fn insert(&mut self, name: String, ty: ModalType)
        requires
            old(self).wf(),
        ensures
            final(self).wf(),
            final(self)@ == old(self)@.insert(name@, ty),
    {
        let ghost s0 = self.entries@;
        proof {
            lemma_entries_map(s0);
        }
        let n = self.entries.len();
        let mut i: usize = 0;
        while i < n
            invariant
                n == self.entries@.len(),
                s0 == self.entries@,
                s0 == old(self).entries@,
                unique_names(s0),
                i <= n,
                forall|j: int| 0 <= j < i ==> self.entries@[j].0@ != name@,
            decreases n - i,
        {
            if self.entries[i].0.eq(&name) {
                let ghost key = name@;
                let ghost ii = i as int;
                self.entries.set(i, (name, ty));
                proof {
                    lemma_entries_map(s0);
                    let s1 = self.entries@;
                    assert(s1 == s0.update(ii, (name, ty)));
                    assert(s0[ii].0@ == key);
                    assert(s1[ii].0@ == key);
                    assert forall|j: int| 0 <= j < s0.len() && j != ii implies s0[j].0@ != key by {
                        if j < ii {
                            assert(s0[j].0@ != s0[ii].0@);
                        } else {
                            assert(s0[ii].0@ != s0[j].0@);
                        }
                    }
                    assert(unique_names(s1)) by {
                        assert forall|a: int, b: int| 0 <= a < b < s1.len() implies #[trigger] s1[a].0@
                            != #[trigger] s1[b].0@ by {
                            if a != ii && b != ii {
                                assert(s1[a] == s0[a] && s1[b] == s0[b]);
                                assert(s0[a].0@ != s0[b].0@);
                            } else if a == ii {
                                assert(s1[b] == s0[b]);
                            } else {
                                assert(s1[a] == s0[a]);
                            }
                        }
                    }
                    lemma_entries_map(s1);
                    assert forall|k: Seq<char>| #[trigger] entries_map(s1).contains_key(k)
                        == entries_map(s0).insert(key, ty).contains_key(k) by {
                        if k != key {
                            if entries_map(s1).contains_key(k) {
                                let j = choose|j: int| 0 <= j < s1.len() && #[trigger] s1[j].0@ == k;
                                assert(j != ii);
                                assert(s0[j] == s1[j]);
                                assert(entries_map(s0).contains_key(k));
                            }
                            if entries_map(s0).contains_key(k) {
                                let j = choose|j: int| 0 <= j < s0.len() && #[trigger] s0[j].0@ == k;
                                assert(j != ii);
                                assert(s0[j] == s1[j]);
                                assert(entries_map(s1).contains_key(k));
                            }
                        } else {
                            assert(entries_map(s1).contains_key(k));
                        }
                    }
                    assert forall|k: Seq<char>| #[trigger] entries_map(s1).contains_key(k) implies
                        entries_map(s1)[k] == entries_map(s0).insert(key, ty)[k] by {
                        let j = choose|j: int| 0 <= j < s1.len() && #[trigger] s1[j].0@ == k;
                        assert(entries_map(s1)[s1[j].0@] == s1[j].1);
                        if j != ii {
                            assert(s1[j] == s0[j]);
                            assert(entries_map(s0)[s0[j].0@] == s0[j].1);
                        }
                    }
                    assert(entries_map(s1) =~= entries_map(s0).insert(key, ty));
                }
                return;
            }
            i = i + 1;
        }
        let ghost key = name@;
        self.entries.push((name, ty));
        proof {
            let s1 = self.entries@;
            assert(s1.drop_last() =~= s0);
            assert(unique_names(s1)) by {
                assert forall|a: int, b: int| 0 <= a < b < s1.len() implies #[trigger] s1[a].0@
                    != #[trigger] s1[b].0@ by {
                    assert(s1[a] == s0[a]);
                    if b < s0.len() {
                        assert(s1[b] == s0[b]);
                    }
                }
            }
        }
    }
}

// ─── Composition facts ───────────────────────────────────────────────────────

/// The category, mode and direction of a type, as a grammar rule sees them.
#[derive(Clone, Copy, Debug, PartialEq, Eq, Hash, Structural)]
pub struct TypedFact {
    pub category: TypeCategory,
    pub mode: ModalMode,
    pub direction: Direction,
}

/// The fact that a grammar rule matches for a type.
pub fn fact_of(t: ModalType) -> (r: TypedFact)
    ensures
        r == (TypedFact { category: t.category, mode: t.mode, direction: t.direction }),
{
    TypedFact { category: t.category, mode: t.mode, direction: t.direction }
}

/// The category of a term: a predicate's registered category, the category of
/// an application's functor, an abstraction's declared category, else 0.
pub open spec fn category_of(t: Term, m: Map<Seq<char>, ModalType>) -> TypeCategory
    decreases t,
{
    match t {
        Term::Pred(name, _) => if m.contains_key(name) {
            m[name].category
        } else {
            TypeCategory(0)
        },
        Term::App(f, _) => category_of(*f, m),
        Term::Abs(_, ty, _) => ty.category,
        _ => TypeCategory(0),
    }
}

/// Registering `p` with `ty` makes `ty`'s category that of a predicate term
/// over `p`, and of an application whose head is one; registering another
/// name leaves it alone; a name never registered has the default category.
pub proof fn law_register_then_extract(
    m: Map<Seq<char>, ModalType>,
    p: Seq<char>,
    ty: ModalType,
    q: Seq<char>,
    args: Seq<Term>,
    x: Term,
)
    ensures
        category_of(Term::Pred(p, args), m.insert(p, ty)) == ty.category,
        category_of(Term::App(Box::new(Term::Pred(p, args)), Box::new(x)), m.insert(p, ty)) == ty.category,
        q != p ==> category_of(Term::Pred(q, args), m.insert(p, ty)) == category_of(Term::Pred(q, args), m),
        q != p ==> category_of(Term::Pred(p, args), m.insert(q, ty)) == category_of(Term::Pred(p, args), m),
        !m.contains_key(q) ==> category_of(Term::Pred(q, args), m) == TypeCategory(0),
{
}

/// An abstraction takes the category of its declared type, whatever its
/// body; an application takes that of its function part.
pub proof fn law_category_of_shapes(
    m: Map<Seq<char>, ModalType>,
    v: Seq<char>,
    ty: ModalType,
    b: Term,
    f: Term,
    a: Term,
)
    ensures
        category_of(Term::Abs(v, ty, Box::new(b)), m) == ty.category,
        category_of(Term::App(Box::new(f), Box::new(a)), m) == category_of(f, m),
        category_of(Term::App(Box::new(Term::Abs(v, ty, Box::new(b))), Box::new(a)), m) == ty.category,
{
}

impl LambdaTerm {
    /// The category of the term under `type_map`.
    pub fn ucca_category(&self, type_map: &TypeMap) -> (r: TypeCategory)
        requires
            type_map.wf(),
        ensures
            r == category_of(self@, type_map@),
        decreases self,
    {
        match self {
            LambdaTerm::Pred(name, _) => match type_map.get(name) {
                Some(mt) => mt.category,
                None => TypeCategory(0),
            },
            LambdaTerm::App(f, _) => f.ucca_category(type_map),
            LambdaTerm::Abs(_, ty, _) => ty.category,
            _ => TypeCategory(0),
        }
    }
}

// ─── MtlgSemantics ───────────────────────────────────────────────────────────

/// `_UNREDUCED`, the term that stands for one whose normalization found a cycle.
pub open spec fn unreduced_text() -> Seq<char> {
    seq!['_', 'U', 'N', 'R', 'E', 'D', 'U', 'C', 'E', 'D']
}

/// `n` is what normalizing `t0` yields: its normal form, or the constant
/// `_UNREDUCED` when a cycle was found first.
pub open spec fn normal_outcome(t0: Term, n: Term) -> bool {
    ||| exists|k: nat| #[trigger] normalizes_in(t0, k, n)
    ||| (n == Term::Const(unreduced_text()) && exists|k: nat, c: Term| #[trigger] cycles_in(t0, k, c))
}

/// The semantic layer: a type for each registered predicate.
#[derive(Debug)]
pub struct MtlgSemantics {
    pub type_map: TypeMap,
}

impl MtlgSemantics {
    /// No predicate has a type.
    pub fn new() -> (r: MtlgSemantics)
        ensures
            r.type_map.wf(),
            r.type_map@ == Map::<Seq<char>, ModalType>::empty(),
    {
        MtlgSemantics { type_map: TypeMap::new() }
    }

    /// Give `predicate` the type `ty`.
    pub fn register_type(&mut self, predicate: String, ty: ModalType)
        requires
            old(self).type_map.wf(),
        ensures
            final(self).type_map.wf(),
            final(self).type_map@ == old(self).type_map@.insert(predicate@, ty),
    {
        self.type_map.insert(predicate, ty);
    }

    /// The proposition of the normal form of `term` (of `_UNREDUCED` when
    /// normalization finds a cycle).
    pub fn sentence_level(&self, term: LambdaTerm) -> (r: PropositionGraph)
        ensures
            exists|n: Term| normal_outcome(term@, n) && r@ == proposition_of(n),
    {
        let ghost t0 = term@;
        let result = term.normalize();
        let normalized = match result {
            Ok(n) => {
                proof {
                    let k = choose|k: nat| #[trigger] normalizes_in(t0, k, n@);
                    assert(normalizes_in(t0, k, n@));
                }
                n
            },
            Err(ReductionError::NonTerminating(c)) => {
                let text = String::from_str("_UNREDUCED");
                proof {
                    reveal_strlit("_UNREDUCED");
                    assert(text@ =~= unreduced_text());
                    let k = choose|k: nat| #[trigger] cycles_in(t0, k, c@);
                    assert(cycles_in(t0, k, c@));
                }
                LambdaTerm::Const(text)
            },
        };
        let r = PropositionGraph::from_lambda(&normalized);
        proof {
            assert(normal_outcome(t0, normalized@));
        }
        r
    }

    /// The discourse update of `term` relative to the referents already in `parent_refs`.
    pub fn discourse_level(&self, term: &LambdaTerm, parent_refs: &[String]) -> (r: DrsUpdate)
        ensures
            strings_view(r.new_referents@) == not_in(drs_refs(term@), strings_view(parent_refs@)),
            strings_view(r.new_conditions@) == drs_conds(term@),
    {
        DrsUpdate::from_lambda(term, parent_refs)
    }

    /// The category of `term` under the registered types.
    pub fn modal_type_extract(&self, term: &LambdaTerm) -> (r: TypeCategory)
        requires
            self.type_map.wf(),
        ensures
            r == category_of(term@, self.type_map@),
    {
        term.ucca_category(&self.type_map)
    }

    /// Compose a functor type with an argument taken on the right: the
    /// functor's type after one application, when the two are compatible.
    pub fn compose(&self, f_type: ModalType, arg_type: ModalType) -> (r: Option<ModalType>)
        ensures
            r == (if spec_compatible(f_type, arg_type, true) {
                spec_apply(f_type)
            } else {
                None
            }),
    {
        if f_type.compatible_with(arg_type, true) {
            f_type.apply()
        } else {
            None
        }
    }

    /// Compose under a grammar rule: `licensed` is the consequent of the rule
    /// that licenses composing `fact_of(f_type)` with the argument's fact, or
    /// `None` when no rule does. The result takes the rule's category, mode
    /// and direction, and one argument fewer than `f_type`.
    pub fn compose_with_meta(&self, f_type: ModalType, licensed: Option<TypedFact>) -> (r: Option<
        ModalType,
    >)
        ensures
            match licensed {
                Some(c) => r == Some(
                    ModalType {
                        category: c.category,
                        mode: c.mode,
                        direction: c.direction,
                        arity: if f_type.arity > 0 {
                            (f_type.arity - 1) as u8
                        } else {
                            0u8
                        },
                    },
                ),
                None => r is None,
            },
    {
        match licensed {
            Some(c) => Some(
                ModalType {
                    category: c.category,
                    mode: c.mode,
                    direction: c.direction,
                    arity: f_type.arity.saturating_sub(1),
                },
            ),
            None => None,
        }
    }
}

} // verus!
