//! Labels for decentralized information flow control.
//!
//! A label pairs a secrecy component with an integrity component. Each
//! component is either the constant false or a conjunction of clauses, and a
//! clause is a disjunction of principals. Labels are ordered by
//! [`DCLabel::can_flow_to`]; [`DCLabel::lub`] is the join of that order.

use vstd::prelude::*;

verus! {

/// The name of a privilege domain.
pub type Principal = String;

/// A disjunction of principals. The empty clause is false.
#[derive(Debug, Clone, PartialEq, Eq)]
pub struct Clause {
    pub principals: Vec<Principal>,
}

/// A monotone formula over principals.
#[derive(Debug, Clone, PartialEq, Eq)]
pub enum Component {
    /// The constant false, which implies every component.
    DCFalse,
    /// A conjunction of clauses. The empty conjunction is true.
    DCFormula(Vec<Clause>),
}

/// A secrecy component and an integrity component.
#[derive(Debug, Clone, PartialEq, Eq)]
pub struct DCLabel {
    pub secrecy: Component,
    pub integrity: Component,
}

/// The mathematical value of a [`Component`].
#[verifier::ext_equal]
pub enum ComponentView {
    False,
    Formula(Seq<Seq<Seq<char>>>),
}

/// The mathematical value of a [`DCLabel`].
#[verifier::ext_equal]
pub struct LabelView {
    pub secrecy: ComponentView,
    pub integrity: ComponentView,
}

/// Clause `c` implies clause `d`: every principal of `c` occurs in `d`.
pub open spec fn clause_implies(c: Seq<Seq<char>>, d: Seq<Seq<char>>) -> bool {
    forall|i: int| 0 <= i < c.len() ==> d.contains(#[trigger] c[i])
}

/// Some clause of `s` implies the clause `d`.
pub open spec fn some_clause_implies(s: Seq<Seq<Seq<char>>>, d: Seq<Seq<char>>) -> bool {
    exists|j: int| 0 <= j < s.len() && clause_implies(#[trigger] s[j], d)
}

/// Every clause of `o` is implied by some clause of `s`.
pub open spec fn clauses_imply(s: Seq<Seq<Seq<char>>>, o: Seq<Seq<Seq<char>>>) -> bool {
    forall|i: int| 0 <= i < o.len() ==> some_clause_implies(s, #[trigger] o[i])
}

/// The clauses `a + b` for each `b` of `o`, in the order of `o`.
pub open spec fn clause_or_each(a: Seq<Seq<char>>, o: Seq<Seq<Seq<char>>>) -> Seq<Seq<Seq<char>>> {
    Seq::new(o.len(), |k: int| a + o[k])
}

/// The disjunction of two conjunctions of clauses: the clauses `a + b` for
/// each `a` of `s` and each `b` of `o`, ordered by `a` first.
pub open spec fn clauses_or(s: Seq<Seq<Seq<char>>>, o: Seq<Seq<Seq<char>>>) -> Seq<Seq<Seq<char>>>
    decreases s.len(),
{
    if s.len() == 0 {
        Seq::empty()
    } else {
        clauses_or(s.drop_last(), o) + clause_or_each(s.last(), o)
    }
}

/// The principals of `c`, each once, in the order in which they first
/// occur.
pub open spec fn distinct(c: Seq<Seq<char>>) -> Seq<Seq<char>>
    decreases c.len(),
{
    if c.len() == 0 {
        Seq::empty()
    } else {
        let d = distinct(c.drop_last());
        if d.contains(c.last()) {
            d
        } else {
            d.push(c.last())
        }
    }
}

/// The clauses of `cs`, each with its principals once.
pub open spec fn distinct_each(cs: Seq<Seq<Seq<char>>>) -> Seq<Seq<Seq<char>>> {
    Seq::new(cs.len(), |i: int| distinct(cs[i]))
}

/// The clauses of `cs` without those that a clause kept before them
/// implies.
pub open spec fn prune(cs: Seq<Seq<Seq<char>>>) -> Seq<Seq<Seq<char>>>
    decreases cs.len(),
{
    if cs.len() == 0 {
        Seq::empty()
    } else {
        let p = prune(cs.drop_last());
        if some_clause_implies(p, cs.last()) {
            p
        } else {
            p.push(cs.last())
        }
    }
}

/// The clauses of `cs` without those that a clause kept after them
/// implies.
pub open spec fn prune_back(cs: Seq<Seq<Seq<char>>>) -> Seq<Seq<Seq<char>>>
    decreases cs.len(),
{
    if cs.len() == 0 {
        Seq::empty()
    } else {
        let p = prune_back(cs.skip(1));
        if some_clause_implies(p, cs[0]) {
            p
        } else {
            seq![cs[0]] + p
        }
    }
}

/// The clauses of `cs` in reduced form: no principal twice in a clause,
/// and no clause that another implies.
pub open spec fn reduced(cs: Seq<Seq<Seq<char>>>) -> Seq<Seq<Seq<char>>> {
    prune_back(prune(distinct_each(cs)))
}

impl ComponentView {
    /// The component in reduced form. It says what the component says.
    pub open spec fn reduce(self) -> ComponentView {
        match self {
            ComponentView::False => ComponentView::False,
            ComponentView::Formula(cs) => ComponentView::Formula(reduced(cs)),
        }
    }

    /// Logical implication between components. False implies everything,
    /// and only false implies false.
    pub open spec fn implies(self, other: ComponentView) -> bool {
        match (self, other) {
            (ComponentView::False, _) => true,
            (_, ComponentView::False) => false,
            (ComponentView::Formula(s), ComponentView::Formula(o)) => clauses_imply(s, o),
        }
    }

    /// Conjunction: false if either side is false, else the clauses of
    /// `self` followed by those of `other`.
    pub open spec fn and(self, other: ComponentView) -> ComponentView {
        match (self, other) {
            (ComponentView::False, _) => ComponentView::False,
            (_, ComponentView::False) => ComponentView::False,
            (ComponentView::Formula(s), ComponentView::Formula(o)) => ComponentView::Formula(s + o),
        }
    }

    /// Disjunction: the other side if one side is false, else the pairwise
    /// disjunction of the clauses.
    pub open spec fn or(self, other: ComponentView) -> ComponentView {
        match (self, other) {
            (s, ComponentView::False) => s,
            (ComponentView::False, o) => o,
            (ComponentView::Formula(s), ComponentView::Formula(o)) => ComponentView::Formula(
                clauses_or(s, o),
            ),
        }
    }
}

impl LabelView {
    /// Data labeled `self` may flow to a place labeled `rhs`: `rhs` is at
    /// least as secret, and `self` is at least as trustworthy.
    pub open spec fn can_flow_to(self, rhs: LabelView) -> bool {
        rhs.secrecy.implies(self.secrecy) && self.integrity.implies(rhs.integrity)
    }

    /// The join of two labels: secrecy of both, integrity of either, each
    /// in reduced form.
    pub open spec fn lub(self, rhs: LabelView) -> LabelView {
        LabelView {
            secrecy: self.secrecy.and(rhs.secrecy).reduce(),
            integrity: self.integrity.or(rhs.integrity).reduce(),
        }
    }

    /// The label with both components in reduced form.
    pub open spec fn reduce(self) -> LabelView {
        LabelView { secrecy: self.secrecy.reduce(), integrity: self.integrity.reduce() }
    }

    /// True secrecy and true integrity.
    pub open spec fn public() -> LabelView {
        LabelView {
            secrecy: ComponentView::Formula(Seq::empty()),
            integrity: ComponentView::Formula(Seq::empty()),
        }
    }

    /// False secrecy and true integrity: every label can flow to it.
    pub open spec fn top() -> LabelView {
        LabelView { secrecy: ComponentView::False, integrity: ComponentView::Formula(Seq::empty()) }
    }

    /// True secrecy and false integrity: it can flow to every label.
    pub open spec fn bottom() -> LabelView {
        LabelView { secrecy: ComponentView::Formula(Seq::empty()), integrity: ComponentView::False }
    }

    /// The label with `principal` added as one more integrity clause.
    pub open spec fn endorse(self, principal: Seq<char>) -> LabelView {
        LabelView {
            secrecy: self.secrecy,
            integrity: ComponentView::Formula(seq![seq![principal]]).and(self.integrity),
        }
    }
}

impl View for Clause {
    type V = Seq<Seq<char>>;

    open spec fn view(&self) -> Seq<Seq<char>> {
        self.principals.deep_view()
    }
}

/// The clauses of a vector of clauses, in order.
pub open spec fn clauses_view(v: Seq<Clause>) -> Seq<Seq<Seq<char>>> {
    Seq::new(v.len(), |i: int| v[i]@)
}

impl View for Component {
    type V = ComponentView;

    open spec fn view(&self) -> ComponentView {
        match self {
            Component::DCFalse => ComponentView::False,
            Component::DCFormula(clauses) => ComponentView::Formula(clauses_view(clauses@)),
        }
    }
}

impl View for DCLabel {
    type V = LabelView;

    open spec fn view(&self) -> LabelView {
        LabelView { secrecy: self.secrecy@, integrity: self.integrity@ }
    }
}

/// Whether `p` occurs among `principals`.
fn has_principal(principals: &Vec<Principal>, p: &Principal) -> (r: bool)
    ensures
        r == principals.deep_view().contains(p@),
{
    let mut i: usize = 0;
    while i < principals.len()
        invariant
            0 <= i <= principals.len(),
            forall|k: int| 0 <= k < i ==> principals.deep_view()[k] != p@,
        decreases principals.len() - i,
    {
        if principals[i] == *p {
            assert(principals.deep_view()[i as int] == p@);
            return true;
        }
        i += 1;
    }
    false
}

impl Clause {
    /// The clause of the given principals.
    pub fn new(principals: Vec<Principal>) -> (r: Clause)
        ensures
            r@ == principals.deep_view(),
    {
        Clause { principals }
    }

    /// The empty clause, which is false.
    pub fn empty() -> (r: Clause)
        ensures
            r@ == Seq::<Seq<char>>::empty(),
    {
        let c = Clause { principals: Vec::new() };
        assert(c@ =~= Seq::<Seq<char>>::empty());
        c
    }

    /// Whether this clause implies `other`: each of its principals occurs
    /// in `other`.
    pub fn implies(&self, other: &Clause) -> (r: bool)
        ensures
            r == clause_implies(self@, other@),
    {
        let mut i: usize = 0;
        while i < self.principals.len()
            invariant
                0 <= i <= self.principals.len(),
                forall|k: int| 0 <= k < i ==> other@.contains(#[trigger] self@[k]),
            decreases self.principals.len() - i,
        {
            if !has_principal(&other.principals, &self.principals[i]) {
                assert(self@[i as int] == self.principals[i as int]@);
                return false;
            }
            assert(self@[i as int] == self.principals[i as int]@);
            i += 1;
        }
        true
    }

    /// A copy of this clause.
    pub fn duplicate(&self) -> (r: Clause)
        ensures
            r@ == self@,
    {
        let mut principals: Vec<Principal> = Vec::new();
        let mut i: usize = 0;
        while i < self.principals.len()
            invariant
                0 <= i <= self.principals.len(),
                principals.len() == i,
                forall|k: int| 0 <= k < i ==> principals[k]@ == self.principals[k]@,
            decreases self.principals.len() - i,
        {
            principals.push(self.principals[i].clone());
            i += 1;
        }
        let r = Clause { principals };
        assert(r@ =~= self@);
        r
    }
}

/// A copy of a vector of clauses.
fn duplicate_clauses(clauses: &Vec<Clause>) -> (r: Vec<Clause>)
    ensures
        clauses_view(r@) == clauses_view(clauses@),
{
    let mut out: Vec<Clause> = Vec::new();
    let mut i: usize = 0;
    while i < clauses.len()
        invariant
            0 <= i <= clauses.len(),
            out.len() == i,
            forall|k: int| 0 <= k < i ==> out[k]@ == clauses[k]@,
        decreases clauses.len() - i,
    {
        out.push(clauses[i].duplicate());
        i += 1;
    }
    assert(clauses_view(out@) =~= clauses_view(clauses@));
    out
}

/// Whether some clause of `clauses` implies `d`.
fn any_clause_implies(clauses: &Vec<Clause>, d: &Clause) -> (r: bool)
    ensures
        r == some_clause_implies(clauses_view(clauses@), d@),
{
    let mut j: usize = 0;
    while j < clauses.len()
        invariant
            0 <= j <= clauses.len(),
            forall|k: int| 0 <= k < j ==> !clause_implies(#[trigger] clauses_view(clauses@)[k], d@),
        decreases clauses.len() - j,
    {
        if clauses[j].implies(d) {
            assert(clause_implies(clauses_view(clauses@)[j as int], d@));
            return true;
        }
        j += 1;
    }
    false
}

/// The clauses `a + b` for each `b` of `o`.
fn or_each(a: &Clause, o: &Vec<Clause>) -> (r: Vec<Clause>)
    ensures
        clauses_view(r@) == clause_or_each(a@, clauses_view(o@)),
{
    let mut out: Vec<Clause> = Vec::new();
    let mut k: usize = 0;
    while k < o.len()
        invariant
            0 <= k <= o.len(),
            out.len() == k,
            forall|n: int| 0 <= n < k ==> out[n]@ == a@ + o[n]@,
        decreases o.len() - k,
    {
        let mut c = a.duplicate();
        let mut b = o[k].duplicate();
        let ghost before = c@;
        let ghost tail = b@;
        c.principals.append(&mut b.principals);
        assert(c@ =~= before + tail);
        out.push(c);
        k += 1;
    }
    assert(clauses_view(out@) =~= clause_or_each(a@, clauses_view(o@)));
    out
}

/// The principals of `c`, each once.
fn distinct_principals(c: &Clause) -> (r: Clause)
    ensures
        r@ == distinct(c@),
{
    let mut out: Vec<Principal> = Vec::new();
    let mut i: usize = 0;
    assert(c@.take(0) =~= Seq::<Seq<char>>::empty());
    assert(out.deep_view() =~= Seq::<Seq<char>>::empty());
    while i < c.principals.len()
        invariant
            0 <= i <= c.principals.len(),
            out.deep_view() == distinct(c@.take(i as int)),
        decreases c.principals.len() - i,
    {
        proof {
            assert(c@.take(i + 1).drop_last() =~= c@.take(i as int));
            assert(c@.take(i + 1).last() == c.principals[i as int]@);
        }
        if !has_principal(&out, &c.principals[i]) {
            let ghost before = out.deep_view();
            out.push(c.principals[i].clone());
            assert(out.deep_view() =~= before.push(c.principals[i as int]@));
        }
        i += 1;
    }
    assert(c@.take(c.principals.len() as int) =~= c@);
    Clause { principals: out }
}

/// The clauses of `cs` in reduced form.
fn reduce_clauses(cs: &Vec<Clause>) -> (r: Vec<Clause>)
    ensures
        clauses_view(r@) == reduced(clauses_view(cs@)),
{
    let ghost all = distinct_each(clauses_view(cs@));
    // forwards: drop what an earlier clause implies
    let mut kept: Vec<Clause> = Vec::new();
    let mut i: usize = 0;
    assert(all.take(0) =~= Seq::<Seq<Seq<char>>>::empty());
    assert(clauses_view(kept@) =~= Seq::<Seq<Seq<char>>>::empty());
    while i < cs.len()
        invariant
            0 <= i <= cs.len(),
            all == distinct_each(clauses_view(cs@)),
            clauses_view(kept@) == prune(all.take(i as int)),
        decreases cs.len() - i,
    {
        let c = distinct_principals(&cs[i]);
        proof {
            assert(all.take(i + 1).drop_last() =~= all.take(i as int));
            assert(all.take(i + 1).last() == c@);
        }
        if !any_clause_implies(&kept, &c) {
            let ghost before = clauses_view(kept@);
            let ghost added = c@;
            kept.push(c);
            assert(clauses_view(kept@) =~= before.push(added));
        }
        i += 1;
    }
    assert(all.take(cs.len() as int) =~= all);
    // backwards: drop what a later clause implies
    let ghost mid = clauses_view(kept@);
    let mut out: Vec<Clause> = Vec::new();
    let mut j: usize = kept.len();
    assert(mid.skip(j as int) =~= Seq::<Seq<Seq<char>>>::empty());
    assert(clauses_view(out@) =~= Seq::<Seq<Seq<char>>>::empty());
    while j > 0
        invariant
            0 <= j <= kept.len(),
            mid == clauses_view(kept@),
            clauses_view(out@) == prune_back(mid.skip(j as int)),
        decreases j,
    {
        j -= 1;
        proof {
            assert(mid.skip(j as int)[0] == kept[j as int]@);
            assert(mid.skip(j as int).skip(1) =~= mid.skip(j + 1));
        }
        if !any_clause_implies(&out, &kept[j]) {
            let ghost before = clauses_view(out@);
            let c = kept[j].duplicate();
            let ghost added = c@;
            out.insert(0, c);
            assert(clauses_view(out@) =~= seq![added] + before);
        }
    }
    assert(mid.skip(0) =~= mid);
    out
}

impl Component {
    /// This component in reduced form: no principal twice in a clause, and
    /// no clause that another implies.
    pub fn reduce(self) -> (r: Component)
        ensures
            r@ == self@.reduce(),
    {
        match self {
            Component::DCFalse => Component::DCFalse,
            Component::DCFormula(clauses) => Component::DCFormula(reduce_clauses(&clauses)),
        }
    }

    /// The constant false.
    pub fn dc_false() -> (r: Component)
        ensures
            r@ == ComponentView::False,
    {
        Component::DCFalse
    }

    /// The constant true: the empty conjunction.
    pub fn dc_true() -> (r: Component)
        ensures
            r@ == ComponentView::Formula(Seq::empty()),
    {
        let r = Component::DCFormula(Vec::new());
        assert(r@ =~= ComponentView::Formula(Seq::empty()));
        r
    }

    /// The conjunction of the given clauses.
    pub fn formula(clauses: Vec<Clause>) -> (r: Component)
        ensures
            r@ == ComponentView::Formula(clauses_view(clauses@)),
    {
        Component::DCFormula(clauses)
    }

    /// Whether this is the constant false.
    pub fn is_false(&self) -> (r: bool)
        ensures
            r == (self@ == ComponentView::False),
    {
        match self {
            Component::DCFalse => true,
            Component::DCFormula(_) => false,
        }
    }

    /// Whether this is the constant true.
    pub fn is_true(&self) -> (r: bool)
        ensures
            r == (self@ == ComponentView::Formula(Seq::empty())),
    {
        match self {
            Component::DCFalse => false,
            Component::DCFormula(clauses) => {
                assert(clauses_view(clauses@).len() == clauses.len());
                assert(clauses.len() == 0 ==> clauses_view(clauses@) =~= Seq::empty());
                clauses.len() == 0
            },
        }
    }

    /// Whether this component implies `other`.
    pub fn implies(&self, other: &Component) -> (r: bool)
        ensures
            r == self@.implies(other@),
    {
        match self {
            Component::DCFalse => true,
            Component::DCFormula(s) => match other {
                Component::DCFalse => false,
                Component::DCFormula(o) => {
                    let mut i: usize = 0;
                    while i < o.len()
                        invariant
                            0 <= i <= o.len(),
                            self@ == ComponentView::Formula(clauses_view(s@)),
                            other@ == ComponentView::Formula(clauses_view(o@)),
                            forall|k: int|
                                0 <= k < i ==> some_clause_implies(
                                    clauses_view(s@),
                                    #[trigger] clauses_view(o@)[k],
                                ),
                        decreases o.len() - i,
                    {
                        assert(clauses_view(o@)[i as int] == o[i as int]@);
                        if !any_clause_implies(s, &o[i]) {
                            return false;
                        }
                        i += 1;
                    }
                    true
                },
            },
        }
    }

    /// A copy of this component.
    pub fn duplicate(&self) -> (r: Component)
        ensures
            r@ == self@,
    {
        match self {
            Component::DCFalse => Component::DCFalse,
            Component::DCFormula(clauses) => Component::DCFormula(duplicate_clauses(clauses)),
        }
    }

    /// The conjunction of two components.
    pub fn and(self, rhs: Component) -> (r: Component)
        ensures
            r@ == self@.and(rhs@),
    {
        match self {
            Component::DCFalse => Component::DCFalse,
            Component::DCFormula(mut s) => match rhs {
                Component::DCFalse => Component::DCFalse,
                Component::DCFormula(mut o) => {
                    let ghost left = clauses_view(s@);
                    let ghost right = clauses_view(o@);
                    s.append(&mut o);
                    assert(clauses_view(s@) =~= left + right);
                    Component::DCFormula(s)
                },
            },
        }
    }

    /// The disjunction of two components.
    pub fn or(self, rhs: Component) -> (r: Component)
        ensures
            r@ == self@.or(rhs@),
    {
        match rhs {
            Component::DCFalse => self,
            Component::DCFormula(o) => match self {
                Component::DCFalse => Component::DCFormula(o),
                Component::DCFormula(s) => {
                    let mut out: Vec<Clause> = Vec::new();
                    let mut i: usize = 0;
                    assert(clauses_view(s@).take(0) =~= Seq::empty());
                    assert(clauses_view(out@) =~= Seq::empty());
                    while i < s.len()
                        invariant
                            0 <= i <= s.len(),
                            clauses_view(out@) == clauses_or(
                                clauses_view(s@).take(i as int),
                                clauses_view(o@),
                            ),
                        decreases s.len() - i,
                    {
                        let ghost before = clauses_view(out@);
                        let mut row = or_each(&s[i], &o);
                        let ghost added = clauses_view(row@);
                        out.append(&mut row);
                        proof {
                            let next = clauses_view(s@).take(i + 1);
                            assert(next.drop_last() =~= clauses_view(s@).take(i as int));
                            assert(next.last() == s[i as int]@);
                            assert(clauses_view(out@) =~= before + added);
                        }
                        i += 1;
                    }
                    assert(clauses_view(s@).take(s.len() as int) =~= clauses_view(s@));
                    Component::DCFormula(out)
                },
            },
        }
    }
}

impl DCLabel {
    /// The label of the given components.
    pub fn new(secrecy: Component, integrity: Component) -> (r: DCLabel)
        ensures
            r@ == (LabelView { secrecy: secrecy@, integrity: integrity@ }),
    {
        DCLabel { secrecy, integrity }
    }

    /// Public data that nobody vouches for: true secrecy, true integrity.
    pub fn public() -> (r: DCLabel)
        ensures
            r@ == LabelView::public(),
    {
        DCLabel { secrecy: Component::dc_true(), integrity: Component::dc_true() }
    }

    /// The greatest label: false secrecy, true integrity.
    pub fn top() -> (r: DCLabel)
        ensures
            r@ == LabelView::top(),
    {
        DCLabel { secrecy: Component::dc_false(), integrity: Component::dc_true() }
    }

    /// The least label: true secrecy, false integrity.
    pub fn bottom() -> (r: DCLabel)
        ensures
            r@ == LabelView::bottom(),
    {
        DCLabel { secrecy: Component::dc_true(), integrity: Component::dc_false() }
    }

    /// Whether data labeled `self` may flow to a place labeled `rhs`.
    pub fn can_flow_to(&self, rhs: &DCLabel) -> (r: bool)
        ensures
            r == self@.can_flow_to(rhs@),
    {
        rhs.secrecy.implies(&self.secrecy) && self.integrity.implies(&rhs.integrity)
    }

    /// The join of two labels.
    pub fn lub(self, rhs: DCLabel) -> (r: DCLabel)
        ensures
            r@ == self@.lub(rhs@),
    {
        DCLabel {
            secrecy: self.secrecy.and(rhs.secrecy).reduce(),
            integrity: self.integrity.or(rhs.integrity).reduce(),
        }
    }

    /// This label with both components in reduced form.
    pub fn reduce(self) -> (r: DCLabel)
        ensures
            r@ == self@.reduce(),
    {
        DCLabel { secrecy: self.secrecy.reduce(), integrity: self.integrity.reduce() }
    }

    /// This label with `principal` added to its integrity. Secrecy is kept.
    pub fn endorse(self, principal: &str) -> (r: DCLabel)
        ensures
            r@ == self@.endorse(principal@),
    {
        let mut names: Vec<Principal> = Vec::new();
        names.push(principal.to_owned());
        let mut clauses: Vec<Clause> = Vec::new();
        clauses.push(Clause { principals: names });
        let privilege = Component::DCFormula(clauses);
        assert(privilege@ =~= ComponentView::Formula(seq![seq![principal@]])) by {
            assert(clauses_view(clauses@) =~= seq![seq![principal@]]) by {
                assert(clauses@[0]@ =~= seq![principal@]);
            }
        }
        DCLabel { secrecy: self.secrecy, integrity: privilege.and(self.integrity) }
    }

    /// A copy of this label.
    pub fn duplicate(&self) -> (r: DCLabel)
        ensures
            r@ == self@,
    {
        DCLabel { secrecy: self.secrecy.duplicate(), integrity: self.integrity.duplicate() }
    }
}

/// The concatenation of clause `i` of `s` and clause `k` of `o`.
pub open spec fn clause_or_at(
    s: Seq<Seq<Seq<char>>>,
    o: Seq<Seq<Seq<char>>>,
    i: int,
    k: int,
) -> Seq<Seq<char>> {
    s[i] + o[k]
}

/// Clause `c` is `a + b` for some clause `a` of `s` and some clause `b` of `o`.
pub open spec fn is_clause_or(s: Seq<Seq<Seq<char>>>, o: Seq<Seq<Seq<char>>>, c: Seq<Seq<char>>) -> bool {
    exists|i: int, k: int|
        0 <= i < s.len() && 0 <= k < o.len() && c == #[trigger] clause_or_at(s, o, i, k)
}

/// Every clause implies itself.
pub proof fn lemma_clause_implies_reflexive(c: Seq<Seq<char>>)
    ensures
        clause_implies(c, c),
{
}

/// Implication between clauses is transitive.
pub proof fn lemma_clause_implies_transitive(
    c: Seq<Seq<char>>,
    d: Seq<Seq<char>>,
    e: Seq<Seq<char>>,
)
    requires
        clause_implies(c, d),
        clause_implies(d, e),
    ensures
        clause_implies(c, e),
{
    assert forall|i: int| 0 <= i < c.len() implies e.contains(#[trigger] c[i]) by {
        assert(d.contains(c[i]));
        let j = choose|j: int| 0 <= j < d.len() && d[j] == c[i];
        assert(e.contains(d[j]));
    }
}

/// Both sides of a concatenation of clauses imply it.
pub proof fn lemma_clause_implies_concat(a: Seq<Seq<char>>, b: Seq<Seq<char>>)
    ensures
        clause_implies(a, a + b),
        clause_implies(b, a + b),
{
    assert forall|i: int| 0 <= i < a.len() implies (a + b).contains(#[trigger] a[i]) by {
        assert((a + b)[i] == a[i]);
    }
    assert forall|i: int| 0 <= i < b.len() implies (a + b).contains(#[trigger] b[i]) by {
        assert((a + b)[a.len() + i] == b[i]);
    }
}

/// A concatenation of clauses implies whatever both sides imply.
pub proof fn lemma_clause_concat_implies(a: Seq<Seq<char>>, b: Seq<Seq<char>>, c: Seq<Seq<char>>)
    requires
        clause_implies(a, c),
        clause_implies(b, c),
    ensures
        clause_implies(a + b, c),
{
    assert forall|i: int| 0 <= i < (a + b).len() implies c.contains(#[trigger] (a + b)[i]) by {
        if i < a.len() {
            assert((a + b)[i] == a[i]);
        } else {
            assert((a + b)[i] == b[i - a.len()]);
        }
    }
}

/// Each clause of a pairwise disjunction is the concatenation of one
/// clause of each side.
pub proof fn lemma_clauses_or_sound(s: Seq<Seq<Seq<char>>>, o: Seq<Seq<Seq<char>>>, n: int)
    requires
        0 <= n < clauses_or(s, o).len(),
    ensures
        is_clause_or(s, o, clauses_or(s, o)[n]),
    decreases s.len(),
{
    let front = s.drop_last();
    let head = clauses_or(front, o);
    if n < head.len() {
        lemma_clauses_or_sound(front, o, n);
        let (i, k) = choose|i: int, k: int|
            0 <= i < front.len() && 0 <= k < o.len() && head[n] == #[trigger] clause_or_at(
                front,
                o,
                i,
                k,
            );
        assert(clauses_or(s, o)[n] == clause_or_at(s, o, i, k));
    } else {
        assert(clauses_or(s, o)[n] == clause_or_at(s, o, s.len() - 1, n - head.len()));
    }
}

/// The concatenation of one clause of each side is a clause of the
/// pairwise disjunction.
pub proof fn lemma_clauses_or_complete(s: Seq<Seq<Seq<char>>>, o: Seq<Seq<Seq<char>>>, i: int, k: int)
    requires
        0 <= i < s.len(),
        0 <= k < o.len(),
    ensures
        clauses_or(s, o).contains(s[i] + o[k]),
    decreases s.len(),
{
    let front = s.drop_last();
    let head = clauses_or(front, o);
    let row = clause_or_each(s.last(), o);
    if i < front.len() {
        lemma_clauses_or_complete(front, o, i, k);
        let n = choose|n: int| 0 <= n < head.len() && head[n] == front[i] + o[k];
        assert(clauses_or(s, o)[n] == s[i] + o[k]);
    } else {
        assert(row[k] == s[i] + o[k]);
        assert(clauses_or(s, o)[head.len() + k] == row[k]);
    }
}

/// Every component implies itself.
pub proof fn lemma_implies_reflexive(a: ComponentView)
    ensures
        a.implies(a),
{
    if let ComponentView::Formula(s) = a {
        assert forall|i: int| 0 <= i < s.len() implies some_clause_implies(s, #[trigger] s[i]) by {
            lemma_clause_implies_reflexive(s[i]);
        }
    }
}

/// Implication between components is transitive.
pub proof fn lemma_implies_transitive(a: ComponentView, b: ComponentView, c: ComponentView)
    requires
        a.implies(b),
        b.implies(c),
    ensures
        a.implies(c),
{
    if let (ComponentView::Formula(s), ComponentView::Formula(m), ComponentView::Formula(o)) = (
        a,
        b,
        c,
    ) {
        assert forall|i: int| 0 <= i < o.len() implies some_clause_implies(s, #[trigger] o[i]) by {
            assert(some_clause_implies(m, o[i]));
            let j = choose|j: int| 0 <= j < m.len() && clause_implies(#[trigger] m[j], o[i]);
            assert(some_clause_implies(s, m[j]));
            let h = choose|h: int| 0 <= h < s.len() && clause_implies(#[trigger] s[h], m[j]);
            lemma_clause_implies_transitive(s[h], m[j], o[i]);
        }
    }
}

/// A conjunction implies both of its sides, and is implied by whatever
/// implies both.
pub proof fn lemma_and_is_meet(a: ComponentView, b: ComponentView, c: ComponentView)
    ensures
        a.and(b).implies(a),
        a.and(b).implies(b),
        c.implies(a) && c.implies(b) ==> c.implies(a.and(b)),
{
    if let (ComponentView::Formula(s), ComponentView::Formula(o)) = (a, b) {
        let both = s + o;
        assert forall|i: int| 0 <= i < s.len() implies some_clause_implies(both, #[trigger] s[i]) by {
            assert(both[i] == s[i]);
            lemma_clause_implies_reflexive(s[i]);
        }
        assert forall|i: int| 0 <= i < o.len() implies some_clause_implies(both, #[trigger] o[i]) by {
            assert(both[s.len() + i] == o[i]);
            lemma_clause_implies_reflexive(o[i]);
        }
        if let ComponentView::Formula(x) = c {
            if c.implies(a) && c.implies(b) {
                assert forall|i: int| 0 <= i < both.len() implies some_clause_implies(
                    x,
                    #[trigger] both[i],
                ) by {
                    if i < s.len() {
                        assert(both[i] == s[i]);
                    } else {
                        assert(both[i] == o[i - s.len()]);
                    }
                }
            }
        }
    }
}

/// A disjunction is implied by both of its sides, and implies whatever both
/// imply.
pub proof fn lemma_or_is_join(a: ComponentView, b: ComponentView, c: ComponentView)
    ensures
        a.implies(a.or(b)),
        b.implies(a.or(b)),
        a.implies(c) && b.implies(c) ==> a.or(b).implies(c),
{
    lemma_implies_reflexive(a);
    lemma_implies_reflexive(b);
    if let (ComponentView::Formula(s), ComponentView::Formula(o)) = (a, b) {
        let either = clauses_or(s, o);
        assert forall|n: int| 0 <= n < either.len() implies some_clause_implies(
            s,
            #[trigger] either[n],
        ) && some_clause_implies(o, either[n]) by {
            lemma_clauses_or_sound(s, o, n);
            let (i, k) = choose|i: int, k: int|
                0 <= i < s.len() && 0 <= k < o.len() && either[n] == #[trigger] clause_or_at(
                    s,
                    o,
                    i,
                    k,
                );
            lemma_clause_implies_concat(s[i], o[k]);
        }
        if let ComponentView::Formula(x) = c {
            if a.implies(c) && b.implies(c) {
                assert forall|n: int| 0 <= n < x.len() implies some_clause_implies(
                    either,
                    #[trigger] x[n],
                ) by {
                    assert(some_clause_implies(s, x[n]));
                    assert(some_clause_implies(o, x[n]));
                    let i = choose|i: int| 0 <= i < s.len() && clause_implies(#[trigger] s[i], x[n]);
                    let k = choose|k: int| 0 <= k < o.len() && clause_implies(#[trigger] o[k], x[n]);
                    lemma_clause_concat_implies(s[i], o[k], x[n]);
                    lemma_clauses_or_complete(s, o, i, k);
                    let m = choose|m: int| 0 <= m < either.len() && either[m] == s[i] + o[k];
                    assert(clause_implies(either[m], x[n]));
                }
            }
        }
    }
}

/// A clause and the clause of its principals, each once, imply each
/// other.
pub proof fn lemma_distinct_equivalent(c: Seq<Seq<char>>)
    ensures
        clause_implies(c, distinct(c)),
        clause_implies(distinct(c), c),
    decreases c.len(),
{
    if c.len() > 0 {
        let front = c.drop_last();
        let d = distinct(front);
        let e = distinct(c);
        lemma_distinct_equivalent(front);
        assert forall|i: int| 0 <= i < c.len() implies e.contains(#[trigger] c[i]) by {
            if i < front.len() {
                assert(front[i] == c[i]);
                assert(d.contains(front[i]));
                let k = choose|k: int| 0 <= k < d.len() && d[k] == front[i];
                assert(e[k] == c[i]);
            } else if !d.contains(c.last()) {
                assert(e[d.len() as int] == c.last());
            }
        }
        assert forall|i: int| 0 <= i < e.len() implies c.contains(#[trigger] e[i]) by {
            if i < d.len() {
                assert(e[i] == d[i]);
                assert(front.contains(d[i]));
                let k = choose|k: int| 0 <= k < front.len() && front[k] == d[i];
                assert(c[k] == e[i]);
            } else {
                assert(c[c.len() - 1] == e[i]);
            }
        }
    }
}

/// Every clause of `cs` is implied by a clause that [`prune`] keeps, and
/// every kept clause is a clause of `cs`.
pub proof fn lemma_prune_equivalent(cs: Seq<Seq<Seq<char>>>)
    ensures
        clauses_imply(prune(cs), cs),
        forall|i: int| 0 <= i < prune(cs).len() ==> cs.contains(#[trigger] prune(cs)[i]),
    decreases cs.len(),
{
    if cs.len() > 0 {
        let front = cs.drop_last();
        let p = prune(front);
        let q = prune(cs);
        lemma_prune_equivalent(front);
        assert forall|i: int| 0 <= i < cs.len() implies some_clause_implies(q, #[trigger] cs[i]) by {
            if i < front.len() {
                assert(front[i] == cs[i]);
                assert(some_clause_implies(p, front[i]));
                let j = choose|j: int| 0 <= j < p.len() && clause_implies(#[trigger] p[j], front[i]);
                assert(q[j] == p[j]);
            } else if !some_clause_implies(p, cs.last()) {
                lemma_clause_implies_reflexive(cs.last());
                assert(q[p.len() as int] == cs.last());
            }
        }
        assert forall|i: int| 0 <= i < q.len() implies cs.contains(#[trigger] q[i]) by {
            if i < p.len() {
                assert(q[i] == p[i]);
                assert(front.contains(p[i]));
                let k = choose|k: int| 0 <= k < front.len() && front[k] == p[i];
                assert(cs[k] == q[i]);
            } else {
                assert(cs[cs.len() - 1] == q[i]);
            }
        }
    }
}

/// Every clause of `cs` is implied by a clause that [`prune_back`] keeps,
/// and every kept clause is a clause of `cs`.
pub proof fn lemma_prune_back_equivalent(cs: Seq<Seq<Seq<char>>>)
    ensures
        clauses_imply(prune_back(cs), cs),
        forall|i: int| 0 <= i < prune_back(cs).len() ==> cs.contains(#[trigger] prune_back(cs)[i]),
    decreases cs.len(),
{
    if cs.len() > 0 {
        let rest = cs.skip(1);
        let p = prune_back(rest);
        let q = prune_back(cs);
        lemma_prune_back_equivalent(rest);
        let shift: int = if some_clause_implies(p, cs[0]) {
            0
        } else {
            1
        };
        assert forall|j: int| 0 <= j < p.len() implies q[j + shift] == p[j] by {}
        assert forall|i: int| 0 <= i < cs.len() implies some_clause_implies(q, #[trigger] cs[i]) by {
            if i > 0 {
                assert(rest[i - 1] == cs[i]);
                assert(some_clause_implies(p, rest[i - 1]));
                let j = choose|j: int|
                    0 <= j < p.len() && clause_implies(#[trigger] p[j], rest[i - 1]);
                assert(q[j + shift] == p[j]);
            } else if shift == 1 {
                lemma_clause_implies_reflexive(cs[0]);
                assert(q[0] == cs[0]);
            } else {
                let j = choose|j: int| 0 <= j < p.len() && clause_implies(#[trigger] p[j], cs[0]);
                assert(q[j] == p[j]);
            }
        }
        assert forall|i: int| 0 <= i < q.len() implies cs.contains(#[trigger] q[i]) by {
            if i >= shift {
                assert(q[i] == p[i - shift]);
                assert(rest.contains(p[i - shift]));
                let k = choose|k: int| 0 <= k < rest.len() && rest[k] == p[i - shift];
                assert(cs[k + 1] == q[i]);
            } else {
                assert(cs[0] == q[i]);
            }
        }
    }
}

/// Where every clause of `b` is a clause of `a`, `a` implies `b`.
pub proof fn lemma_subsequence_implied(a: Seq<Seq<Seq<char>>>, b: Seq<Seq<Seq<char>>>)
    requires
        forall|i: int| 0 <= i < b.len() ==> a.contains(#[trigger] b[i]),
    ensures
        clauses_imply(a, b),
{
    assert forall|i: int| 0 <= i < b.len() implies some_clause_implies(a, #[trigger] b[i]) by {
        let k = choose|k: int| 0 <= k < a.len() && a[k] == b[i];
        lemma_clause_implies_reflexive(a[k]);
    }
}

/// Clauses and the same clauses with every principal once imply each
/// other.
pub proof fn lemma_distinct_each_equivalent(cs: Seq<Seq<Seq<char>>>)
    ensures
        clauses_imply(cs, distinct_each(cs)),
        clauses_imply(distinct_each(cs), cs),
{
    let d = distinct_each(cs);
    assert forall|i: int| 0 <= i < d.len() implies some_clause_implies(cs, #[trigger] d[i]) by {
        lemma_distinct_equivalent(cs[i]);
        assert(clause_implies(cs[i], d[i]));
    }
    assert forall|i: int| 0 <= i < cs.len() implies some_clause_implies(d, #[trigger] cs[i]) by {
        lemma_distinct_equivalent(cs[i]);
        assert(clause_implies(d[i], cs[i]));
    }
}

/// Clauses and their reduced form imply each other.
pub proof fn lemma_reduced_equivalent(cs: Seq<Seq<Seq<char>>>)
    ensures
        clauses_imply(cs, reduced(cs)),
        clauses_imply(reduced(cs), cs),
{
    let d = distinct_each(cs);
    let p = prune(d);
    let q = prune_back(p);
    let fc = ComponentView::Formula(cs);
    let fd = ComponentView::Formula(d);
    let fp = ComponentView::Formula(p);
    let fq = ComponentView::Formula(q);
    lemma_distinct_each_equivalent(cs);
    lemma_prune_equivalent(d);
    lemma_subsequence_implied(d, p);
    lemma_prune_back_equivalent(p);
    lemma_subsequence_implied(p, q);
    assert(fc.implies(fd) && fd.implies(fp) && fp.implies(fq));
    assert(fq.implies(fp) && fp.implies(fd) && fd.implies(fc));
    lemma_implies_transitive(fc, fd, fp);
    lemma_implies_transitive(fc, fp, fq);
    lemma_implies_transitive(fq, fp, fd);
    lemma_implies_transitive(fq, fd, fc);
}

/// No principal occurs twice in `c`.
pub open spec fn no_duplicates(c: Seq<Seq<char>>) -> bool {
    forall|i: int, j: int| 0 <= i < j < c.len() ==> c[i] != c[j]
}

/// No clause of `cs` before another implies that other.
pub open spec fn none_implies_later(cs: Seq<Seq<Seq<char>>>) -> bool {
    forall|i: int, j: int| 0 <= i < j < cs.len() ==> !clause_implies(cs[i], cs[j])
}

/// No clause of `cs` after another implies that other.
pub open spec fn none_implies_earlier(cs: Seq<Seq<Seq<char>>>) -> bool {
    forall|i: int, j: int| 0 <= i < j < cs.len() ==> !clause_implies(cs[j], cs[i])
}

/// No principal occurs twice among the distinct principals of a clause.
pub proof fn lemma_distinct_no_duplicates(c: Seq<Seq<char>>)
    ensures
        no_duplicates(distinct(c)),
    decreases c.len(),
{
    if c.len() > 0 {
        let d = distinct(c.drop_last());
        let e = distinct(c);
        lemma_distinct_no_duplicates(c.drop_last());
        assert forall|i: int, j: int| 0 <= i < j < e.len() implies e[i] != e[j] by {
            if j == d.len() {
                assert(e[i] == d[i]);
                assert(d.contains(d[i]));
            } else {
                assert(e[i] == d[i] && e[j] == d[j]);
            }
        }
    }
}

/// Among the clauses that [`prune`] keeps, none implies a later one.
pub proof fn lemma_prune_none_implies_later(cs: Seq<Seq<Seq<char>>>)
    ensures
        none_implies_later(prune(cs)),
    decreases cs.len(),
{
    if cs.len() > 0 {
        let p = prune(cs.drop_last());
        let q = prune(cs);
        lemma_prune_none_implies_later(cs.drop_last());
        assert forall|i: int, j: int| 0 <= i < j < q.len() implies !clause_implies(q[i], q[j]) by {
            if j == p.len() {
                assert(q[i] == p[i]);
            } else {
                assert(q[i] == p[i] && q[j] == p[j]);
            }
        }
    }
}

/// Among the clauses that [`prune_back`] keeps, none implies an earlier
/// one, and none implies a later one if that held of all the clauses.
pub proof fn lemma_prune_back_minimal(cs: Seq<Seq<Seq<char>>>)
    ensures
        none_implies_earlier(prune_back(cs)),
        none_implies_later(cs) ==> none_implies_later(prune_back(cs)),
    decreases cs.len(),
{
    if cs.len() > 0 {
        let rest = cs.skip(1);
        let p = prune_back(rest);
        let q = prune_back(cs);
        lemma_prune_back_minimal(rest);
        lemma_prune_back_equivalent(rest);
        if none_implies_later(cs) {
            assert(none_implies_later(rest)) by {
                assert forall|i: int, j: int| 0 <= i < j < rest.len() implies !clause_implies(
                    rest[i],
                    rest[j],
                ) by {
                    assert(rest[i] == cs[i + 1] && rest[j] == cs[j + 1]);
                }
            }
        }
        if !some_clause_implies(p, cs[0]) {
            assert forall|i: int, j: int| 0 <= i < j < q.len() implies !clause_implies(q[j], q[i]) by {
                assert(q[j] == p[j - 1]);
                if i > 0 {
                    assert(q[i] == p[i - 1]);
                } else {
                    assert(q[0] == cs[0]);
                }
            }
            if none_implies_later(cs) {
                assert forall|i: int, j: int| 0 <= i < j < q.len() implies !clause_implies(
                    q[i],
                    q[j],
                ) by {
                    assert(q[j] == p[j - 1]);
                    if i > 0 {
                        assert(q[i] == p[i - 1]);
                    } else {
                        assert(rest.contains(p[j - 1]));
                        let k = choose|k: int| 0 <= k < rest.len() && rest[k] == p[j - 1];
                        assert(cs[k + 1] == q[j]);
                    }
                }
            }
        }
    }
}

/// In reduced form no clause implies another.
pub proof fn lemma_reduced_minimal(cs: Seq<Seq<Seq<char>>>)
    ensures
        none_implies_later(reduced(cs)),
        none_implies_earlier(reduced(cs)),
{
    let d = distinct_each(cs);
    lemma_prune_none_implies_later(d);
    lemma_prune_back_minimal(prune(d));
}

/// In reduced form no principal occurs twice in a clause.
pub proof fn lemma_reduced_distinct(cs: Seq<Seq<Seq<char>>>, i: int)
    requires
        0 <= i < reduced(cs).len(),
    ensures
        no_duplicates(reduced(cs)[i]),
{
    let d = distinct_each(cs);
    let p = prune(d);
    let q = prune_back(p);
    lemma_prune_equivalent(d);
    lemma_prune_back_equivalent(p);
    assert(p.contains(q[i]));
    let k = choose|k: int| 0 <= k < p.len() && p[k] == q[i];
    assert(d.contains(p[k]));
    let m = choose|m: int| 0 <= m < d.len() && d[m] == p[k];
    lemma_distinct_no_duplicates(cs[m]);
}

/// A component and its reduced form imply each other.
pub proof fn lemma_reduce_equivalent(a: ComponentView)
    ensures
        a.implies(a.reduce()),
        a.reduce().implies(a),
{
    if let ComponentView::Formula(cs) = a {
        lemma_reduced_equivalent(cs);
    }
}

/// A label and its reduced form can flow to each other.
pub proof fn lemma_reduce_label(a: LabelView)
    ensures
        a.can_flow_to(a.reduce()),
        a.reduce().can_flow_to(a),
{
    lemma_reduce_equivalent(a.secrecy);
    lemma_reduce_equivalent(a.integrity);
}

/// Every label can flow to itself.
pub proof fn lemma_can_flow_to_reflexive(a: LabelView)
    ensures
        a.can_flow_to(a),
{
    lemma_implies_reflexive(a.secrecy);
    lemma_implies_reflexive(a.integrity);
}

/// If `a` can flow to `b` and `b` can flow to `c`, then `a` can flow to `c`.
pub proof fn lemma_can_flow_to_transitive(a: LabelView, b: LabelView, c: LabelView)
    requires
        a.can_flow_to(b),
        b.can_flow_to(c),
    ensures
        a.can_flow_to(c),
{
    lemma_implies_transitive(c.secrecy, b.secrecy, a.secrecy);
    lemma_implies_transitive(a.integrity, b.integrity, c.integrity);
}

/// Both labels can flow to their join.
pub proof fn lemma_lub_is_upper_bound(a: LabelView, b: LabelView)
    ensures
        a.can_flow_to(a.lub(b)),
        b.can_flow_to(a.lub(b)),
{
    let s = a.secrecy.and(b.secrecy);
    let i = a.integrity.or(b.integrity);
    lemma_and_is_meet(a.secrecy, b.secrecy, a.secrecy);
    lemma_or_is_join(a.integrity, b.integrity, a.integrity);
    lemma_reduce_equivalent(s);
    lemma_reduce_equivalent(i);
    lemma_implies_transitive(s.reduce(), s, a.secrecy);
    lemma_implies_transitive(s.reduce(), s, b.secrecy);
    lemma_implies_transitive(a.integrity, i, i.reduce());
    lemma_implies_transitive(b.integrity, i, i.reduce());
}

/// The join can flow to every label that both labels can flow to.
pub proof fn lemma_lub_is_least(a: LabelView, b: LabelView, c: LabelView)
    requires
        a.can_flow_to(c),
        b.can_flow_to(c),
    ensures
        a.lub(b).can_flow_to(c),
{
    let s = a.secrecy.and(b.secrecy);
    let i = a.integrity.or(b.integrity);
    lemma_and_is_meet(a.secrecy, b.secrecy, c.secrecy);
    lemma_or_is_join(a.integrity, b.integrity, c.integrity);
    lemma_reduce_equivalent(s);
    lemma_reduce_equivalent(i);
    lemma_implies_transitive(c.secrecy, s, s.reduce());
    lemma_implies_transitive(i.reduce(), i, c.integrity);
}

/// The least label can flow to every label, and every label to the greatest.
pub proof fn lemma_bottom_and_top(a: LabelView)
    ensures
        LabelView::bottom().can_flow_to(a),
        a.can_flow_to(LabelView::top()),
{
}

/// Endorsing keeps secrecy, and the endorsed label can flow to the label
/// it came from.
pub proof fn lemma_endorse_flows_back(a: LabelView, principal: Seq<char>)
    ensures
        a.endorse(principal).secrecy == a.secrecy,
        a.endorse(principal).can_flow_to(a),
{
    lemma_implies_reflexive(a.secrecy);
    lemma_and_is_meet(ComponentView::Formula(seq![seq![principal]]), a.integrity, a.integrity);
}

} // verus!
