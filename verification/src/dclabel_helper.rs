//! Conversions between labels as they travel and labels as the namespace
//! holds them.

use crate::dclabel::{clauses_view, Clause, Component, DCLabel};
use crate::syscalls;
use vstd::prelude::*;

verus! {

/// The travelling form of a component, without computing it.
pub open spec fn proto_component(component: Component) -> Option<syscalls::Component> {
    match component {
        Component::DCFalse => None,
        Component::DCFormula(clauses) => Some(syscalls::Component { clauses }),
    }
}

/// The travelling form of a label, without computing it.
pub open spec fn proto_label(label: DCLabel) -> syscalls::DcLabel {
    syscalls::DcLabel {
        secrecy: proto_component(label.secrecy),
        integrity: proto_component(label.integrity),
    }
}

/// A label and its travelling form stand for the same label.
pub proof fn lemma_proto_label_view(label: DCLabel)
    ensures
        proto_label(label)@ == label@,
{
    if let Component::DCFormula(clauses) = label.secrecy {
        assert((syscalls::Component { clauses })@ =~= clauses_view(clauses@));
    }
    if let Component::DCFormula(clauses) = label.integrity {
        assert((syscalls::Component { clauses })@ =~= clauses_view(clauses@));
    }
}

/// A copy of a vector of clauses.
fn copy_clauses(clauses: &Vec<Clause>) -> (r: Vec<Clause>)
    ensures
        clauses_view(r@) == clauses_view(clauses@),
{
    let mut out: Vec<Clause> = Vec::new();
    let mut i: usize = 0;
    while i < clauses.len()
        invariant
            0 <= i <= clauses.len(),
            out.len() == i,
            forall|k: int| 0 <= k < i ==> out[k]@ == clauses[k]@,
        decreases clauses.len() - i,
    {
        out.push(clauses[i].duplicate());
        i += 1;
    }
    assert(clauses_view(out@) =~= clauses_view(clauses@));
    out
}

/// The label that a travelling label stands for: an absent component is
/// false, a present one is the conjunction of its clauses.
pub fn proto_label_to_dc_label(label: syscalls::DcLabel) -> (r: DCLabel)
    ensures
        r@ == label@,
        proto_label(r) == label,
{
    DCLabel {
        secrecy: match label.secrecy {
            None => Component::DCFalse,
            Some(set) => {
                assert(set@ =~= clauses_view(set.clauses@));
                Component::DCFormula(set.clauses)
            },
        },
        integrity: match label.integrity {
            None => Component::DCFalse,
            Some(set) => {
                assert(set@ =~= clauses_view(set.clauses@));
                Component::DCFormula(set.clauses)
            },
        },
    }
}

/// The travelling form of a label: a false component is absent, another is
/// present with its clauses.
pub fn dc_label_to_proto_label(label: &DCLabel) -> (r: syscalls::DcLabel)
    ensures
        r@ == label@,
{
    syscalls::DcLabel {
        secrecy: match &label.secrecy {
            Component::DCFalse => None,
            Component::DCFormula(set) => {
                let c = syscalls::Component { clauses: copy_clauses(set) };
                assert(c@ =~= clauses_view(set@));
                Some(c)
            },
        },
        integrity: match &label.integrity {
            Component::DCFalse => None,
            Component::DCFormula(set) => {
                let c = syscalls::Component { clauses: copy_clauses(set) };
                assert(c@ =~= clauses_view(set@));
                Some(c)
            },
        },
    }
}

} // verus!
