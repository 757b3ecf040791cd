use labeled::dclabel as theirs;
use labeled::Label;
use snapfaas::dclabel::{Clause, Component, DCLabel};
use snapfaas::dclabel_helper::{dc_label_to_proto_label, proto_label_to_dc_label};
use snapfaas::syscalls::DcLabel;

fn formula(clauses: &[&[&str]]) -> Component {
    Component::formula(
        clauses
            .iter()
            .map(|c| Clause::new(c.iter().map(|p| p.to_string()).collect()))
            .collect(),
    )
}

fn outside_component(c: &Component) -> theirs::Component {
    match c {
        Component::DCFalse => theirs::Component::DCFalse,
        Component::DCFormula(clauses) => theirs::Component::DCFormula(
            clauses
                .iter()
                .map(|c| theirs::Clause(c.principals.iter().cloned().collect()))
                .collect(),
        ),
    }
}

fn outside(l: &DCLabel) -> theirs::DCLabel {
    theirs::DCLabel {
        secrecy: outside_component(&l.secrecy),
        integrity: outside_component(&l.integrity),
    }
}

fn components() -> Vec<Component> {
    vec![
        Component::dc_false(),
        Component::dc_true(),
        formula(&[&[]]),
        formula(&[&["a"]]),
        formula(&[&["b"]]),
        formula(&[&["a", "b"]]),
        formula(&[&["a"], &["b"]]),
        formula(&[&["a", "b"], &["c"]]),
        formula(&[&["a"], &["a", "b"]]),
    ]
}

fn labels() -> Vec<DCLabel> {
    let mut out = Vec::new();
    for s in components() {
        for i in components() {
            out.push(DCLabel::new(s.clone(), i));
        }
    }
    out
}

#[test]
fn every_label_flows_to_itself() {
    for a in labels() {
        assert!(a.can_flow_to(&a), "{:?}", a);
    }
}

#[test]
fn flow_is_transitive() {
    let all = labels();
    for a in all.iter().step_by(5) {
        for b in all.iter().step_by(3) {
            if !a.can_flow_to(b) {
                continue;
            }
            for c in all.iter() {
                if b.can_flow_to(c) {
                    assert!(a.can_flow_to(c), "{:?} {:?} {:?}", a, b, c);
                }
            }
        }
    }
}

#[test]
fn join_is_the_least_upper_bound() {
    let all = labels();
    for a in all.iter().step_by(4) {
        for b in all.iter().step_by(7) {
            let join = a.clone().lub(b.clone());
            assert!(a.can_flow_to(&join));
            assert!(b.can_flow_to(&join));
            for c in all.iter() {
                if a.can_flow_to(c) && b.can_flow_to(c) {
                    assert!(join.can_flow_to(c), "{:?} {:?} {:?}", a, b, c);
                }
            }
        }
    }
}

#[test]
fn flow_agrees_with_the_labeled_crate() {
    let all = labels();
    for a in all.iter() {
        for b in all.iter() {
            assert_eq!(a.can_flow_to(b), outside(a).can_flow_to(&outside(b)), "{:?} {:?}", a, b);
        }
    }
}

#[test]
fn implication_agrees_with_the_labeled_crate() {
    for a in components() {
        for b in components() {
            assert_eq!(
                a.implies(&b),
                outside_component(&a).implies(&outside_component(&b)),
                "{:?} {:?}",
                a,
                b
            );
        }
    }
}

#[test]
fn join_flows_to_the_join_of_the_labeled_crate() {
    let all = labels();
    for a in all.iter() {
        for b in all.iter() {
            let ours = outside(&a.clone().lub(b.clone()));
            let other = outside(a).lub(outside(b));
            assert!(ours.can_flow_to(&other), "{:?} {:?}", a, b);
            assert!(outside(a).can_flow_to(&ours));
            assert!(outside(b).can_flow_to(&ours));
            let single = match &b.integrity {
                Component::DCFormula(clauses) => clauses.len() <= 1,
                Component::DCFalse => true,
            };
            if single {
                assert!(other.can_flow_to(&ours), "{:?} {:?}", a, b);
            }
        }
    }
}

#[test]
fn join_of_known_labels() {
    let amit = DCLabel::new(formula(&[&["Amit"]]), Component::dc_true());
    let yue = DCLabel::new(formula(&[&["Yue"]]), Component::dc_true());
    assert_eq!(
        amit.lub(yue),
        DCLabel::new(formula(&[&["Amit"], &["Yue"]]), Component::dc_true())
    );
    let amit = DCLabel::new(Component::dc_true(), formula(&[&["Amit"]]));
    let yue = DCLabel::new(Component::dc_true(), formula(&[&["Yue"]]));
    assert_eq!(
        amit.lub(yue),
        DCLabel::new(Component::dc_true(), formula(&[&["Amit", "Yue"]]))
    );
    assert_eq!(DCLabel::bottom().lub(DCLabel::public()), DCLabel::public());
    assert_eq!(DCLabel::public().lub(DCLabel::top()), DCLabel::top());
}

#[test]
fn join_pairs_every_clause_with_every_clause() {
    let a = DCLabel::new(Component::dc_true(), formula(&[&["a"], &["b"]]));
    let b = DCLabel::new(Component::dc_true(), formula(&[&["c"], &["d"]]));
    assert_eq!(
        a.lub(b),
        DCLabel::new(
            Component::dc_true(),
            formula(&[&["a", "c"], &["a", "d"], &["b", "c"], &["b", "d"]])
        )
    );
}

#[test]
fn extremes() {
    assert!(DCLabel::bottom().can_flow_to(&DCLabel::top()));
    assert!(DCLabel::bottom().can_flow_to(&DCLabel::public()));
    assert!(DCLabel::public().can_flow_to(&DCLabel::top()));
    assert!(!DCLabel::top().can_flow_to(&DCLabel::bottom()));
    assert!(!DCLabel::top().can_flow_to(&DCLabel::public()));
    assert!(!DCLabel::public().can_flow_to(&DCLabel::bottom()));
    for a in labels() {
        assert!(DCLabel::bottom().can_flow_to(&a));
        assert!(a.can_flow_to(&DCLabel::top()));
    }
}

#[test]
fn true_is_implied_by_all_and_implies_only_itself() {
    for c in components() {
        assert!(c.implies(&Component::dc_true()));
        assert_eq!(Component::dc_true().implies(&c), c.is_true());
        assert!(Component::dc_false().implies(&c));
        assert_eq!(c.implies(&Component::dc_false()), c.is_false());
    }
}

#[test]
fn clause_implication_is_inclusion() {
    let amit = Clause::new(vec!["Amit".to_string()]);
    let both = Clause::new(vec!["Yue".to_string(), "Amit".to_string()]);
    assert!(Clause::empty().implies(&Clause::empty()));
    assert!(Clause::empty().implies(&amit));
    assert!(amit.implies(&both));
    assert!(!both.implies(&amit));
    assert!(!amit.implies(&Clause::empty()));
    assert_eq!(both.duplicate(), both);
}

#[test]
fn endorse_adds_to_integrity_only() {
    let l = DCLabel::new(formula(&[&["yue"]]), formula(&[&["gh_repo"]]));
    let e = l.clone().endorse("amit");
    assert_eq!(e.secrecy, l.secrecy);
    assert_eq!(e.integrity, formula(&[&["amit"], &["gh_repo"]]));
    assert!(e.can_flow_to(&l));
    assert!(!l.can_flow_to(&e));
    assert_eq!(
        DCLabel::bottom().endorse("amit").integrity,
        Component::dc_false()
    );
}

#[test]
fn labels_travel_unchanged() {
    for l in labels() {
        let proto = dc_label_to_proto_label(&l);
        assert_eq!(proto.secrecy.is_none(), l.secrecy.is_false());
        assert_eq!(proto.integrity.is_none(), l.integrity.is_false());
        assert_eq!(proto_label_to_dc_label(proto), l);
    }
    let proto = DcLabel { secrecy: None, integrity: None };
    assert_eq!(
        proto_label_to_dc_label(proto),
        DCLabel::new(Component::dc_false(), Component::dc_false())
    );
}

#[test]
fn reduced_form_agrees_with_the_labeled_crate() {
    for l in labels() {
        let mut other = outside(&l);
        other.reduce();
        assert_eq!(outside(&l.clone().reduce()), other, "{:?}", l);
        assert!(l.can_flow_to(&l.clone().reduce()));
        assert!(l.clone().reduce().can_flow_to(&l));
    }
}

#[test]
fn reduced_form_of_known_components() {
    assert_eq!(formula(&[&["a", "b", "a"]]).reduce(), formula(&[&["a", "b"]]));
    assert_eq!(formula(&[&["a", "b"], &["a"]]).reduce(), formula(&[&["a"]]));
    assert_eq!(formula(&[&["a"], &["a", "b"]]).reduce(), formula(&[&["a"]]));
    assert_eq!(formula(&[&["a"], &["b", "a"], &["b"]]).reduce(), formula(&[&["a"], &["b"]]));
    assert_eq!(formula(&[&["b", "a"], &["a", "b"]]).reduce(), formula(&[&["b", "a"]]));
    assert_eq!(formula(&[&["a"], &[], &["b"]]).reduce(), formula(&[&[]]));
    assert_eq!(formula(&[&["a"], &["b"]]).reduce(), formula(&[&["a"], &["b"]]));
    assert_eq!(Component::dc_true().reduce(), Component::dc_true());
    assert_eq!(Component::dc_false().reduce(), Component::dc_false());
}

#[test]
fn join_agrees_with_the_labeled_crate_on_single_clauses() {
    for a in labels() {
        for b in labels() {
            let single = match &b.integrity {
                Component::DCFormula(clauses) => clauses.len() <= 1,
                Component::DCFalse => true,
            };
            if single {
                assert_eq!(
                    outside(&a.clone().lub(b.clone())),
                    outside(&a).lub(outside(&b)),
                    "{:?} {:?}",
                    a,
                    b
                );
            }
        }
    }
}

#[test]
fn raising_by_the_same_label_again_changes_nothing() {
    let l = DCLabel::new(formula(&[&["a"], &["b"]]), formula(&[&["c"], &["d"]]));
    let mut cur = DCLabel::new(formula(&[&["x"]]), formula(&[&["y"], &["z"]]));
    cur = cur.lub(l.clone());
    let once = cur.clone();
    for _ in 0..20 {
        cur = cur.lub(l.clone());
    }
    assert_eq!(cur, once);
}
