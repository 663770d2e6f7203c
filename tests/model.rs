use kira_secretion::model::{majority_regime, Flags, Regime, RuleId};

#[test]
fn flags_to_csv() {
    let mut f = Flags::empty();
    assert_eq!(f.to_csv(), ".");
    f.set(Flags::LOW_COUNTS);
    f.set(Flags::LOW_CONFIDENCE);
    assert!(f.contains(Flags::LOW_COUNTS));
    assert!(!f.contains(Flags::HIGH_AMBIENT_RISK));
    assert_eq!(f.to_csv(), "LOW_CONFIDENCE,LOW_COUNTS");
}

#[test]
fn regime_and_rule_names() {
    assert_eq!(Regime::ExportDominant.as_str(), "ExportDominant");
    assert_eq!(RuleId::R0Unclassified.as_str(), "R0_UNCLASSIFIED");
    assert_eq!(Regime::ordered().len(), 8);
    assert_eq!(Regime::ordered()[0], Regime::SelfPreserving);
}

#[test]
fn majority_prefers_earlier_regime_on_ties() {
    assert_eq!(majority_regime(&[]), Regime::Unclassified);
    let rs = [Regime::ExportDominant, Regime::SelfPreserving, Regime::ExportDominant, Regime::SelfPreserving];
    assert_eq!(majority_regime(&rs), Regime::SelfPreserving);
    let rs = [Regime::PresentationHigh, Regime::PresentationHigh, Regime::SelfPreserving];
    assert_eq!(majority_regime(&rs), Regime::PresentationHigh);
}
