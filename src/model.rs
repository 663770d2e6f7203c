//! Per-cell flags, regimes and the rules that assign them, as labels.

use vstd::prelude::*;

verus! {

/// Joins words with a comma.
pub open spec fn join_comma(parts: Seq<Seq<char>>) -> Seq<char>
    decreases parts.len(),
{
    if parts.len() == 0 {
        Seq::empty()
    } else if parts.len() == 1 {
        parts[0]
    } else {
        join_comma(parts.drop_last()) + seq![','] + parts.last()
    }
}

/// The parts, in order, separated by commas.
fn join_with_comma(parts: &Vec<&'static str>) -> (r: String)
    ensures
        r@ == join_comma(parts@.map_values(|p: &'static str| p@)),
{
    let ghost ps = parts@.map_values(|p: &'static str| p@);
    let mut out = String::new();
    let mut i: usize = 0;
    assert(ps.take(0) =~= Seq::<Seq<char>>::empty());
    while i < parts.len()
        invariant
            ps == parts@.map_values(|p: &'static str| p@),
            i <= parts@.len(),
            out@ == join_comma(ps.take(i as int)),
        decreases parts@.len() - i,
    {
        let ghost before = out@;
        if i > 0 {
            out.append(",");
        }
        out.append(parts[i]);
        assert(i == 0 ==> out@ =~= before + parts@[i as int]@);
        proof {
            reveal_strlit(",");
            let t = ps.take(i + 1);
            assert(t.drop_last() =~= ps.take(i as int));
            assert(t.last() == parts@[i as int]@);
            assert(","@ =~= seq![',']);
            if i == 0 {
                assert(t.len() == 1);
                assert(t[0] == parts@[0]@);
                assert(out@ =~= parts@[0]@);
            }
        }
        i = i + 1;
    }
    assert(ps.take(parts@.len() as int) =~= ps);
    out
}

/// A set of per-cell quality flags, as bits.
#[derive(Debug, Clone, Copy, PartialEq, Eq, Structural)]
pub struct Flags {
    pub bits: u8,
}

impl Flags {
    pub const LOW_CONFIDENCE: u8 = 0b0001;
    pub const FEW_DETECTED_GENES: u8 = 0b0010;
    pub const LOW_COUNTS: u8 = 0b0100;
    pub const HIGH_AMBIENT_RISK: u8 = 0b1000;

    pub fn empty() -> (r: Self)
        ensures
            r.bits == 0,
    {
        Flags { bits: 0 }
    }

    pub fn set(&mut self, bit: u8)
        ensures
            final(self).bits == old(self).bits | bit,
    {
        self.bits = self.bits | bit;
    }

    pub fn contains(&self, bit: u8) -> (r: bool)
        ensures
            r == (self.bits & bit != 0),
    {
        self.bits & bit != 0
    }

    /// The names of the flags that are set, in this order.
    pub open spec fn names(self) -> Seq<Seq<char>> {
        let a = if self.bits & 1 != 0 { seq!["LOW_CONFIDENCE"@] } else { Seq::empty() };
        let b = if self.bits & 2 != 0 { seq!["FEW_DETECTED_GENES"@] } else { Seq::empty() };
        let c = if self.bits & 4 != 0 { seq!["LOW_COUNTS"@] } else { Seq::empty() };
        let d = if self.bits & 8 != 0 { seq!["HIGH_AMBIENT_RISK"@] } else { Seq::empty() };
        a + b + c + d
    }

    /// `.` when no bit is set; otherwise the names of the known flags that
    /// are set, comma-separated.
    pub fn to_csv(&self) -> (r: String)
        ensures
            self.bits == 0 ==> r@ == "."@,
            self.bits != 0 ==> r@ == join_comma(self.names()),
    {
        if self.bits == 0 {
            return ".".to_string();
        }
        let mut parts: Vec<&'static str> = Vec::new();
        if self.contains(Self::LOW_CONFIDENCE) {
            parts.push("LOW_CONFIDENCE");
        }
        if self.contains(Self::FEW_DETECTED_GENES) {
            parts.push("FEW_DETECTED_GENES");
        }
        if self.contains(Self::LOW_COUNTS) {
            parts.push("LOW_COUNTS");
        }
        if self.contains(Self::HIGH_AMBIENT_RISK) {
            parts.push("HIGH_AMBIENT_RISK");
        }
        assert(parts@.map_values(|p: &'static str| p@) =~= self.names());
        join_with_comma(&parts)
    }
}

/// The regime a cell is assigned to.
#[derive(Debug, Clone, Copy, PartialEq, Eq, Structural, PartialOrd, Ord)]
pub enum Regime {
    SelfPreserving,
    EnvironmentShaping,
    ExportDominant,
    SecretoryLysosomeActive,
    MetabolicSuppressive,
    InflammatorySignaler,
    PresentationHigh,
    Unclassified,
}

impl Regime {
    pub open spec fn spec_name(self) -> &'static str {
        match self {
            Regime::SelfPreserving => "SelfPreserving",
            Regime::EnvironmentShaping => "EnvironmentShaping",
            Regime::ExportDominant => "ExportDominant",
            Regime::SecretoryLysosomeActive => "SecretoryLysosomeActive",
            Regime::MetabolicSuppressive => "MetabolicSuppressive",
            Regime::InflammatorySignaler => "InflammatorySignaler",
            Regime::PresentationHigh => "PresentationHigh",
            Regime::Unclassified => "Unclassified",
        }
    }

    pub fn as_str(&self) -> (r: &'static str)
        ensures
            r == self.spec_name(),
    {
        match self {
            Regime::SelfPreserving => "SelfPreserving",
            Regime::EnvironmentShaping => "EnvironmentShaping",
            Regime::ExportDominant => "ExportDominant",
            Regime::SecretoryLysosomeActive => "SecretoryLysosomeActive",
            Regime::MetabolicSuppressive => "MetabolicSuppressive",
            Regime::InflammatorySignaler => "InflammatorySignaler",
            Regime::PresentationHigh => "PresentationHigh",
            Regime::Unclassified => "Unclassified",
        }
    }

    /// Every regime, in reporting order.
    pub open spec fn spec_ordered() -> Seq<Regime> {
        seq![
            Regime::SelfPreserving,
            Regime::EnvironmentShaping,
            Regime::ExportDominant,
            Regime::SecretoryLysosomeActive,
            Regime::MetabolicSuppressive,
            Regime::InflammatorySignaler,
            Regime::PresentationHigh,
            Regime::Unclassified,
        ]
    }

    pub fn ordered() -> (r: Vec<Regime>)
        ensures
            r@ == Self::spec_ordered(),
    {
        let r = vec![
            Regime::SelfPreserving,
            Regime::EnvironmentShaping,
            Regime::ExportDominant,
            Regime::SecretoryLysosomeActive,
            Regime::MetabolicSuppressive,
            Regime::InflammatorySignaler,
            Regime::PresentationHigh,
            Regime::Unclassified,
        ];
        assert(r@ =~= Self::spec_ordered());
        r
    }
}

/// The classification rule that decided a cell's regime.
#[derive(Debug, Clone, Copy, PartialEq, Eq, Structural)]
pub enum RuleId {
    R1SelfPreserving,
    R2SecretoryLysosomeActive,
    R3ExportDominant,
    R4MetabolicSuppressive,
    R5InflammatorySignaler,
    R6PresentationHigh,
    R7EnvironmentShaping,
    R0Unclassified,
}

impl RuleId {
    pub open spec fn spec_name(self) -> &'static str {
        match self {
            RuleId::R1SelfPreserving => "R1_SELF_PRESERVING",
            RuleId::R2SecretoryLysosomeActive => "R2_SECRETORY_LYSOSOME_ACTIVE",
            RuleId::R3ExportDominant => "R3_EXPORT_DOMINANT",
            RuleId::R4MetabolicSuppressive => "R4_METABOLIC_SUPPRESSIVE",
            RuleId::R5InflammatorySignaler => "R5_INFLAMMATORY_SIGNALER",
            RuleId::R6PresentationHigh => "R6_PRESENTATION_HIGH",
            RuleId::R7EnvironmentShaping => "R7_ENVIRONMENT_SHAPING",
            RuleId::R0Unclassified => "R0_UNCLASSIFIED",
        }
    }

    pub fn as_str(&self) -> (r: &'static str)
        ensures
            r == self.spec_name(),
    {
        match self {
            RuleId::R1SelfPreserving => "R1_SELF_PRESERVING",
            RuleId::R2SecretoryLysosomeActive => "R2_SECRETORY_LYSOSOME_ACTIVE",
            RuleId::R3ExportDominant => "R3_EXPORT_DOMINANT",
            RuleId::R4MetabolicSuppressive => "R4_METABOLIC_SUPPRESSIVE",
            RuleId::R5InflammatorySignaler => "R5_INFLAMMATORY_SIGNALER",
            RuleId::R6PresentationHigh => "R6_PRESENTATION_HIGH",
            RuleId::R7EnvironmentShaping => "R7_ENVIRONMENT_SHAPING",
            RuleId::R0Unclassified => "R0_UNCLASSIFIED",
        }
    }
}

/// How many times `r` occurs in `s`.
pub open spec fn count_regime(s: Seq<Regime>, r: Regime) -> nat
    decreases s.len(),
{
    if s.len() == 0 {
        0
    } else {
        count_regime(s.drop_last(), r) + if s.last() == r { 1nat } else { 0nat }
    }
}

/// The most frequent of the first `k` regimes in reporting order, with its
/// count; an earlier regime wins a tie, and with no occurrence at all the
/// answer is `Unclassified`.
pub open spec fn majority_upto(s: Seq<Regime>, k: int) -> (Regime, nat)
    decreases k,
{
    if k <= 0 {
        (Regime::Unclassified, 0)
    } else {
        let (best, c) = majority_upto(s, k - 1);
        let r = Regime::spec_ordered()[k - 1];
        if count_regime(s, r) > c {
            (r, count_regime(s, r))
        } else {
            (best, c)
        }
    }
}

fn count_of(regimes: &[Regime], r: Regime) -> (c: usize)
    ensures
        c == count_regime(regimes@, r),
{
    let mut c: usize = 0;
    let mut i: usize = 0;
    while i < regimes.len()
        invariant
            i <= regimes@.len(),
            c == count_regime(regimes@.take(i as int), r),
            c <= i,
        decreases regimes@.len() - i,
    {
        proof {
            assert(regimes@.take(i + 1).drop_last() =~= regimes@.take(i as int));
        }
        if regimes[i] == r {
            c = c + 1;
        }
        i = i + 1;
    }
    assert(regimes@.take(i as int) =~= regimes@);
    c
}

/// The regime that occurs most often; ties go to the earlier regime in
/// reporting order, and an empty input gives `Unclassified`.
pub fn majority_regime(regimes: &[Regime]) -> (r: Regime)
    ensures
        r == majority_upto(regimes@, 8).0,
{
    let order = Regime::ordered();
    let mut best = Regime::Unclassified;
    let mut best_count: usize = 0;
    let mut k: usize = 0;
    while k < order.len()
        invariant
            order@ == Regime::spec_ordered(),
            k <= 8,
            (best, best_count as nat) == majority_upto(regimes@, k as int),
        decreases 8 - k,
    {
        let r = order[k];
        let c = count_of(regimes, r);
        if c > best_count {
            best_count = c;
            best = r;
        }
        k = k + 1;
    }
    best
}

} // verus!
