//! The CFD wind loads: which monitors the flow simulation records for each
//! group of telescope structures, and how the structural model names them.
use vstd::prelude::*;

verus! {

/// Groups of structures that the CFD wind loads are applied to.
#[derive(Debug, Clone, Copy, PartialEq, Eq, Structural)]
pub enum WindLoads {
    TopEnd,
    M2Segments,
    M2Baffle,
    Trusses,
    M1Baffle,
    MirrorCovers,
    LaserGuideStars,
    CRings,
    GIR,
    Platforms,
    M1Segments,
}

/// The names of the CFD monitors of each group, in the order the loads are stored.
pub open spec fn monitor_names(w: WindLoads) -> Seq<Seq<char>> {
    match w {
        WindLoads::MirrorCovers => seq![
            "M1cov1"@, "M1cov2"@, "M1cov3"@, "M1cov4"@, "M1cov5"@, "M1cov6"@,
            "M1covin1"@, "M1covin2"@, "M1covin3"@, "M1covin4"@, "M1covin5"@, "M1covin6"@,
        ],
        WindLoads::M1Segments => seq!["M1_1"@, "M1_2"@, "M1_3"@, "M1_4"@, "M1_5"@, "M1_6"@, "M1_7"@],
        WindLoads::M2Segments => seq![
            "M2seg1"@, "M2seg2"@, "M2seg3"@, "M2seg4"@, "M2seg5"@, "M2seg6"@, "M2seg7"@,
        ],
        WindLoads::TopEnd => seq!["Topend"@],
        WindLoads::M2Baffle => seq!["M2Baffle"@],
        WindLoads::Trusses => seq![
            "Tup1"@, "Tup2"@, "Tup3"@, "Tbot1"@, "Tbot2"@, "Tbot3"@, "arm1"@, "arm2"@, "arm3"@,
        ],
        WindLoads::M1Baffle => seq!["M1Baffle"@],
        WindLoads::LaserGuideStars => seq!["LGSS1"@, "LGSS2"@, "LGSS3"@],
        WindLoads::CRings => seq![
            "CringL"@, "CringR"@, "Cring_strL"@, "Cring_strR"@, "Cring_strF"@, "Cring_strB"@,
        ],
        WindLoads::GIR => seq!["GIR"@],
        WindLoads::Platforms => seq!["platform"@],
    }
}

/// The patterns that select each group's inputs in the structural model.
pub open spec fn fem_patterns(w: WindLoads) -> Seq<Seq<char>> {
    match w {
        WindLoads::MirrorCovers => seq!["mirror cover"@],
        WindLoads::M1Segments => seq![
            "M1-S1 unit"@, "M1-S2 unit"@, "M1-S3 unit"@, "M1-S4 unit"@, "M1-S5 unit"@,
            "M1-S6 unit"@, "M1-S7 unit"@,
        ],
        WindLoads::M2Segments => seq![
            "M2 cell 1."@, "M2 cell 2."@, "M2 cell 3."@, "M2 cell 4."@, "M2 cell 5."@,
            "M2 cell 6."@, "M2 cell 7."@,
        ],
        WindLoads::TopEnd => seq!["Top-End"@],
        WindLoads::M2Baffle => seq!["M2 baffle unit"@],
        WindLoads::Trusses => seq!["Upper truss"@, "Lower truss"@, "Focus Assembly Arm"@],
        WindLoads::M1Baffle => seq!["Baffle protruding"@],
        WindLoads::LaserGuideStars => seq!["Laser Guide Star"@],
        WindLoads::CRings => seq![
            "C-Ring under M1 segments 5 and 6"@,
            "C-Ring under M1 segments 2 and 3"@,
            "outside of C-Ring below M1 cells 5 and 6"@,
            "outside of C-Ring below M1 cells 2 and 3"@,
            "between C-Rings below M1 cell 4"@,
            "between C-Rings below M1 cell 1"@,
        ],
        WindLoads::GIR => seq!["GIR"@],
        WindLoads::Platforms => seq!["Instrument, OSS mid-level, and Auxiliary Platforms"@],
    }
}

pub open spec fn views(v: Seq<String>) -> Seq<Seq<char>> {
    v.map_values(|s: String| s@)
}

/// A vector of owned copies of `names`.
fn owned(names: &[&str]) -> (r: Vec<String>)
    ensures
        views(r@) == names@.map_values(|s: &str| s@),
{
    let mut r: Vec<String> = Vec::new();
    let mut k: usize = 0;
    while k < names.len()
        invariant
            k <= names@.len(),
            views(r@) == names@.subrange(0, k as int).map_values(|s: &str| s@),
        decreases names@.len() - k,
    {
        let ghost prev = r@;
        let name = names[k];
        let owned_name = String::from_str(name);
        r.push(owned_name);
        assert(r@ == prev.push(owned_name));
        assert(views(r@) =~= views(prev).push(name@));
        k = k + 1;
        assert(views(r@) =~= names@.subrange(0, k as int).map_values(|s: &str| s@));
    }
    assert(names@.subrange(0, k as int) =~= names@);
    r
}

impl WindLoads {
    /// Returns the names of the CFD monitors.
    pub fn keys(&self) -> (r: Vec<String>)
        ensures
            views(r@) == monitor_names(*self),
    {
        let names: &[&str] = match self {
            WindLoads::MirrorCovers => &[
                "M1cov1", "M1cov2", "M1cov3", "M1cov4", "M1cov5", "M1cov6",
                "M1covin1", "M1covin2", "M1covin3", "M1covin4", "M1covin5", "M1covin6",
            ],
            WindLoads::M1Segments => &["M1_1", "M1_2", "M1_3", "M1_4", "M1_5", "M1_6", "M1_7"],
            WindLoads::M2Segments => &[
                "M2seg1", "M2seg2", "M2seg3", "M2seg4", "M2seg5", "M2seg6", "M2seg7",
            ],
            WindLoads::TopEnd => &["Topend"],
            WindLoads::M2Baffle => &["M2Baffle"],
            WindLoads::Trusses => &[
                "Tup1", "Tup2", "Tup3", "Tbot1", "Tbot2", "Tbot3", "arm1", "arm2", "arm3",
            ],
            WindLoads::M1Baffle => &["M1Baffle"],
            WindLoads::LaserGuideStars => &["LGSS1", "LGSS2", "LGSS3"],
            WindLoads::CRings => &[
                "CringL", "CringR", "Cring_strL", "Cring_strR", "Cring_strF", "Cring_strB",
            ],
            WindLoads::GIR => &["GIR"],
            WindLoads::Platforms => &["platform"],
        };
        let r = owned(names);
        assert(names@.map_values(|s: &str| s@) =~= monitor_names(*self));
        r
    }

    /// Returns the patterns to match against the structural model's CFD inputs.
    pub fn fem(&self) -> (r: Vec<String>)
        ensures
            views(r@) == fem_patterns(*self),
    {
        let names: &[&str] = match self {
            WindLoads::MirrorCovers => &["mirror cover"],
            WindLoads::M1Segments => &[
                "M1-S1 unit", "M1-S2 unit", "M1-S3 unit", "M1-S4 unit", "M1-S5 unit",
                "M1-S6 unit", "M1-S7 unit",
            ],
            WindLoads::M2Segments => &[
                "M2 cell 1.", "M2 cell 2.", "M2 cell 3.", "M2 cell 4.", "M2 cell 5.",
                "M2 cell 6.", "M2 cell 7.",
            ],
            WindLoads::TopEnd => &["Top-End"],
            WindLoads::M2Baffle => &["M2 baffle unit"],
            WindLoads::Trusses => &["Upper truss", "Lower truss", "Focus Assembly Arm"],
            WindLoads::M1Baffle => &["Baffle protruding"],
            WindLoads::LaserGuideStars => &["Laser Guide Star"],
            WindLoads::CRings => &[
                "C-Ring under M1 segments 5 and 6",
                "C-Ring under M1 segments 2 and 3",
                "outside of C-Ring below M1 cells 5 and 6",
                "outside of C-Ring below M1 cells 2 and 3",
                "between C-Rings below M1 cell 4",
                "between C-Rings below M1 cell 1",
            ],
            WindLoads::GIR => &["GIR"],
            WindLoads::Platforms => &["Instrument, OSS mid-level, and Auxiliary Platforms"],
        };
        let r = owned(names);
        assert(names@.map_values(|s: &str| s@) =~= fem_patterns(*self));
        r
    }
}

/// Port identifier of the wind loads on the mount.
pub struct MountLoads;

/// Port identifier of the wind loads on the primary mirror segments.
pub struct M1Loads;

/// Port identifier of the wind loads on the secondary mirror segments.
pub struct M2Loads;

} // verus!
