use vstd::prelude::*;
use crate::rule::{models, CollapseRule, RuleModel};
use crate::driver::reduce;
use crate::semantics::{
    catalog_holds, catalog_well_formed, denotes, group_well_formed, lemma_reduce_equivalent,
    respects_negation,
};

verus! {
/// A rule model from its prerequisites and alternatives.
pub open spec fn rule_model(prerequisites: Seq<Seq<char>>, alternatives: Seq<Seq<char>>) -> RuleModel {
    RuleModel { prerequisites, alternatives }
}

/// The built-in catalog of the known configuration space: operating system,
/// version, processor, width, e10s and WebRender.
pub open spec fn catalog() -> Seq<RuleModel> {
    seq![
        // macOS has one version, one processor and one width, and always runs e10s without WebRender.
        rule_model(seq!["(os == \"mac\")"@], seq!["(version == \"OS X 10.10.5\")"@]),
        rule_model(seq!["(os == \"mac\")"@], seq!["e10s"@]),
        rule_model(seq!["(os == \"mac\")"@], seq!["not webrender"@]),
        rule_model(seq!["(os == \"mac\")"@], seq!["(processor == \"x86_64\")"@]),
        rule_model(seq!["(os == \"mac\")"@], seq!["(bits == 64)"@]),
        // Windows 7 is 32-bit x86, runs e10s and lacks WebRender.
        rule_model(seq!["(os == \"win\")"@, "(version == \"6.1.7601\")"@], seq!["e10s"@]),
        rule_model(seq!["(os == \"win\")"@, "(version == \"6.1.7601\")"@], seq!["not webrender"@]),
        rule_model(seq!["(os == \"win\")"@, "(version == \"6.1.7601\")"@], seq!["(processor == \"x86\")"@]),
        rule_model(seq!["(os == \"win\")"@, "(version == \"6.1.7601\")"@], seq!["(bits == 32)"@]),
        // Windows 10 is 64-bit x86_64 and runs e10s.
        rule_model(seq!["(os == \"win\")"@, "(version == \"10.0.15063\")"@], seq!["e10s"@]),
        rule_model(seq!["(os == \"win\")"@, "(version == \"10.0.15063\")"@], seq!["(processor == \"x86_64\")"@]),
        rule_model(seq!["(os == \"win\")"@, "(version == \"10.0.15063\")"@], seq!["(bits == 64)"@]),
        // WebRender on Windows implies Windows 10.
        rule_model(seq!["(os == \"win\")"@, "webrender"@], seq!["(version == \"10.0.15063\")"@]),
        // Windows comes in exactly these two versions.
        rule_model(seq!["(os == \"win\")"@], seq!["(version == \"6.1.7601\")"@, "(version == \"10.0.15063\")"@]),
        // Linux has one version; the processor fixes the width.
        rule_model(seq!["(os == \"linux\")"@], seq!["(version == \"Ubuntu 16.04\")"@]),
        rule_model(seq!["(os == \"linux\")"@, "(processor == \"x86_64\")"@], seq!["(bits == 64)"@]),
        rule_model(seq!["(os == \"linux\")"@, "(processor == \"x86\")"@], seq!["(bits == 32)"@]),
        rule_model(seq!["(os == \"linux\")"@, "(processor == \"x86\")"@], seq!["not webrender"@]),
        rule_model(seq!["(os == \"linux\")"@], seq!["(processor == \"x86_64\")"@, "(processor == \"x86\")"@]),
        // WebRender on Linux implies x86_64 and e10s.
        rule_model(seq!["(os == \"linux\")"@, "webrender"@], seq!["(processor == \"x86_64\")"@]),
        rule_model(seq!["(os == \"linux\")"@, "webrender"@], seq!["e10s"@]),
        // Android runs neither WebRender nor e10s.
        rule_model(seq!["(os == \"android\")"@], seq!["not webrender"@]),
        rule_model(seq!["(os == \"android\")"@], seq!["not e10s"@]),
    ]
}

/// Builds the built-in catalog.
pub fn build_collapse_rules() -> (r: Vec<CollapseRule>)
    ensures
        models(r@) == catalog(),
{
    let mut r: Vec<CollapseRule> = Vec::new();
    // macOS has one version, one processor and one width, and always runs e10s without WebRender.
    r.push(CollapseRule::new(vec!["(os == \"mac\")"], vec!["(version == \"OS X 10.10.5\")"]));
    assert(r@[0]@.prerequisites =~= catalog()[0].prerequisites);
    assert(r@[0]@.alternatives =~= catalog()[0].alternatives);
    r.push(CollapseRule::new(vec!["(os == \"mac\")"], vec!["e10s"]));
    assert(r@[1]@.prerequisites =~= catalog()[1].prerequisites);
    assert(r@[1]@.alternatives =~= catalog()[1].alternatives);
    r.push(CollapseRule::new(vec!["(os == \"mac\")"], vec!["not webrender"]));
    assert(r@[2]@.prerequisites =~= catalog()[2].prerequisites);
    assert(r@[2]@.alternatives =~= catalog()[2].alternatives);
    r.push(CollapseRule::new(vec!["(os == \"mac\")"], vec!["(processor == \"x86_64\")"]));
    assert(r@[3]@.prerequisites =~= catalog()[3].prerequisites);
    assert(r@[3]@.alternatives =~= catalog()[3].alternatives);
    r.push(CollapseRule::new(vec!["(os == \"mac\")"], vec!["(bits == 64)"]));
    assert(r@[4]@.prerequisites =~= catalog()[4].prerequisites);
    assert(r@[4]@.alternatives =~= catalog()[4].alternatives);
    // Windows 7 is 32-bit x86, runs e10s and lacks WebRender.
    r.push(CollapseRule::new(vec!["(os == \"win\")", "(version == \"6.1.7601\")"], vec!["e10s"]));
    assert(r@[5]@.prerequisites =~= catalog()[5].prerequisites);
    assert(r@[5]@.alternatives =~= catalog()[5].alternatives);
    r.push(CollapseRule::new(vec!["(os == \"win\")", "(version == \"6.1.7601\")"], vec!["not webrender"]));
    assert(r@[6]@.prerequisites =~= catalog()[6].prerequisites);
    assert(r@[6]@.alternatives =~= catalog()[6].alternatives);
    r.push(CollapseRule::new(vec!["(os == \"win\")", "(version == \"6.1.7601\")"], vec!["(processor == \"x86\")"]));
    assert(r@[7]@.prerequisites =~= catalog()[7].prerequisites);
    assert(r@[7]@.alternatives =~= catalog()[7].alternatives);
    r.push(CollapseRule::new(vec!["(os == \"win\")", "(version == \"6.1.7601\")"], vec!["(bits == 32)"]));
    assert(r@[8]@.prerequisites =~= catalog()[8].prerequisites);
    assert(r@[8]@.alternatives =~= catalog()[8].alternatives);
    // Windows 10 is 64-bit x86_64 and runs e10s.
    r.push(CollapseRule::new(vec!["(os == \"win\")", "(version == \"10.0.15063\")"], vec!["e10s"]));
    assert(r@[9]@.prerequisites =~= catalog()[9].prerequisites);
    assert(r@[9]@.alternatives =~= catalog()[9].alternatives);
    r.push(CollapseRule::new(vec!["(os == \"win\")", "(version == \"10.0.15063\")"], vec!["(processor == \"x86_64\")"]));
    assert(r@[10]@.prerequisites =~= catalog()[10].prerequisites);
    assert(r@[10]@.alternatives =~= catalog()[10].alternatives);
    r.push(CollapseRule::new(vec!["(os == \"win\")", "(version == \"10.0.15063\")"], vec!["(bits == 64)"]));
    assert(r@[11]@.prerequisites =~= catalog()[11].prerequisites);
    assert(r@[11]@.alternatives =~= catalog()[11].alternatives);
    // WebRender on Windows implies Windows 10.
    r.push(CollapseRule::new(vec!["(os == \"win\")", "webrender"], vec!["(version == \"10.0.15063\")"]));
    assert(r@[12]@.prerequisites =~= catalog()[12].prerequisites);
    assert(r@[12]@.alternatives =~= catalog()[12].alternatives);
    // Windows comes in exactly these two versions.
    r.push(CollapseRule::new(vec!["(os == \"win\")"], vec!["(version == \"6.1.7601\")", "(version == \"10.0.15063\")"]));
    assert(r@[13]@.prerequisites =~= catalog()[13].prerequisites);
    assert(r@[13]@.alternatives =~= catalog()[13].alternatives);
    // Linux has one version; the processor fixes the width.
    r.push(CollapseRule::new(vec!["(os == \"linux\")"], vec!["(version == \"Ubuntu 16.04\")"]));
    assert(r@[14]@.prerequisites =~= catalog()[14].prerequisites);
    assert(r@[14]@.alternatives =~= catalog()[14].alternatives);
    r.push(CollapseRule::new(vec!["(os == \"linux\")", "(processor == \"x86_64\")"], vec!["(bits == 64)"]));
    assert(r@[15]@.prerequisites =~= catalog()[15].prerequisites);
    assert(r@[15]@.alternatives =~= catalog()[15].alternatives);
    r.push(CollapseRule::new(vec!["(os == \"linux\")", "(processor == \"x86\")"], vec!["(bits == 32)"]));
    assert(r@[16]@.prerequisites =~= catalog()[16].prerequisites);
    assert(r@[16]@.alternatives =~= catalog()[16].alternatives);
    r.push(CollapseRule::new(vec!["(os == \"linux\")", "(processor == \"x86\")"], vec!["not webrender"]));
    assert(r@[17]@.prerequisites =~= catalog()[17].prerequisites);
    assert(r@[17]@.alternatives =~= catalog()[17].alternatives);
    r.push(CollapseRule::new(vec!["(os == \"linux\")"], vec!["(processor == \"x86_64\")", "(processor == \"x86\")"]));
    assert(r@[18]@.prerequisites =~= catalog()[18].prerequisites);
    assert(r@[18]@.alternatives =~= catalog()[18].alternatives);
    // WebRender on Linux implies x86_64 and e10s.
    r.push(CollapseRule::new(vec!["(os == \"linux\")", "webrender"], vec!["(processor == \"x86_64\")"]));
    assert(r@[19]@.prerequisites =~= catalog()[19].prerequisites);
    assert(r@[19]@.alternatives =~= catalog()[19].alternatives);
    r.push(CollapseRule::new(vec!["(os == \"linux\")", "webrender"], vec!["e10s"]));
    assert(r@[20]@.prerequisites =~= catalog()[20].prerequisites);
    assert(r@[20]@.alternatives =~= catalog()[20].alternatives);
    // Android runs neither WebRender nor e10s.
    r.push(CollapseRule::new(vec!["(os == \"android\")"], vec!["not webrender"]));
    assert(r@[21]@.prerequisites =~= catalog()[21].prerequisites);
    assert(r@[21]@.alternatives =~= catalog()[21].alternatives);
    r.push(CollapseRule::new(vec!["(os == \"android\")"], vec!["not e10s"]));
    assert(r@[22]@.prerequisites =~= catalog()[22].prerequisites);
    assert(r@[22]@.alternatives =~= catalog()[22].alternatives);
    assert(models(r@) =~= catalog());
    r
}

/// No rule of the built-in catalog names one of its prerequisites as an
/// alternative.
pub proof fn lemma_catalog_well_formed()
    ensures
        catalog_well_formed(catalog()),
{
    reveal_strlit("(bits == 32)");
    reveal_strlit("(bits == 64)");
    reveal_strlit("(os == \"android\")");
    reveal_strlit("(os == \"linux\")");
    reveal_strlit("(os == \"mac\")");
    reveal_strlit("(os == \"win\")");
    reveal_strlit("(processor == \"x86\")");
    reveal_strlit("(processor == \"x86_64\")");
    reveal_strlit("(version == \"10.0.15063\")");
    reveal_strlit("(version == \"6.1.7601\")");
    reveal_strlit("(version == \"OS X 10.10.5\")");
    reveal_strlit("(version == \"Ubuntu 16.04\")");
    reveal_strlit("e10s");
    reveal_strlit("not e10s");
    reveal_strlit("not webrender");
    reveal_strlit("webrender");
    let c = catalog();
    assert forall|i: int, k: int, m: int|
        0 <= i < c.len() && 0 <= k < c[i].alternatives.len() && 0 <= m < c[i].prerequisites.len()
            implies #[trigger] c[i].alternatives[k] != #[trigger] c[i].prerequisites[m] by {
        let a = c[i].alternatives[k];
        let p = c[i].prerequisites[m];
        assert(a[1] != p[1] || a.len() != p.len() || a[0] != p[0] || a[2] != p[2]);
    }
}

/// Reduction under the built-in catalog keeps meaning in every configuration
/// where its rules hold and each plain flag and its negation take opposite
/// values.
pub proof fn lemma_catalog_reduce_equivalent(env: spec_fn(Seq<char>) -> bool, g: Seq<Seq<Seq<char>>>)
    requires
        catalog_holds(env, catalog()),
        respects_negation(env),
        group_well_formed(g, catalog()),
    ensures
        denotes(env, reduce(g, catalog())) == denotes(env, g),
{
    lemma_catalog_well_formed();
    lemma_reduce_equivalent(env, g, catalog());
}

} // verus!
