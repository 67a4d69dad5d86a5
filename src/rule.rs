use vstd::prelude::*;

verus! {

/// A domain fact: wherever every prerequisite holds, the alternatives are
/// mutually exclusive and jointly exhaustive (a single alternative is then
/// simply implied).
#[derive(Debug)]
pub struct CollapseRule {
    pub prerequisites: Vec<String>,
    pub alternatives: Vec<String>,
}

/// The mathematical content of a rule: its literals as character sequences.
pub struct RuleModel {
    pub prerequisites: Seq<Seq<char>>,
    pub alternatives: Seq<Seq<char>>,
}

impl View for CollapseRule {
    type V = RuleModel;

    open spec fn view(&self) -> RuleModel {
        RuleModel {
            prerequisites: self.prerequisites.deep_view(),
            alternatives: self.alternatives.deep_view(),
        }
    }
}

/// The character sequences of a list of string slices.
pub open spec fn texts(v: Seq<&str>) -> Seq<Seq<char>> {
    Seq::new(v.len(), |i: int| v[i]@)
}

/// The model of every rule of a catalog.
pub open spec fn models(rules: Seq<CollapseRule>) -> Seq<RuleModel> {
    Seq::new(rules.len(), |i: int| rules[i]@)
}

/// Owned copies of string slices.
fn owned_texts(v: &Vec<&str>) -> (r: Vec<String>)
    ensures
        r.deep_view() == texts(v@),
{
    let mut r: Vec<String> = Vec::new();
    let mut i: usize = 0;
    while i < v.len()
        invariant
            i <= v.len(),
            r.deep_view() =~= texts(v@).take(i as int),
        decreases v.len() - i,
    {
        let ghost before = r.deep_view();
        r.push(String::from_str(v[i]));
        assert(r.deep_view() =~= before.push(v@[i as int]@));
        i = i + 1;
    }
    assert(texts(v@).take(v.len() as int) =~= texts(v@));
    r
}

impl CollapseRule {
    /// A rule from the texts of its prerequisites and alternatives.
    pub fn new(prerequisites: Vec<&str>, alternatives: Vec<&str>) -> (r: Self)
        ensures
            r@.prerequisites == texts(prerequisites@),
            r@.alternatives == texts(alternatives@),
    {
        CollapseRule {
            prerequisites: owned_texts(&prerequisites),
            alternatives: owned_texts(&alternatives),
        }
    }
}

} // verus!
