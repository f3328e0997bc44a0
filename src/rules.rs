pub use crate::color::{Color, PresetColor};
use vstd::prelude::*;

verus! {

/// A keyword or pattern bound to the color its matches are shown in.
#[derive(Debug)]
pub struct Rule {
    pub keyword: String,
    pub color: Color,
    pub is_regex: bool,
}

/// What a rule holds, as plain values.
pub struct RuleView {
    pub keyword: Seq<char>,
    pub color: Color,
    pub is_regex: bool,
}

impl View for Rule {
    type V = RuleView;

    open spec fn view(&self) -> RuleView {
        RuleView { keyword: self.keyword@, color: self.color, is_regex: self.is_regex }
    }
}

impl Clone for Rule {
    fn clone(&self) -> (r: Rule)
        ensures
            r@ == self@,
    {
        Rule { keyword: self.keyword.clone(), color: self.color, is_regex: self.is_regex }
    }
}

/// The views of a list of rules.
pub open spec fn rules_view(rs: Seq<Rule>) -> Seq<RuleView> {
    rs.map_values(|r: Rule| r@)
}

} // verus!
