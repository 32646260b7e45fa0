use vstd::prelude::*;
use crate::ast::{Module, ModuleView};

verus! {

/// The closed vocabulary of capabilities a module may declare.
#[derive(Debug, Clone, Copy, PartialEq, Eq, Hash, Structural)]
pub enum Effect {
    Db,
    Net,
    Now,
    Kms,
    Serial,
}

/// The effect named by `s`, if `s` is one of the five reserved names.
pub open spec fn effect_of(s: Seq<char>) -> Option<Effect> {
    if s == "Db"@ {
        Some(Effect::Db)
    } else if s == "Net"@ {
        Some(Effect::Net)
    } else if s == "Now"@ {
        Some(Effect::Now)
    } else if s == "Kms"@ {
        Some(Effect::Kms)
    } else if s == "Serial"@ {
        Some(Effect::Serial)
    } else {
        None
    }
}

impl Effect {
    pub fn from_ident(s: &str) -> (r: Option<Effect>)
        ensures
            r == effect_of(s@),
    {
        let o = String::from_str(s);
        if o == String::from_str("Db") {
            Some(Effect::Db)
        } else if o == String::from_str("Net") {
            Some(Effect::Net)
        } else if o == String::from_str("Now") {
            Some(Effect::Now)
        } else if o == String::from_str("Kms") {
            Some(Effect::Kms)
        } else if o == String::from_str("Serial") {
            Some(Effect::Serial)
        } else {
            None
        }
    }
}

/// The module-to-effect relation: one edge per declared effect, in declaration order.
pub open spec fn graph_edges(m: ModuleView) -> Seq<(Seq<char>, Effect)> {
    m.effects.map_values(|e: Effect| (m.name, e))
}

pub open spec fn edges_view(r: Seq<(String, Effect)>) -> Seq<(Seq<char>, Effect)> {
    r.map_values(|p: (String, Effect)| (p.0@, p.1))
}

/// Pairs the module's name with each of its effects, keeping order and repeats.
pub fn effects_graph(m: &Module) -> (r: Vec<(String, Effect)>)
    ensures
        edges_view(r@) == graph_edges(m@),
{
    let mut r: Vec<(String, Effect)> = Vec::new();
    let mut k: usize = 0;
    while k < m.effects.len()
        invariant
            k <= m.effects@.len(),
            edges_view(r@) == graph_edges(m@).subrange(0, k as int),
        decreases m.effects@.len() - k,
    {
        let ghost before = edges_view(r@);
        let name = m.name.clone();
        r.push((name, m.effects[k]));
        assert(edges_view(r@) =~= before.push((m.name@, m.effects@[k as int])));
        k += 1;
        assert(edges_view(r@) =~= graph_edges(m@).subrange(0, k as int));
    }
    assert(graph_edges(m@).subrange(0, k as int) =~= graph_edges(m@));
    r
}

} // verus!
