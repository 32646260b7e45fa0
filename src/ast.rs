use vstd::prelude::*;
use crate::effects::Effect;

verus! {

/// A top-level unit of a module; only its name is kept.
#[derive(Debug, Clone)]
pub enum Item {
    Actor { name: String },
    Func { name: String },
}

pub enum ItemView {
    Actor(Seq<char>),
    Func(Seq<char>),
}

impl View for Item {
    type V = ItemView;

    open spec fn view(&self) -> ItemView {
        match self {
            Item::Actor { name } => ItemView::Actor(name@),
            Item::Func { name } => ItemView::Func(name@),
        }
    }
}

pub open spec fn items_view(items: Seq<Item>) -> Seq<ItemView> {
    items.map_values(|x: Item| x@)
}

/// A compilation unit: dotted name, declared effects and items, in declaration order.
#[derive(Debug, Clone)]
pub struct Module {
    pub name: String,
    pub effects: Vec<Effect>,
    pub items: Vec<Item>,
}

pub struct ModuleView {
    pub name: Seq<char>,
    pub effects: Seq<Effect>,
    pub items: Seq<ItemView>,
}

impl View for Module {
    type V = ModuleView;

    open spec fn view(&self) -> ModuleView {
        ModuleView { name: self.name@, effects: self.effects@, items: items_view(self.items@) }
    }
}

impl Module {
    /// A module of the given name with no effects and no items.
    pub fn new(name: String) -> (r: Module)
        ensures
            r.name@ == name@,
            r.effects@ == Seq::<Effect>::empty(),
            r.items@ == Seq::<Item>::empty(),
    {
        Module { name, effects: Vec::new(), items: Vec::new() }
    }
}

} // verus!
