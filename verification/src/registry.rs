//! The effect registry: a read-only lookup from effect name to effect
//! metadata, loaded once from the host and passed in explicitly.

use vstd::prelude::*;
use crate::chars::{chars_eq, copy_chars};

verus! {

/// The category of a registered effect.
#[derive(Clone, Copy, PartialEq, Eq, Debug)]
pub enum EffectType {
    Filter,
    Other,
}

/// One registry entry: a unique name, a category, and whether the effect may
/// serve as a Filter Object's underlying filter.
pub struct Effect {
    pub name: Vec<char>,
    pub effect_type: EffectType,
    pub as_filter: bool,
}

/// The mathematical model of a registry entry.
#[verifier::ext_equal]
pub struct EffectV {
    pub name: Seq<char>,
    pub effect_type: EffectType,
    pub as_filter: bool,
}

impl View for Effect {
    type V = EffectV;

    open spec fn view(&self) -> EffectV {
        EffectV { name: self.name@, effect_type: self.effect_type, as_filter: self.as_filter }
    }
}

/// The registry of effects known to the host, in load order.
pub struct EffectRegistry {
    pub effects: Vec<Effect>,
}

impl View for EffectRegistry {
    type V = Seq<EffectV>;

    open spec fn view(&self) -> Seq<EffectV> {
        self.effects@.map_values(|e: Effect| e@)
    }
}

/// Some entry is a Filter with this name.
pub open spec fn has_filter(reg: Seq<EffectV>, name: Seq<char>) -> bool {
    exists|i: int|
        0 <= i < reg.len() && reg[i].effect_type == EffectType::Filter && reg[i].name == name
}

/// The Filter entry with this name.
pub open spec fn filter_of(reg: Seq<EffectV>, name: Seq<char>) -> EffectV {
    reg[choose|i: int|
        0 <= i < reg.len() && reg[i].effect_type == EffectType::Filter && reg[i].name == name]
}

/// Effect names are pairwise distinct, as the host provides them.
pub open spec fn reg_wf(reg: Seq<EffectV>) -> bool {
    forall|i: int, j: int| 0 <= i < j < reg.len() ==> reg[i].name != reg[j].name
}

impl EffectRegistry {
    /// A new registry from a list of effects.
    pub fn new(effects: Vec<Effect>) -> (r: EffectRegistry)
        ensures
            r@ == effects@.map_values(|e: Effect| e@),
    {
        EffectRegistry { effects }
    }

    /// The registered Filter effect with the given name, if any.
    pub fn find_filter(&self, name: &Vec<char>) -> (r: Option<Effect>)
        requires
            reg_wf(self@),
        ensures
            match r {
                Some(e) => has_filter(self@, name@) && e@ == filter_of(self@, name@),
                None => !has_filter(self@, name@),
            },
    {
        let mut i: usize = 0;
        while i < self.effects.len()
            invariant
                reg_wf(self@),
                i <= self.effects@.len(),
                self@.len() == self.effects@.len(),
                forall|j: int|
                    0 <= j < i ==> !(self@[j].effect_type == EffectType::Filter && self@[j].name
                        == name@),
            decreases self.effects@.len() - i,
        {
            let e = &self.effects[i];
            let is_filter = match e.effect_type {
                EffectType::Filter => true,
                EffectType::Other => false,
            };
            if is_filter && chars_eq(&e.name, name) {
                let found = Effect {
                    name: copy_chars(&e.name),
                    effect_type: e.effect_type,
                    as_filter: e.as_filter,
                };
                proof {
                    assert(self@[i as int].effect_type == EffectType::Filter && self@[i as int].name
                        == name@);
                    let w = choose|w: int|
                        0 <= w < self@.len() && self@[w].effect_type == EffectType::Filter
                            && self@[w].name == name@;
                    if w != i {
                        assert(self@[w].name == self@[i as int].name);
                    }
                    assert(found@ =~= filter_of(self@, name@));
                }
                return Some(found);
            }
            i += 1;
        }
        None
    }
}

} // verus!
