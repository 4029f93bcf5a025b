//! Magic effects: the named effect definitions that ingredients refer to.

use vstd::prelude::*;

use crate::form_id::{FormIdContainer, GlobalFormId};

verus! {

/// Mathematical model of a magic effect.
pub ghost struct MagicEffectView {
    pub global_id: GlobalFormId,
    pub editor_id: Seq<char>,
    pub name: Option<Seq<char>>,
    pub description: Seq<char>,
    pub flags: u32,
    pub is_hostile: bool,
    pub base_cost_bits: u32,
}

/// A magic effect definition.  The base cost is carried as the raw bit
/// pattern of the source's 32-bit float; the verified core never interprets
/// it, only the scoring layer outside the core does.
pub struct MagicEffect {
    pub global_id: GlobalFormId,
    pub editor_id: String,
    pub name: Option<String>,
    pub description: String,
    pub flags: u32,
    pub is_hostile: bool,
    pub base_cost_bits: u32,
}

impl View for MagicEffect {
    type V = MagicEffectView;

    open spec fn view(&self) -> MagicEffectView {
        MagicEffectView {
            global_id: self.global_id,
            editor_id: self.editor_id@,
            name: match self.name {
                Some(s) => Some(s@),
                None => None,
            },
            description: self.description@,
            flags: self.flags,
            is_hostile: self.is_hostile,
            base_cost_bits: self.base_cost_bits,
        }
    }
}

impl FormIdContainer for MagicEffect {
    fn get_global_form_id(&self) -> GlobalFormId {
        self.global_id
    }
}

impl Clone for MagicEffect {
    fn clone(&self) -> (r: Self)
        ensures
            r@ == self@,
    {
        MagicEffect {
            global_id: self.global_id,
            editor_id: self.editor_id.clone(),
            name: match &self.name {
                Some(v) => Some(v.clone()),
                None => None,
            },
            description: self.description.clone(),
            flags: self.flags,
            is_hostile: self.is_hostile,
            base_cost_bits: self.base_cost_bits,
        }
    }
}

/// The flag bit that marks an effect as hostile.
pub open spec fn spec_hostile_flag(flags: u32) -> bool {
    flags & 0x0000_0001 == 1
}

impl MagicEffect {
    /// Whether the flag word marks the effect as hostile.
    pub fn is_hostile_flag_set(flags: u32) -> (r: bool)
        ensures
            r == spec_hostile_flag(flags),
    {
        flags & 0x0000_0001 == 1
    }
}

} // verus!
