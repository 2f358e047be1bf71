//! Batch application of a transform to the current selection: the selected
//! objects' alias texts in order, or the focused object's when the selection
//! is empty; per-object failures are collected and do not abort the pass.

use vstd::prelude::*;
use crate::codec::{parse, serialize, spec_parse, spec_serialize};
use crate::errors::Error;
use crate::registry::{EffectRegistry, EffectV, reg_wf};
use crate::transform::{
    filter_effect_to_object, filter_object_to_effect, spec_toggle_alias, spec_unwrap_alias,
    spec_wrap_alias, toggle_object,
};

verus! {

/// The operation a command selects.
#[derive(Clone, Copy, PartialEq, Eq, Debug)]
pub enum Op {
    /// Convert away from whichever shape the object currently has.
    Toggle,
    /// Filter Object to Filter Effect.
    ObjectToEffect,
    /// Filter Effect to Filter Object.
    EffectToObject,
}

/// What one operation yields on one alias text.
pub open spec fn spec_op_text(op: Op, reg: Seq<EffectV>, s: Seq<char>) -> Result<Seq<char>, Error> {
    match spec_parse(s) {
        Err(e) => Err(e),
        Ok(a) => {
            let out = match op {
                Op::Toggle => spec_toggle_alias(reg, a),
                Op::ObjectToEffect => spec_unwrap_alias(reg, a),
                Op::EffectToObject => spec_wrap_alias(reg, a),
            };
            match out {
                Err(e) => Err(e),
                Ok(b) => Ok(spec_serialize(b)),
            }
        },
    }
}

/// The targeted alias texts: the selection, or the focused object alone.
pub open spec fn spec_targets(selected: Seq<Seq<char>>, focused: Option<Seq<char>>) -> Option<
    Seq<Seq<char>>,
> {
    if selected.len() > 0 {
        Some(selected)
    } else {
        match focused {
            Some(f) => Some(seq![f]),
            None => None,
        }
    }
}

/// Selected alias texts seen as character sequences.
pub open spec fn sel_view(v: Seq<String>) -> Seq<Seq<char>> {
    v.map_values(|s: String| s@)
}

/// The focused alias text seen as a character sequence.
pub open spec fn foc_view(o: Option<String>) -> Option<Seq<char>> {
    match o {
        Some(f) => Some(f@),
        None => None,
    }
}

/// A per-target outcome seen at the spec level.
pub open spec fn res_view(r: Result<String, Error>) -> Result<Seq<char>, Error> {
    match r {
        Ok(s) => Ok(s@),
        Err(e) => Err(e),
    }
}

/// The whole batch outcome seen at the spec level.
pub open spec fn batch_view(r: Result<Vec<Result<String, Error>>, Error>) -> Result<
    Seq<Result<Seq<char>, Error>>,
    Error,
> {
    match r {
        Ok(v) => Ok(v@.map_values(|x: Result<String, Error>| res_view(x))),
        Err(e) => Err(e),
    }
}

/// The batch contract: no target fails the command with `NoTarget`; a pass
/// where every target fails yields `AllFailed` with the count; otherwise the
/// per-target outcomes are returned in order, each exactly the operation's
/// outcome on that target's text.
pub open spec fn batch_post(
    op: Op,
    reg: Seq<EffectV>,
    selected: Seq<Seq<char>>,
    focused: Option<Seq<char>>,
    r: Result<Seq<Result<Seq<char>, Error>>, Error>,
) -> bool {
    match spec_targets(selected, focused) {
        None => r == Err::<Seq<Result<Seq<char>, Error>>, Error>(Error::NoTarget),
        Some(tg) => match r {
            Ok(results) => {
                &&& results.len() == tg.len()
                &&& (forall|i: int|
                    0 <= i < tg.len() ==> results[i] == spec_op_text(op, reg, #[trigger] tg[i]))
                &&& (exists|i: int|
                    0 <= i < tg.len() && spec_op_text(op, reg, #[trigger] tg[i]) is Ok)
            },
            Err(e) => {
                &&& e == Error::AllFailed(tg.len() as usize)
                &&& (forall|i: int|
                    0 <= i < tg.len() ==> spec_op_text(op, reg, #[trigger] tg[i]) is Err)
            },
        },
    }
}

/// Run one operation on one alias text.
pub fn apply_op(reg: &EffectRegistry, op: Op, s: &String) -> (r: Result<String, Error>)
    requires
        reg_wf(reg@),
    ensures
        res_view(r) == spec_op_text(op, reg@, s@),
{
    match parse(s.as_str()) {
        Err(e) => Err(e),
        Ok(a) => {
            let out = match op {
                Op::Toggle => toggle_object(reg, &a),
                Op::ObjectToEffect => filter_object_to_effect(reg, &a),
                Op::EffectToObject => filter_effect_to_object(reg, &a),
            };
            match out {
                Err(e) => Err(e),
                Ok(b) => Ok(serialize(&b)),
            }
        },
    }
}

/// Apply an operation to every selected object's alias text, or to the
/// focused object's when the selection is empty. Per-target failures are
/// collected, not propagated; only a pass with no successful target at all
/// fails as a whole.
#[verifier::rlimit(60)]
pub fn run_operations_to_selected_objects(
    reg: &EffectRegistry,
    op: Op,
    selected: &Vec<String>,
    focused: &Option<String>,
) -> (r: Result<Vec<Result<String, Error>>, Error>)
    requires
        reg_wf(reg@),
    ensures
        batch_post(op, reg@, sel_view(selected@), foc_view(*focused), batch_view(r)),
{
    if selected.len() == 0 {
        match focused {
            None => Err(Error::NoTarget),
            Some(f) => {
                let ghost tg = spec_targets(sel_view(selected@), foc_view(*focused))->Some_0;
                proof {
                    assert(tg =~= seq![f@]);
                }
                let one = apply_op(reg, op, f);
                let failed = match &one {
                    Ok(_) => false,
                    Err(_) => true,
                };
                if failed {
                    proof {
                        assert forall|i: int| 0 <= i < tg.len() implies spec_op_text(
                            op,
                            reg@,
                            #[trigger] tg[i],
                        ) is Err by {
                            assert(tg[i] == f@);
                        }
                    }
                    Err(Error::AllFailed(1))
                } else {
                    let mut results: Vec<Result<String, Error>> = Vec::new();
                    results.push(one);
                    proof {
                        let rv = results@.map_values(|x: Result<String, Error>| res_view(x));
                        assert(rv =~= seq![res_view(results@[0])]);
                        assert(rv[0] == spec_op_text(op, reg@, tg[0]));
                        assert(spec_op_text(op, reg@, tg[0]) is Ok);
                    }
                    Ok(results)
                }
            },
        }
    } else {
        let ghost tg = sel_view(selected@);
        let mut results: Vec<Result<String, Error>> = Vec::new();
        let mut any_ok = false;
        let mut i: usize = 0;
        while i < selected.len()
            invariant
                reg_wf(reg@),
                tg == sel_view(selected@),
                tg.len() == selected@.len(),
                i <= selected@.len(),
                results@.len() == i,
                forall|j: int|
                    0 <= j < i ==> res_view(#[trigger] results@[j]) == spec_op_text(
                        op,
                        reg@,
                        tg[j],
                    ),
                any_ok <==> (exists|j: int|
                    0 <= j < i && spec_op_text(op, reg@, #[trigger] tg[j]) is Ok),
            decreases selected@.len() - i,
        {
            let one = apply_op(reg, op, &selected[i]);
            let ok_here = match &one {
                Ok(_) => true,
                Err(_) => false,
            };
            proof {
                assert(tg[i as int] == selected@[i as int]@);
            }
            if ok_here {
                any_ok = true;
                proof {
                    assert(spec_op_text(op, reg@, tg[i as int]) is Ok);
                }
            }
            results.push(one);
            i += 1;
        }
        if !any_ok {
            proof {
                assert forall|j: int| 0 <= j < tg.len() implies spec_op_text(
                    op,
                    reg@,
                    #[trigger] tg[j],
                ) is Err by {
                    if spec_op_text(op, reg@, tg[j]) is Ok {
                        assert(exists|k: int|
                            0 <= k < i && spec_op_text(op, reg@, #[trigger] tg[k]) is Ok);
                    }
                }
            }
            Err(Error::AllFailed(selected.len()))
        } else {
            proof {
                let rv = results@.map_values(|x: Result<String, Error>| res_view(x));
                assert forall|j: int| 0 <= j < tg.len() implies rv[j] == spec_op_text(
                    op,
                    reg@,
                    #[trigger] tg[j],
                ) by {
                    assert(res_view(results@[j]) == spec_op_text(op, reg@, tg[j]));
                }
            }
            Ok(results)
        }
    }
}

/// The plugin's command surface: the loaded registry plus the three
/// commands, each applied to the current selection or focus.
pub struct FilterEffectToggleAux2 {
    pub registry: EffectRegistry,
}

impl FilterEffectToggleAux2 {
    /// A command surface over a loaded registry.
    pub fn new(registry: EffectRegistry) -> (r: FilterEffectToggleAux2)
        ensures
            r.registry@ == registry@,
    {
        FilterEffectToggleAux2 { registry }
    }

    /// The edit-menu toggle command.
    pub fn edit_toggle_filter_object_and_effect(
        &self,
        selected: &Vec<String>,
        focused: &Option<String>,
    ) -> (r: Result<Vec<Result<String, Error>>, Error>)
        requires
            reg_wf(self.registry@),
        ensures
            batch_post(Op::Toggle, self.registry@, sel_view(selected@), foc_view(*focused), batch_view(r)),
    {
        self.object_toggle_filter_object_and_effect(selected, focused)
    }

    /// The edit-menu Filter Object to Filter Effect command.
    pub fn edit_filter_object_to_effect(
        &self,
        selected: &Vec<String>,
        focused: &Option<String>,
    ) -> (r: Result<Vec<Result<String, Error>>, Error>)
        requires
            reg_wf(self.registry@),
        ensures
            batch_post(Op::ObjectToEffect, self.registry@, sel_view(selected@), foc_view(*focused), batch_view(r)),
    {
        self.object_filter_object_to_effect(selected, focused)
    }

    /// The edit-menu Filter Effect to Filter Object command.
    pub fn edit_filter_effect_to_object(
        &self,
        selected: &Vec<String>,
        focused: &Option<String>,
    ) -> (r: Result<Vec<Result<String, Error>>, Error>)
        requires
            reg_wf(self.registry@),
        ensures
            batch_post(Op::EffectToObject, self.registry@, sel_view(selected@), foc_view(*focused), batch_view(r)),
    {
        self.object_filter_effect_to_object(selected, focused)
    }

    /// The object-menu toggle command.
    pub fn object_toggle_filter_object_and_effect(
        &self,
        selected: &Vec<String>,
        focused: &Option<String>,
    ) -> (r: Result<Vec<Result<String, Error>>, Error>)
        requires
            reg_wf(self.registry@),
        ensures
            batch_post(Op::Toggle, self.registry@, sel_view(selected@), foc_view(*focused), batch_view(r)),
    {
        run_operations_to_selected_objects(&self.registry, Op::Toggle, selected, focused)
    }

    /// The object-menu Filter Object to Filter Effect command.
    pub fn object_filter_object_to_effect(
        &self,
        selected: &Vec<String>,
        focused: &Option<String>,
    ) -> (r: Result<Vec<Result<String, Error>>, Error>)
        requires
            reg_wf(self.registry@),
        ensures
            batch_post(Op::ObjectToEffect, self.registry@, sel_view(selected@), foc_view(*focused), batch_view(r)),
    {
        run_operations_to_selected_objects(&self.registry, Op::ObjectToEffect, selected, focused)
    }

    /// The object-menu Filter Effect to Filter Object command.
    pub fn object_filter_effect_to_object(
        &self,
        selected: &Vec<String>,
        focused: &Option<String>,
    ) -> (r: Result<Vec<Result<String, Error>>, Error>)
        requires
            reg_wf(self.registry@),
        ensures
            batch_post(Op::EffectToObject, self.registry@, sel_view(selected@), foc_view(*focused), batch_view(r)),
    {
        run_operations_to_selected_objects(&self.registry, Op::EffectToObject, selected, focused)
    }
}

} // verus!
