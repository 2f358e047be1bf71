//! Classification of an alias into one of the two shapes a filter can take.

use vstd::prelude::*;
use crate::chars::{chars_of, dec_rep, index_key_chars};
use crate::errors::Error;
use crate::registry::{Effect, EffectRegistry, EffectV, has_filter, filter_of, reg_wf};
use crate::table::{AliasTable, TableV};

verus! {

/// The derived shape of a classified object.
#[derive(Clone, Copy, PartialEq, Eq, Debug)]
pub enum ObjectType {
    FilterObject,
    FilterEffect,
}

/// The reserved name of the synthetic marker stage.
pub open spec fn marker_name() -> Seq<char> {
    "フィルタオブジェクト"@
}

/// The key of the section holding the effect chain.
pub open spec fn object_key() -> Seq<char> {
    "Object"@
}

/// The `effect.name` value of stage `i` of the alias's `Object` section;
/// the value key is literal, as the host stores it.
pub open spec fn stage_effect_name(a: TableV, i: nat) -> Option<Seq<char>> {
    a.value_at_path(seq![object_key(), dec_rep(i), "effect.name"@])
}

/// What classification returns for an alias against a registry.
pub open spec fn spec_classify(reg: Seq<EffectV>, a: TableV) -> Result<
    Option<(ObjectType, EffectV)>,
    Error,
> {
    match stage_effect_name(a, 0) {
        None => Err(Error::MissingField),
        Some(n0) => if n0 == marker_name() {
            match stage_effect_name(a, 1) {
                None => Err(Error::MissingField),
                Some(n1) => if has_filter(reg, n1) {
                    Ok(Some((ObjectType::FilterObject, filter_of(reg, n1))))
                } else {
                    Err(Error::UnknownEffect)
                },
            }
        } else {
            if has_filter(reg, n0) {
                Ok(Some((ObjectType::FilterEffect, filter_of(reg, n0))))
            } else {
                Ok(None)
            }
        },
    }
}

/// The path to stage `i`'s `effect.name` value: two table segments and the
/// literal value key.
fn stage_name_path(i: usize) -> (r: Vec<Vec<char>>)
    ensures
        crate::table::path_view(r@) =~= seq![object_key(), dec_rep(i as nat), "effect.name"@],
{
    let mut p: Vec<Vec<char>> = Vec::new();
    p.push(chars_of("Object"));
    p.push(index_key_chars(i));
    p.push(chars_of("effect.name"));
    p
}

/// Decide whether the alias is a Filter Object (marker stage first), a
/// Filter Effect (a registered filter's stage first), or neither; a negative
/// classification is not an error.
pub fn check_object_type(reg: &EffectRegistry, alias: &AliasTable) -> (r: Result<
    Option<(ObjectType, Effect)>,
    Error,
>)
    requires
        reg_wf(reg@),
        alias@.wf(),
    ensures
        match r {
            Ok(Some((ot, e))) => spec_classify(reg@, alias@) == Ok::<_, Error>(
                Some((ot, e@)),
            ),
            Ok(None) => spec_classify(reg@, alias@) == Ok::<Option<(ObjectType, EffectV)>, Error>(
                None,
            ),
            Err(er) => spec_classify(reg@, alias@) == Err::<Option<(ObjectType, EffectV)>, _>(er),
        },
{
    let p0 = stage_name_path(0);
    let name0 = match alias.get_value_path(&p0) {
        Some(v) => v,
        None => {
            return Err(Error::MissingField);
        },
    };
    let marker = chars_of("フィルタオブジェクト");
    if crate::chars::chars_eq(name0, &marker) {
        let p1 = stage_name_path(1);
        let name1 = match alias.get_value_path(&p1) {
            Some(v) => v,
            None => {
                return Err(Error::MissingField);
            },
        };
        match reg.find_filter(name1) {
            Some(e) => Ok(Some((ObjectType::FilterObject, e))),
            None => Err(Error::UnknownEffect),
        }
    } else {
        match reg.find_filter(name0) {
            Some(e) => Ok(Some((ObjectType::FilterEffect, e))),
            None => Ok(None),
        }
    }
}

} // verus!
