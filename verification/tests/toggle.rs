use filter_effect_toggle::batch::FilterEffectToggleAux2;
use filter_effect_toggle::classify::{check_object_type, ObjectType};
use filter_effect_toggle::codec::{parse, serialize};
use filter_effect_toggle::errors::Error;
use filter_effect_toggle::registry::{Effect, EffectRegistry, EffectType};
use filter_effect_toggle::transform::{
    filter_effect_to_object, filter_object_to_effect, toggle_object,
};

const MARKER: &str = "フィルタオブジェクト";

fn effect(name: &str, effect_type: EffectType, as_filter: bool) -> Effect {
    Effect { name: name.chars().collect(), effect_type, as_filter }
}

fn registry() -> EffectRegistry {
    EffectRegistry::new(vec![
        effect("Blur", EffectType::Filter, true),
        effect("Glow", EffectType::Filter, true),
        effect("Dull", EffectType::Filter, false),
        effect("Clip", EffectType::Other, true),
    ])
}

fn filter_object_alias() -> String {
    format!(
        "[Object.0]\r\neffect.name={}\r\n[Object.1]\r\neffect.name=Blur\r\n[Object.2]\r\neffect.name=Glow\r\n",
        MARKER
    )
}


fn stage_name(t: &filter_effect_toggle::table::AliasTable, path: &str) -> Option<String> {
    t.get_table(path).and_then(|s| s.get_value("effect.name"))
}

fn filter_effect_alias() -> String {
    "[Object.0]\r\neffect.name=Blur\r\n".to_string()
}

#[test]
fn unwrap_drops_marker_and_renumbers() {
    let reg = registry();
    let alias = parse(&filter_object_alias()).unwrap();
    let out = filter_object_to_effect(&reg, &alias).unwrap();
    assert_eq!(stage_name(&out, "Object.0"), Some("Blur".to_string()));
    assert_eq!(stage_name(&out, "Object.1"), Some("Glow".to_string()));
    assert!(out.get_table("Object.2").is_none());
    assert_eq!(
        serialize(&out),
        "[Object.0]\r\neffect.name=Blur\r\n[Object.1]\r\neffect.name=Glow\r\n"
    );
}

#[test]
fn wrap_inserts_marker_and_renumbers() {
    let reg = registry();
    let alias = parse(&filter_effect_alias()).unwrap();
    let out = filter_effect_to_object(&reg, &alias).unwrap();
    assert_eq!(stage_name(&out, "Object.0"), Some(MARKER.to_string()));
    assert_eq!(stage_name(&out, "Object.1"), Some("Blur".to_string()));
    assert!(out.get_table("Object.2").is_none());
    assert_eq!(
        serialize(&out),
        format!("[Object.0]\r\neffect.name={}\r\n[Object.1]\r\neffect.name=Blur\r\n", MARKER)
    );
}

#[test]
fn toggle_dispatches_on_shape() {
    let reg = registry();
    let fo = parse(&filter_object_alias()).unwrap();
    let fe = parse(&filter_effect_alias()).unwrap();
    let unwrapped = toggle_object(&reg, &fo).unwrap();
    assert_eq!(stage_name(&unwrapped, "Object.0"), Some("Blur".to_string()));
    let wrapped = toggle_object(&reg, &fe).unwrap();
    assert_eq!(stage_name(&wrapped, "Object.0"), Some(MARKER.to_string()));
}

#[test]
fn wrap_then_unwrap_restores_chain() {
    let reg = registry();
    let fe = parse(&filter_effect_alias()).unwrap();
    let wrapped = filter_effect_to_object(&reg, &fe).unwrap();
    let back = filter_object_to_effect(&reg, &wrapped).unwrap();
    assert_eq!(serialize(&back), serialize(&fe));
    assert_eq!(serialize(&back), filter_effect_alias());
}

#[test]
fn unwrap_then_wrap_restores_chain() {
    let reg = registry();
    let fo = parse(&filter_object_alias()).unwrap();
    let unwrapped = filter_object_to_effect(&reg, &fo).unwrap();
    let back = filter_effect_to_object(&reg, &unwrapped).unwrap();
    assert_eq!(serialize(&back), serialize(&fo));
    assert_eq!(serialize(&back), filter_object_alias());
}

#[test]
fn chain_stays_contiguous() {
    let reg = registry();
    let fo = parse(&filter_object_alias()).unwrap();
    let out = filter_object_to_effect(&reg, &fo).unwrap();
    let object = out.get_table("Object").unwrap();
    let stages = object.iter_subtables_as_array();
    assert_eq!(stages.len(), 2);
    let fe = parse(&filter_effect_alias()).unwrap();
    let wrapped = filter_effect_to_object(&reg, &fe).unwrap();
    let object2 = wrapped.get_table("Object").unwrap();
    assert_eq!(object2.iter_subtables_as_array().len(), 2);
}

#[test]
fn other_sections_and_keys_survive_transforms() {
    let reg = registry();
    let text = format!(
        "[Settings]\r\nvolume=3\r\n[Object]\r\nlabel=keep=this\r\n[Object.0]\r\neffect.name={}\r\n[Object.1]\r\neffect.name=Blur\r\n",
        MARKER
    );
    let alias = parse(&text).unwrap();
    let out = filter_object_to_effect(&reg, &alias).unwrap();
    assert_eq!(
        out.get_table("Settings").unwrap().get_value("volume"),
        Some("3".to_string())
    );
    assert_eq!(
        out.get_table("Object").unwrap().get_value("label"),
        Some("keep=this".to_string())
    );
    assert_eq!(stage_name(&out, "Object.0"), Some("Blur".to_string()));
    assert!(out.get_table("Object.1").is_none());
    let rendered = serialize(&out);
    assert!(rendered.starts_with("[Settings]\r\nvolume=3\r\n"));
}

#[test]
fn classification_reads_both_shapes() {
    let reg = registry();
    let fo = parse(&filter_object_alias()).unwrap();
    match check_object_type(&reg, &fo) {
        Ok(Some((ObjectType::FilterObject, e))) => {
            let name: String = e.name.iter().collect();
            assert_eq!(name, "Blur");
            assert!(e.as_filter);
        },
        other => panic!("unexpected classification: {:?}", other.map(|o| o.map(|(t, _)| t))),
    }
    let fe = parse(&filter_effect_alias()).unwrap();
    match check_object_type(&reg, &fe) {
        Ok(Some((ObjectType::FilterEffect, e))) => {
            let name: String = e.name.iter().collect();
            assert_eq!(name, "Blur");
        },
        other => panic!("unexpected classification: {:?}", other.map(|o| o.map(|(t, _)| t))),
    }
}

#[test]
fn unregistered_stage_name_is_negative_not_error() {
    let reg = registry();
    let alias = parse("[Object.0]\r\neffect.name=Nonexistent\r\n").unwrap();
    let r = check_object_type(&reg, &alias);
    assert!(matches!(r, Ok(None)));
    let t = toggle_object(&reg, &alias);
    assert!(matches!(t, Err(Error::NotApplicable)));
}

#[test]
fn effect_of_wrong_type_is_negative() {
    let reg = registry();
    let alias = parse("[Object.0]\r\neffect.name=Clip\r\n").unwrap();
    assert!(matches!(check_object_type(&reg, &alias), Ok(None)));
}

#[test]
fn missing_stage_reports_missing_field() {
    let reg = registry();
    let alias = parse("[Other]\r\nkey=v\r\n").unwrap();
    assert!(matches!(toggle_object(&reg, &alias), Err(Error::MissingField)));
    let marker_only = parse(&format!("[Object.0]\r\neffect.name={}\r\n", MARKER)).unwrap();
    assert!(matches!(
        toggle_object(&reg, &marker_only),
        Err(Error::MissingField)
    ));
}

#[test]
fn unknown_filter_under_marker_is_an_error() {
    let reg = registry();
    let alias = parse(&format!(
        "[Object.0]\r\neffect.name={}\r\n[Object.1]\r\neffect.name=Nonexistent\r\n",
        MARKER
    ))
    .unwrap();
    assert!(matches!(toggle_object(&reg, &alias), Err(Error::UnknownEffect)));
}

#[test]
fn filter_incapable_effect_cannot_wrap() {
    let reg = registry();
    let alias = parse("[Object.0]\r\neffect.name=Dull\r\n").unwrap();
    assert!(matches!(
        filter_effect_to_object(&reg, &alias),
        Err(Error::NotFilterCapable)
    ));
}

#[test]
fn wrong_direction_is_not_applicable() {
    let reg = registry();
    let fe = parse(&filter_effect_alias()).unwrap();
    assert!(matches!(
        filter_object_to_effect(&reg, &fe),
        Err(Error::NotApplicable)
    ));
    let fo = parse(&filter_object_alias()).unwrap();
    assert!(matches!(
        filter_effect_to_object(&reg, &fo),
        Err(Error::NotApplicable)
    ));
}

#[test]
fn batch_partial_failure_still_succeeds() {
    let plugin = FilterEffectToggleAux2::new(registry());
    let selected = vec![
        filter_effect_alias(),
        "no equals sign here".to_string(),
        filter_effect_alias(),
    ];
    let results = plugin
        .object_toggle_filter_object_and_effect(&selected, &None)
        .unwrap();
    assert_eq!(results.len(), 3);
    assert!(results[0].is_ok());
    assert_eq!(results[1], Err(Error::FormatError));
    assert!(results[2].is_ok());
}

#[test]
fn batch_total_failure_reports_all_failed() {
    let plugin = FilterEffectToggleAux2::new(registry());
    let selected = vec![
        "junk".to_string(),
        "more junk".to_string(),
        "still junk".to_string(),
    ];
    let r = plugin.object_toggle_filter_object_and_effect(&selected, &None);
    assert_eq!(r.unwrap_err(), Error::AllFailed(3));
}

#[test]
fn batch_without_targets_fails() {
    let plugin = FilterEffectToggleAux2::new(registry());
    let r = plugin.object_toggle_filter_object_and_effect(&Vec::new(), &None);
    assert_eq!(r.unwrap_err(), Error::NoTarget);
}

#[test]
fn batch_falls_back_to_focused_object() {
    let plugin = FilterEffectToggleAux2::new(registry());
    let focused = Some(filter_effect_alias());
    let results = plugin
        .edit_toggle_filter_object_and_effect(&Vec::new(), &focused)
        .unwrap();
    assert_eq!(results.len(), 1);
    let text = results[0].as_ref().unwrap();
    let out = parse(text).unwrap();
    assert_eq!(stage_name(&out, "Object.0"), Some(MARKER.to_string()));
}

#[test]
fn directed_edit_commands_match_object_commands() {
    let plugin = FilterEffectToggleAux2::new(registry());
    let selected = vec![filter_object_alias()];
    let a = plugin.edit_filter_object_to_effect(&selected, &None).unwrap();
    let b = plugin.object_filter_object_to_effect(&selected, &None).unwrap();
    assert_eq!(a, b);
    let selected2 = vec![filter_effect_alias()];
    let c = plugin.edit_filter_effect_to_object(&selected2, &None).unwrap();
    let d = plugin.object_filter_effect_to_object(&selected2, &None).unwrap();
    assert_eq!(c, d);
}
