use filter_effect_toggle::codec::{parse, serialize};
use filter_effect_toggle::errors::Error;
use filter_effect_toggle::registry::{Effect, EffectRegistry, EffectType};
use filter_effect_toggle::table::AliasTable;
use filter_effect_toggle::transform::filter_effect_to_object;

#[test]
fn parse_reads_sections_keys_and_values() {
    let text = "[project]\r\nversion=2001802\r\n[Object.0]\r\neffect.name=Blur\r\nlayer=4\r\n";
    let t = parse(text).unwrap();
    assert_eq!(
        t.get_table("project").unwrap().get_value("version"),
        Some("2001802".to_string())
    );
    let stage = t.get_table("Object.0").unwrap();
    assert_eq!(stage.get_value("effect.name"), Some("Blur".to_string()));
    assert_eq!(stage.get_value("layer"), Some("4".to_string()));
    assert!(t.get_table("Object.1").is_none());
}

#[test]
fn value_keys_are_literal_not_paths() {
    let t = parse("[s]\r\na.b=1\r\n").unwrap();
    let s = t.get_table("s").unwrap();
    assert_eq!(s.get_value("a.b"), Some("1".to_string()));
    assert!(s.get_table("a").is_none());
    assert!(s.get_value("a").is_none());
}

#[test]
fn parse_accepts_bare_newlines_and_blank_lines() {
    let t = parse("[a]\nx=1\n\n   \n[b]\ny=2").unwrap();
    assert_eq!(t.get_table("a").unwrap().get_value("x"), Some("1".to_string()));
    assert_eq!(t.get_table("b").unwrap().get_value("y"), Some("2".to_string()));
}

#[test]
fn parse_keeps_later_equals_signs_in_the_value() {
    let t = parse("[s]\r\nk=a=b=c\r\n").unwrap();
    assert_eq!(t.get_table("s").unwrap().get_value("k"), Some("a=b=c".to_string()));
}

#[test]
fn parse_rejects_unterminated_header() {
    assert!(matches!(parse("[Object\r\nk=v\r\n"), Err(Error::FormatError)));
}

#[test]
fn parse_rejects_line_without_equals() {
    assert!(matches!(parse("[a]\r\njunk\r\n"), Err(Error::FormatError)));
}

#[test]
fn parse_rejects_section_under_a_value() {
    assert!(matches!(
        parse("[a]\r\nk=1\r\n[a.k]\r\nx=2\r\n"),
        Err(Error::FormatError)
    ));
}

#[test]
fn empty_header_returns_to_the_root() {
    let t = parse("[a]\r\nx=1\r\n[]\r\ntop=2\r\n").unwrap();
    assert_eq!(t.get_table("a").unwrap().get_value("x"), Some("1".to_string()));
    assert_eq!(t.get_value("top"), Some("2".to_string()));
}

#[test]
fn host_text_round_trips_byte_for_byte() {
    let text = "[project]\r\nversion=7\r\n[Object]\r\nlabel=L\r\n[Object.0]\r\neffect.name=Blur\r\n[Object.1]\r\neffect.name=Glow\r\n";
    let t = parse(text).unwrap();
    let s1 = serialize(&t);
    assert_eq!(s1, text);
    let t2 = parse(&s1).unwrap();
    assert_eq!(serialize(&t2), text);
}

#[test]
fn transform_output_round_trips_byte_for_byte() {
    let reg = EffectRegistry::new(vec![Effect {
        name: "Blur".chars().collect(),
        effect_type: EffectType::Filter,
        as_filter: true,
    }]);
    let alias = parse("[Object.0]\r\neffect.name=Blur\r\n[Object.0.filter]\r\nstrength=5\r\n").unwrap();
    let wrapped = filter_effect_to_object(&reg, &alias).unwrap();
    let s1 = serialize(&wrapped);
    let again = parse(&s1).unwrap();
    assert_eq!(serialize(&again), s1);
    assert_eq!(
        again.get_table("Object.1.filter").unwrap().get_value("strength"),
        Some("5".to_string())
    );
}

#[test]
fn values_precede_subtables_in_serialization() {
    let mut stage = AliasTable::empty();
    assert!(stage.insert_value("effect.name", "Blur"));
    let mut extra = AliasTable::empty();
    assert!(extra.insert_value("strength", "5"));
    stage.insert_table("filter", extra);
    assert!(stage.insert_value("layer", "2"));
    let mut obj = AliasTable::empty();
    obj.insert_table("0", stage);
    let mut root = AliasTable::empty();
    root.insert_table("Object", obj);
    assert_eq!(
        serialize(&root),
        "[Object.0]\r\neffect.name=Blur\r\nlayer=2\r\n[Object.0.filter]\r\nstrength=5\r\n"
    );
}

#[test]
fn insert_value_refuses_a_table_in_the_way() {
    let mut t = AliasTable::empty();
    t.insert_table("a", AliasTable::empty());
    assert!(!t.insert_value("a", "2"));
    assert!(t.get_value("a").is_none());
    assert!(t.insert_value("b", "1"));
    assert_eq!(t.get_value("b"), Some("1".to_string()));
}

#[test]
fn insert_value_overwrites_in_place() {
    let mut t = AliasTable::empty();
    assert!(t.insert_value("k", "1"));
    assert!(t.insert_value("k", "2"));
    assert_eq!(t.get_value("k"), Some("2".to_string()));
}

#[test]
fn remove_table_drops_only_subtables() {
    let mut t = AliasTable::empty();
    let mut sub = AliasTable::empty();
    assert!(sub.insert_value("b", "1"));
    t.insert_table("a", sub);
    assert!(t.insert_value("c", "2"));
    t.remove_table("a");
    assert!(t.get_table("a").is_none());
    t.remove_table("c");
    assert_eq!(t.get_value("c"), Some("2".to_string()));
}

#[test]
fn insert_table_replaces_a_child() {
    let mut t = AliasTable::empty();
    let mut old = AliasTable::empty();
    assert!(old.insert_value("old", "1"));
    t.insert_table("x", old);
    let mut fresh = AliasTable::empty();
    assert!(fresh.insert_value("new", "2"));
    t.insert_table("x", fresh);
    let x = t.get_table("x").unwrap();
    assert!(x.get_value("old").is_none());
    assert_eq!(x.get_value("new"), Some("2".to_string()));
}

#[test]
fn deep_copy_is_independent() {
    let mut t = AliasTable::empty();
    assert!(t.insert_value("a", "1"));
    let mut c = t.deep_copy();
    assert!(c.insert_value("b", "2"));
    assert!(t.get_value("b").is_none());
    assert_eq!(c.get_value("a"), Some("1".to_string()));
}

#[test]
fn serialize_omits_headers_of_valueless_tables() {
    let mut inner = AliasTable::empty();
    assert!(inner.insert_value("c", "1"));
    let mut mid = AliasTable::empty();
    mid.insert_table("b", inner);
    let mut root = AliasTable::empty();
    root.insert_table("a", mid);
    assert_eq!(serialize(&root), "[a.b]\r\nc=1\r\n");
}
