//! Item text tables and identifier parsing.

use dungeon_core::inventory::Slot;
use dungeon_core::item::Activation;
use dungeon_core::item::Attribute;
use dungeon_core::item::DropEffect;
use dungeon_core::item::ItemKind;
use dungeon_core::item::Mod;
use dungeon_core::item::ModKind;
use dungeon_core::item::Unit;
use dungeon_core::item::calc_slot;
use dungeon_core::item::i32_text;
use dungeon_core::item::parse_attribute;
use dungeon_core::item::parse_drop_effect;
use dungeon_core::item::parse_item_type;
use dungeon_core::item::parse_unit;

#[test]
fn activation_info_lines() {
    assert_eq!(Activation::Nothing.info_str(), "");
    assert_eq!(Activation::Fireball.info_str(), "Activation: Fireball");
    assert_eq!(Activation::FrostBolt.info_str(), "Activation: Frost Bolt");
    assert_eq!(
        Activation::LightningStrike.info_str(),
        "Activation: Lightning Strike"
    );
}

#[test]
fn item_kind_names() {
    assert_eq!(ItemKind::Misc.name_str(), "Miscellaneous");
    assert_eq!(ItemKind::Wand.name_str(), "Wand");
    assert_eq!(ItemKind::Currency.name_str(), "Currency");
}

#[test]
fn number_text_renders_decimal_with_sign() {
    assert_eq!(i32_text(0), "0");
    assert_eq!(i32_text(7), "7");
    assert_eq!(i32_text(120), "120");
    assert_eq!(i32_text(-123), "-123");
}

#[test]
fn mod_lines_show_name_range_and_unit() {
    let m = Mod {
        attribute: Attribute::ResFire,
        min_value: 10,
        max_value: 20,
        unit: Unit::Percent,
        kind: ModKind::Implicit,
        ilvl: 1,
    };
    assert_eq!(m.assemble_mod_line_text(), "Fire Resistance: 10-20%");

    let single = Mod {
        attribute: Attribute::Armor,
        min_value: 5,
        max_value: 5,
        unit: Unit::Integer,
        kind: ModKind::Echanted,
        ilvl: 1,
    };
    assert_eq!(single.assemble_mod_line_text(), "Armor: 5");

    let empty = Mod {
        attribute: Attribute::Speed,
        min_value: 0,
        max_value: 0,
        unit: Unit::Integer,
        kind: ModKind::Implicit,
        ilvl: 1,
    };
    assert_eq!(empty.assemble_mod_line_text(), "");
}

#[test]
fn parses_attribute_identifiers() {
    assert_eq!(parse_attribute("res_fire"), Attribute::ResFire);
    assert_eq!(parse_attribute("res_light"), Attribute::ResLight);
    assert_eq!(parse_attribute("res_cold"), Attribute::ResCold);
    assert_eq!(parse_attribute("spell_dam"), Attribute::SpellDamage);
    assert_eq!(parse_attribute("phys_dam"), Attribute::PhysicalDamage);
}

#[test]
fn parses_units_and_drop_effects() {
    assert_eq!(parse_unit("%"), Unit::Percent);
    assert_eq!(parse_unit(""), Unit::Integer);
    assert_eq!(parse_unit("pts"), Unit::Integer);
    assert_eq!(parse_drop_effect("enchant_fireball"), DropEffect::EnchantFireball);
    assert_eq!(parse_drop_effect("enchant_frost_bolt"), DropEffect::EnchantFrostBolt);
    assert_eq!(
        parse_drop_effect("enchant_lightning_strike"),
        DropEffect::EnchantLightningStrike
    );
    assert_eq!(parse_drop_effect(""), DropEffect::Nothing);
}

#[test]
fn parses_item_kinds_with_a_misc_fallback() {
    assert_eq!(parse_item_type("wand"), ItemKind::Wand);
    assert_eq!(parse_item_type("scroll"), ItemKind::Scroll);
    assert_eq!(parse_item_type("anything else"), ItemKind::Misc);
}

#[test]
fn maps_slot_indices_with_a_bag_fallback() {
    assert_eq!(calc_slot(0), Slot::OnCursor);
    assert_eq!(calc_slot(3), Slot::Head);
    assert_eq!(calc_slot(9), Slot::RRing);
    assert_eq!(calc_slot(77), Slot::Bag);
}
