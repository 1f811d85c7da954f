//! Item data: activations, kinds, attribute modifiers, and the parsing
//! of their textual identifiers.

use vstd::prelude::*;

use crate::inventory::Slot;

verus! {

/// The spell an item casts when activated.
#[derive(Clone, Debug, PartialEq, Eq, Structural)]
pub enum Activation {
    Nothing,
    Fireball,
    FrostBolt,
    LightningStrike,
}

impl Activation {
    /// The line shown for the activation in an item popup.
    pub fn info_str(&self) -> (r: &str)
        ensures
            *self == Activation::Nothing ==> r@ == ""@,
            *self == Activation::Fireball ==> r@ == "Activation: Fireball"@,
            *self == Activation::FrostBolt ==> r@ == "Activation: Frost Bolt"@,
            *self == Activation::LightningStrike ==> r@ == "Activation: Lightning Strike"@,
    {
        match self {
            Activation::Nothing => "",
            Activation::Fireball => "Activation: Fireball",
            Activation::FrostBolt => "Activation: Frost Bolt",
            Activation::LightningStrike => "Activation: Lightning Strike",
        }
    }
}

/// What picking an item up does to the player's weapon.
#[derive(Clone, Debug, PartialEq, Eq, Structural)]
pub enum DropEffect {
    Nothing,
    EnchantFireball,
    EnchantFrostBolt,
    EnchantLightningStrike,
}

/// The broad kind of an item.
#[derive(Clone, Debug, PartialEq, Eq, Structural)]
pub enum ItemKind {
    Misc,
    Wand,
    Bow,
    Ring,
    Amulet,
    Scroll,
    Currency,
    Plugin,
}

impl ItemKind {
    /// The kind's display name.
    pub fn name_str(&self) -> (r: &str)
        ensures
            *self == ItemKind::Misc ==> r@ == "Miscellaneous"@,
            *self == ItemKind::Wand ==> r@ == "Wand"@,
            *self == ItemKind::Bow ==> r@ == "Bow"@,
            *self == ItemKind::Ring ==> r@ == "Ring"@,
            *self == ItemKind::Amulet ==> r@ == "Amulet"@,
            *self == ItemKind::Scroll ==> r@ == "Scroll"@,
            *self == ItemKind::Currency ==> r@ == "Currency"@,
            *self == ItemKind::Plugin ==> r@ == "Plugin"@,
    {
        match self {
            ItemKind::Misc => "Miscellaneous",
            ItemKind::Wand => "Wand",
            ItemKind::Bow => "Bow",
            ItemKind::Ring => "Ring",
            ItemKind::Amulet => "Amulet",
            ItemKind::Scroll => "Scroll",
            ItemKind::Currency => "Currency",
            ItemKind::Plugin => "Plugin",
        }
    }
}

/// A stat an item modifier can change.
#[derive(PartialEq, Eq, Structural, Debug, Clone)]
pub enum Attribute {
    Agility,
    Armor,
    Speed,
    PhysicalDamage,
    SpellDamage,
    ResFire,
    ResLight,
    ResCold,
}

/// The display name of an attribute.
pub open spec fn spec_attr_name(a: Attribute) -> Seq<char> {
    match a {
        Attribute::Agility => "Agility"@,
        Attribute::Armor => "Armor"@,
        Attribute::Speed => "Speed"@,
        Attribute::PhysicalDamage => "Physical Damage"@,
        Attribute::SpellDamage => "Added Spell Damage"@,
        Attribute::ResFire => "Fire Resistance"@,
        Attribute::ResLight => "Lightning Resistance"@,
        Attribute::ResCold => "Cold Resistance"@,
    }
}

impl Attribute {
    /// The attribute's display name.
    pub fn name_str(&self) -> (r: &str)
        ensures
            r@ == spec_attr_name(*self),
    {
        match self {
            Attribute::Agility => "Agility",
            Attribute::Armor => "Armor",
            Attribute::Speed => "Speed",
            Attribute::PhysicalDamage => "Physical Damage",
            Attribute::SpellDamage => "Added Spell Damage",
            Attribute::ResFire => "Fire Resistance",
            Attribute::ResLight => "Lightning Resistance",
            Attribute::ResCold => "Cold Resistance",
        }
    }
}

/// Whether a modifier value is a percentage or a plain number.
#[derive(PartialEq, Eq, Structural, Debug, Clone)]
pub enum Unit {
    Percent,
    Integer,
}

/// Where a modifier comes from: the item itself, or an enchantment.
#[derive(Clone, Debug, PartialEq, Eq, Structural)]
pub enum ModKind {
    Implicit,
    Echanted,
}

/// A modifier as read from the prototype tables: a value range.
#[derive(Debug, Clone)]
pub struct ModPrototype {
    pub attribute: Attribute,
    pub min_value: i32,
    pub max_value: i32,
    pub unit: Unit,
    pub ilvl: u32,
}

/// One modifier on a concrete item.
#[derive(Debug, Clone)]
pub struct Mod {
    pub attribute: Attribute,
    pub min_value: i32,
    pub max_value: i32,
    pub unit: Unit,
    pub kind: ModKind,
    pub ilvl: u32,
}

/// The decimal digit character for one digit value.
pub open spec fn dec_digit(d: int) -> char {
    if d == 0 {
        '0'
    } else if d == 1 {
        '1'
    } else if d == 2 {
        '2'
    } else if d == 3 {
        '3'
    } else if d == 4 {
        '4'
    } else if d == 5 {
        '5'
    } else if d == 6 {
        '6'
    } else if d == 7 {
        '7'
    } else if d == 8 {
        '8'
    } else {
        '9'
    }
}

/// The decimal digit string of a nonnegative number.
pub open spec fn spec_udec(n: int) -> Seq<char>
    decreases n,
{
    if n < 10 {
        seq![dec_digit(n)]
    } else {
        spec_udec(n / 10).push(dec_digit(n % 10))
    }
}

/// The decimal string of a number, with a sign for negative ones.
pub open spec fn spec_idec(n: int) -> Seq<char> {
    if n < 0 {
        seq!['-'] + spec_udec(-n)
    } else {
        spec_udec(n)
    }
}

/// One decimal digit as a string slice.
fn digit_str(d: u32) -> (r: &'static str)
    requires
        d < 10,
    ensures
        r@ =~= seq![dec_digit(d as int)],
{
    proof {
        reveal_strlit("0");
        reveal_strlit("1");
        reveal_strlit("2");
        reveal_strlit("3");
        reveal_strlit("4");
        reveal_strlit("5");
        reveal_strlit("6");
        reveal_strlit("7");
        reveal_strlit("8");
        reveal_strlit("9");
    }
    if d == 0 {
        "0"
    } else if d == 1 {
        "1"
    } else if d == 2 {
        "2"
    } else if d == 3 {
        "3"
    } else if d == 4 {
        "4"
    } else if d == 5 {
        "5"
    } else if d == 6 {
        "6"
    } else if d == 7 {
        "7"
    } else if d == 8 {
        "8"
    } else {
        "9"
    }
}

/// The decimal text of a nonnegative number.
fn u32_text(n: u32) -> (s: String)
    ensures
        s@ == spec_udec(n as int),
    decreases n,
{
    if n < 10 {
        let s = digit_str(n).to_owned();
        proof {
            assert(s@ =~= spec_udec(n as int));
        }
        s
    } else {
        let mut s = u32_text(n / 10);
        s.append(digit_str(n % 10));
        proof {
            assert(s@ =~= spec_udec(n as int));
        }
        s
    }
}

/// The decimal text of a number, negative ones with a leading sign.
pub fn i32_text(n: i32) -> (s: String)
    ensures
        s@ == spec_idec(n as int),
{
    if n < 0 {
        let mut s = String::new();
        proof {
            reveal_strlit("-");
        }
        s.append("-");
        let mag: u32 = if n == i32::MIN {
            0x8000_0000u32
        } else {
            (-n) as u32
        };
        let tail = u32_text(mag);
        s.append(tail.as_str());
        proof {
            assert(s@ =~= spec_idec(n as int));
        }
        s
    } else {
        u32_text(n as u32)
    }
}

/// The unit suffix shown after a modifier value.
pub open spec fn spec_unit_suffix(u: Unit) -> Seq<char> {
    if u == Unit::Percent {
        "%"@
    } else {
        ""@
    }
}

/// The value range as text: one number, or two joined by a dash.
pub open spec fn spec_range_text(lo: int, hi: int) -> Seq<char> {
    if lo == hi {
        spec_idec(lo)
    } else {
        spec_idec(lo) + "-"@ + spec_idec(hi)
    }
}

/// The popup line of one modifier: the attribute name, a colon, the
/// value range, and the unit suffix; empty for a non-positive maximum.
pub open spec fn spec_mod_line(m: Mod) -> Seq<char> {
    if m.max_value > 0 {
        spec_attr_name(m.attribute) + ": "@ + spec_range_text(
            m.min_value as int,
            m.max_value as int,
        ) + spec_unit_suffix(m.unit)
    } else {
        ""@
    }
}

impl Mod {
    /// Builds the popup line of this modifier.
    pub fn assemble_mod_line_text(&self) -> (t: String)
        ensures
            t@ == spec_mod_line(*self),
    {
        if self.max_value > 0 {
            let range: String = if self.min_value == self.max_value {
                i32_text(self.min_value)
            } else {
                let mut r = i32_text(self.min_value);
                proof {
                    reveal_strlit("-");
                }
                r.append("-");
                let hi = i32_text(self.max_value);
                r.append(hi.as_str());
                r
            };

            let unit_sign: &str = if matches!(self.unit, Unit::Percent) {
                "%"
            } else {
                ""
            };

            let mut text = self.attribute.name_str().to_owned();
            proof {
                reveal_strlit(": ");
            }
            text.append(": ");
            text.append(range.as_str());
            text.append(unit_sign);
            proof {
                assert(text@ =~= spec_mod_line(*self));
            }
            text
        } else {
            let t = String::new();
            proof {
                reveal_strlit("");
                assert(t@ =~= spec_mod_line(*self));
            }
            t
        }
    }
}

/// Compares two string slices by content.
fn str_eq(a: &str, b: &str) -> (r: bool)
    ensures
        r == (a@ == b@),
{
    let x = a.to_owned();
    let y = b.to_owned();
    x == y
}

/// Parses an attribute identifier from the modifier tables. Only the
/// listed identifiers occur in well-formed tables.
pub fn parse_attribute(input: &str) -> (r: Attribute)
    requires
        input@ == "res_fire"@ || input@ == "res_light"@ || input@ == "res_cold"@ || input@
            == "spell_dam"@ || input@ == "phys_dam"@,
    ensures
        r == if input@ == "res_fire"@ {
            Attribute::ResFire
        } else if input@ == "res_light"@ {
            Attribute::ResLight
        } else if input@ == "res_cold"@ {
            Attribute::ResCold
        } else if input@ == "spell_dam"@ {
            Attribute::SpellDamage
        } else {
            Attribute::PhysicalDamage
        },
{
    proof {
        reveal_strlit("res_fire");
        reveal_strlit("res_light");
        reveal_strlit("res_cold");
        reveal_strlit("spell_dam");
        reveal_strlit("phys_dam");
    }
    if str_eq(input, "res_fire") {
        Attribute::ResFire
    } else if str_eq(input, "res_light") {
        Attribute::ResLight
    } else if str_eq(input, "res_cold") {
        Attribute::ResCold
    } else if str_eq(input, "spell_dam") {
        Attribute::SpellDamage
    } else {
        Attribute::PhysicalDamage
    }
}

/// Parses a unit suffix: a percent sign, or a plain number otherwise.
pub fn parse_unit(input: &str) -> (r: Unit)
    ensures
        r == if input@ == "%"@ {
            Unit::Percent
        } else {
            Unit::Integer
        },
{
    if str_eq(input, "%") {
        Unit::Percent
    } else {
        Unit::Integer
    }
}

/// Parses a drop-effect identifier; the empty text means none. Only
/// the listed identifiers occur in well-formed tables.
pub fn parse_drop_effect(input: &str) -> (r: DropEffect)
    requires
        input@ == "enchant_fireball"@ || input@ == "enchant_frost_bolt"@ || input@
            == "enchant_lightning_strike"@ || input@ == ""@,
    ensures
        r == if input@ == "enchant_fireball"@ {
            DropEffect::EnchantFireball
        } else if input@ == "enchant_frost_bolt"@ {
            DropEffect::EnchantFrostBolt
        } else if input@ == "enchant_lightning_strike"@ {
            DropEffect::EnchantLightningStrike
        } else {
            DropEffect::Nothing
        },
{
    proof {
        reveal_strlit("enchant_fireball");
        reveal_strlit("enchant_frost_bolt");
        reveal_strlit("enchant_lightning_strike");
        reveal_strlit("");
    }
    if str_eq(input, "enchant_fireball") {
        DropEffect::EnchantFireball
    } else if str_eq(input, "enchant_frost_bolt") {
        DropEffect::EnchantFrostBolt
    } else if str_eq(input, "enchant_lightning_strike") {
        DropEffect::EnchantLightningStrike
    } else {
        DropEffect::Nothing
    }
}

/// Parses an item-kind identifier; anything unknown counts as
/// miscellaneous.
pub fn parse_item_type(input: &str) -> (r: ItemKind)
    ensures
        r == if input@ == "wand"@ {
            ItemKind::Wand
        } else if input@ == "ring"@ {
            ItemKind::Ring
        } else if input@ == "bow"@ {
            ItemKind::Bow
        } else if input@ == "amulet"@ {
            ItemKind::Amulet
        } else if input@ == "scroll"@ {
            ItemKind::Scroll
        } else if input@ == "currency"@ {
            ItemKind::Currency
        } else if input@ == "plugin"@ {
            ItemKind::Plugin
        } else {
            ItemKind::Misc
        },
{
    proof {
        reveal_strlit("wand");
        reveal_strlit("ring");
        reveal_strlit("bow");
        reveal_strlit("amulet");
        reveal_strlit("scroll");
        reveal_strlit("currency");
        reveal_strlit("plugin");
    }
    if str_eq(input, "wand") {
        ItemKind::Wand
    } else if str_eq(input, "ring") {
        ItemKind::Ring
    } else if str_eq(input, "bow") {
        ItemKind::Bow
    } else if str_eq(input, "amulet") {
        ItemKind::Amulet
    } else if str_eq(input, "scroll") {
        ItemKind::Scroll
    } else if str_eq(input, "currency") {
        ItemKind::Currency
    } else if str_eq(input, "plugin") {
        ItemKind::Plugin
    } else {
        ItemKind::Misc
    }
}

/// Maps a numeric slot index from a saved inventory to its slot;
/// anything unknown lands in the bag.
pub fn calc_slot(v: i32) -> (r: Slot)
    ensures
        v == 0 ==> r == Slot::OnCursor,
        v == 1 ==> r == Slot::Bag,
        v == 2 ==> r == Slot::Stash,
        v == 3 ==> r == Slot::Head,
        v == 4 ==> r == Slot::Body,
        v == 5 ==> r == Slot::LHand,
        v == 6 ==> r == Slot::RHand,
        v == 7 ==> r == Slot::Amulet,
        v == 8 ==> r == Slot::LRing,
        v == 9 ==> r == Slot::RRing,
        !(0 <= v <= 9) ==> r == Slot::Bag,
{
    if v == 0 {
        Slot::OnCursor
    } else if v == 1 {
        Slot::Bag
    } else if v == 2 {
        Slot::Stash
    } else if v == 3 {
        Slot::Head
    } else if v == 4 {
        Slot::Body
    } else if v == 5 {
        Slot::LHand
    } else if v == 6 {
        Slot::RHand
    } else if v == 7 {
        Slot::Amulet
    } else if v == 8 {
        Slot::LRing
    } else if v == 9 {
        Slot::RRing
    } else {
        Slot::Bag
    }
}

} // verus!
