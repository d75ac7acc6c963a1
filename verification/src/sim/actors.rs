//! Every kind of thing that can stand on a cell, and the tables that say what
//! it is.
//!
//! The subtype relationships of the game's kinds are spelled out as the
//! predicate functions in this file (`is_tank_family` for "armoured",
//! `is_membrane_family` for the whole membrane line, and so on). Rules test
//! those, never a bare `==`.
//!
//! Storage is a slot arena. Slots are never reused: an [`ActorId`] handed out
//! during a run stays valid or stays dead, and can never silently come back as
//! a different actor.

pub mod palette;

use std::collections::VecDeque;

use vstd::prelude::*;

use super::grid::Coord;

verus! {

/// An 8-bit-per-channel colour.
pub type Rgb = [u8; 3];

/// The two things organelles can be upgraded with.
#[derive(Clone, Copy, PartialEq, Eq, Structural, Hash, Debug)]
pub enum Resource {
    /// Worked bone. Reinforces.
    Calcium,
    /// Stolen circuitry. Accelerates.
    Electronics,
}

/// Display name of a resource.
pub open spec fn resource_name(r: Resource) -> Seq<char> {
    match r {
        Resource::Calcium => "Calcium"@,
        Resource::Electronics => "Electronics"@,
    }
}

/// Sidebar colour of a resource.
pub open spec fn resource_color(r: Resource) -> Rgb {
    match r {
        Resource::Calcium => palette::CALCIUM,
        Resource::Electronics => palette::ELECTRONICS,
    }
}

impl Resource {
    /// The display name, as the upgrade hint lines print it.
    pub fn name(self) -> (s: &'static str)
        ensures
            s@ == resource_name(self),
    {
        match self {
            Self::Calcium => "Calcium",
            Self::Electronics => "Electronics",
        }
    }

    /// The colour the sidebar tints this resource's progress bar.
    pub fn color(self) -> (c: Rgb)
        ensures
            c == resource_color(self),
    {
        match self {
            Self::Calcium => palette::CALCIUM,
            Self::Electronics => palette::ELECTRONICS,
        }
    }
}

/// One way an organelle can become a different organelle.
#[derive(Clone, Copy, PartialEq, Eq, Structural, Debug)]
pub struct UpgradePath {
    /// How many of the resource it takes.
    pub amount: i32,
    /// Which resource.
    pub resource: Resource,
    /// What it becomes.
    pub result: Kind,
}

/// An item lying on the floor. Every one of them is edible.
#[derive(Clone, Copy, PartialEq, Eq, Structural, Hash, Debug)]
pub enum ItemKind {
    /// Food. Eating one grows the mass by a cell.
    Nutrient,
    /// Bone dust. Becomes a Calcium organelle.
    CalciumDust,
    /// Circuit dust. Becomes an Electronics organelle.
    SiliconDust,
    /// Human fortification. Becomes a Membrane.
    BarbedWire,
    /// Greenery. Becomes a Chloroplast.
    Plant,
    /// Becomes a Nucleus.
    Dna,
}

/// Display name of an item.
pub open spec fn item_name(k: ItemKind) -> Seq<char> {
    match k {
        ItemKind::Nutrient => "Nutrient"@,
        ItemKind::CalciumDust => "Calcium Dust"@,
        ItemKind::SiliconDust => "Silicon Dust"@,
        ItemKind::BarbedWire => "Barbed Wire"@,
        ItemKind::Plant => "Plant"@,
        ItemKind::Dna => "DNA"@,
    }
}

/// Flavour text of an item.
pub open spec fn item_description(k: ItemKind) -> Seq<char> {
    match k {
        ItemKind::Nutrient => "This precious meal is the foundation of growth."@,
        ItemKind::CalciumDust => "This precious powder could be used to build strong bones."@,
        ItemKind::SiliconDust => "These rocks contain the magic of humanity, and could be used to accelerate evolution."@,
        ItemKind::BarbedWire => "Humans set these up to protect their cities. You can probably put it to better use."@,
        ItemKind::Plant => "A cute green plant. Its ability to use the sun to produce food is fascinating and could be exploited."@,
        ItemKind::Dna => "Short for Deoxyribonucleic Acid. It would be possible to fasion a new nucleus out of this."@,
    }
}

/// Map glyph of an item.
pub open spec fn item_glyph(k: ItemKind) -> char {
    match k {
        ItemKind::Nutrient | ItemKind::CalciumDust | ItemKind::SiliconDust => '%',
        ItemKind::BarbedWire => '*',
        ItemKind::Plant => '?',
        ItemKind::Dna => '&',
    }
}

/// Map colour of an item.
pub open spec fn item_color(k: ItemKind) -> Rgb {
    match k {
        ItemKind::Nutrient => palette::SLIME,
        ItemKind::CalciumDust => palette::CALCIUM,
        ItemKind::SiliconDust => palette::ELECTRONICS,
        ItemKind::BarbedWire | ItemKind::Plant | ItemKind::Dna => palette::ORGANELLE_INACTIVE,
    }
}

/// The organelle eating an item turns it into.
pub open spec fn item_new_organelle(k: ItemKind) -> Kind {
    match k {
        ItemKind::Nutrient => Kind::Cytoplasm,
        ItemKind::CalciumDust => Kind::Calcium,
        ItemKind::SiliconDust => Kind::Electronics,
        ItemKind::BarbedWire => Kind::Membrane,
        ItemKind::Plant => Kind::Chloroplast,
        ItemKind::Dna => Kind::Nucleus,
    }
}

impl ItemKind {
    /// Display name.
    pub fn name(self) -> (s: &'static str)
        ensures
            s@ == item_name(self),
    {
        match self {
            Self::Nutrient => "Nutrient",
            Self::CalciumDust => "Calcium Dust",
            Self::SiliconDust => "Silicon Dust",
            Self::BarbedWire => "Barbed Wire",
            Self::Plant => "Plant",
            Self::Dna => "DNA",
        }
    }

    /// Flavour text shown when examined.
    pub fn description(self) -> (s: &'static str)
        ensures
            s@ == item_description(self),
    {
        match self {
            Self::Nutrient => "This precious meal is the foundation of growth.",
            Self::CalciumDust => "This precious powder could be used to build strong bones.",
            Self::SiliconDust => "These rocks contain the magic of humanity, and could be used to accelerate evolution.",
            Self::BarbedWire => "Humans set these up to protect their cities. You can probably put it to better use.",
            Self::Plant => "A cute green plant. Its ability to use the sun to produce food is fascinating and could be exploited.",
            Self::Dna => "Short for Deoxyribonucleic Acid. It would be possible to fasion a new nucleus out of this.",
        }
    }

    /// Map glyph.
    pub fn glyph(self) -> (c: char)
        ensures
            c == item_glyph(self),
    {
        match self {
            Self::Nutrient | Self::CalciumDust | Self::SiliconDust => '%',
            Self::BarbedWire => '*',
            Self::Plant => '?',
            Self::Dna => '&',
        }
    }

    /// Map colour.
    pub fn color(self) -> (c: Rgb)
        ensures
            c == item_color(self),
    {
        match self {
            Self::Nutrient => palette::SLIME,
            Self::CalciumDust => palette::CALCIUM,
            Self::SiliconDust => palette::ELECTRONICS,
            Self::BarbedWire | Self::Plant | Self::Dna => palette::ORGANELLE_INACTIVE,
        }
    }

    /// What eating this turns it into.
    pub fn new_organelle(self) -> (k: Kind)
        ensures
            k == item_new_organelle(self),
    {
        match self {
            Self::Nutrient => Kind::Cytoplasm,
            Self::CalciumDust => Kind::Calcium,
            Self::SiliconDust => Kind::Electronics,
            Self::BarbedWire => Kind::Membrane,
            Self::Plant => Kind::Chloroplast,
            Self::Dna => Kind::Nucleus,
        }
    }
}

/// Every kind of actor in the game.
#[derive(Clone, Copy, PartialEq, Eq, Structural, Hash, Debug)]
pub enum Kind {
    /// The organelle you steer. Only one may act per turn.
    Nucleus,
    /// A nucleus that sees much further.
    EyeCore,
    /// A nucleus that slips through its own body cheaply.
    SmartCore,
    /// A nucleus that cuts through armour.
    LaserCore,
    /// A nucleus that costs adjacent humans their turn.
    TerrorCore,
    /// A nucleus that drags nearby organelles along.
    GravityCore,
    /// A nucleus that acts twice per turn.
    QuantumCore,
    /// Undifferentiated mass, and the host cell every catalyst needs.
    Cytoplasm,
    /// A crafting material that upgrades a neighbour with bone.
    Calcium,
    /// A crafting material that upgrades a neighbour with circuitry.
    Electronics,
    /// Kills unarmoured attackers.
    Membrane,
    /// Kills armoured attackers too.
    ReinforcedMembrane,
    /// A membrane that hunts food on its own.
    Maw,
    /// Protects every ally near it.
    ForceField,
    /// Steps in front of a doomed ally and hardens.
    PhaseMembrane,
    /// A maw that bites through armour.
    ReinforcedMaw,
    /// A maw that acts eight times per turn.
    Tentacle,
    /// Produces cytoplasm on a timer.
    Chloroplast,
    /// A chloroplast that starts producing sooner.
    Bioreactor,
    /// Heals adjacent dissolving humans and overfills them.
    Cultivator,
    /// Produces crafting materials out of nothing.
    BiometalForge,
    /// Produces whole organelles out of nothing.
    PrimordialSoup,
    /// A cultivator that hauls dissolving humans toward itself.
    Extractor,
    /// Every dissolving human that finishes yields one extra product.
    Butcher,
    /// The basic human.
    Militia,
    /// A human that fires down a long line.
    Hunter,
    /// A human that fires down a short line and sees further.
    Scout,
    /// An armoured, very slow human.
    Tank,
    /// An armoured human that keeps up.
    Mech,
    /// An armoured human that runs away and drops good loot.
    Caravan,
    /// A gate. Destroying enough of them wins the game.
    City,
    /// A militia coming apart inside the mass.
    DissolvingMilitia,
    /// A hunter coming apart inside the mass.
    DissolvingHunter,
    /// A scout coming apart inside the mass.
    DissolvingScout,
    /// A tank coming apart inside the mass.
    DissolvingTank,
    /// A mech coming apart inside the mass.
    DissolvingMech,
    /// A caravan coming apart inside the mass.
    DissolvingCaravan,
}

/// The fixed stat block for a [`Kind`].
#[derive(Clone, Copy, PartialEq, Eq, Debug)]
pub struct Stats {
    /// Display name.
    pub name: &'static str,
    /// Flavour text shown when examined or browsed.
    pub description: &'static str,
    /// Map glyph.
    pub glyph: char,
    /// Map colour when active, or the only colour if there is one.
    pub fg: Rgb,
    /// Map colour when resting: an inactive nucleus, or an armoured human that
    /// will not act within a turn.
    pub fg_resting: Option<Rgb>,
    /// Taxicab sight radius. Also the field-of-view radius it contributes.
    pub awareness: i32,
    /// Time units between this thing's actions.
    pub delay: i32,
    /// Background index: 0 none, 1 body, 2 on the drag path.
    pub slime: u8,
    /// Nonzero means walking into it does nothing without a laser core or a
    /// reinforced maw.
    pub armor: i32,
    /// Digestion length for a dissolving form; zero for everything else.
    pub max_hp: i32,
}

/// Display name of a kind.
pub open spec fn kind_name(k: Kind) -> Seq<char> {
    match k {
        Kind::Nucleus => "Nucleus"@,
        Kind::EyeCore => "Eye Core"@,
        Kind::SmartCore => "Smart Core"@,
        Kind::LaserCore => "Laser Core"@,
        Kind::TerrorCore => "Terror Core"@,
        Kind::GravityCore => "Gravity Core"@,
        Kind::QuantumCore => "Quantum Core"@,
        Kind::Cytoplasm => "Cytoplasm"@,
        Kind::Calcium => "Calcium"@,
        Kind::Electronics => "Electronics"@,
        Kind::Membrane => "Membrane"@,
        Kind::ReinforcedMembrane => "Tough Membrane"@,
        Kind::Maw => "Maw"@,
        Kind::ForceField => "Force Field"@,
        Kind::PhaseMembrane => "Phase Membrane"@,
        Kind::ReinforcedMaw => "Reinforced Maw"@,
        Kind::Tentacle => "Tentacle"@,
        Kind::Chloroplast => "Chloroplast"@,
        Kind::Bioreactor => "Bioreactor"@,
        Kind::Cultivator => "Cultivator"@,
        Kind::BiometalForge => "Biometal Forge"@,
        Kind::PrimordialSoup => "Primordial Soup"@,
        Kind::Extractor => "Extractor"@,
        Kind::Butcher => "Butcher"@,
        Kind::Militia => "Militia"@,
        Kind::Hunter => "Hunter"@,
        Kind::Scout => "Scout"@,
        Kind::Tank => "Tank"@,
        Kind::Mech => "Mech"@,
        Kind::Caravan => "Caravan"@,
        Kind::City => "City Gate"@,
        Kind::DissolvingMilitia => "Dissolving Militia"@,
        Kind::DissolvingHunter => "Dissolving Hunter"@,
        Kind::DissolvingScout => "Dissolving Scout"@,
        Kind::DissolvingTank => "Dissolving Tank"@,
        Kind::DissolvingMech => "Dissolving Mech"@,
        Kind::DissolvingCaravan => "Dissolving Caravan"@,
    }
}

/// Flavour text of a kind.
pub open spec fn kind_description(k: Kind) -> Seq<char> {
    match k {
        Kind::Nucleus => "The seat of your will. Only one nucleus may act each turn; the rest are dragged along behind it."@,
        Kind::EyeCore => "A nucleus grown around a lens of bone. It sees more than twice as far into the dark."@,
        Kind::SmartCore => "A nucleus threaded with stolen circuitry. Slipping through your own body costs it half the usual effort."@,
        Kind::LaserCore => "A nucleus that focuses light into a cutting beam. Armour means nothing to it."@,
        Kind::TerrorCore => "A nucleus that radiates dread. Humans beside it forget how to take their turn."@,
        Kind::GravityCore => "A nucleus dense enough to bend the mass around it. Where it goes, nearby organelles follow."@,
        Kind::QuantumCore => "A nucleus that is never quite where it was. It takes two steps in the time anything else takes one."@,
        Kind::Cytoplasm => "Undifferentiated mass. It is what everything else is made of, and what every catalyst needs to grow in."@,
        Kind::Calcium => "A bead of worked bone looking for something to reinforce. Walk a nucleus into it to spend it."@,
        Kind::Electronics => "A knot of stolen circuitry looking for something to accelerate. Walk a nucleus into it to spend it."@,
        Kind::Membrane => "A wall of barbed protein. Anything unarmoured that strikes it dies for the trouble."@,
        Kind::ReinforcedMembrane => "Barbed protein grown over a lattice of bone. Even armour splits on it."@,
        Kind::Maw => "A mouth on the outside of your body. It crawls toward food twice a turn without being told."@,
        Kind::ForceField => "A standing field of charged protein. Everything near it is shielded, armour or no armour."@,
        Kind::PhaseMembrane => "Liquid until struck. It steps in front of a doomed neighbour and hardens around the attacker."@,
        Kind::ReinforcedMaw => "A mouth lined with bone teeth. It bites through armour that would turn anything else away."@,
        Kind::Tentacle => "A whip of muscle that lashes out eight times in the span others take to move once. It gives tanks a wide berth."@,
        Kind::Chloroplast => "Stolen greenery. It turns light into food, slowly and forever."@,
        Kind::Bioreactor => "A chloroplast walled in bone. It comes online sooner and then keeps the same steady pace."@,
        Kind::Cultivator => "A chloroplast taught to tend meat. Dissolving humans beside it hold together and give up more."@,
        Kind::BiometalForge => "It grows bone and circuitry out of light alone, one or the other, never both at once."@,
        Kind::PrimordialSoup => "The oldest chemistry, running again. Whole organelles condense out of it, and sometimes a nucleus."@,
        Kind::Extractor => "A cultivator with reach. It hauls dissolving humans in toward itself so they finish under its care."@,
        Kind::Butcher => "It wastes nothing. Every human that finishes dissolving anywhere in the mass yields one more product."@,
        Kind::Militia => "A human with a stick and a grudge. Alone it is food; in numbers it is a problem."@,
        Kind::Hunter => "A human with a long gun. It paints a line across the cavern and fires down it two turns later."@,
        Kind::Scout => "A human with a short gun and sharp eyes. It sees you before the others do."@,
        Kind::Tank => "A human in plate. Slow, and proof against anything not sharpened into bone."@,
        Kind::Mech => "A walking machine. Armoured like a tank and half again as quick."@,
        Kind::Caravan => "A supply wagon. It runs from you, and it is worth the chase."@,
        Kind::City => "A gate in the rock. Humans pour out of it forever, unless enough of you leans on it at once."@,
        Kind::DissolvingMilitia => "A militiaman coming apart inside you. Left alone it becomes cytoplasm."@,
        Kind::DissolvingHunter => "A hunter coming apart inside you. Left alone its gun becomes electronics."@,
        Kind::DissolvingScout => "A scout coming apart inside you. Left alone its gun becomes electronics."@,
        Kind::DissolvingTank => "A tank coming apart inside you. Left alone its plate becomes calcium."@,
        Kind::DissolvingMech => "A mech coming apart inside you. Left alone its frame becomes calcium."@,
        Kind::DissolvingCaravan => "A caravan coming apart inside you. Its cargo could be calcium or electronics."@,
    }
}

/// Map glyph of a kind.
pub open spec fn kind_glyph(k: Kind) -> char {
    match k {
        Kind::Cytoplasm => ' ',
        Kind::Calcium | Kind::Electronics => '$',
        Kind::Membrane | Kind::ReinforcedMembrane => 'B',
        Kind::Maw | Kind::ReinforcedMaw => 'W',
        Kind::ForceField => 'F',
        Kind::PhaseMembrane => 'P',
        Kind::Tentacle => 'T',
        Kind::Chloroplast => 'H',
        Kind::Bioreactor => 'R',
        Kind::Cultivator => 'U',
        Kind::BiometalForge => 'G',
        Kind::PrimordialSoup => 'S',
        Kind::Extractor => 'V',
        Kind::Butcher => 'K',
        Kind::Militia | Kind::DissolvingMilitia => 'm',
        Kind::Hunter | Kind::DissolvingHunter => 'h',
        Kind::Scout | Kind::DissolvingScout => 's',
        Kind::Tank | Kind::DissolvingTank => 't',
        Kind::Mech | Kind::DissolvingMech => 'c',
        Kind::Caravan | Kind::DissolvingCaravan => 'v',
        Kind::City => 'C',
        _ => '@',
    }
}

/// Map colour of a kind when active.
pub open spec fn kind_fg(k: Kind) -> Rgb {
    match k {
        Kind::Nucleus | Kind::Membrane | Kind::Chloroplast => palette::ROOT_ORGANELLE,
        Kind::EyeCore | Kind::Calcium | Kind::ReinforcedMembrane | Kind::ForceField | Kind::ReinforcedMaw | Kind::Bioreactor | Kind::BiometalForge | Kind::Extractor | Kind::Tank | Kind::Mech | Kind::DissolvingTank | Kind::DissolvingMech => palette::CALCIUM,
        Kind::LaserCore => palette::SUPER_BRIGHT,
        Kind::TerrorCore => palette::ORGANELLE_INACTIVE,
        Kind::GravityCore => palette::DARK_SLIME,
        Kind::QuantumCore => palette::CURSOR,
        Kind::Cytoplasm => palette::SLIME,
        Kind::Militia | Kind::Caravan | Kind::DissolvingMilitia | Kind::DissolvingCaravan => palette::MILITIA,
        Kind::City => palette::CITY,
        _ => palette::ELECTRONICS,
    }
}

/// Map colour of a kind when resting, if it has one.
pub open spec fn kind_fg_resting(k: Kind) -> Option<Rgb> {
    match k {
        Kind::Nucleus | Kind::TerrorCore | Kind::GravityCore | Kind::QuantumCore => Some(palette::PLAYER_INACTIVE),
        Kind::EyeCore | Kind::SmartCore | Kind::LaserCore | Kind::Tank | Kind::Mech => Some(palette::RESTING_TANK),
        Kind::Caravan => Some(palette::RESTING_MILITIA),
        _ => None,
    }
}

/// Taxicab sight radius of a kind.
pub open spec fn kind_awareness(k: Kind) -> i32 {
    match k {
        Kind::Nucleus | Kind::SmartCore | Kind::GravityCore | Kind::QuantumCore | Kind::Tentacle | Kind::Militia | Kind::Hunter | Kind::Tank | Kind::Mech | Kind::Caravan => 3,
        Kind::EyeCore => 6,
        Kind::LaserCore | Kind::TerrorCore => 7,
        Kind::Maw | Kind::ReinforcedMaw => 1,
        Kind::Scout => 4,
        _ => 0,
    }
}

/// Time units between a kind's actions.
pub open spec fn kind_delay(k: Kind) -> i32 {
    match k {
        Kind::SmartCore | Kind::QuantumCore | Kind::Maw | Kind::ReinforcedMaw => 8,
        Kind::Tentacle => 2,
        Kind::Tank => 48,
        Kind::Mech | Kind::Caravan => 32,
        _ => 16,
    }
}

/// Background index of a kind: 0 none, 1 body.
pub open spec fn kind_slime(k: Kind) -> u8 {
    match k {
        Kind::Militia | Kind::Hunter | Kind::Scout | Kind::Tank | Kind::Mech | Kind::Caravan | Kind::City => 0,
        _ => 1,
    }
}

/// Armour of a kind.
pub open spec fn kind_armor(k: Kind) -> i32 {
    match k {
        Kind::Tank | Kind::Mech | Kind::Caravan => 1,
        _ => 0,
    }
}

/// Digestion length of a kind.
pub open spec fn kind_max_hp(k: Kind) -> i32 {
    match k {
        Kind::DissolvingMilitia => 8,
        Kind::DissolvingHunter | Kind::DissolvingScout => 16,
        Kind::DissolvingTank | Kind::DissolvingMech | Kind::DissolvingCaravan => 24,
        _ => 0,
    }
}

/// What an organelle of a kind drops when it dies.
pub open spec fn kind_components(k: Kind) -> Seq<ItemKind> {
    match k {
        Kind::Nucleus => seq![ItemKind::Dna, ItemKind::Nutrient],
        Kind::EyeCore => seq![ItemKind::Dna, ItemKind::Nutrient, ItemKind::CalciumDust],
        Kind::SmartCore => seq![ItemKind::Dna, ItemKind::Nutrient, ItemKind::SiliconDust],
        Kind::LaserCore => seq![ItemKind::Dna, ItemKind::Nutrient, ItemKind::CalciumDust, ItemKind::CalciumDust, ItemKind::CalciumDust],
        Kind::TerrorCore => seq![ItemKind::Dna, ItemKind::Nutrient, ItemKind::CalciumDust, ItemKind::SiliconDust, ItemKind::SiliconDust],
        Kind::GravityCore => seq![ItemKind::Dna, ItemKind::Nutrient, ItemKind::SiliconDust, ItemKind::CalciumDust, ItemKind::CalciumDust],
        Kind::QuantumCore => seq![ItemKind::Dna, ItemKind::Nutrient, ItemKind::SiliconDust, ItemKind::SiliconDust, ItemKind::SiliconDust, ItemKind::SiliconDust],
        Kind::Cytoplasm => seq![ItemKind::Nutrient],
        Kind::Calcium => seq![ItemKind::CalciumDust, ItemKind::Nutrient],
        Kind::Electronics => seq![ItemKind::SiliconDust, ItemKind::Nutrient],
        Kind::Membrane => seq![ItemKind::BarbedWire, ItemKind::Nutrient],
        Kind::ReinforcedMembrane => seq![ItemKind::BarbedWire, ItemKind::Nutrient, ItemKind::CalciumDust],
        Kind::Maw => seq![ItemKind::BarbedWire, ItemKind::Nutrient, ItemKind::SiliconDust],
        Kind::ForceField => seq![ItemKind::BarbedWire, ItemKind::Nutrient, ItemKind::CalciumDust, ItemKind::CalciumDust, ItemKind::CalciumDust, ItemKind::CalciumDust],
        Kind::PhaseMembrane => seq![ItemKind::BarbedWire, ItemKind::Nutrient, ItemKind::CalciumDust, ItemKind::SiliconDust],
        Kind::ReinforcedMaw => seq![ItemKind::BarbedWire, ItemKind::Nutrient, ItemKind::SiliconDust, ItemKind::CalciumDust, ItemKind::CalciumDust, ItemKind::CalciumDust],
        Kind::Tentacle => seq![ItemKind::BarbedWire, ItemKind::Nutrient, ItemKind::SiliconDust, ItemKind::SiliconDust, ItemKind::SiliconDust, ItemKind::SiliconDust],
        Kind::Chloroplast => seq![ItemKind::Plant, ItemKind::Nutrient],
        Kind::Bioreactor => seq![ItemKind::Plant, ItemKind::Nutrient, ItemKind::CalciumDust],
        Kind::Cultivator => seq![ItemKind::Plant, ItemKind::Nutrient, ItemKind::SiliconDust],
        Kind::BiometalForge => seq![ItemKind::Plant, ItemKind::Nutrient, ItemKind::CalciumDust, ItemKind::CalciumDust, ItemKind::CalciumDust, ItemKind::CalciumDust],
        Kind::PrimordialSoup => seq![ItemKind::Plant, ItemKind::Nutrient, ItemKind::CalciumDust, ItemKind::SiliconDust, ItemKind::SiliconDust],
        Kind::Extractor => seq![ItemKind::Plant, ItemKind::Nutrient, ItemKind::SiliconDust, ItemKind::CalciumDust, ItemKind::CalciumDust],
        Kind::Butcher => seq![ItemKind::Plant, ItemKind::Nutrient, ItemKind::SiliconDust, ItemKind::SiliconDust, ItemKind::SiliconDust],
        _ => Seq::empty(),
    }
}

/// Every upgrade an organelle of a kind can still take.
pub open spec fn kind_upgrade_paths(k: Kind) -> Seq<UpgradePath> {
    match k {
        Kind::Nucleus => seq![UpgradePath { amount: 1, resource: Resource::Calcium, result: Kind::EyeCore }, UpgradePath { amount: 2, resource: Resource::Electronics, result: Kind::SmartCore }],
        Kind::EyeCore => seq![UpgradePath { amount: 2, resource: Resource::Calcium, result: Kind::LaserCore }, UpgradePath { amount: 2, resource: Resource::Electronics, result: Kind::TerrorCore }],
        Kind::SmartCore => seq![UpgradePath { amount: 2, resource: Resource::Calcium, result: Kind::GravityCore }, UpgradePath { amount: 3, resource: Resource::Electronics, result: Kind::QuantumCore }],
        Kind::Membrane => seq![UpgradePath { amount: 1, resource: Resource::Calcium, result: Kind::ReinforcedMembrane }, UpgradePath { amount: 1, resource: Resource::Electronics, result: Kind::Maw }],
        Kind::ReinforcedMembrane => seq![UpgradePath { amount: 3, resource: Resource::Calcium, result: Kind::ForceField }, UpgradePath { amount: 1, resource: Resource::Electronics, result: Kind::PhaseMembrane }],
        Kind::Maw => seq![UpgradePath { amount: 3, resource: Resource::Calcium, result: Kind::ReinforcedMaw }, UpgradePath { amount: 3, resource: Resource::Electronics, result: Kind::Tentacle }],
        Kind::Chloroplast => seq![UpgradePath { amount: 1, resource: Resource::Calcium, result: Kind::Bioreactor }, UpgradePath { amount: 1, resource: Resource::Electronics, result: Kind::Cultivator }],
        Kind::Bioreactor => seq![UpgradePath { amount: 3, resource: Resource::Calcium, result: Kind::BiometalForge }, UpgradePath { amount: 2, resource: Resource::Electronics, result: Kind::PrimordialSoup }],
        Kind::Cultivator => seq![UpgradePath { amount: 2, resource: Resource::Calcium, result: Kind::Extractor }, UpgradePath { amount: 2, resource: Resource::Electronics, result: Kind::Butcher }],
        _ => Seq::empty(),
    }
}

/// The dissolving form a human becomes when eaten.
pub open spec fn kind_becomes_on_eaten(k: Kind) -> Option<Kind> {
    match k {
        Kind::Militia => Some(Kind::DissolvingMilitia),
        Kind::Hunter => Some(Kind::DissolvingHunter),
        Kind::Scout => Some(Kind::DissolvingScout),
        Kind::Tank => Some(Kind::DissolvingTank),
        Kind::Mech => Some(Kind::DissolvingMech),
        Kind::Caravan => Some(Kind::DissolvingCaravan),
        _ => None,
    }
}

/// What a human's corpse leaves on the floor when killed outright.
pub open spec fn kind_drops_on_die(k: Kind) -> Seq<ItemKind> {
    match k {
        Kind::Militia => seq![ItemKind::Nutrient],
        Kind::Hunter | Kind::Scout => seq![ItemKind::SiliconDust],
        Kind::Tank | Kind::Mech => seq![ItemKind::CalciumDust],
        Kind::Caravan => seq![ItemKind::CalciumDust, ItemKind::SiliconDust],
        _ => Seq::empty(),
    }
}

/// What a finished dissolving form becomes.
pub open spec fn kind_digests_to(k: Kind) -> Seq<Kind> {
    match k {
        Kind::DissolvingMilitia => seq![Kind::Cytoplasm],
        Kind::DissolvingHunter | Kind::DissolvingScout => seq![Kind::Electronics],
        Kind::DissolvingTank | Kind::DissolvingMech => seq![Kind::Calcium],
        Kind::DissolvingCaravan => seq![Kind::Calcium, Kind::Electronics],
        _ => Seq::empty(),
    }
}

/// The live human a dissolving form reverts to when rescued.
pub open spec fn kind_rescues_to(k: Kind) -> Option<Kind> {
    match k {
        Kind::DissolvingMilitia => Some(Kind::Militia),
        Kind::DissolvingHunter => Some(Kind::Hunter),
        Kind::DissolvingScout => Some(Kind::Scout),
        Kind::DissolvingTank => Some(Kind::Tank),
        Kind::DissolvingMech => Some(Kind::Mech),
        Kind::DissolvingCaravan => Some(Kind::Caravan),
        _ => None,
    }
}

/// Which resource a crafting material hands out.
pub open spec fn kind_provides(k: Kind) -> Option<Resource> {
    match k {
        Kind::Calcium => Some(Resource::Calcium),
        Kind::Electronics => Some(Resource::Electronics),
        _ => None,
    }
}

/// Turns before a producer's first product.
pub open spec fn kind_next_food_init(k: Kind) -> Option<i32> {
    match k {
        Kind::Chloroplast => Some(20i32),
        Kind::Bioreactor | Kind::BiometalForge | Kind::PrimordialSoup => Some(16i32),
        _ => None,
    }
}

/// How far a ranged human's shot travels.
pub open spec fn kind_range(k: Kind) -> i32 {
    match k {
        Kind::Hunter => 64,
        Kind::Scout => 3,
        _ => 0,
    }
}

impl Kind {
    /// This kind's fixed stats.
    pub fn stats(self) -> (s: Stats)
        ensures
            s.name@ == kind_name(self),
            s.description@ == kind_description(self),
            s.glyph == kind_glyph(self),
            s.fg == kind_fg(self),
            s.fg_resting == kind_fg_resting(self),
            s.awareness == kind_awareness(self),
            s.delay == kind_delay(self),
            s.slime == kind_slime(self),
            s.armor == kind_armor(self),
            s.max_hp == kind_max_hp(self),
    {
        match self {
            Self::Nucleus => Stats {
                name: "Nucleus",
                description: "The seat of your will. Only one nucleus may act each turn; the rest are dragged along behind it.",
                glyph: '@',
                fg: palette::ROOT_ORGANELLE,
                fg_resting: Some(palette::PLAYER_INACTIVE),
                awareness: 3,
                delay: 16,
                slime: 1,
                armor: 0,
                max_hp: 0,
            },
            Self::EyeCore => Stats {
                name: "Eye Core",
                description: "A nucleus grown around a lens of bone. It sees more than twice as far into the dark.",
                glyph: '@',
                fg: palette::CALCIUM,
                fg_resting: Some(palette::RESTING_TANK),
                awareness: 6,
                delay: 16,
                slime: 1,
                armor: 0,
                max_hp: 0,
            },
            Self::SmartCore => Stats {
                name: "Smart Core",
                description: "A nucleus threaded with stolen circuitry. Slipping through your own body costs it half the usual effort.",
                glyph: '@',
                fg: palette::ELECTRONICS,
                fg_resting: Some(palette::RESTING_TANK),
                awareness: 3,
                delay: 8,
                slime: 1,
                armor: 0,
                max_hp: 0,
            },
            Self::LaserCore => Stats {
                name: "Laser Core",
                description: "A nucleus that focuses light into a cutting beam. Armour means nothing to it.",
                glyph: '@',
                fg: palette::SUPER_BRIGHT,
                fg_resting: Some(palette::RESTING_TANK),
                awareness: 7,
                delay: 16,
                slime: 1,
                armor: 0,
                max_hp: 0,
            },
            Self::TerrorCore => Stats {
                name: "Terror Core",
                description: "A nucleus that radiates dread. Humans beside it forget how to take their turn.",
                glyph: '@',
                fg: palette::ORGANELLE_INACTIVE,
                fg_resting: Some(palette::PLAYER_INACTIVE),
                awareness: 7,
                delay: 16,
                slime: 1,
                armor: 0,
                max_hp: 0,
            },
            Self::GravityCore => Stats {
                name: "Gravity Core",
                description: "A nucleus dense enough to bend the mass around it. Where it goes, nearby organelles follow.",
                glyph: '@',
                fg: palette::DARK_SLIME,
                fg_resting: Some(palette::PLAYER_INACTIVE),
                awareness: 3,
                delay: 16,
                slime: 1,
                armor: 0,
                max_hp: 0,
            },
            Self::QuantumCore => Stats {
                name: "Quantum Core",
                description: "A nucleus that is never quite where it was. It takes two steps in the time anything else takes one.",
                glyph: '@',
                fg: palette::CURSOR,
                fg_resting: Some(palette::PLAYER_INACTIVE),
                awareness: 3,
                delay: 8,
                slime: 1,
                armor: 0,
                max_hp: 0,
            },
            Self::Cytoplasm => Stats {
                name: "Cytoplasm",
                description: "Undifferentiated mass. It is what everything else is made of, and what every catalyst needs to grow in.",
                glyph: ' ',
                fg: palette::SLIME,
                fg_resting: None,
                awareness: 0,
                delay: 16,
                slime: 1,
                armor: 0,
                max_hp: 0,
            },
            Self::Calcium => Stats {
                name: "Calcium",
                description: "A bead of worked bone looking for something to reinforce. Walk a nucleus into it to spend it.",
                glyph: '$',
                fg: palette::CALCIUM,
                fg_resting: None,
                awareness: 0,
                delay: 16,
                slime: 1,
                armor: 0,
                max_hp: 0,
            },
            Self::Electronics => Stats {
                name: "Electronics",
                description: "A knot of stolen circuitry looking for something to accelerate. Walk a nucleus into it to spend it.",
                glyph: '$',
                fg: palette::ELECTRONICS,
                fg_resting: None,
                awareness: 0,
                delay: 16,
                slime: 1,
                armor: 0,
                max_hp: 0,
            },
            Self::Membrane => Stats {
                name: "Membrane",
                description: "A wall of barbed protein. Anything unarmoured that strikes it dies for the trouble.",
                glyph: 'B',
                fg: palette::ROOT_ORGANELLE,
                fg_resting: None,
                awareness: 0,
                delay: 16,
                slime: 1,
                armor: 0,
                max_hp: 0,
            },
            Self::ReinforcedMembrane => Stats {
                name: "Tough Membrane",
                description: "Barbed protein grown over a lattice of bone. Even armour splits on it.",
                glyph: 'B',
                fg: palette::CALCIUM,
                fg_resting: None,
                awareness: 0,
                delay: 16,
                slime: 1,
                armor: 0,
                max_hp: 0,
            },
            Self::Maw => Stats {
                name: "Maw",
                description: "A mouth on the outside of your body. It crawls toward food twice a turn without being told.",
                glyph: 'W',
                fg: palette::ELECTRONICS,
                fg_resting: None,
                awareness: 1,
                delay: 8,
                slime: 1,
                armor: 0,
                max_hp: 0,
            },
            Self::ForceField => Stats {
                name: "Force Field",
                description: "A standing field of charged protein. Everything near it is shielded, armour or no armour.",
                glyph: 'F',
                fg: palette::CALCIUM,
                fg_resting: None,
                awareness: 0,
                delay: 16,
                slime: 1,
                armor: 0,
                max_hp: 0,
            },
            Self::PhaseMembrane => Stats {
                name: "Phase Membrane",
                description: "Liquid until struck. It steps in front of a doomed neighbour and hardens around the attacker.",
                glyph: 'P',
                fg: palette::ELECTRONICS,
                fg_resting: None,
                awareness: 0,
                delay: 16,
                slime: 1,
                armor: 0,
                max_hp: 0,
            },
            Self::ReinforcedMaw => Stats {
                name: "Reinforced Maw",
                description: "A mouth lined with bone teeth. It bites through armour that would turn anything else away.",
                glyph: 'W',
                fg: palette::CALCIUM,
                fg_resting: None,
                awareness: 1,
                delay: 8,
                slime: 1,
                armor: 0,
                max_hp: 0,
            },
            Self::Tentacle => Stats {
                name: "Tentacle",
                description: "A whip of muscle that lashes out eight times in the span others take to move once. It gives tanks a wide berth.",
                glyph: 'T',
                fg: palette::ELECTRONICS,
                fg_resting: None,
                awareness: 3,
                delay: 2,
                slime: 1,
                armor: 0,
                max_hp: 0,
            },
            Self::Chloroplast => Stats {
                name: "Chloroplast",
                description: "Stolen greenery. It turns light into food, slowly and forever.",
                glyph: 'H',
                fg: palette::ROOT_ORGANELLE,
                fg_resting: None,
                awareness: 0,
                delay: 16,
                slime: 1,
                armor: 0,
                max_hp: 0,
            },
            Self::Bioreactor => Stats {
                name: "Bioreactor",
                description: "A chloroplast walled in bone. It comes online sooner and then keeps the same steady pace.",
                glyph: 'R',
                fg: palette::CALCIUM,
                fg_resting: None,
                awareness: 0,
                delay: 16,
                slime: 1,
                armor: 0,
                max_hp: 0,
            },
            Self::Cultivator => Stats {
                name: "Cultivator",
                description: "A chloroplast taught to tend meat. Dissolving humans beside it hold together and give up more.",
                glyph: 'U',
                fg: palette::ELECTRONICS,
                fg_resting: None,
                awareness: 0,
                delay: 16,
                slime: 1,
                armor: 0,
                max_hp: 0,
            },
            Self::BiometalForge => Stats {
                name: "Biometal Forge",
                description: "It grows bone and circuitry out of light alone, one or the other, never both at once.",
                glyph: 'G',
                fg: palette::CALCIUM,
                fg_resting: None,
                awareness: 0,
                delay: 16,
                slime: 1,
                armor: 0,
                max_hp: 0,
            },
            Self::PrimordialSoup => Stats {
                name: "Primordial Soup",
                description: "The oldest chemistry, running again. Whole organelles condense out of it, and sometimes a nucleus.",
                glyph: 'S',
                fg: palette::ELECTRONICS,
                fg_resting: None,
                awareness: 0,
                delay: 16,
                slime: 1,
                armor: 0,
                max_hp: 0,
            },
            Self::Extractor => Stats {
                name: "Extractor",
                description: "A cultivator with reach. It hauls dissolving humans in toward itself so they finish under its care.",
                glyph: 'V',
                fg: palette::CALCIUM,
                fg_resting: None,
                awareness: 0,
                delay: 16,
                slime: 1,
                armor: 0,
                max_hp: 0,
            },
            Self::Butcher => Stats {
                name: "Butcher",
                description: "It wastes nothing. Every human that finishes dissolving anywhere in the mass yields one more product.",
                glyph: 'K',
                fg: palette::ELECTRONICS,
                fg_resting: None,
                awareness: 0,
                delay: 16,
                slime: 1,
                armor: 0,
                max_hp: 0,
            },
            Self::Militia => Stats {
                name: "Militia",
                description: "A human with a stick and a grudge. Alone it is food; in numbers it is a problem.",
                glyph: 'm',
                fg: palette::MILITIA,
                fg_resting: None,
                awareness: 3,
                delay: 16,
                slime: 0,
                armor: 0,
                max_hp: 0,
            },
            Self::Hunter => Stats {
                name: "Hunter",
                description: "A human with a long gun. It paints a line across the cavern and fires down it two turns later.",
                glyph: 'h',
                fg: palette::ELECTRONICS,
                fg_resting: None,
                awareness: 3,
                delay: 16,
                slime: 0,
                armor: 0,
                max_hp: 0,
            },
            Self::Scout => Stats {
                name: "Scout",
                description: "A human with a short gun and sharp eyes. It sees you before the others do.",
                glyph: 's',
                fg: palette::ELECTRONICS,
                fg_resting: None,
                awareness: 4,
                delay: 16,
                slime: 0,
                armor: 0,
                max_hp: 0,
            },
            Self::Tank => Stats {
                name: "Tank",
                description: "A human in plate. Slow, and proof against anything not sharpened into bone.",
                glyph: 't',
                fg: palette::CALCIUM,
                fg_resting: Some(palette::RESTING_TANK),
                awareness: 3,
                delay: 48,
                slime: 0,
                armor: 1,
                max_hp: 0,
            },
            Self::Mech => Stats {
                name: "Mech",
                description: "A walking machine. Armoured like a tank and half again as quick.",
                glyph: 'c',
                fg: palette::CALCIUM,
                fg_resting: Some(palette::RESTING_TANK),
                awareness: 3,
                delay: 32,
                slime: 0,
                armor: 1,
                max_hp: 0,
            },
            Self::Caravan => Stats {
                name: "Caravan",
                description: "A supply wagon. It runs from you, and it is worth the chase.",
                glyph: 'v',
                fg: palette::MILITIA,
                fg_resting: Some(palette::RESTING_MILITIA),
                awareness: 3,
                delay: 32,
                slime: 0,
                armor: 1,
                max_hp: 0,
            },
            Self::City => Stats {
                name: "City Gate",
                description: "A gate in the rock. Humans pour out of it forever, unless enough of you leans on it at once.",
                glyph: 'C',
                fg: palette::CITY,
                fg_resting: None,
                awareness: 0,
                delay: 16,
                slime: 0,
                armor: 0,
                max_hp: 0,
            },
            Self::DissolvingMilitia => Stats {
                name: "Dissolving Militia",
                description: "A militiaman coming apart inside you. Left alone it becomes cytoplasm.",
                glyph: 'm',
                fg: palette::MILITIA,
                fg_resting: None,
                awareness: 0,
                delay: 16,
                slime: 1,
                armor: 0,
                max_hp: 8,
            },
            Self::DissolvingHunter => Stats {
                name: "Dissolving Hunter",
                description: "A hunter coming apart inside you. Left alone its gun becomes electronics.",
                glyph: 'h',
                fg: palette::ELECTRONICS,
                fg_resting: None,
                awareness: 0,
                delay: 16,
                slime: 1,
                armor: 0,
                max_hp: 16,
            },
            Self::DissolvingScout => Stats {
                name: "Dissolving Scout",
                description: "A scout coming apart inside you. Left alone its gun becomes electronics.",
                glyph: 's',
                fg: palette::ELECTRONICS,
                fg_resting: None,
                awareness: 0,
                delay: 16,
                slime: 1,
                armor: 0,
                max_hp: 16,
            },
            Self::DissolvingTank => Stats {
                name: "Dissolving Tank",
                description: "A tank coming apart inside you. Left alone its plate becomes calcium.",
                glyph: 't',
                fg: palette::CALCIUM,
                fg_resting: None,
                awareness: 0,
                delay: 16,
                slime: 1,
                armor: 0,
                max_hp: 24,
            },
            Self::DissolvingMech => Stats {
                name: "Dissolving Mech",
                description: "A mech coming apart inside you. Left alone its frame becomes calcium.",
                glyph: 'c',
                fg: palette::CALCIUM,
                fg_resting: None,
                awareness: 0,
                delay: 16,
                slime: 1,
                armor: 0,
                max_hp: 24,
            },
            Self::DissolvingCaravan => Stats {
                name: "Dissolving Caravan",
                description: "A caravan coming apart inside you. Its cargo could be calcium or electronics.",
                glyph: 'v',
                fg: palette::MILITIA,
                fg_resting: None,
                awareness: 0,
                delay: 16,
                slime: 1,
                armor: 0,
                max_hp: 24,
            },
        }
    }

    /// Display name.
    pub fn name(self) -> (s: &'static str)
        ensures
            s@ == kind_name(self),
    {
        self.stats().name
    }

    /// What this organelle drops when it dies.
    ///
    /// A melee kill drops only the first entry; a hunter's shot drops the lot.
    /// An in-progress upgrade adds its own materials on top of this list.
    pub fn components(self) -> (r: &'static [ItemKind])
        ensures
            r@ == kind_components(self),
    {
        match self {
            Self::Nucleus => &[ItemKind::Dna, ItemKind::Nutrient],
            Self::EyeCore => &[ItemKind::Dna, ItemKind::Nutrient, ItemKind::CalciumDust],
            Self::SmartCore => &[ItemKind::Dna, ItemKind::Nutrient, ItemKind::SiliconDust],
            Self::LaserCore => &[ItemKind::Dna, ItemKind::Nutrient, ItemKind::CalciumDust, ItemKind::CalciumDust, ItemKind::CalciumDust],
            Self::TerrorCore => &[ItemKind::Dna, ItemKind::Nutrient, ItemKind::CalciumDust, ItemKind::SiliconDust, ItemKind::SiliconDust],
            Self::GravityCore => &[ItemKind::Dna, ItemKind::Nutrient, ItemKind::SiliconDust, ItemKind::CalciumDust, ItemKind::CalciumDust],
            Self::QuantumCore => &[ItemKind::Dna, ItemKind::Nutrient, ItemKind::SiliconDust, ItemKind::SiliconDust, ItemKind::SiliconDust, ItemKind::SiliconDust],
            Self::Cytoplasm => &[ItemKind::Nutrient],
            Self::Calcium => &[ItemKind::CalciumDust, ItemKind::Nutrient],
            Self::Electronics => &[ItemKind::SiliconDust, ItemKind::Nutrient],
            Self::Membrane => &[ItemKind::BarbedWire, ItemKind::Nutrient],
            Self::ReinforcedMembrane => &[ItemKind::BarbedWire, ItemKind::Nutrient, ItemKind::CalciumDust],
            Self::Maw => &[ItemKind::BarbedWire, ItemKind::Nutrient, ItemKind::SiliconDust],
            Self::ForceField => &[ItemKind::BarbedWire, ItemKind::Nutrient, ItemKind::CalciumDust, ItemKind::CalciumDust, ItemKind::CalciumDust, ItemKind::CalciumDust],
            Self::PhaseMembrane => &[ItemKind::BarbedWire, ItemKind::Nutrient, ItemKind::CalciumDust, ItemKind::SiliconDust],
            Self::ReinforcedMaw => &[ItemKind::BarbedWire, ItemKind::Nutrient, ItemKind::SiliconDust, ItemKind::CalciumDust, ItemKind::CalciumDust, ItemKind::CalciumDust],
            Self::Tentacle => &[ItemKind::BarbedWire, ItemKind::Nutrient, ItemKind::SiliconDust, ItemKind::SiliconDust, ItemKind::SiliconDust, ItemKind::SiliconDust],
            Self::Chloroplast => &[ItemKind::Plant, ItemKind::Nutrient],
            Self::Bioreactor => &[ItemKind::Plant, ItemKind::Nutrient, ItemKind::CalciumDust],
            Self::Cultivator => &[ItemKind::Plant, ItemKind::Nutrient, ItemKind::SiliconDust],
            Self::BiometalForge => &[ItemKind::Plant, ItemKind::Nutrient, ItemKind::CalciumDust, ItemKind::CalciumDust, ItemKind::CalciumDust, ItemKind::CalciumDust],
            Self::PrimordialSoup => &[ItemKind::Plant, ItemKind::Nutrient, ItemKind::CalciumDust, ItemKind::SiliconDust, ItemKind::SiliconDust],
            Self::Extractor => &[ItemKind::Plant, ItemKind::Nutrient, ItemKind::SiliconDust, ItemKind::CalciumDust, ItemKind::CalciumDust],
            Self::Butcher => &[ItemKind::Plant, ItemKind::Nutrient, ItemKind::SiliconDust, ItemKind::SiliconDust, ItemKind::SiliconDust],
            _ => &[],
        }
    }

    /// Every upgrade this organelle can still take. Empty means terminal.
    pub fn upgrade_paths(self) -> (r: &'static [UpgradePath])
        ensures
            r@ == kind_upgrade_paths(self),
    {
        match self {
            Self::Nucleus => &[UpgradePath { amount: 1, resource: Resource::Calcium, result: Kind::EyeCore }, UpgradePath { amount: 2, resource: Resource::Electronics, result: Kind::SmartCore }],
            Self::EyeCore => &[UpgradePath { amount: 2, resource: Resource::Calcium, result: Kind::LaserCore }, UpgradePath { amount: 2, resource: Resource::Electronics, result: Kind::TerrorCore }],
            Self::SmartCore => &[UpgradePath { amount: 2, resource: Resource::Calcium, result: Kind::GravityCore }, UpgradePath { amount: 3, resource: Resource::Electronics, result: Kind::QuantumCore }],
            Self::Membrane => &[UpgradePath { amount: 1, resource: Resource::Calcium, result: Kind::ReinforcedMembrane }, UpgradePath { amount: 1, resource: Resource::Electronics, result: Kind::Maw }],
            Self::ReinforcedMembrane => &[UpgradePath { amount: 3, resource: Resource::Calcium, result: Kind::ForceField }, UpgradePath { amount: 1, resource: Resource::Electronics, result: Kind::PhaseMembrane }],
            Self::Maw => &[UpgradePath { amount: 3, resource: Resource::Calcium, result: Kind::ReinforcedMaw }, UpgradePath { amount: 3, resource: Resource::Electronics, result: Kind::Tentacle }],
            Self::Chloroplast => &[UpgradePath { amount: 1, resource: Resource::Calcium, result: Kind::Bioreactor }, UpgradePath { amount: 1, resource: Resource::Electronics, result: Kind::Cultivator }],
            Self::Bioreactor => &[UpgradePath { amount: 3, resource: Resource::Calcium, result: Kind::BiometalForge }, UpgradePath { amount: 2, resource: Resource::Electronics, result: Kind::PrimordialSoup }],
            Self::Cultivator => &[UpgradePath { amount: 2, resource: Resource::Calcium, result: Kind::Extractor }, UpgradePath { amount: 2, resource: Resource::Electronics, result: Kind::Butcher }],
            _ => &[],
        }
    }

    /// The dissolving form this human becomes when eaten or engulfed.
    pub fn becomes_on_eaten(self) -> (r: Option<Self>)
        ensures
            r == kind_becomes_on_eaten(self),
    {
        match self {
            Self::Militia => Some(Self::DissolvingMilitia),
            Self::Hunter => Some(Self::DissolvingHunter),
            Self::Scout => Some(Self::DissolvingScout),
            Self::Tank => Some(Self::DissolvingTank),
            Self::Mech => Some(Self::DissolvingMech),
            Self::Caravan => Some(Self::DissolvingCaravan),
            _ => None,
        }
    }

    /// What this human's corpse leaves on the floor when killed outright.
    ///
    /// Two entries mean a coin flip: that is the caravan's cargo.
    pub fn drops_on_die(self) -> (r: &'static [ItemKind])
        ensures
            r@ == kind_drops_on_die(self),
    {
        match self {
            Self::Militia => &[ItemKind::Nutrient],
            Self::Hunter | Self::Scout => &[ItemKind::SiliconDust],
            Self::Tank | Self::Mech => &[ItemKind::CalciumDust],
            Self::Caravan => &[ItemKind::CalciumDust, ItemKind::SiliconDust],
            _ => &[],
        }
    }

    /// What a finished dissolving form becomes.
    ///
    /// Two entries mean a coin flip: that is the caravan's cargo again.
    pub fn digests_to(self) -> (r: &'static [Self])
        ensures
            r@ == kind_digests_to(self),
    {
        match self {
            Self::DissolvingMilitia => &[Self::Cytoplasm],
            Self::DissolvingHunter | Self::DissolvingScout => &[Self::Electronics],
            Self::DissolvingTank | Self::DissolvingMech => &[Self::Calcium],
            Self::DissolvingCaravan => &[Self::Calcium, Self::Electronics],
            _ => &[],
        }
    }

    /// The live human a dissolving form reverts to when something attacks it.
    pub fn rescues_to(self) -> (r: Option<Self>)
        ensures
            r == kind_rescues_to(self),
    {
        match self {
            Self::DissolvingMilitia => Some(Self::Militia),
            Self::DissolvingHunter => Some(Self::Hunter),
            Self::DissolvingScout => Some(Self::Scout),
            Self::DissolvingTank => Some(Self::Tank),
            Self::DissolvingMech => Some(Self::Mech),
            Self::DissolvingCaravan => Some(Self::Caravan),
            _ => None,
        }
    }

    /// Which resource a crafting material hands out.
    pub fn provides(self) -> (r: Option<Resource>)
        ensures
            r == kind_provides(self),
    {
        match self {
            Self::Calcium => Some(Resource::Calcium),
            Self::Electronics => Some(Resource::Electronics),
            _ => None,
        }
    }

    /// Turns before this producer's first product. The rest of the line
    /// produces on the same sixteen-turn cycle regardless.
    pub fn next_food_init(self) -> (r: Option<i32>)
        ensures
            r == kind_next_food_init(self),
    {
        match self {
            Self::Chloroplast => Some(20),
            Self::Bioreactor | Self::BiometalForge | Self::PrimordialSoup => Some(16),
            _ => None,
        }
    }

    /// How far a ranged human's shot travels.
    pub fn range(self) -> (r: i32)
        ensures
            r == kind_range(self),
    {
        match self {
            Self::Hunter => 64,
            Self::Scout => 3,
            _ => 0,
        }
    }
}

// Family predicates: each stands for one "is a kind of" relation of the
// game's taxonomy.

/// A live human. Gates are actors but not humans.
#[verifier::allow_in_spec]
pub fn is_npc(kind: Kind) -> bool
    returns
        matches!(kind, Kind::Militia | Kind::Hunter | Kind::Scout | Kind::Tank | Kind::Mech | Kind::Caravan),
{
    matches!(kind, Kind::Militia | Kind::Hunter | Kind::Scout | Kind::Tank | Kind::Mech | Kind::Caravan)
}

/// Every live human: the tank and hunter lines descend from the militia.
#[verifier::allow_in_spec]
pub fn is_militia_family(kind: Kind) -> bool
    returns
        is_npc(kind),
{
    is_npc(kind)
}

/// `Tank`, `Mech` and `Caravan`: the armoured ones. This is the check behind
/// "armoured", the force field's long-range exception and the tentacle's
/// fear.
#[verifier::allow_in_spec]
pub fn is_tank_family(kind: Kind) -> bool
    returns
        matches!(kind, Kind::Tank | Kind::Mech | Kind::Caravan),
{
    matches!(kind, Kind::Tank | Kind::Mech | Kind::Caravan)
}

/// `Hunter` and `Scout`, the two that shoot.
#[verifier::allow_in_spec]
pub fn is_hunter_family(kind: Kind) -> bool
    returns
        matches!(kind, Kind::Hunter | Kind::Scout),
{
    matches!(kind, Kind::Hunter | Kind::Scout)
}

/// The caravan, the one that flees.
#[verifier::allow_in_spec]
pub fn is_caravan(kind: Kind) -> bool
    returns
        matches!(kind, Kind::Caravan),
{
    matches!(kind, Kind::Caravan)
}

/// A gate.
#[verifier::allow_in_spec]
pub fn is_city(kind: Kind) -> bool
    returns
        matches!(kind, Kind::City),
{
    matches!(kind, Kind::City)
}

/// Everything that lives in the player's mass, including crafting materials
/// and dissolving humans.
#[verifier::allow_in_spec]
pub fn is_organelle(kind: Kind) -> bool
    returns
        !is_npc(kind) && !is_city(kind),
{
    !is_npc(kind) && !is_city(kind)
}

/// The whole core line: every core descends from the nucleus.
#[verifier::allow_in_spec]
pub fn is_nucleus_family(kind: Kind) -> bool
    returns
        matches!(kind, Kind::Nucleus | Kind::EyeCore | Kind::SmartCore | Kind::LaserCore | Kind::TerrorCore | Kind::GravityCore | Kind::QuantumCore),
{
    matches!(kind, Kind::Nucleus | Kind::EyeCore | Kind::SmartCore | Kind::LaserCore | Kind::TerrorCore | Kind::GravityCore | Kind::QuantumCore)
}

/// The cores that slip through their own mass for half the usual cost: the
/// smart core and the gravity core grown from it. The quantum core spends the
/// same haste on everything it does instead, so it is not in this list.
#[verifier::allow_in_spec]
pub fn swaps_for_half_cost(kind: Kind) -> bool
    returns
        matches!(kind, Kind::SmartCore | Kind::GravityCore),
{
    matches!(kind, Kind::SmartCore | Kind::GravityCore)
}

/// A plain, unupgraded nucleus: the primordial soup's nucleus cap counts only
/// these, so upgraded cores slip past it.
#[verifier::allow_in_spec]
pub fn is_unupgraded_nucleus(kind: Kind) -> bool
    returns
        matches!(kind, Kind::Nucleus),
{
    matches!(kind, Kind::Nucleus)
}

/// `Calcium` and `Electronics`. Hidden from the organelle sidebar.
#[verifier::allow_in_spec]
pub fn is_crafting_material(kind: Kind) -> bool
    returns
        matches!(kind, Kind::Calcium | Kind::Electronics),
{
    matches!(kind, Kind::Calcium | Kind::Electronics)
}

/// The whole membrane line including maws and tentacles. These kill
/// unarmoured attackers.
#[verifier::allow_in_spec]
pub fn is_membrane_family(kind: Kind) -> bool
    returns
        matches!(kind, Kind::Membrane | Kind::ReinforcedMembrane | Kind::Maw | Kind::ForceField | Kind::PhaseMembrane | Kind::ReinforcedMaw | Kind::Tentacle),
{
    matches!(kind, Kind::Membrane | Kind::ReinforcedMembrane | Kind::Maw | Kind::ForceField | Kind::PhaseMembrane | Kind::ReinforcedMaw | Kind::Tentacle)
}

/// The tough membrane and the two things built from it. The reinforced maw
/// is *not* one of these.
#[verifier::allow_in_spec]
pub fn is_reinforced_membrane_family(kind: Kind) -> bool
    returns
        matches!(kind, Kind::ReinforcedMembrane | Kind::ForceField | Kind::PhaseMembrane),
{
    matches!(kind, Kind::ReinforcedMembrane | Kind::ForceField | Kind::PhaseMembrane)
}

/// The membranes that kill an armoured attacker instead of dying to it.
#[verifier::allow_in_spec]
pub fn kills_armored_attackers(kind: Kind) -> bool
    returns
        is_reinforced_membrane_family(kind) || matches!(kind, Kind::ReinforcedMaw),
{
    is_reinforced_membrane_family(kind) || matches!(kind, Kind::ReinforcedMaw)
}

/// The maw line, which hunts on its own.
#[verifier::allow_in_spec]
pub fn is_maw_family(kind: Kind) -> bool
    returns
        matches!(kind, Kind::Maw | Kind::ReinforcedMaw | Kind::Tentacle),
{
    matches!(kind, Kind::Maw | Kind::ReinforcedMaw | Kind::Tentacle)
}

/// The whole plant line.
#[verifier::allow_in_spec]
pub fn is_chloroplast_family(kind: Kind) -> bool
    returns
        matches!(kind, Kind::Chloroplast | Kind::Bioreactor | Kind::Cultivator | Kind::BiometalForge | Kind::PrimordialSoup | Kind::Extractor | Kind::Butcher),
{
    matches!(kind, Kind::Chloroplast | Kind::Bioreactor | Kind::Cultivator | Kind::BiometalForge | Kind::PrimordialSoup | Kind::Extractor | Kind::Butcher)
}

/// The branch that tends dissolving humans.
#[verifier::allow_in_spec]
pub fn is_cultivator_family(kind: Kind) -> bool
    returns
        matches!(kind, Kind::Cultivator | Kind::Extractor | Kind::Butcher),
{
    matches!(kind, Kind::Cultivator | Kind::Extractor | Kind::Butcher)
}

/// A dissolving human, the only thing with hit points.
#[verifier::allow_in_spec]
pub fn is_dissolving(kind: Kind) -> bool
    returns
        matches!(kind, Kind::DissolvingMilitia | Kind::DissolvingHunter | Kind::DissolvingScout | Kind::DissolvingTank | Kind::DissolvingMech | Kind::DissolvingCaravan),
{
    matches!(kind, Kind::DissolvingMilitia | Kind::DissolvingHunter | Kind::DissolvingScout | Kind::DissolvingTank | Kind::DissolvingMech | Kind::DissolvingCaravan)
}

/// Walking into one consumes it. Gates are not eatable.
#[verifier::allow_in_spec]
pub fn is_eatable(kind: Kind) -> bool
    returns
        is_npc(kind),
{
    is_npc(kind)
}

/// Has somewhere left to go.
pub fn is_upgradable(kind: Kind) -> (b: bool)
    ensures
        b == (kind_upgrade_paths(kind).len() > 0),
{
    kind.upgrade_paths().len() > 0
}


/// What a fresh human of a kind is for.
pub open spec fn kind_default_duty(kind: Kind) -> Duty {
    match kind {
        Kind::Caravan => Duty::Convoy,
        Kind::Hunter => Duty::Investigate,
        Kind::Scout => Duty::Patrol,
        Kind::Militia | Kind::Tank | Kind::Mech => Duty::Garrison,
        _ => Duty::Unassigned,
    }
}

/// What a fresh human of this kind is for, before a gate briefs it.
pub fn default_duty(kind: Kind) -> (d: Duty)
    ensures
        d == kind_default_duty(kind),
{
    match kind {
        Kind::Caravan => Duty::Convoy,
        Kind::Hunter => Duty::Investigate,
        Kind::Scout => Duty::Patrol,
        Kind::Militia | Kind::Tank | Kind::Mech => Duty::Garrison,
        _ => Duty::Unassigned,
    }
}

/// Crafting progress toward one locked-in upgrade path.
#[derive(Clone, Copy, PartialEq, Eq, Structural, Debug, Default)]
pub struct UpgradeState {
    /// Index into the kind's [`Kind::upgrade_paths`], locked in by the first
    /// material absorbed.
    pub path: Option<usize>,
    /// Materials absorbed so far.
    pub progress: i32,
}

/// A ranged human's aim.
#[derive(Clone, Copy, PartialEq, Eq, Structural, Debug)]
pub struct RangedState {
    /// Counts down from `firing_time`; zero means the shot goes off.
    pub firing: i32,
    /// Turns between painting a line and firing down it.
    pub firing_time: i32,
    /// Unit vector the painted line runs along.
    pub direction: Coord,
    /// Cells the painted line covers.
    pub range: i32,
}

/// A gate's wave timer and its queue of humans waiting to step outside.
#[derive(Clone, PartialEq, Eq, Debug)]
pub struct CityState {
    /// Turns until the next wave is queued. Starts at fifty for every
    /// difficulty, then follows the difficulty's spawn rate.
    pub turns_to_next_wave: i32,
    /// Waves released so far.
    pub wave_number: i32,
    /// Drives the wave budget.
    pub level: i32,
    /// Humans waiting to be let out, one per turn.
    pub queue: VecDeque<Kind>,
    /// The caravan this gate has just sent out, if it still has one on the
    /// road.
    pub convoy: Option<ActorId>,
    /// Soldiers still owed to that caravan. Every one released while this is
    /// positive comes out as its escort.
    pub escorts: i32,
}

/// What a human does with a turn nobody is in sight for.
///
/// Every one of these is a reason to be somewhere: a caravan is going to the
/// far gate, its escort goes wherever the caravan goes, a scout walks the
/// deep, a hunter walks down whatever was last reported, and a garrison holds
/// the ground outside its own gate.
#[derive(Clone, Copy, PartialEq, Eq, Structural, Debug, Default)]
pub enum Duty {
    /// Nothing in particular. Organelles, gates, and anybody nobody briefed.
    #[default]
    Unassigned,
    /// Walk a beat between the city this human came out of and the nearest
    /// chamber.
    Garrison,
    /// Carry cargo to a distant gate and leave the map through it.
    Convoy,
    /// Keep station on a caravan.
    Escort(ActorId),
    /// Walk between the chambers the gates are furthest from.
    Patrol,
    /// Walk down whatever the humans last reported.
    Investigate,
}

/// A human's standing orders.
#[derive(Clone, Copy, PartialEq, Eq, Structural, Debug, Default)]
pub struct Orders {
    /// What it does when it cannot see you.
    pub duty: Duty,
    /// The doorway it came out of, and one end of a garrison's beat.
    pub home: Coord,
    /// Where the duty is taking it right now.
    pub goal: Option<Coord>,
}

/// One thing a human has committed to doing on its next turn.
///
/// A human decides at the end of its turn, the decision is on screen for the
/// whole of yours, and then it does that exact thing.
#[derive(Clone, Copy, PartialEq, Eq, Structural, Debug)]
pub struct Intent {
    /// What it means to do.
    pub kind: IntentKind,
    /// The cell it means to do it to.
    pub at: Coord,
}

/// The kinds of thing a human can commit to.
#[derive(Clone, Copy, PartialEq, Eq, Structural, Hash, Debug)]
pub enum IntentKind {
    /// Walk onto that cell.
    Step,
    /// Strike whatever of yours is standing there.
    Strike,
    /// Paint a line as far as that cell and start the countdown to a shot.
    Aim,
    /// Fire down the line already painted, as far as that cell.
    Fire,
    /// Stand still.
    Hold,
    /// Step into that gate and be gone, cargo and all.
    Depart,
}

/// Whatever mutable state a kind needs beyond the common stat fields.
#[derive(Clone, PartialEq, Eq, Debug, Default)]
pub enum Extra {
    /// Nothing beyond the common fields.
    #[default]
    Plain,
    /// An organelle with somewhere left to upgrade to.
    Upgrade(UpgradeState),
    /// A producer: a countdown, plus whatever upgrade it is partway through.
    Chloroplast {
        /// Turns until the next product.
        next_food: i32,
        /// Crafting progress, for the members of the line that have paths.
        upgrade: UpgradeState,
    },
    /// A dissolving human's banked extra product.
    Dissolving {
        /// Reaching the kind's max hit points frees one extra product.
        overfill: i32,
    },
    /// A ranged human's aim.
    Ranged(RangedState),
    /// A gate's wave state.
    City(CityState),
}

/// The upgrade progress an extra state carries, for the kinds that have any.
pub open spec fn extra_upgrade(e: Extra) -> Option<UpgradeState> {
    match e {
        Extra::Upgrade(u) => Some(u),
        Extra::Chloroplast { upgrade, .. } => Some(upgrade),
        _ => None,
    }
}

impl Extra {
    /// The upgrade progress inside this state, for the kinds that have any.
    pub fn upgrade(&self) -> (r: Option<&UpgradeState>)
        ensures
            r matches Some(u) ==> extra_upgrade(*self) == Some(*u),
            r is None <==> extra_upgrade(*self) is None,
    {
        match self {
            Self::Upgrade(u) => Some(u),
            Self::Chloroplast { upgrade: u, .. } => Some(u),
            _ => None,
        }
    }

    /// Mutable upgrade progress. Whatever is written through it lands in the
    /// same place [`Extra::upgrade`] reads from.
    pub fn upgrade_mut(&mut self) -> (r: Option<&mut UpgradeState>)
        ensures
            r matches Some(u) ==> extra_upgrade(*old(self)) == Some(*u) && extra_upgrade(*final(self)) == Some(*final(u)),
            r is None ==> extra_upgrade(*old(self)) is None && *final(self) == *old(self),
    {
        match self {
            Self::Upgrade(u) => Some(u),
            Self::Chloroplast { upgrade: u, .. } => Some(u),
            _ => None,
        }
    }
}

/// One thing standing on the map.
///
/// The stat fields start as copies of the kind's [`Stats`] and then drift:
/// upgrades rewrite them, the quantum core halves its own delay, and a
/// dissolving human loses a hit point per turn.
#[derive(Clone, PartialEq, Eq, Debug)]
pub struct Actor {
    /// What it is.
    pub kind: Kind,
    /// Where it is.
    pub pos: Coord,
    /// Display name. Starts from the kind table.
    pub name: &'static str,
    /// Remaining digestion, for dissolving humans.
    pub hp: i32,
    /// Digestion length, for dissolving humans.
    pub max_hp: i32,
    /// Time units between actions.
    pub delay: i32,
    /// Taxicab sight radius, and the radius it lights.
    pub awareness: i32,
    /// Zero means walking into it consumes it.
    pub armor: i32,
    /// Player alignment and background index: 0 none, 1 body, 2 drag path.
    pub slime: u8,
    /// Immovable by the drag: the gravity core sets this while it pulls.
    pub anchor: bool,
    /// What this human has committed to doing on its next turn.
    pub intent: Option<Intent>,
    /// What it does with a turn nobody is in sight for.
    pub orders: Orders,
    /// Per-kind state.
    pub extra: Extra,
}

/// The per-kind state a fresh actor of `kind` starts with.
pub open spec fn initial_extra_ok(kind: Kind, e: Extra) -> bool {
    if is_dissolving(kind) {
        e == Extra::Dissolving { overfill: 0 }
    } else if is_hunter_family(kind) {
        e == Extra::Ranged(RangedState { firing: 1, firing_time: 1, direction: Coord { x: 0, y: 0 }, range: kind_range(kind) })
    } else if is_city(kind) {
        e matches Extra::City(c) && c.turns_to_next_wave == 50 && c.wave_number == 0 && c.level == 1
            && c.queue@ == Seq::<Kind>::empty() && c.convoy is None && c.escorts == 0
    } else if kind_next_food_init(kind) is Some {
        e == Extra::Chloroplast { next_food: kind_next_food_init(kind)->0, upgrade: UpgradeState { path: None, progress: 0 } }
    } else if kind_upgrade_paths(kind).len() > 0 {
        e == Extra::Upgrade(UpgradeState { path: None, progress: 0 })
    } else {
        e == Extra::Plain
    }
}

/// Everything an organelle drops when unslimed: its kind's components plus,
/// for a locked-in upgrade, the full cost of that path.
pub open spec fn actor_components(a: Actor) -> Seq<ItemKind> {
    let base = kind_components(a.kind);
    match extra_upgrade(a.extra) {
        Some(u) => match u.path {
            Some(i) => if i < kind_upgrade_paths(a.kind).len() {
                let p = kind_upgrade_paths(a.kind)[i as int];
                let m = if p.resource == Resource::Calcium { ItemKind::CalciumDust } else { ItemKind::SiliconDust };
                base + Seq::new(p.amount as nat, |j: int| m)
            } else {
                base
            },
            None => base,
        },
        None => base,
    }
}

impl Actor {
    /// A fresh actor of `kind` at `pos`, with its kind's stats.
    pub fn new(kind: Kind, pos: Coord) -> (a: Self)
        ensures
            a.kind == kind,
            a.pos == pos,
            a.name@ == kind_name(kind),
            a.hp == kind_max_hp(kind),
            a.max_hp == kind_max_hp(kind),
            a.delay == kind_delay(kind),
            a.awareness == kind_awareness(kind),
            a.armor == kind_armor(kind),
            a.slime == kind_slime(kind),
            !a.anchor,
            a.intent is None,
            a.orders == (Orders { duty: kind_default_duty(kind), home: pos, goal: None }),
            initial_extra_ok(kind, a.extra),
    {
        let stats = kind.stats();
        let extra = if is_dissolving(kind) {
            Extra::Dissolving { overfill: 0 }
        } else if is_hunter_family(kind) {
            // A gunman announces that it is about to line up a turn before it
            // does, so a single turn of aim keeps the original's tempo.
            Extra::Ranged(RangedState { firing: 1, firing_time: 1, direction: Coord::new(0, 0), range: kind.range() })
        } else if is_city(kind) {
            // Every gate's first wave lands on turn fifty, whatever the
            // difficulty's spawn rate.
            Extra::City(CityState {
                turns_to_next_wave: 50,
                wave_number: 0,
                level: 1,
                queue: VecDeque::new(),
                convoy: None,
                escorts: 0,
            })
        } else if let Some(next_food) = kind.next_food_init() {
            Extra::Chloroplast { next_food, upgrade: UpgradeState { path: None, progress: 0 } }
        } else if is_upgradable(kind) {
            Extra::Upgrade(UpgradeState { path: None, progress: 0 })
        } else {
            Extra::Plain
        };
        Self {
            kind,
            pos,
            name: stats.name,
            hp: stats.max_hp,
            max_hp: stats.max_hp,
            delay: stats.delay,
            awareness: stats.awareness,
            armor: stats.armor,
            slime: stats.slime,
            anchor: false,
            intent: None,
            orders: Orders { duty: default_duty(kind), home: pos, goal: None },
            extra,
        }
    }

    /// Whether this actor counts as part of the player's mass.
    pub fn is_player_aligned(&self) -> (b: bool)
        ensures
            b == (self.slime > 0),
    {
        self.slime > 0
    }

    /// Everything this organelle drops when unslimed: its kind's components
    /// plus the materials its in-progress upgrade would have used.
    ///
    /// The full cost of the locked-in path is refunded however far along it
    /// was, so an interrupted upgrade refunds more than went in.
    pub fn components(&self) -> (r: Vec<ItemKind>)
        ensures
            r@ == actor_components(*self),
    {
        let base = self.kind.components();
        let mut out: Vec<ItemKind> = Vec::new();
        let mut i: usize = 0;
        while i < base.len()
            invariant
                base@ == kind_components(self.kind),
                i <= base@.len(),
                out@ == base@.subrange(0, i as int),
            decreases base@.len() - i,
        {
            out.push(base[i]);
            i = i + 1;
        }
        proof {
            assert(out@ =~= base@);
        }
        if let Some(state) = self.extra.upgrade() {
            if let Some(index) = state.path {
                let paths = self.kind.upgrade_paths();
                if index < paths.len() {
                    let path = paths[index];
                    let material = match path.resource {
                        Resource::Calcium => ItemKind::CalciumDust,
                        Resource::Electronics => ItemKind::SiliconDust,
                    };
                    let ghost before = out@;
                    let mut n: i32 = 0;
                    while n < path.amount
                        invariant
                            0 <= n,
                            n <= path.amount || path.amount < 0,
                            path.amount < 0 ==> n == 0,
                            out@ == before + Seq::new(n as nat, |j: int| material),
                        decreases path.amount - n,
                    {
                        out.push(material);
                        n = n + 1;
                        proof {
                            assert(out@ =~= before + Seq::new(n as nat, |j: int| material));
                        }
                    }
                    proof {
                        assert(kind_upgrade_paths(self.kind)[index as int] == path);
                        assert(out@ =~= base@ + Seq::new(path.amount as nat, |j: int| material)) by {
                            if path.amount < 0 {
                                assert(Seq::new(path.amount as nat, |j: int| material) =~= Seq::new(0, |j: int| material));
                            }
                        }
                    }
                }
            }
        }
        out
    }
}

/// A hunter's painted targeting mark.
///
/// Not an actor and not an item: nothing can stand on one, walk into one, or
/// be blocked by one.
#[derive(Clone, Copy, PartialEq, Eq, Structural, Debug)]
pub struct Reticle {
    /// The cell the mark covers.
    pub pos: Coord,
    /// The hunter or scout that painted it.
    pub owner: ActorId,
}

/// A handle to an actor. Stable for the life of a run.
#[derive(Clone, Copy, PartialEq, Eq, Structural, Hash, Debug, PartialOrd, Ord)]
pub struct ActorId(usize);

impl View for ActorId {
    type V = nat;

    closed spec fn view(&self) -> nat {
        self.0 as nat
    }
}

impl ActorId {
    /// The slot number behind this handle. Exposed so grids can key on it.
    pub fn raw(self) -> (r: usize)
        ensures
            r == self@,
    {
        self.0
    }

    /// Build a handle from a slot number. For tests and index bookkeeping.
    pub fn from_raw(raw: usize) -> (id: Self)
        ensures
            id@ == raw,
    {
        Self(raw)
    }

    /// Two handles are the same handle exactly when their slots agree.
    pub proof fn lemma_view_injective(a: Self, b: Self)
        ensures
            (a@ == b@) == (a == b),
    {
    }
}

/// How many slots of an arena hold something.
pub open spec fn count_live<T>(s: Seq<Option<T>>) -> nat
    decreases s.len(),
{
    if s.len() == 0 {
        0
    } else {
        count_live(s.drop_last()) + (if s.last() is Some { 1nat } else { 0nat })
    }
}

/// An arena never holds more than it has slots.
pub proof fn lemma_count_live_le<T>(s: Seq<Option<T>>)
    ensures
        count_live(s) <= s.len(),
    decreases s.len(),
{
    if s.len() > 0 {
        lemma_count_live_le(s.drop_last());
    }
}

/// Pushing a live slot counts one more.
pub proof fn lemma_count_live_push<T>(s: Seq<Option<T>>, v: T)
    ensures
        count_live(s.push(Some(v))) == count_live(s) + 1,
{
    assert(s.push(Some(v)).drop_last() =~= s);
}

/// Replacing what a live slot holds leaves the count alone.
pub proof fn lemma_count_live_set<T>(s: Seq<Option<T>>, i: int, v: T)
    requires
        0 <= i < s.len(),
        s[i] is Some,
    ensures
        count_live(s.update(i, Some(v))) == count_live(s),
    decreases s.len(),
{
    let u = s.update(i, Some(v));
    if i == s.len() - 1 {
        assert(u.drop_last() =~= s.drop_last());
    } else {
        assert(u.drop_last() =~= s.drop_last().update(i, Some(v)));
        lemma_count_live_set(s.drop_last(), i, v);
    }
}

/// Emptying a live slot counts one fewer.
pub proof fn lemma_count_live_clear<T>(s: Seq<Option<T>>, i: int)
    requires
        0 <= i < s.len(),
        s[i] is Some,
    ensures
        count_live(s.update(i, None)) + 1 == count_live(s),
    decreases s.len(),
{
    let u = s.update(i, None);
    if i == s.len() - 1 {
        assert(u.drop_last() =~= s.drop_last());
    } else {
        assert(u.drop_last() =~= s.drop_last().update(i, None));
        lemma_count_live_clear(s.drop_last(), i);
    }
}

/// The actor arena.
///
/// Removing an actor leaves a tombstone; slots are never reused, so a handle
/// held across a removal reads back as absent rather than as somebody else.
#[derive(Clone, Debug, Default)]
pub struct ActorStore {
    slots: Vec<Option<Actor>>,
    live: usize,
}

impl View for ActorStore {
    type V = Seq<Option<Actor>>;

    /// Every slot ever allocated, tombstones included, in creation order.
    closed spec fn view(&self) -> Seq<Option<Actor>> {
        self.slots@
    }
}

impl ActorStore {
    /// The live count is the number of occupied slots.
    pub closed spec fn wf(&self) -> bool {
        self.live == count_live(self.slots@)
    }

    /// An empty arena.
    pub fn new() -> (s: Self)
        ensures
            s.wf(),
            s@ == Seq::<Option<Actor>>::empty(),
    {
        Self { slots: Vec::new(), live: 0 }
    }

    /// Add an actor and hand back its handle: always a slot never handed out
    /// before.
    pub fn spawn(&mut self, actor: Actor) -> (id: ActorId)
        requires
            old(self).wf(),
        ensures
            final(self).wf(),
            final(self)@ == old(self)@.push(Some(actor)),
            id@ == old(self)@.len(),
    {
        proof {
            lemma_count_live_le(self.slots@);
            lemma_count_live_push(self.slots@, actor);
        }
        self.slots.push(Some(actor));
        let n = self.slots.len();
        self.live = self.live + 1;
        ActorId(n - 1)
    }

    /// Remove an actor, returning it if it was still there. The slot becomes
    /// a tombstone.
    pub fn remove(&mut self, id: ActorId) -> (r: Option<Actor>)
        requires
            old(self).wf(),
        ensures
            final(self).wf(),
            id@ < old(self)@.len() ==> r == old(self)@[id@ as int] && final(self)@ == old(self)@.update(id@ as int, None),
            id@ >= old(self)@.len() ==> r is None && final(self)@ == old(self)@,
    {
        if id.0 < self.slots.len() {
            let ghost before = self.slots@;
            let mut taken: Option<Actor> = None;
            self.slots.set_and_swap(id.0, &mut taken);
            proof {
                lemma_count_live_le(before);
                if taken is Some {
                    lemma_count_live_clear(before, id.0 as int);
                } else {
                    assert(before.update(id.0 as int, None) =~= before);
                }
            }
            if taken.is_some() {
                self.live = self.live - 1;
            }
            taken
        } else {
            None
        }
    }

    /// The actor behind a handle, if it is still alive.
    pub fn get(&self, id: ActorId) -> (r: Option<&Actor>)
        ensures
            r matches Some(a) ==> id@ < self@.len() && self@[id@ as int] == Some(*a),
            r is None <==> (id@ >= self@.len() || self@[id@ as int] is None),
    {
        if id.0 < self.slots.len() {
            match &self.slots[id.0] {
                Some(a) => Some(a),
                None => None,
            }
        } else {
            None
        }
    }

    /// The actor behind a handle, for changing it in place, if it is still
    /// alive.
    pub fn get_mut(&mut self, id: ActorId) -> (r: Option<&mut Actor>)
        requires
            old(self).wf(),
        ensures
            final(self).wf(),
            r.is_some() == (id@ < old(self)@.len() && old(self)@[id@ as int] is Some),
            r.is_none() ==> final(self)@ == old(self)@,
            r.is_some() ==> *r.unwrap() == old(self)@[id@ as int]->0 && final(self)@ == old(self)@.update(
                id@ as int,
                Some(*final(r.unwrap())),
            ),
    {
        proof {
            assert forall|v: Actor| id@ < self.slots@.len() && self.slots@[id@ as int] is Some implies #[trigger] count_live(
                self.slots@.update(id@ as int, Some(v)),
            ) == count_live(self.slots@) by {
                lemma_count_live_set(self.slots@, id@ as int, v);
            }
        }
        if id.0 < self.slots.len() {
            if self.slots[id.0].is_some() {
                let slot: &mut Option<Actor> = &mut self.slots[id.0];
                let r = slot.as_mut();
                r
            } else {
                None
            }
        } else {
            None
        }
    }

    /// Whether a handle still names a live actor.
    pub fn contains(&self, id: ActorId) -> (b: bool)
        ensures
            b == (id@ < self@.len() && self@[id@ as int] is Some),
    {
        self.get(id).is_some()
    }

    /// How many actors are alive.
    pub fn len(&self) -> (n: usize)
        requires
            self.wf(),
        ensures
            n == count_live(self@),
            n <= self@.len(),
    {
        proof {
            lemma_count_live_le(self@);
        }
        self.live
    }

    /// Whether nothing is alive.
    pub fn is_empty(&self) -> (b: bool)
        requires
            self.wf(),
        ensures
            b == (count_live(self@) == 0),
    {
        self.live == 0
    }

    /// Slots ever allocated, including tombstones.
    pub fn capacity(&self) -> (n: usize)
        ensures
            n == self@.len(),
    {
        self.slots.len()
    }

    /// Every live actor with its handle, in creation order.
    pub fn iter(&self) -> (r: Vec<(ActorId, &Actor)>)
        ensures
            forall|k: int| 0 <= k < r@.len() ==> (#[trigger] r@[k]).0@ < self@.len() && self@[r@[k].0@ as int] == Some(*r@[k].1),
            forall|k: int, l: int| 0 <= k < l < r@.len() ==> (#[trigger] r@[k]).0@ < (#[trigger] r@[l]).0@,
            forall|i: int| 0 <= i < self@.len() && self@[i] is Some ==> exists|k: int| 0 <= k < r@.len() && (#[trigger] r@[k]).0@ == i,
            r@.len() == count_live(self@),
    {
        let mut out: Vec<(ActorId, &Actor)> = Vec::new();
        let mut i: usize = 0;
        while i < self.slots.len()
            invariant
                i <= self.slots@.len(),
                out@.len() == count_live(self.slots@.take(i as int)),
                forall|k: int| 0 <= k < out@.len() ==> (#[trigger] out@[k]).0@ < i && self.slots@[out@[k].0@ as int] == Some(*out@[k].1),
                forall|k: int, l: int| 0 <= k < l < out@.len() ==> (#[trigger] out@[k]).0@ < (#[trigger] out@[l]).0@,
                forall|j: int| 0 <= j < i && self.slots@[j] is Some ==> exists|k: int| 0 <= k < out@.len() && (#[trigger] out@[k]).0@ == j,
            decreases self.slots@.len() - i,
        {
            let ghost before = out@;
            proof {
                assert(self.slots@.take(i + 1).drop_last() =~= self.slots@.take(i as int));
            }
            match &self.slots[i] {
                Some(a) => {
                    out.push((ActorId(i), a));
                    proof {
                        assert forall|j: int| 0 <= j < i + 1 && self.slots@[j] is Some implies exists|k: int| 0 <= k < out@.len() && (#[trigger] out@[k]).0@ == j by {
                            if j == i {
                                assert(out@[out@.len() - 1].0@ == j);
                            } else {
                                let k = choose|k: int| 0 <= k < before.len() && (#[trigger] before[k]).0@ == j;
                                assert(out@[k] == before[k]);
                            }
                        }
                    }
                },
                None => {},
            }
            i = i + 1;
        }
        proof {
            assert(self.slots@.take(i as int) =~= self.slots@);
        }
        out
    }
}

/// A handle to an item.
#[derive(Clone, Copy, PartialEq, Eq, Structural, Hash, Debug, PartialOrd, Ord)]
pub struct ItemId(usize);

impl View for ItemId {
    type V = nat;

    closed spec fn view(&self) -> nat {
        self.0 as nat
    }
}

impl ItemId {
    /// The slot number behind this handle.
    pub fn raw(self) -> (r: usize)
        ensures
            r == self@,
    {
        self.0
    }

    /// Two handles are the same handle exactly when their slots agree.
    pub proof fn lemma_view_injective(a: Self, b: Self)
        ensures
            (a@ == b@) == (a == b),
    {
    }
}

/// One item on the floor. Items and actors share a cell freely; only one item
/// may occupy a cell at a time.
#[derive(Clone, Copy, PartialEq, Eq, Structural, Debug)]
pub struct Item {
    /// What it is.
    pub kind: ItemKind,
    /// Where it is.
    pub pos: Coord,
}

/// The item arena, with the same never-reuse rule as [`ActorStore`].
#[derive(Clone, Debug, Default)]
pub struct ItemStore {
    slots: Vec<Option<Item>>,
    live: usize,
}

impl View for ItemStore {
    type V = Seq<Option<Item>>;

    /// Every slot ever allocated, tombstones included, in creation order.
    closed spec fn view(&self) -> Seq<Option<Item>> {
        self.slots@
    }
}

impl ItemStore {
    /// The live count is the number of occupied slots.
    pub closed spec fn wf(&self) -> bool {
        self.live == count_live(self.slots@)
    }

    /// An empty arena.
    pub fn new() -> (s: Self)
        ensures
            s.wf(),
            s@ == Seq::<Option<Item>>::empty(),
    {
        Self { slots: Vec::new(), live: 0 }
    }

    /// Add an item and hand back its handle: always a slot never handed out
    /// before.
    pub fn spawn(&mut self, item: Item) -> (id: ItemId)
        requires
            old(self).wf(),
        ensures
            final(self).wf(),
            final(self)@ == old(self)@.push(Some(item)),
            id@ == old(self)@.len(),
    {
        proof {
            lemma_count_live_le(self.slots@);
            lemma_count_live_push(self.slots@, item);
        }
        self.slots.push(Some(item));
        let n = self.slots.len();
        self.live = self.live + 1;
        ItemId(n - 1)
    }

    /// Remove an item, returning it if it was still there.
    pub fn remove(&mut self, id: ItemId) -> (r: Option<Item>)
        requires
            old(self).wf(),
        ensures
            final(self).wf(),
            id@ < old(self)@.len() ==> r == old(self)@[id@ as int] && final(self)@ == old(self)@.update(id@ as int, None),
            id@ >= old(self)@.len() ==> r is None && final(self)@ == old(self)@,
    {
        if id.0 < self.slots.len() {
            let slot = self.slots[id.0];
            match slot {
                Some(a) => {
                    proof {
                        lemma_count_live_clear(self.slots@, id.0 as int);
                        lemma_count_live_le(self.slots@);
                    }
                    self.slots.set(id.0, None);
                    self.live = self.live - 1;
                    Some(a)
                },
                None => {
                    proof {
                        assert(self.slots@.update(id.0 as int, None) =~= self.slots@);
                    }
                    None
                },
            }
        } else {
            None
        }
    }

    /// The item behind a handle, if it is still there.
    pub fn get(&self, id: ItemId) -> (r: Option<&Item>)
        ensures
            r matches Some(a) ==> id@ < self@.len() && self@[id@ as int] == Some(*a),
            r is None <==> (id@ >= self@.len() || self@[id@ as int] is None),
    {
        if id.0 < self.slots.len() {
            match &self.slots[id.0] {
                Some(a) => Some(a),
                None => None,
            }
        } else {
            None
        }
    }

    /// How many items are on the floor.
    pub fn len(&self) -> (n: usize)
        requires
            self.wf(),
        ensures
            n == count_live(self@),
    {
        self.live
    }

    /// Whether the floor is bare.
    pub fn is_empty(&self) -> (b: bool)
        requires
            self.wf(),
        ensures
            b == (count_live(self@) == 0),
    {
        self.live == 0
    }
}

/// Every kind the game has, in declaration order.
pub open spec fn all_kinds() -> Seq<Kind> {
    seq![Kind::Nucleus, Kind::EyeCore, Kind::SmartCore, Kind::LaserCore, Kind::TerrorCore, Kind::GravityCore, Kind::QuantumCore, Kind::Cytoplasm, Kind::Calcium, Kind::Electronics, Kind::Membrane, Kind::ReinforcedMembrane, Kind::Maw, Kind::ForceField, Kind::PhaseMembrane, Kind::ReinforcedMaw, Kind::Tentacle, Kind::Chloroplast, Kind::Bioreactor, Kind::Cultivator, Kind::BiometalForge, Kind::PrimordialSoup, Kind::Extractor, Kind::Butcher, Kind::Militia, Kind::Hunter, Kind::Scout, Kind::Tank, Kind::Mech, Kind::Caravan, Kind::City, Kind::DissolvingMilitia, Kind::DissolvingHunter, Kind::DissolvingScout, Kind::DissolvingTank, Kind::DissolvingMech, Kind::DissolvingCaravan]
}

/// Armour marks exactly the tank family: the armoured humans are precisely
/// the ones a plain maw cannot bite.
pub proof fn law_armor_is_the_tank_family(k: Kind)
    ensures
        (kind_armor(k) > 0) == is_tank_family(k),
{
}

/// Slime marks exactly the player's side: everything that lives in the mass
/// starts slimed, and nothing else does.
pub proof fn law_slime_is_the_player_side(k: Kind)
    ensures
        (kind_slime(k) > 0) == is_organelle(k),
{
}

/// Every human dissolves into a form that digests into something and can be
/// rescued back into that same human, and every human leaves loot when
/// killed outright.
pub proof fn law_dissolving_round_trips(k: Kind)
    requires
        is_npc(k),
    ensures
        kind_becomes_on_eaten(k) matches Some(d) && is_dissolving(d) && kind_rescues_to(d) == Some(k)
            && kind_max_hp(d) > 0 && kind_digests_to(d).len() > 0,
        kind_drops_on_die(k).len() > 0,
{
}

/// Every upgrade costs something and leads to a different organelle.
pub proof fn law_upgrades_lead_somewhere_real(k: Kind, i: int)
    requires
        0 <= i < kind_upgrade_paths(k).len(),
    ensures
        kind_upgrade_paths(k)[i].amount > 0,
        is_organelle(kind_upgrade_paths(k)[i].result),
        kind_upgrade_paths(k)[i].result != k,
{
}

/// Every kind has a name and takes a non-negative time to act.
pub proof fn law_every_kind_is_named(k: Kind)
    ensures
        kind_name(k).len() > 0,
        kind_delay(k) >= 0,
{
    reveal_strlit("Nucleus");
    reveal_strlit("Eye Core");
    reveal_strlit("Smart Core");
    reveal_strlit("Laser Core");
    reveal_strlit("Terror Core");
    reveal_strlit("Gravity Core");
    reveal_strlit("Quantum Core");
    reveal_strlit("Cytoplasm");
    reveal_strlit("Calcium");
    reveal_strlit("Electronics");
    reveal_strlit("Membrane");
    reveal_strlit("Tough Membrane");
    reveal_strlit("Maw");
    reveal_strlit("Force Field");
    reveal_strlit("Phase Membrane");
    reveal_strlit("Reinforced Maw");
    reveal_strlit("Tentacle");
    reveal_strlit("Chloroplast");
    reveal_strlit("Bioreactor");
    reveal_strlit("Cultivator");
    reveal_strlit("Biometal Forge");
    reveal_strlit("Primordial Soup");
    reveal_strlit("Extractor");
    reveal_strlit("Butcher");
    reveal_strlit("Militia");
    reveal_strlit("Hunter");
    reveal_strlit("Scout");
    reveal_strlit("Tank");
    reveal_strlit("Mech");
    reveal_strlit("Caravan");
    reveal_strlit("City Gate");
    reveal_strlit("Dissolving Militia");
    reveal_strlit("Dissolving Hunter");
    reveal_strlit("Dissolving Scout");
    reveal_strlit("Dissolving Tank");
    reveal_strlit("Dissolving Mech");
    reveal_strlit("Dissolving Caravan");
}

/// A kind's name pinned down by its length, first letter and last letter,
/// which no two kinds share.
spec fn name_key(k: Kind) -> (int, char, char) {
    match k {
        Kind::Nucleus => (7, 'N', 's'),
        Kind::EyeCore => (8, 'E', 'e'),
        Kind::SmartCore => (10, 'S', 'e'),
        Kind::LaserCore => (10, 'L', 'e'),
        Kind::TerrorCore => (11, 'T', 'e'),
        Kind::GravityCore => (12, 'G', 'e'),
        Kind::QuantumCore => (12, 'Q', 'e'),
        Kind::Cytoplasm => (9, 'C', 'm'),
        Kind::Calcium => (7, 'C', 'm'),
        Kind::Electronics => (11, 'E', 's'),
        Kind::Membrane => (8, 'M', 'e'),
        Kind::ReinforcedMembrane => (14, 'T', 'e'),
        Kind::Maw => (3, 'M', 'w'),
        Kind::ForceField => (11, 'F', 'd'),
        Kind::PhaseMembrane => (14, 'P', 'e'),
        Kind::ReinforcedMaw => (14, 'R', 'w'),
        Kind::Tentacle => (8, 'T', 'e'),
        Kind::Chloroplast => (11, 'C', 't'),
        Kind::Bioreactor => (10, 'B', 'r'),
        Kind::Cultivator => (10, 'C', 'r'),
        Kind::BiometalForge => (14, 'B', 'e'),
        Kind::PrimordialSoup => (15, 'P', 'p'),
        Kind::Extractor => (9, 'E', 'r'),
        Kind::Butcher => (7, 'B', 'r'),
        Kind::Militia => (7, 'M', 'a'),
        Kind::Hunter => (6, 'H', 'r'),
        Kind::Scout => (5, 'S', 't'),
        Kind::Tank => (4, 'T', 'k'),
        Kind::Mech => (4, 'M', 'h'),
        Kind::Caravan => (7, 'C', 'n'),
        Kind::City => (9, 'C', 'e'),
        Kind::DissolvingMilitia => (18, 'D', 'a'),
        Kind::DissolvingHunter => (17, 'D', 'r'),
        Kind::DissolvingScout => (16, 'D', 't'),
        Kind::DissolvingTank => (15, 'D', 'k'),
        Kind::DissolvingMech => (15, 'D', 'h'),
        Kind::DissolvingCaravan => (18, 'D', 'n'),
    }
}

/// The key really is read off the name.
proof fn lemma_name_key(k: Kind)
    ensures
        name_key(k) == (kind_name(k).len() as int, kind_name(k)[0], kind_name(k)[kind_name(k).len() - 1]),
{
    reveal_strlit("Nucleus");
    reveal_strlit("Eye Core");
    reveal_strlit("Smart Core");
    reveal_strlit("Laser Core");
    reveal_strlit("Terror Core");
    reveal_strlit("Gravity Core");
    reveal_strlit("Quantum Core");
    reveal_strlit("Cytoplasm");
    reveal_strlit("Calcium");
    reveal_strlit("Electronics");
    reveal_strlit("Membrane");
    reveal_strlit("Tough Membrane");
    reveal_strlit("Maw");
    reveal_strlit("Force Field");
    reveal_strlit("Phase Membrane");
    reveal_strlit("Reinforced Maw");
    reveal_strlit("Tentacle");
    reveal_strlit("Chloroplast");
    reveal_strlit("Bioreactor");
    reveal_strlit("Cultivator");
    reveal_strlit("Biometal Forge");
    reveal_strlit("Primordial Soup");
    reveal_strlit("Extractor");
    reveal_strlit("Butcher");
    reveal_strlit("Militia");
    reveal_strlit("Hunter");
    reveal_strlit("Scout");
    reveal_strlit("Tank");
    reveal_strlit("Mech");
    reveal_strlit("Caravan");
    reveal_strlit("City Gate");
    reveal_strlit("Dissolving Militia");
    reveal_strlit("Dissolving Hunter");
    reveal_strlit("Dissolving Scout");
    reveal_strlit("Dissolving Tank");
    reveal_strlit("Dissolving Mech");
    reveal_strlit("Dissolving Caravan");
}

/// No two kinds share a name.
pub proof fn law_names_are_unique(a: Kind, b: Kind)
    requires
        a != b,
    ensures
        kind_name(a) != kind_name(b),
{
    lemma_name_key(a);
    lemma_name_key(b);
    assert(name_key(a) != name_key(b));
}

/// A removed actor's handle never comes back: spawning afterwards hands out a
/// different slot and leaves the tombstone empty.
pub proof fn law_removed_handles_stay_dead(slots: Seq<Option<Actor>>, id: ActorId, a: Actor)
    requires
        id@ < slots.len(),
        slots[id@ as int] is None,
    ensures
        slots.push(Some(a))[id@ as int] is None,
        slots.len() != id@,
{
}
} // verus!
