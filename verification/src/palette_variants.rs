//! Curated palette-group variants for themed palette randomization.
//!
//! Each entry is a file offset where a 4-byte palette group lives, paired with
//! two or more known-good variants (vanilla plus recolours). The randomizer
//! picks one whole variant per position, so every emitted group was designed
//! as a coherent unit: no pool mixing, no independent byte picks.
use vstd::prelude::*;

verus! {

/// A palette-group variant set at a specific file offset.
pub struct VariantGroup {
    pub offset: usize,
    /// Known-good 4-byte variants; the vanilla one is always present.
    pub variants: Vec<[u8; 4]>,
}

/// The offset and variant list of a group.
pub open spec fn group_view(g: VariantGroup) -> (usize, Seq<[u8; 4]>) {
    (g.offset, g.variants@)
}

/// Plains BG + HUD (slot 3): the positions the recolour changed.
pub open spec fn plains_slot3_spec() -> Seq<(usize, Seq<[u8; 4]>)> {
    seq![
        (0x36C94usize, seq![[0x36u8, 0x0F, 0xFF, 0x1A], [0x37u8, 0x06, 0xFF, 0x1A]]),
        (0x36CA0usize, seq![[0x30u8, 0x0F, 0x3C, 0x0F], [0x30u8, 0x0F, 0x11, 0x02]]),
        (0x36CA4usize, seq![[0x30u8, 0x3C, 0x3C, 0x0F], [0x30u8, 0x22, 0x3C, 0x18]]),
        (0x36CA8usize, seq![[0x36u8, 0x27, 0x3C, 0x0F], [0x38u8, 0x28, 0x3C, 0x0A]]),
        (0x36CACusize, seq![[0x2Au8, 0x1A, 0x3C, 0x0F], [0x2Au8, 0x1A, 0x3C, 0x01]]),
        (0x36CB4usize, seq![[0x30u8, 0x3C, 0x36, 0x0F], [0x22u8, 0x32, 0x1A, 0x18]]),
        (0x36CB8usize, seq![[0x36u8, 0x27, 0x36, 0x0F], [0x38u8, 0x28, 0x36, 0x0F]]),
        (0x36CC0usize, seq![[0x31u8, 0x12, 0x37, 0x0F], [0x31u8, 0x12, 0x11, 0x0F]]),
    ]
}

/// Plains BG + HUD (slot 3): the positions the recolour changed.
pub fn plains_slot3_variants() -> (v: Vec<VariantGroup>)
    ensures
        v@.map_values(|g: VariantGroup| group_view(g)) == plains_slot3_spec(),
{
    let v = vec![
        VariantGroup { offset: 0x36C94, variants: vec![[0x36, 0x0F, 0xFF, 0x1A], [0x37, 0x06, 0xFF, 0x1A]] },
        VariantGroup { offset: 0x36CA0, variants: vec![[0x30, 0x0F, 0x3C, 0x0F], [0x30, 0x0F, 0x11, 0x02]] },
        VariantGroup { offset: 0x36CA4, variants: vec![[0x30, 0x3C, 0x3C, 0x0F], [0x30, 0x22, 0x3C, 0x18]] },
        VariantGroup { offset: 0x36CA8, variants: vec![[0x36, 0x27, 0x3C, 0x0F], [0x38, 0x28, 0x3C, 0x0A]] },
        VariantGroup { offset: 0x36CAC, variants: vec![[0x2A, 0x1A, 0x3C, 0x0F], [0x2A, 0x1A, 0x3C, 0x01]] },
        VariantGroup { offset: 0x36CB4, variants: vec![[0x30, 0x3C, 0x36, 0x0F], [0x22, 0x32, 0x1A, 0x18]] },
        VariantGroup { offset: 0x36CB8, variants: vec![[0x36, 0x27, 0x36, 0x0F], [0x38, 0x28, 0x36, 0x0F]] },
        VariantGroup { offset: 0x36CC0, variants: vec![[0x31, 0x12, 0x37, 0x0F], [0x31, 0x12, 0x11, 0x0F]] },
    ];
    assert(v@.map_values(|g: VariantGroup| group_view(g)) =~= plains_slot3_spec());
    v
}

/// Slice 4, band 3: a plains background variant (one position changed by
/// the recolour).
pub open spec fn plains_slice4_spec() -> Seq<(usize, Seq<[u8; 4]>)> {
    seq![(0x37704usize, seq![[0x36u8, 0x0F, 0xFF, 0x30], [0x37u8, 0x06, 0xFF, 0x30]])]
}

/// Slice 4, band 3: a plains background variant (one position changed by
/// the recolour).
pub fn plains_slice4_variants() -> (v: Vec<VariantGroup>)
    ensures
        v@.map_values(|g: VariantGroup| group_view(g)) == plains_slice4_spec(),
{
    let v = vec![VariantGroup { offset: 0x37704, variants: vec![[0x36, 0x0F, 0xFF, 0x30], [0x37, 0x06, 0xFF, 0x30]] }];
    assert(v@.map_values(|g: VariantGroup| group_view(g)) =~= plains_slice4_spec());
    v
}

} // verus!
