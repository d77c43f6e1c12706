//! Covalent radius reference data: Cordero, B.; Gómez, V.; Platero-Prats,
//! A. E.; Revés, M.; Echeverría, J.; Cremades, E.; Barragán, F.; Alvarez, S.
//! "Covalent radii revisited." *Dalton Trans.* **2008**, 2832–2838.
//! DOI: 10.1039/B801115J, Table 2.
//!
//! Every value in the table has exactly two decimals, so it is held exactly
//! as an integer number of hundredths of an Angstrom (centi-Angstrom):
//! carbon's 0.76 Å is `76`.
//!
//! Coverage: Z = 1 (H) through 96 (Cm), the paper's own coverage.
//! [`covalent_radius_centiangstrom`] returns `None` outside it; callers must
//! not substitute a default value.
//!
//! Disambiguation: the source gives more than one value for a few elements
//! (hybridization- or spin-state-dependent), but a site carries neither.
//! Carbon takes the sp3 value (0.76 Å); Mn, Fe and Co take the low-spin
//! value.
//!
//! A naive `distance < radius sum` check is not safe for ionic bonds (the
//! Ti–O bond of ideal perovskite, 1.9525 Å, lies inside the 2.26 Å sum of
//! the Ti and O radii), so the table bounds the coordination neighbor
//! search rather than flagging short distances.

use vstd::prelude::*;

use crate::text::str_eq;

verus! {

/// Identifies which table and disambiguation rules the radii follow;
/// recorded in provenance whenever the coordination component used them.
pub const RADIUS_TABLE_VERSION: &'static str = "cordero-2008-table2";

/// The table: element symbol and covalent radius in centi-Angstrom, in
/// order of atomic number.
pub open spec fn cordero_table() -> Seq<(Seq<char>, nat)> {
    seq![
        ("H"@, 31nat),
        ("He"@, 28nat),
        ("Li"@, 128nat),
        ("Be"@, 96nat),
        ("B"@, 84nat),
        ("C"@, 76nat),
        ("N"@, 71nat),
        ("O"@, 66nat),
        ("F"@, 57nat),
        ("Ne"@, 58nat),
        ("Na"@, 166nat),
        ("Mg"@, 141nat),
        ("Al"@, 121nat),
        ("Si"@, 111nat),
        ("P"@, 107nat),
        ("S"@, 105nat),
        ("Cl"@, 102nat),
        ("Ar"@, 106nat),
        ("K"@, 203nat),
        ("Ca"@, 176nat),
        ("Sc"@, 170nat),
        ("Ti"@, 160nat),
        ("V"@, 153nat),
        ("Cr"@, 139nat),
        ("Mn"@, 139nat),
        ("Fe"@, 132nat),
        ("Co"@, 126nat),
        ("Ni"@, 124nat),
        ("Cu"@, 132nat),
        ("Zn"@, 122nat),
        ("Ga"@, 122nat),
        ("Ge"@, 120nat),
        ("As"@, 119nat),
        ("Se"@, 120nat),
        ("Br"@, 120nat),
        ("Kr"@, 116nat),
        ("Rb"@, 220nat),
        ("Sr"@, 195nat),
        ("Y"@, 190nat),
        ("Zr"@, 175nat),
        ("Nb"@, 164nat),
        ("Mo"@, 154nat),
        ("Tc"@, 147nat),
        ("Ru"@, 146nat),
        ("Rh"@, 142nat),
        ("Pd"@, 139nat),
        ("Ag"@, 145nat),
        ("Cd"@, 144nat),
        ("In"@, 142nat),
        ("Sn"@, 139nat),
        ("Sb"@, 139nat),
        ("Te"@, 138nat),
        ("I"@, 139nat),
        ("Xe"@, 140nat),
        ("Cs"@, 244nat),
        ("Ba"@, 215nat),
        ("La"@, 207nat),
        ("Ce"@, 204nat),
        ("Pr"@, 203nat),
        ("Nd"@, 201nat),
        ("Pm"@, 199nat),
        ("Sm"@, 198nat),
        ("Eu"@, 198nat),
        ("Gd"@, 196nat),
        ("Tb"@, 194nat),
        ("Dy"@, 192nat),
        ("Ho"@, 192nat),
        ("Er"@, 189nat),
        ("Tm"@, 190nat),
        ("Yb"@, 187nat),
        ("Lu"@, 187nat),
        ("Hf"@, 175nat),
        ("Ta"@, 170nat),
        ("W"@, 162nat),
        ("Re"@, 151nat),
        ("Os"@, 144nat),
        ("Ir"@, 141nat),
        ("Pt"@, 136nat),
        ("Au"@, 136nat),
        ("Hg"@, 132nat),
        ("Tl"@, 145nat),
        ("Pb"@, 146nat),
        ("Bi"@, 148nat),
        ("Po"@, 140nat),
        ("At"@, 150nat),
        ("Rn"@, 150nat),
        ("Fr"@, 260nat),
        ("Ra"@, 221nat),
        ("Ac"@, 215nat),
        ("Th"@, 206nat),
        ("Pa"@, 200nat),
        ("U"@, 196nat),
        ("Np"@, 190nat),
        ("Pu"@, 187nat),
        ("Am"@, 180nat),
        ("Cm"@, 169nat),
    ]
}

/// The radius of the first table entry for `symbol`, if any.
pub open spec fn table_lookup(table: Seq<(Seq<char>, nat)>, symbol: Seq<char>) -> Option<nat>
    decreases table.len(),
{
    if table.len() == 0 {
        None
    } else if table[0].0 == symbol {
        Some(table[0].1)
    } else {
        table_lookup(table.drop_first(), symbol)
    }
}

/// The Cordero et al. 2008 covalent radius of `symbol`, in centi-Angstrom.
pub open spec fn cordero_radius(symbol: Seq<char>) -> Option<nat> {
    table_lookup(cordero_table(), symbol)
}

/// The table as executable data.
pub fn radius_table() -> (t: Vec<(&'static str, u16)>)
    ensures
        t@.len() == cordero_table().len(),
        forall|k: int|
            0 <= k < t@.len() ==> (#[trigger] t@[k]).0@ == cordero_table()[k].0 && t@[k].1 as nat
                == cordero_table()[k].1,
{
    let t = vec![
        ("H", 31u16),
        ("He", 28u16),
        ("Li", 128u16),
        ("Be", 96u16),
        ("B", 84u16),
        ("C", 76u16),
        ("N", 71u16),
        ("O", 66u16),
        ("F", 57u16),
        ("Ne", 58u16),
        ("Na", 166u16),
        ("Mg", 141u16),
        ("Al", 121u16),
        ("Si", 111u16),
        ("P", 107u16),
        ("S", 105u16),
        ("Cl", 102u16),
        ("Ar", 106u16),
        ("K", 203u16),
        ("Ca", 176u16),
        ("Sc", 170u16),
        ("Ti", 160u16),
        ("V", 153u16),
        ("Cr", 139u16),
        ("Mn", 139u16),
        ("Fe", 132u16),
        ("Co", 126u16),
        ("Ni", 124u16),
        ("Cu", 132u16),
        ("Zn", 122u16),
        ("Ga", 122u16),
        ("Ge", 120u16),
        ("As", 119u16),
        ("Se", 120u16),
        ("Br", 120u16),
        ("Kr", 116u16),
        ("Rb", 220u16),
        ("Sr", 195u16),
        ("Y", 190u16),
        ("Zr", 175u16),
        ("Nb", 164u16),
        ("Mo", 154u16),
        ("Tc", 147u16),
        ("Ru", 146u16),
        ("Rh", 142u16),
        ("Pd", 139u16),
        ("Ag", 145u16),
        ("Cd", 144u16),
        ("In", 142u16),
        ("Sn", 139u16),
        ("Sb", 139u16),
        ("Te", 138u16),
        ("I", 139u16),
        ("Xe", 140u16),
        ("Cs", 244u16),
        ("Ba", 215u16),
        ("La", 207u16),
        ("Ce", 204u16),
        ("Pr", 203u16),
        ("Nd", 201u16),
        ("Pm", 199u16),
        ("Sm", 198u16),
        ("Eu", 198u16),
        ("Gd", 196u16),
        ("Tb", 194u16),
        ("Dy", 192u16),
        ("Ho", 192u16),
        ("Er", 189u16),
        ("Tm", 190u16),
        ("Yb", 187u16),
        ("Lu", 187u16),
        ("Hf", 175u16),
        ("Ta", 170u16),
        ("W", 162u16),
        ("Re", 151u16),
        ("Os", 144u16),
        ("Ir", 141u16),
        ("Pt", 136u16),
        ("Au", 136u16),
        ("Hg", 132u16),
        ("Tl", 145u16),
        ("Pb", 146u16),
        ("Bi", 148u16),
        ("Po", 140u16),
        ("At", 150u16),
        ("Rn", 150u16),
        ("Fr", 260u16),
        ("Ra", 221u16),
        ("Ac", 215u16),
        ("Th", 206u16),
        ("Pa", 200u16),
        ("U", 196u16),
        ("Np", 190u16),
        ("Pu", 187u16),
        ("Am", 180u16),
        ("Cm", 169u16),
    ];
    assert(t@.len() == cordero_table().len());
    t
}

/// Returns the Cordero et al. 2008 covalent radius of `symbol` in
/// centi-Angstrom (`Some(31)` for hydrogen's 0.31 Å), or `None` if `symbol`
/// is not a recognized element or lies beyond the paper's coverage (Z > 96).
/// Never substitutes a default.
pub fn covalent_radius_centiangstrom(symbol: &str) -> (r: Option<u16>)
    ensures
        match r {
            Some(v) => cordero_radius(symbol@) == Some(v as nat),
            None => cordero_radius(symbol@) is None,
        },
{
    let table = radius_table();
    let ghost full = cordero_table();
    assert(full.skip(0) =~= full);
    let mut k: usize = 0;
    while k < table.len()
        invariant
            k <= table@.len(),
            table@.len() == full.len(),
            full == cordero_table(),
            forall|m: int|
                0 <= m < table@.len() ==> (#[trigger] table@[m]).0@ == full[m].0 && table@[m].1 as nat
                    == full[m].1,
            table_lookup(full, symbol@) == table_lookup(full.skip(k as int), symbol@),
        decreases table@.len() - k,
    {
        let (candidate, radius) = table[k];
        proof {
            assert(full.skip(k as int)[0] == full[k as int]);
            assert(full.skip(k as int).drop_first() =~= full.skip(k + 1));
        }
        if str_eq(candidate, symbol) {
            return Some(radius);
        }
        k = k + 1;
    }
    proof {
        assert(full.skip(k as int).len() == 0);
    }
    None
}

/// The table holds Cordero et al. 2008, Table 2, in order of atomic number
/// from H (Z = 1) to Cm (Z = 96), each radius in hundredths of an Angstrom
/// (carbon sp3, and the low-spin values for Mn, Fe and Co).
pub proof fn lemma_cordero_table2_values()
    ensures
        cordero_table().len() == 96,
        cordero_table()[0] == ("H"@, 31nat),
        cordero_table()[1] == ("He"@, 28nat),
        cordero_table()[2] == ("Li"@, 128nat),
        cordero_table()[3] == ("Be"@, 96nat),
        cordero_table()[4] == ("B"@, 84nat),
        cordero_table()[5] == ("C"@, 76nat),
        cordero_table()[6] == ("N"@, 71nat),
        cordero_table()[7] == ("O"@, 66nat),
        cordero_table()[8] == ("F"@, 57nat),
        cordero_table()[9] == ("Ne"@, 58nat),
        cordero_table()[10] == ("Na"@, 166nat),
        cordero_table()[11] == ("Mg"@, 141nat),
        cordero_table()[12] == ("Al"@, 121nat),
        cordero_table()[13] == ("Si"@, 111nat),
        cordero_table()[14] == ("P"@, 107nat),
        cordero_table()[15] == ("S"@, 105nat),
        cordero_table()[16] == ("Cl"@, 102nat),
        cordero_table()[17] == ("Ar"@, 106nat),
        cordero_table()[18] == ("K"@, 203nat),
        cordero_table()[19] == ("Ca"@, 176nat),
        cordero_table()[20] == ("Sc"@, 170nat),
        cordero_table()[21] == ("Ti"@, 160nat),
        cordero_table()[22] == ("V"@, 153nat),
        cordero_table()[23] == ("Cr"@, 139nat),
        cordero_table()[24] == ("Mn"@, 139nat),
        cordero_table()[25] == ("Fe"@, 132nat),
        cordero_table()[26] == ("Co"@, 126nat),
        cordero_table()[27] == ("Ni"@, 124nat),
        cordero_table()[28] == ("Cu"@, 132nat),
        cordero_table()[29] == ("Zn"@, 122nat),
        cordero_table()[30] == ("Ga"@, 122nat),
        cordero_table()[31] == ("Ge"@, 120nat),
        cordero_table()[32] == ("As"@, 119nat),
        cordero_table()[33] == ("Se"@, 120nat),
        cordero_table()[34] == ("Br"@, 120nat),
        cordero_table()[35] == ("Kr"@, 116nat),
        cordero_table()[36] == ("Rb"@, 220nat),
        cordero_table()[37] == ("Sr"@, 195nat),
        cordero_table()[38] == ("Y"@, 190nat),
        cordero_table()[39] == ("Zr"@, 175nat),
        cordero_table()[40] == ("Nb"@, 164nat),
        cordero_table()[41] == ("Mo"@, 154nat),
        cordero_table()[42] == ("Tc"@, 147nat),
        cordero_table()[43] == ("Ru"@, 146nat),
        cordero_table()[44] == ("Rh"@, 142nat),
        cordero_table()[45] == ("Pd"@, 139nat),
        cordero_table()[46] == ("Ag"@, 145nat),
        cordero_table()[47] == ("Cd"@, 144nat),
        cordero_table()[48] == ("In"@, 142nat),
        cordero_table()[49] == ("Sn"@, 139nat),
        cordero_table()[50] == ("Sb"@, 139nat),
        cordero_table()[51] == ("Te"@, 138nat),
        cordero_table()[52] == ("I"@, 139nat),
        cordero_table()[53] == ("Xe"@, 140nat),
        cordero_table()[54] == ("Cs"@, 244nat),
        cordero_table()[55] == ("Ba"@, 215nat),
        cordero_table()[56] == ("La"@, 207nat),
        cordero_table()[57] == ("Ce"@, 204nat),
        cordero_table()[58] == ("Pr"@, 203nat),
        cordero_table()[59] == ("Nd"@, 201nat),
        cordero_table()[60] == ("Pm"@, 199nat),
        cordero_table()[61] == ("Sm"@, 198nat),
        cordero_table()[62] == ("Eu"@, 198nat),
        cordero_table()[63] == ("Gd"@, 196nat),
        cordero_table()[64] == ("Tb"@, 194nat),
        cordero_table()[65] == ("Dy"@, 192nat),
        cordero_table()[66] == ("Ho"@, 192nat),
        cordero_table()[67] == ("Er"@, 189nat),
        cordero_table()[68] == ("Tm"@, 190nat),
        cordero_table()[69] == ("Yb"@, 187nat),
        cordero_table()[70] == ("Lu"@, 187nat),
        cordero_table()[71] == ("Hf"@, 175nat),
        cordero_table()[72] == ("Ta"@, 170nat),
        cordero_table()[73] == ("W"@, 162nat),
        cordero_table()[74] == ("Re"@, 151nat),
        cordero_table()[75] == ("Os"@, 144nat),
        cordero_table()[76] == ("Ir"@, 141nat),
        cordero_table()[77] == ("Pt"@, 136nat),
        cordero_table()[78] == ("Au"@, 136nat),
        cordero_table()[79] == ("Hg"@, 132nat),
        cordero_table()[80] == ("Tl"@, 145nat),
        cordero_table()[81] == ("Pb"@, 146nat),
        cordero_table()[82] == ("Bi"@, 148nat),
        cordero_table()[83] == ("Po"@, 140nat),
        cordero_table()[84] == ("At"@, 150nat),
        cordero_table()[85] == ("Rn"@, 150nat),
        cordero_table()[86] == ("Fr"@, 260nat),
        cordero_table()[87] == ("Ra"@, 221nat),
        cordero_table()[88] == ("Ac"@, 215nat),
        cordero_table()[89] == ("Th"@, 206nat),
        cordero_table()[90] == ("Pa"@, 200nat),
        cordero_table()[91] == ("U"@, 196nat),
        cordero_table()[92] == ("Np"@, 190nat),
        cordero_table()[93] == ("Pu"@, 187nat),
        cordero_table()[94] == ("Am"@, 180nat),
        cordero_table()[95] == ("Cm"@, 169nat),
{
}

/// Looking a symbol up gives the radius of its first entry in the table, and
/// nothing when no entry has that symbol.
pub proof fn lemma_table_lookup_first_entry(table: Seq<(Seq<char>, nat)>, symbol: Seq<char>)
    ensures
        (forall|j: int| 0 <= j < table.len() ==> (#[trigger] table[j]).0 != symbol) ==> table_lookup(
            table,
            symbol,
        ) is None,
        forall|k: int|
            0 <= k < table.len() && (#[trigger] table[k]).0 == symbol && (forall|j: int|
                0 <= j < k ==> (#[trigger] table[j]).0 != symbol) ==> table_lookup(table, symbol)
                == Some(table[k].1),
    decreases table.len(),
{
    if table.len() > 0 {
        let rest = table.drop_first();
        lemma_table_lookup_first_entry(rest, symbol);
        if forall|j: int| 0 <= j < table.len() ==> (#[trigger] table[j]).0 != symbol {
            assert forall|j: int| 0 <= j < rest.len() implies (#[trigger] rest[j]).0 != symbol by {
                assert(rest[j] == table[j + 1]);
            }
        }
        assert forall|k: int|
            0 <= k < table.len() && (#[trigger] table[k]).0 == symbol && (forall|j: int|
                0 <= j < k ==> (#[trigger] table[j]).0 != symbol) implies table_lookup(table, symbol)
            == Some(table[k].1) by {
            if k > 0 {
                assert(table[0].0 != symbol);
                assert(rest[k - 1] == table[k]);
                assert forall|j: int| 0 <= j < k - 1 implies (#[trigger] rest[j]).0 != symbol by {
                    assert(rest[j] == table[j + 1]);
                }
            }
        }
    }
}

} // verus!
