use vstd::prelude::*;

verus! {

/// The registry for an OUI record.
#[derive(Debug, Clone, Copy, PartialEq, Eq, Structural)]
pub enum Registry {
    /// MA-L 24-bit OUI (Organizationally Unique Identifier) registry.
    MAL,
    /// MA-M 28-bit registry.
    MAM,
    /// MA-S 36-bit registry.
    MAS,
    /// CID 24-bit registry. Entries in the CID registry are used for cases
    /// where unique MAC addresses are not required.
    CID,
    /// IAB (Individual Address Blocks) registry.
    IAB,
}

/// The registry named by a code of the registries' exports, if it is one of
/// the five recognized codes.
pub open spec fn registry_of_code(code: Seq<char>) -> Option<Registry> {
    if code == seq!['M', 'A', '-', 'L'] {
        Some(Registry::MAL)
    } else if code == seq!['M', 'A', '-', 'M'] {
        Some(Registry::MAM)
    } else if code == seq!['M', 'A', '-', 'S'] {
        Some(Registry::MAS)
    } else if code == seq!['C', 'I', 'D'] {
        Some(Registry::CID)
    } else if code == seq!['I', 'A', 'B'] {
        Some(Registry::IAB)
    } else {
        None
    }
}

/// Parses a registry code (`MA-L`, `MA-M`, `MA-S`, `CID` or `IAB`); any
/// other code is unknown.
pub fn get_registry(code: &str) -> (r: Option<Registry>)
    ensures
        r == registry_of_code(code@),
{
    let n = code.unicode_len();
    if n == 4 && code.get_char(0) == 'M' && code.get_char(1) == 'A' && code.get_char(2) == '-' {
        let c = code.get_char(3);
        if c == 'L' {
            assert(code@ =~= seq!['M', 'A', '-', 'L']);
            return Some(Registry::MAL);
        } else if c == 'M' {
            assert(code@ =~= seq!['M', 'A', '-', 'M']);
            return Some(Registry::MAM);
        } else if c == 'S' {
            assert(code@ =~= seq!['M', 'A', '-', 'S']);
            return Some(Registry::MAS);
        }
    } else if n == 3 {
        let a = code.get_char(0);
        let b = code.get_char(1);
        let c = code.get_char(2);
        if a == 'C' && b == 'I' && c == 'D' {
            assert(code@ =~= seq!['C', 'I', 'D']);
            return Some(Registry::CID);
        } else if a == 'I' && b == 'A' && c == 'B' {
            assert(code@ =~= seq!['I', 'A', 'B']);
            return Some(Registry::IAB);
        }
    }
    None
}

} // verus!
