//! Fixed two-location configuration: location and port names, and the address file that maps
//! each location to its address.

use vstd::prelude::*;

use crate::directory::DirectoryError;
use crate::port::PortData;
use crate::text::{chars_of, lines, lines_of, split_chars, split_on, string_of_chars};

verus! {

/// The locations of a run with a fixed configuration.
#[derive(PartialEq, Eq, Structural, Clone, Copy, Debug, Hash)]
pub enum LocationID {
    L1,
    LD,
}

/// The ports of a run with a fixed configuration.
#[derive(PartialEq, Eq, Structural, Clone, Copy, Debug, Hash)]
pub enum PortID {
    P1,
    P2,
}

impl PortID {
    /// Every port, in declaration order.
    pub fn all() -> (r: Vec<PortID>)
        ensures
            r@ == seq![PortID::P1, PortID::P2],
    {
        vec![PortID::P1, PortID::P2]
    }
}

/// A message of a fixed-configuration run.
#[derive(Clone, Debug, PartialEq, Eq)]
pub struct Message {
    pub sender: LocationID,
    pub port: PortID,
    pub message_value: PortData,
    pub data_size: usize,
}

/// The location a line of a fixed-configuration address file names: `l1` or `ld`.
pub open spec fn location_named(name: Seq<char>) -> Option<LocationID> {
    if name == "l1"@ {
        Some(LocationID::L1)
    } else if name == "ld"@ {
        Some(LocationID::LD)
    } else {
        None
    }
}

/// The entry a line of a fixed-configuration address file stands for: `<location>,<address>`.
pub open spec fn fixed_record(line: Seq<char>) -> Option<(LocationID, Seq<char>)> {
    let f = split_on(line, ',');
    if f.len() < 2 {
        None
    } else {
        match location_named(f[0]) {
            Some(l) => Some((l, f[1])),
            None => None,
        }
    }
}

/// The address map that the lines `ls[..k]` build, a later line replacing an earlier one.
pub open spec fn fixed_map(ls: Seq<Seq<char>>, k: int) -> Map<LocationID, Seq<char>>
    decreases k,
{
    if k <= 0 {
        Map::empty()
    } else {
        let m = fixed_map(ls, k - 1);
        match fixed_record(ls[k - 1]) {
            Some((l, a)) => m.insert(l, a),
            None => m,
        }
    }
}

/// Addresses of the locations of a fixed-configuration run.
pub struct Addresses {
    location_map: Vec<(LocationID, String)>,
}

impl Addresses {
    pub closed spec fn map(&self) -> Map<LocationID, Seq<char>> {
        pairs_map(self.location_map@)
    }

    /// Reads an address file of `<location>,<address>` lines; the first other line is an error.
    pub fn from_address_map_text(text: &str) -> (r: Result<Addresses, DirectoryError>)
        ensures
            r is Ok <==> forall|k: int| 0 <= k < lines_of(text@).len() ==> #[trigger] fixed_record(lines_of(text@)[k]) is Some,
            r matches Ok(a) ==> a.map() == fixed_map(lines_of(text@), lines_of(text@).len() as int),
            r matches Err(e) ==> e matches DirectoryError::MalformedLine { line } && line < lines_of(text@).len()
                && fixed_record(lines_of(text@)[line as int]) is None && forall|k: int| 0 <= k < line ==> #[trigger] fixed_record(
                lines_of(text@)[k],
            ) is Some,
    {
        proof {
            reveal_strlit("l1");
            reveal_strlit("ld");
        }
        let l1 = String::from_str("l1");
        let ld = String::from_str("ld");
        let cs = chars_of(text);
        let ls = lines(&cs);
        let ghost lv = lines_of(text@);
        let mut pairs: Vec<(LocationID, String)> = Vec::new();
        let mut k: usize = 0;
        while k < ls.len()
            invariant
                l1@ == "l1"@,
                ld@ == "ld"@,
                ls@.map_values(|p: Vec<char>| p@) == lv,
                lv == lines_of(text@),
                k <= ls.len(),
                forall|j: int| 0 <= j < k ==> fixed_record(lv[j]) is Some,
                pairs_map(pairs@) == fixed_map(lv, k as int),
            decreases ls.len() - k,
        {
            assert(ls@[k as int]@ == lv[k as int]);
            let fields = split_chars(&ls[k], ',');
            assert(fields@.len() == split_on(lv[k as int], ',').len());
            if fields.len() < 2 {
                return Err(DirectoryError::MalformedLine { line: k });
            }
            assert(fields@[0]@ == split_on(lv[k as int], ',')[0]);
            assert(fields@[1]@ == split_on(lv[k as int], ',')[1]);
            let name = string_of_chars(&fields[0]);
            let location = if name == l1 {
                LocationID::L1
            } else if name == ld {
                LocationID::LD
            } else {
                return Err(DirectoryError::MalformedLine { line: k });
            };
            let address = string_of_chars(&fields[1]);
            set_address(&mut pairs, location, address);
            k = k + 1;
        }
        Ok(Addresses { location_map: pairs })
    }

    /// The address of a location that the file listed.
    pub fn get_address(&self, location: LocationID) -> (r: &str)
        requires
            self.map().contains_key(location),
        ensures
            r@ == self.map()[location],
    {
        let mut i: usize = 0;
        while i < self.location_map.len()
            invariant
                i <= self.location_map.len(),
                pairs_map(self.location_map@).contains_key(location),
                forall|j: int| 0 <= j < i ==> self.location_map@[j].0 != location,
            decreases self.location_map.len() - i,
        {
            if self.location_map[i].0 == location {
                proof {
                    lemma_pairs_map_first(self.location_map@, i as int);
                }
                return self.location_map[i].1.as_str();
            }
            i = i + 1;
        }
        // Not reached: the location is listed, so the loop returns.
        proof {
            lemma_pairs_map_absent(self.location_map@, location);
        }
        self.location_map[0].1.as_str()
    }
}

/// The map of a list of pairs; the first pair for a key wins.
pub open spec fn pairs_map(p: Seq<(LocationID, String)>) -> Map<LocationID, Seq<char>>
    decreases p.len(),
{
    if p.len() == 0 {
        Map::empty()
    } else {
        pairs_map(p.drop_first()).insert(p[0].0, p[0].1@)
    }
}

proof fn lemma_pairs_map_first(p: Seq<(LocationID, String)>, i: int)
    requires
        0 <= i < p.len(),
        forall|j: int| 0 <= j < i ==> p[j].0 != p[i].0,
    ensures
        pairs_map(p).contains_key(p[i].0),
        pairs_map(p)[p[i].0] == p[i].1@,
    decreases i,
{
    if i > 0 {
        lemma_pairs_map_first(p.drop_first(), i - 1);
    }
}

proof fn lemma_pairs_map_absent(p: Seq<(LocationID, String)>, l: LocationID)
    requires
        forall|j: int| 0 <= j < p.len() ==> p[j].0 != l,
    ensures
        !pairs_map(p).contains_key(l),
    decreases p.len(),
{
    if p.len() > 0 {
        lemma_pairs_map_absent(p.drop_first(), l);
    }
}

/// Records `address` for `location`, replacing any earlier address.
fn set_address(pairs: &mut Vec<(LocationID, String)>, location: LocationID, address: String)
    ensures
        pairs_map(final(pairs)@) == pairs_map(old(pairs)@).insert(location, address@),
{
    let ghost before = pairs@;
    pairs.insert(0, (location, address));
    assert(pairs@.drop_first() == before);
}

} // verus!
