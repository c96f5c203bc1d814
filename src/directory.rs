//! Address directory of a run: location names, their machines and addresses, and the ids that
//! rank the names in byte order.

use vstd::multiset::Multiset;
use vstd::prelude::*;

use crate::text::{chars_of, lines, lines_of, split_chars, split_on, string_of_chars};
use vstd::utf8::{encode_utf8, encode_utf8_decode_utf8};

verus! {

/// Numeric id of a location: its rank among all location names in byte order.
pub type LocationID = u16;

/// Where a location listens and which machine it runs on.
#[derive(Clone, Debug, PartialEq, Eq)]
pub struct LocationInfo {
    pub address: String,
    pub machine: String,
}

/// Byte-wise lexicographic order, the order of `str`.
pub open spec fn bytes_lt(a: Seq<u8>, b: Seq<u8>) -> bool
    decreases a.len(),
{
    if a.len() == 0 {
        b.len() > 0
    } else if b.len() == 0 {
        false
    } else if a[0] != b[0] {
        a[0] < b[0]
    } else {
        bytes_lt(a.drop_first(), b.drop_first())
    }
}

/// Order of location names: the byte order of their UTF-8 encodings.
pub open spec fn name_lt(a: Seq<char>, b: Seq<char>) -> bool {
    bytes_lt(encode_utf8(a), encode_utf8(b))
}

pub proof fn lemma_bytes_lt_irreflexive(a: Seq<u8>)
    ensures
        !bytes_lt(a, a),
    decreases a.len(),
{
    if a.len() > 0 {
        lemma_bytes_lt_irreflexive(a.drop_first());
    }
}

pub proof fn lemma_bytes_lt_transitive(a: Seq<u8>, b: Seq<u8>, c: Seq<u8>)
    requires
        bytes_lt(a, b),
        bytes_lt(b, c),
    ensures
        bytes_lt(a, c),
    decreases a.len(),
{
    if a.len() > 0 && b.len() > 0 && c.len() > 0 && a[0] == b[0] && b[0] == c[0] {
        lemma_bytes_lt_transitive(a.drop_first(), b.drop_first(), c.drop_first());
    }
}

pub proof fn lemma_bytes_lt_total(a: Seq<u8>, b: Seq<u8>)
    ensures
        a == b || bytes_lt(a, b) || bytes_lt(b, a),
    decreases a.len(),
{
    if a.len() > 0 && b.len() > 0 && a[0] == b[0] {
        lemma_bytes_lt_total(a.drop_first(), b.drop_first());
        if a.drop_first() == b.drop_first() {
            assert(a == seq![a[0]] + a.drop_first());
            assert(b == seq![b[0]] + b.drop_first());
        }
    } else if a.len() == 0 && b.len() == 0 {
        assert(a == b);
    }
}

/// Compares two byte strings in lexicographic order.
fn bytes_less(a: &[u8], b: &[u8]) -> (r: bool)
    ensures
        r == bytes_lt(a@, b@),
{
    let mut i: usize = 0;
    assert(a@.skip(0) == a@);
    assert(b@.skip(0) == b@);
    while i < a.len() && i < b.len()
        invariant
            i <= a.len(),
            i <= b.len(),
            bytes_lt(a@.skip(i as int), b@.skip(i as int)) == bytes_lt(a@, b@),
        decreases a.len() - i,
    {
        if a[i] != b[i] {
            return a[i] < b[i];
        }
        assert(a@.skip(i as int).drop_first() == a@.skip(i + 1));
        assert(b@.skip(i as int).drop_first() == b@.skip(i + 1));
        i = i + 1;
    }
    i == a.len() && i < b.len()
}


pub proof fn lemma_name_lt_total(a: Seq<char>, b: Seq<char>)
    ensures
        a == b || name_lt(a, b) || name_lt(b, a),
{
    lemma_bytes_lt_total(encode_utf8(a), encode_utf8(b));
    encode_utf8_decode_utf8(a);
    encode_utf8_decode_utf8(b);
}

/// Why a directory could not be built.
#[derive(Clone, Debug, PartialEq, Eq)]
pub enum DirectoryError {
    /// More locations than location ids.
    TooManyLocations,
    /// Two entries carry the same name.
    DuplicateLocation,
    /// The local location is not among the entries.
    UnknownLocation,
    /// The address directory text has a line without a name, a machine and an address.
    MalformedLine { line: usize },
}

/// Spec view of a directory entry: name, address, machine.
pub open spec fn entry_view(e: (String, LocationInfo)) -> (Seq<char>, Seq<char>, Seq<char>) {
    (e.0@, e.1.address@, e.1.machine@)
}

pub open spec fn entries_view(v: Seq<(String, LocationInfo)>) -> Seq<(Seq<char>, Seq<char>, Seq<char>)> {
    v.map_values(|e: (String, LocationInfo)| entry_view(e))
}

/// Two entries share a name.
pub open spec fn has_duplicate_names(v: Seq<(String, LocationInfo)>) -> bool {
    exists|i: int, j: int| 0 <= i < j < v.len() && #[trigger] v[i].0@ == #[trigger] v[j].0@
}

/// Names in strictly increasing order.
pub open spec fn names_sorted(v: Seq<(String, LocationInfo)>) -> bool {
    forall|i: int, j: int| 0 <= i < j < v.len() ==> name_lt(#[trigger] v[i].0@, #[trigger] v[j].0@)
}

/// Whether two entries of `v` share a name.
fn find_duplicate_name(v: &Vec<(String, LocationInfo)>) -> (r: bool)
    ensures
        r == has_duplicate_names(v@),
{
    let mut i: usize = 0;
    while i < v.len()
        invariant
            i <= v.len(),
            forall|a: int, b: int| 0 <= a < b < v.len() && a < i ==> v@[a].0@ != v@[b].0@,
        decreases v.len() - i,
    {
        let mut j: usize = i + 1;
        while j < v.len()
            invariant
                i < v.len(),
                i + 1 <= j <= v.len(),
                forall|a: int, b: int| 0 <= a < b < v.len() && a < i ==> v@[a].0@ != v@[b].0@,
                forall|b: int| i < b < j ==> v@[i as int].0@ != v@[b].0@,
            decreases v.len() - j,
        {
            if v[i].0 == v[j].0 {
                assert(v@[i as int].0@ == v@[j as int].0@);
                return true;
            }
            j = j + 1;
        }
        i = i + 1;
    }
    false
}

/// Sorts entries with distinct names into increasing byte order of their names.
fn sort_by_name(v: Vec<(String, LocationInfo)>) -> (r: Vec<(String, LocationInfo)>)
    requires
        !has_duplicate_names(v@),
    ensures
        names_sorted(r@),
        entries_view(r@).to_multiset() =~= entries_view(v@).to_multiset(),
{
    broadcast use vstd::seq_lib::lemma_multiset_commutative, vstd::multiset::group_multiset_axioms;

    let ghost orig = v@;
    let mut input = v;
    let mut sorted: Vec<(String, LocationInfo)> = Vec::new();
    assert(entries_view(sorted@) == Seq::<(Seq<char>, Seq<char>, Seq<char>)>::empty());
    assert(entries_view(sorted@) + entries_view(input@) == entries_view(orig));
    while input.len() > 0
        invariant
            names_sorted(sorted@),
            entries_view(sorted@).to_multiset().add(entries_view(input@).to_multiset()) =~= entries_view(orig).to_multiset(),
            forall|a: int, b: int| 0 <= a < b < input@.len() ==> input@[a].0@ != input@[b].0@,
            forall|a: int, b: int| 0 <= a < sorted@.len() && 0 <= b < input@.len() ==> sorted@[a].0@ != input@[b].0@,
        decreases input.len(),
    {
        let ghost before_input = input@;
        let e = input.pop().unwrap();
        assert(before_input == input@.push(e));
        assert(entries_view(before_input) == entries_view(input@).push(entry_view(e)));
        let mut p: usize = 0;
        while p < sorted.len() && bytes_less(sorted[p].0.as_str().as_bytes(), e.0.as_str().as_bytes())
            invariant
                p <= sorted.len(),
                forall|a: int| 0 <= a < p ==> name_lt(#[trigger] sorted@[a].0@, e.0@),
            decreases sorted.len() - p,
        {
            p = p + 1;
        }
        proof {
            if p < sorted.len() {
                assert(sorted@[p as int].0@ != e.0@) by {
                    assert(before_input[before_input.len() - 1] == e);
                }
                lemma_name_lt_total(sorted@[p as int].0@, e.0@);
                assert forall|b: int| p <= b < sorted@.len() implies name_lt(e.0@, #[trigger] sorted@[b].0@) by {
                    if b > p {
                        lemma_bytes_lt_transitive(encode_utf8(e.0@), encode_utf8(sorted@[p as int].0@), encode_utf8(sorted@[b].0@));
                    }
                }
            }
        }
        let ghost before = sorted@;
        sorted.insert(p, e);
        proof {
            before.insert_ensures(p as int, e);
            assert(entries_view(sorted@) == entries_view(before).subrange(0, p as int) + seq![entry_view(e)] + entries_view(before).subrange(p as int, before.len() as int));
            assert(entries_view(before) == entries_view(before).subrange(0, p as int) + entries_view(before).subrange(p as int, before.len() as int));
            assert(seq![entry_view(e)] == Seq::<(Seq<char>, Seq<char>, Seq<char>)>::empty().push(entry_view(e)));
            Seq::<(Seq<char>, Seq<char>, Seq<char>)>::empty().to_multiset_ensures();
            entries_view(input@).to_multiset_ensures();
            let x = entry_view(e);
            let xs = entries_view(before);
            assert(seq![x].to_multiset() =~= Multiset::singleton(x));
            let lo = xs.subrange(0, p as int);
            let hi = xs.subrange(p as int, before.len() as int);
            vstd::seq_lib::lemma_multiset_commutative(lo + seq![x], hi);
            vstd::seq_lib::lemma_multiset_commutative(lo, seq![x]);
            vstd::seq_lib::lemma_multiset_commutative(lo, hi);
            assert(entries_view(sorted@).to_multiset() =~= xs.subrange(0, p as int).to_multiset().add(seq![x].to_multiset()).add(xs.subrange(p as int, before.len() as int).to_multiset()));
            assert(xs.to_multiset() =~= xs.subrange(0, p as int).to_multiset().add(xs.subrange(p as int, before.len() as int).to_multiset()));
            assert(entries_view(sorted@).to_multiset() =~= xs.to_multiset().add(Multiset::singleton(x)));
            assert(entries_view(before_input).to_multiset() =~= entries_view(input@).to_multiset().insert(x));
            assert forall|a: int, b: int| 0 <= a < b < sorted@.len() implies name_lt(#[trigger] sorted@[a].0@, #[trigger] sorted@[b].0@) by {
                if b < p {
                } else if a < p && b == p {
                } else if a < p && b > p {
                    lemma_bytes_lt_transitive(encode_utf8(sorted@[a].0@), encode_utf8(e.0@), encode_utf8(sorted@[b].0@));
                } else if a == p {
                } else {
                    assert(sorted@[a] == before[a - 1]);
                    assert(sorted@[b] == before[b - 1]);
                }
            }
            assert forall|a: int, b: int| 0 <= a < sorted@.len() && 0 <= b < input@.len() implies sorted@[a].0@ != input@[b].0@ by {
                if a < p {
                    assert(sorted@[a] == before[a]);
                    assert(input@[b] == before_input[b]);
                } else if a == p {
                    assert(input@[b] == before_input[b]);
                    assert(before_input[before_input.len() - 1] == e);
                } else {
                    assert(sorted@[a] == before[a - 1]);
                    assert(input@[b] == before_input[b]);
                }
            }
        }
    }
    proof {
        assert(entries_view(input@) == Seq::<(Seq<char>, Seq<char>, Seq<char>)>::empty());
        Seq::<(Seq<char>, Seq<char>, Seq<char>)>::empty().to_multiset_ensures();
    }
    sorted
}

/// The entry a directory line stands for: `<name>,<machine>,<address>`; fields after the third
/// are ignored.
pub open spec fn record_of(line: Seq<char>) -> Option<(Seq<char>, Seq<char>, Seq<char>)> {
    let f = split_on(line, ',');
    if f.len() < 3 {
        None
    } else {
        Some((f[0], f[2], f[1]))
    }
}

/// Reads the entries of an address directory, one per line; the first line that is not an
/// entry is an error.
pub fn parse_address_map(text: &str) -> (r: Result<Vec<(String, LocationInfo)>, DirectoryError>)
    ensures
        r is Ok <==> forall|k: int| 0 <= k < lines_of(text@).len() ==> #[trigger] record_of(lines_of(text@)[k]) is Some,
        r matches Ok(v) ==> v@.len() == lines_of(text@).len() && forall|k: int| 0 <= k < v@.len() ==> Some(
            #[trigger] entry_view(v@[k]),
        ) == record_of(lines_of(text@)[k]),
        r matches Err(e) ==> e matches DirectoryError::MalformedLine { line } && line < lines_of(text@).len()
            && record_of(lines_of(text@)[line as int]) is None && forall|k: int| 0 <= k < line ==> #[trigger] record_of(
            lines_of(text@)[k],
        ) is Some,
{
    let cs = chars_of(text);
    let ls = lines(&cs);
    let ghost lv = lines_of(text@);
    assert(ls@.len() == lv.len());
    let mut out: Vec<(String, LocationInfo)> = Vec::new();
    let mut k: usize = 0;
    while k < ls.len()
        invariant
            ls@.map_values(|p: Vec<char>| p@) == lv,
            lv == lines_of(text@),
            k <= ls.len(),
            out@.len() == k,
            forall|j: int| 0 <= j < k ==> record_of(lv[j]) is Some,
            forall|j: int| 0 <= j < k ==> Some(#[trigger] entry_view(out@[j])) == record_of(lv[j]),
        decreases ls.len() - k,
    {
        assert(ls@[k as int]@ == lv[k as int]);
        let fields = split_chars(&ls[k], ',');
        assert(fields@.len() == split_on(lv[k as int], ',').len());
        if fields.len() < 3 {
            return Err(DirectoryError::MalformedLine { line: k });
        }
        assert(fields@[0]@ == split_on(lv[k as int], ',')[0]);
        assert(fields@[1]@ == split_on(lv[k as int], ',')[1]);
        assert(fields@[2]@ == split_on(lv[k as int], ',')[2]);
        let name = string_of_chars(&fields[0]);
        let machine = string_of_chars(&fields[1]);
        let address = string_of_chars(&fields[2]);
        out.push((name, LocationInfo { address, machine }));
        k = k + 1;
    }
    Ok(out)
}

/// Static directory of the locations of a run: ids are ranks of names in byte order.
pub struct Orchestra {
    location: LocationID,
    entries: Vec<(String, LocationInfo)>,
}

impl Orchestra {
    /// Names by id.
    pub open spec fn names(&self) -> Seq<Seq<char>> {
        self.entries().map_values(|e: (Seq<char>, Seq<char>, Seq<char>)| e.0)
    }

    /// Entries by id.
    pub closed spec fn entries(&self) -> Seq<(Seq<char>, Seq<char>, Seq<char>)> {
        entries_view(self.entries@)
    }

    /// Machines by id.
    pub open spec fn machines(&self) -> Seq<Seq<char>> {
        self.entries().map_values(|e: (Seq<char>, Seq<char>, Seq<char>)| e.2)
    }

    pub closed spec fn wf(&self) -> bool {
        &&& names_sorted(self.entries@)
        &&& self.entries@.len() <= 0x10000
        &&& self.location < self.entries@.len()
    }

    /// Id of the local location.
    pub closed spec fn local(&self) -> LocationID {
        self.location
    }

    /// Number of locations.
    pub open spec fn len(&self) -> nat {
        self.entries().len()
    }

    /// The id that a known name has.
    pub open spec fn id_of(&self, name: Seq<char>) -> int {
        choose|i: int| 0 <= i < self.len() && self.names()[i] == name
    }

    /// Names of a well-formed directory are strictly increasing in byte order, hence distinct.
    pub proof fn lemma_names_sorted(&self)
        requires
            self.wf(),
        ensures
            forall|i: int, j: int| 0 <= i < j < self.len() ==> name_lt(#[trigger] self.names()[i], #[trigger] self.names()[j]),
            forall|i: int, j: int| 0 <= i < self.len() && 0 <= j < self.len() && #[trigger] self.names()[i] == #[trigger] self.names()[j] ==> i == j,
            self.len() <= 0x10000,
            self.local() < self.len(),
    {
        assert forall|i: int, j: int| 0 <= i < self.len() && 0 <= j < self.len() && #[trigger] self.names()[i] == #[trigger] self.names()[j] implies i == j by {
            if i < j {
                assert(name_lt(self.entries@[i].0@, self.entries@[j].0@));
                lemma_bytes_lt_irreflexive(encode_utf8(self.names()[i]));
            } else if j < i {
                assert(name_lt(self.entries@[j].0@, self.entries@[i].0@));
                lemma_bytes_lt_irreflexive(encode_utf8(self.names()[i]));
            }
        }
    }

    /// `id_of` and indexing by id are inverse: the id of the name of `i` is `i`, and the name
    /// of the id of a known name is that name.
    pub proof fn lemma_id_name_round_trip(&self, i: int, name: Seq<char>)
        requires
            self.wf(),
        ensures
            0 <= i < self.len() ==> self.id_of(self.names()[i]) == i,
            self.names().contains(name) ==> 0 <= self.id_of(name) < self.len() && self.names()[self.id_of(name)] == name,
    {
        self.lemma_names_sorted();
        if 0 <= i < self.len() {
            let n = self.names()[i];
            assert(0 <= i < self.len() && self.names()[i] == n);
        }
        if self.names().contains(name) {
            let k = choose|k: int| 0 <= k < self.names().len() && self.names()[k] == name;
            assert(0 <= k < self.len() && self.names()[k] == name);
        }
    }

    /// Builds the directory of a run from its entries; `location` names the local location.
    pub fn new(location: String, address_map: Vec<(String, LocationInfo)>) -> (r: Result<Orchestra, DirectoryError>)
        ensures
            address_map@.len() > 0x10000 <==> r matches Err(DirectoryError::TooManyLocations),
            address_map@.len() <= 0x10000 && has_duplicate_names(address_map@) <==> r matches Err(
                DirectoryError::DuplicateLocation,
            ),
            address_map@.len() <= 0x10000 && !has_duplicate_names(address_map@) && !(exists|i: int|
                0 <= i < address_map@.len() && #[trigger] address_map@[i].0@ == location@) <==> r matches Err(
                DirectoryError::UnknownLocation,
            ),
            r is Ok <==> address_map@.len() <= 0x10000 && !has_duplicate_names(address_map@) && exists|i: int|
                0 <= i < address_map@.len() && #[trigger] address_map@[i].0@ == location@,
            r matches Ok(o) ==> {
                &&& o.wf()
                &&& o.entries().to_multiset() =~= entries_view(address_map@).to_multiset()
                &&& o.names()[o.local() as int] == location@
            },
    {
        if address_map.len() > 0x10000 {
            return Err(DirectoryError::TooManyLocations);
        }
        if find_duplicate_name(&address_map) {
            return Err(DirectoryError::DuplicateLocation);
        }
        let ghost input = address_map@;
        let entries = sort_by_name(address_map);
        proof {
            entries_view(entries@).to_multiset_ensures();
            entries_view(input).to_multiset_ensures();
        }
        let mut k: usize = 0;
        while k < entries.len()
            invariant
                input == address_map@,
                input.len() <= 0x10000,
                !has_duplicate_names(input),
                entries@.len() == input.len(),
                names_sorted(entries@),
                entries_view(entries@).to_multiset() =~= entries_view(input).to_multiset(),
                k <= entries.len(),
                forall|i: int| 0 <= i < k ==> entries@[i].0@ != location@,
            decreases entries.len() - k,
        {
            if entries[k].0 == location {
                proof {
                    let ev = entry_view(entries@[k as int]);
                    assert(entries_view(entries@)[k as int] == ev);
                    entries_view(entries@).to_multiset_ensures();
                    entries_view(input).to_multiset_ensures();
                    assert(entries_view(entries@).contains(ev));
                    assert(entries_view(entries@).to_multiset().count(ev) > 0);
                    assert(entries_view(input).to_multiset().count(ev) > 0);
                    assert(entries_view(input).contains(ev));
                    let j = choose|j: int| 0 <= j < input.len() && entries_view(input)[j] == ev;
                    assert(input[j].0@ == location@);
                }
                let o = Orchestra { location: k as LocationID, entries };
                return Ok(o);
            }
            k = k + 1;
        }
        proof {
            entries_view(entries@).to_multiset_ensures();
            entries_view(input).to_multiset_ensures();
            assert forall|i: int| 0 <= i < input.len() implies #[trigger] input[i].0@ != location@ by {
                let ev = entry_view(input[i]);
                assert(entries_view(input)[i] == ev);
                assert(entries_view(input).to_multiset().count(ev) > 0);
                assert(entries_view(entries@).contains(ev));
                let j = choose|j: int| 0 <= j < entries@.len() && entries_view(entries@)[j] == ev;
                assert(entries@[j].0@ == input[i].0@);
            }
        }
        Err(DirectoryError::UnknownLocation)
    }

    /// Id of the local location.
    pub fn self_id(&self) -> (r: LocationID)
        ensures
            r == self.local(),
    {
        self.location
    }

    /// Name of the local location.
    pub fn self_name(&self) -> (r: String)
        requires
            self.wf(),
        ensures
            r@ == self.names()[self.local() as int],
    {
        self.location_name(self.location)
    }

    /// Every location name with its id.
    pub fn locations(&self) -> (r: Vec<(String, LocationID)>)
        requires
            self.wf(),
        ensures
            r@.len() == self.len(),
            forall|i: int| 0 <= i < self.len() ==> #[trigger] r@[i].0@ == self.names()[i] && r@[i].1 == i,
    {
        let mut r: Vec<(String, LocationID)> = Vec::new();
        let mut i: usize = 0;
        assert(self.len() == self.entries@.len());
        while i < self.entries.len()
            invariant
                self.wf(),
                self.len() == self.entries@.len(),
                i <= self.entries.len(),
                r@.len() == i,
                forall|a: int| 0 <= a < i ==> #[trigger] r@[a].0@ == self.names()[a] && r@[a].1 == a,
            decreases self.entries.len() - i,
        {
            r.push((self.entries[i].0.clone(), i as LocationID));
            i = i + 1;
        }
        r
    }

    /// All location ids, ascending.
    pub fn location_ids(&self) -> (r: Vec<LocationID>)
        requires
            self.wf(),
        ensures
            r@ == Seq::new(self.len(), |i: int| i as LocationID),
    {
        let mut r: Vec<LocationID> = Vec::new();
        let mut i: usize = 0;
        while i < self.entries.len()
            invariant
                self.wf(),
                i <= self.entries.len(),
                r@ == Seq::new(i as nat, |a: int| a as LocationID),
            decreases self.entries.len() - i,
        {
            r.push(i as LocationID);
            i = i + 1;
        }
        r
    }

    /// The id of `location`, if the directory knows that name.
    pub fn find_location(&self, location: &str) -> (r: Option<LocationID>)
        requires
            self.wf(),
        ensures
            r is None <==> !self.names().contains(location@),
            r matches Some(i) ==> i < self.len() && self.names()[i as int] == location@,
    {
        let wanted = location.to_owned();
        let mut i: usize = 0;
        while i < self.entries.len()
            invariant
                self.wf(),
                wanted@ == location@,
                i <= self.entries.len(),
                forall|a: int| 0 <= a < i ==> self.names()[a] != location@,
            decreases self.entries.len() - i,
        {
            if self.entries[i].0 == wanted {
                assert(self.names()[i as int] == location@);
                return Some(i as LocationID);
            }
            i = i + 1;
        }
        None
    }

    /// The id of a known location name.
    pub fn location_id(&self, location: &str) -> (r: LocationID)
        requires
            self.wf(),
            self.names().contains(location@),
        ensures
            r < self.len(),
            self.names()[r as int] == location@,
            r == self.id_of(location@),
    {
        proof {
            self.lemma_id_name_round_trip(0, location@);
            self.lemma_names_sorted();
        }
        self.find_location(location).unwrap()
    }

    /// The name of a known location id.
    pub fn location_name(&self, location_id: LocationID) -> (r: String)
        requires
            self.wf(),
            location_id < self.len(),
        ensures
            r@ == self.names()[location_id as int],
    {
        self.entries[location_id as usize].0.clone()
    }

    /// Address and machine of a known location id.
    pub fn location_info(&self, location: LocationID) -> (r: LocationInfo)
        requires
            self.wf(),
            location < self.len(),
        ensures
            (r.address@, r.machine@) == (self.entries()[location as int].1, self.machines()[location as int]),
    {
        let e = &self.entries[location as usize].1;
        LocationInfo { address: e.address.clone(), machine: e.machine.clone() }
    }

    /// Whether two known locations run on the same machine.
    pub fn same_machine(&self, a: LocationID, b: LocationID) -> (r: bool)
        requires
            self.wf(),
            a < self.len(),
            b < self.len(),
        ensures
            r == (self.machines()[a as int] == self.machines()[b as int]),
    {
        self.entries[a as usize].1.machine == self.entries[b as usize].1.machine
    }
}

} // verus!
