//! The packages of an Android system and the user ids they run under, from the
//! system's package list.
use std::collections::HashMap;

use vstd::hash_map::StringHashMap;
use vstd::prelude::*;
use vstd::utf8;

use crate::text;
use crate::text::{chars_of, find_char, find_text, parse_number, split_on, string_of, trimmed};

verus! {

/// The text without the white space in front starts with a bracket and holds
/// the tag's name.
pub open spec fn is_tag(line: Seq<char>, tag: Seq<char>) -> bool {
    let t = text::trim_start(line);
    t.len() > 0 && t[0] == '<' && text::contains_text(line, tag)
}

/// The value of an attribute in a line with this tag: what stands between the
/// quotes behind its name.
pub open spec fn attr_text(line: Seq<char>, tag: Seq<char>, attr: Seq<char>) -> Option<Seq<char>> {
    let needle = attr + "=\""@;
    if !is_tag(line, tag) {
        None
    } else {
        match text::first_occurrence(line, needle, 0) {
            None => None,
            Some(at) => {
                let rest = line.subrange(at + needle.len(), line.len() as int);
                match text::first_at(rest, '"', 0) {
                    None => None,
                    Some(end) => Some(rest.subrange(0, end)),
                }
            },
        }
    }
}

/// The value of an attribute that is a number.
pub open spec fn attr_number(line: Seq<char>, tag: Seq<char>, attr: Seq<char>) -> Option<int> {
    match attr_text(line, tag, attr) {
        Some(s) => text::number(s, u32::MAX as int),
        None => None,
    }
}

fn starts_tag(line: &[char]) -> (r: bool)
    ensures
        r == ({
            let t = text::trim_start(line@);
            t.len() > 0 && t[0] == '<'
        }),
{
    let mut i: usize = 0;
    assert(line@.subrange(0, line@.len() as int) =~= line@);
    while i < line.len() && text::space(line[i])
        invariant
            i <= line.len(),
            text::trim_start(line@) == text::trim_start(
                line@.subrange(i as int, line@.len() as int),
            ),
        decreases line.len() - i,
    {
        assert(line@.subrange(i as int, line@.len() as int).subrange(1, line@.len() - i)
            =~= line@.subrange(i + 1, line@.len() as int));
        i += 1;
    }
    i < line.len() && line[i] == '<'
}

fn attr_chars(line: &[char], tag: &str, attr: &str) -> (r: Option<Vec<char>>)
    ensures
        match r {
            Some(v) => attr_text(line@, tag@, attr@) == Some(v@),
            None => attr_text(line@, tag@, attr@) is None,
        },
{
    let tag_chars: Vec<char> = chars_of(tag);
    if !starts_tag(line) || find_text(line, tag_chars.as_slice()).is_none() {
        return None;
    }
    let mut needle: Vec<char> = chars_of(attr);
    let mut quote: Vec<char> = chars_of("=\"");
    needle.append(&mut quote);
    let at: usize = match find_text(line, needle.as_slice()) {
        Some(at) => at,
        None => {
            return None;
        },
    };
    let rest: &[char] = &line[at + needle.len()..line.len()];
    match find_char(rest, '"') {
        None => None,
        Some(end) => {
            let value: &[char] = &rest[0..end];
            let mut v: Vec<char> = Vec::new();
            let mut k: usize = 0;
            while k < value.len()
                invariant
                    k <= value.len(),
                    v@ == value@.take(k as int),
                decreases value.len() - k,
            {
                v.push(value[k]);
                assert(value@.take(k + 1) =~= value@.take(k as int).push(value@[k as int]));
                k += 1;
            }
            assert(value@.take(value@.len() as int) =~= value@);
            Some(v)
        },
    }
}

/// The value of an attribute in a line with this tag.
pub fn extract_tag_attr_str(line: &str, tag: &str, attr: &str) -> (r: Option<String>)
    ensures
        match r {
            Some(s) => attr_text(line@, tag@, attr@) == Some(s@),
            None => attr_text(line@, tag@, attr@) is None,
        },
{
    let c: Vec<char> = chars_of(line);
    match attr_chars(c.as_slice(), tag, attr) {
        Some(v) => Some(string_of(v.as_slice())),
        None => None,
    }
}

/// The value of an attribute that is a number.
pub fn extract_tag_attr_u32(line: &str, tag: &str, attr: &str) -> (r: Option<u32>)
    ensures
        match r {
            Some(n) => attr_number(line@, tag@, attr@) == Some(n as int),
            None => attr_number(line@, tag@, attr@) is None,
        },
{
    let c: Vec<char> = chars_of(line);
    match attr_chars(c.as_slice(), tag, attr) {
        Some(v) => parse_number(v.as_slice(), u32::MAX),
        None => None,
    }
}

/// The name and the user id that a line with this tag gives.
pub open spec fn tag_entry(line: Seq<char>, tag: Seq<char>) -> Option<(Seq<char>, u32)> {
    match (attr_number(line, tag, "userId"@), attr_text(line, tag, "name"@)) {
        (Some(uid), Some(name)) => Some((name, uid as u32)),
        _ => None,
    }
}

fn read_entry(line: &[char], tag: &str) -> (r: Option<(String, u32)>)
    ensures
        match r {
            Some((name, uid)) => tag_entry(line@, tag@) == Some((name@, uid)),
            None => tag_entry(line@, tag@) is None,
        },
{
    let uid: Option<u32> = match attr_chars(line, tag, "userId") {
        Some(v) => parse_number(v.as_slice(), u32::MAX),
        None => None,
    };
    match (uid, attr_chars(line, tag, "name")) {
        (Some(uid), Some(name)) => Some((string_of(name.as_slice()), uid)),
        _ => None,
    }
}

/// Names and user ids, both ways.
pub struct NameTable {
    ids: StringHashMap<u32>,
    names: HashMap<u32, String>,
}

impl NameTable {
    /// The user id of each name: the last one that was given.
    pub closed spec fn id_map(&self) -> Map<Seq<char>, u32> {
        self.ids@
    }

    /// The name of each user id: the first one that was given.
    pub closed spec fn name_map(&self) -> Map<u32, Seq<char>> {
        self.names@.map_values(|s: String| s@)
    }

    pub fn new() -> (t: Self)
        ensures
            t.id_map() == Map::<Seq<char>, u32>::empty(),
            t.name_map() == Map::<u32, Seq<char>>::empty(),
    {
        let t = NameTable { ids: StringHashMap::new(), names: HashMap::new() };
        assert(t.name_map() =~= Map::<u32, Seq<char>>::empty());
        t
    }

    /// Enters a name with its user id.
    pub fn enter(&mut self, name: String, uid: u32)
        ensures
            final(self).id_map() == old(self).id_map().insert(name@, uid),
            final(self).name_map() == (if old(self).name_map().contains_key(uid) {
                old(self).name_map()
            } else {
                old(self).name_map().insert(uid, name@)
            }),
    {
        broadcast use vstd::std_specs::hash::group_hash_axioms;

        let known: bool = self.names.contains_key(&uid);
        let copy: String = name.as_str().to_owned();
        self.ids.insert(name, uid);
        if !known {
            self.names.insert(uid, copy);
        }
        assert(self.name_map() =~= (if old(self).name_map().contains_key(uid) {
            old(self).name_map()
        } else {
            old(self).name_map().insert(uid, name@)
        }));
    }

    /// The user id of a name.
    pub fn get_id(&self, name: &str) -> (r: Option<u32>)
        ensures
            r == (if self.id_map().contains_key(name@) {
                Some(self.id_map()[name@])
            } else {
                None::<u32>
            }),
    {
        match self.ids.get(name) {
            Some(uid) => Some(*uid),
            None => None,
        }
    }

    /// The name of a user id.
    pub fn get_name(&self, uid: u32) -> (r: Option<String>)
        ensures
            match r {
                Some(s) => self.name_map().contains_key(uid) && self.name_map()[uid] == s@,
                None => !self.name_map().contains_key(uid),
            },
    {
        broadcast use vstd::std_specs::hash::group_hash_axioms;

        match self.names.get(&uid) {
            Some(s) => Some(s.as_str().to_owned()),
            None => None,
        }
    }
}

/// The tables that the first `n` lines give, for one tag.
pub open spec fn ids_of(lines: Seq<Seq<char>>, tag: Seq<char>, n: int) -> Map<Seq<char>, u32>
    decreases n,
{
    if n <= 0 {
        Map::empty()
    } else {
        let before = ids_of(lines, tag, n - 1);
        match tag_entry(text::trim(lines[n - 1]), tag) {
            Some((name, uid)) => before.insert(name, uid),
            None => before,
        }
    }
}

pub open spec fn names_of(lines: Seq<Seq<char>>, tag: Seq<char>, n: int) -> Map<u32, Seq<char>>
    decreases n,
{
    if n <= 0 {
        Map::empty()
    } else {
        let before = names_of(lines, tag, n - 1);
        match tag_entry(text::trim(lines[n - 1]), tag) {
            Some((name, uid)) => if before.contains_key(uid) {
                before
            } else {
                before.insert(uid, name)
            },
            None => before,
        }
    }
}

/// The packages and the shared users of a package list.
pub struct PackageTables {
    pub packages: NameTable,
    pub shared_users: NameTable,
}

/// The tables hold what the package list says, line by line.
pub open spec fn tables_of(xml: Seq<char>, t: &PackageTables) -> bool {
    let lines = text::split(xml, '\n');
    let n = lines.len() as int;
    &&& t.packages.id_map() == ids_of(lines, "package"@, n)
    &&& t.packages.name_map() == names_of(lines, "package"@, n)
    &&& t.shared_users.id_map() == ids_of(lines, "shared-user"@, n)
    &&& t.shared_users.name_map() == names_of(lines, "shared-user"@, n)
}

/// Reads a package list.
pub fn parse_packages_xml(xml: &str) -> (t: PackageTables)
    ensures
        tables_of(xml@, &t),
{
    let c: Vec<char> = chars_of(xml);
    let lines: Vec<Vec<char>> = split_on(c.as_slice(), '\n');
    let ghost all = text::split(xml@, '\n');
    let mut packages: NameTable = NameTable::new();
    let mut shared_users: NameTable = NameTable::new();
    let mut k: usize = 0;
    while k < lines.len()
        invariant
            k <= lines.len(),
            text::char_views(lines@) == all,
            all.len() == lines@.len(),
            packages.id_map() == ids_of(all, "package"@, k as int),
            packages.name_map() == names_of(all, "package"@, k as int),
            shared_users.id_map() == ids_of(all, "shared-user"@, k as int),
            shared_users.name_map() == names_of(all, "shared-user"@, k as int),
        decreases lines.len() - k,
    {
        assert(all[k as int] == lines@[k as int]@);
        let line: &[char] = trimmed(lines[k].as_slice());
        if let Some((name, uid)) = read_entry(line, "package") {
            packages.enter(name, uid);
        }
        if let Some((name, uid)) = read_entry(line, "shared-user") {
            shared_users.enter(name, uid);
        }
        k += 1;
    }
    PackageTables { packages, shared_users }
}

/// The text of bytes, with a replacement for what is no UTF-8: what
/// `String::from_utf8_lossy` gives.
pub uninterp spec fn lossy(data: Seq<u8>) -> Seq<char>;

/// Calls `String::from_utf8_lossy`. Claimed: the text depends on the bytes
/// alone, and bytes that are UTF-8 are those of the text.
#[verifier::external_body]
fn lossy_text(data: &[u8]) -> (s: String)
    ensures
        s@ == lossy(data@),
        utf8::valid_utf8(data@) ==> utf8::encode_utf8(s@) == data@,
{
    String::from_utf8_lossy(data).into_owned()
}

/// The data does not start like binary XML.
#[derive(Clone, Copy, Debug, PartialEq, Eq, Structural)]
pub struct NotBinaryXml;

/// The data starts like binary XML.
pub open spec fn is_binary_xml(data: Seq<u8>) -> bool {
    data.len() >= 4 && data[0] == 0x41 && data[1] == 0x42 && data[2] == 0x58
}

/// The text in binary XML.
pub fn parse_abx_or_xml(data: &[u8]) -> (r: Result<String, NotBinaryXml>)
    ensures
        match r {
            Ok(s) => is_binary_xml(data@) && s@ == lossy(data@),
            Err(_) => !is_binary_xml(data@),
        },
{
    if data.len() < 4 || data[0] != 0x41 || data[1] != 0x42 || data[2] != 0x58 {
        return Err(NotBinaryXml);
    }
    Ok(lossy_text(data))
}

/// The text of a package list, binary or not.
pub fn package_list_text(data: &[u8]) -> (s: String)
    ensures
        s@ == lossy(data@),
{
    match parse_abx_or_xml(data) {
        Ok(s) => s,
        Err(_) => lossy_text(data),
    }
}

/// Who owns which user id on this system.
pub struct PackageManager {
    tables: PackageTables,
}

impl PackageManager {
    pub closed spec fn package_ids(&self) -> Map<Seq<char>, u32> {
        self.tables.packages.id_map()
    }

    pub closed spec fn package_names(&self) -> Map<u32, Seq<char>> {
        self.tables.packages.name_map()
    }

    pub closed spec fn shared_ids(&self) -> Map<Seq<char>, u32> {
        self.tables.shared_users.id_map()
    }

    pub closed spec fn shared_names(&self) -> Map<u32, Seq<char>> {
        self.tables.shared_users.name_map()
    }

    /// Nothing is known.
    pub fn new() -> (m: Self)
        ensures
            m.package_ids() == Map::<Seq<char>, u32>::empty(),
            m.package_names() == Map::<u32, Seq<char>>::empty(),
            m.shared_ids() == Map::<Seq<char>, u32>::empty(),
            m.shared_names() == Map::<u32, Seq<char>>::empty(),
    {
        PackageManager {
            tables: PackageTables { packages: NameTable::new(), shared_users: NameTable::new() },
        }
    }

    /// Takes what a package list says in place of what was known.
    pub fn load(&mut self, xml: &str)
        ensures
            ({
                let lines = text::split(xml@, '\n');
                let n = lines.len() as int;
                &&& final(self).package_ids() == ids_of(lines, "package"@, n)
                &&& final(self).package_names() == names_of(lines, "package"@, n)
                &&& final(self).shared_ids() == ids_of(lines, "shared-user"@, n)
                &&& final(self).shared_names() == names_of(lines, "shared-user"@, n)
            }),
    {
        self.tables = parse_packages_xml(xml);
    }

    /// Takes what the bytes of a package list say.
    pub fn update_packages(&mut self, data: &[u8])
        ensures
            ({
                let lines = text::split(lossy(data@), '\n');
                let n = lines.len() as int;
                &&& final(self).package_ids() == ids_of(lines, "package"@, n)
                &&& final(self).package_names() == names_of(lines, "package"@, n)
                &&& final(self).shared_ids() == ids_of(lines, "shared-user"@, n)
                &&& final(self).shared_names() == names_of(lines, "shared-user"@, n)
            }),
    {
        let s: String = package_list_text(data);
        self.load(s.as_str());
    }

    pub fn id_by_package(&self, package_name: &str) -> (r: Option<u32>)
        ensures
            r == (if self.package_ids().contains_key(package_name@) {
                Some(self.package_ids()[package_name@])
            } else {
                None::<u32>
            }),
    {
        self.tables.packages.get_id(package_name)
    }

    pub fn id_by_shared_package(&self, shared_package: &str) -> (r: Option<u32>)
        ensures
            r == (if self.shared_ids().contains_key(shared_package@) {
                Some(self.shared_ids()[shared_package@])
            } else {
                None::<u32>
            }),
    {
        self.tables.shared_users.get_id(shared_package)
    }

    pub fn package_by_id(&self, uid: u32) -> (r: Option<String>)
        ensures
            match r {
                Some(s) => self.package_names().contains_key(uid) && self.package_names()[uid]
                    == s@,
                None => !self.package_names().contains_key(uid),
            },
    {
        self.tables.packages.get_name(uid)
    }

    /// The user ids of packages; a package that is not known is passed over.
    pub fn resolve_packages(&self, packages: &[String]) -> (v: Vec<u32>)
        ensures
            v@ == known_ids(self.package_ids(), text::str_views(packages@)),
    {
        let ghost names = text::str_views(packages@);
        let mut v: Vec<u32> = Vec::new();
        let mut k: usize = 0;
        assert(names.take(0) =~= Seq::<Seq<char>>::empty());
        while k < packages.len()
            invariant
                k <= packages.len(),
                names == text::str_views(packages@),
                v@ == known_ids(self.package_ids(), names.take(k as int)),
            decreases packages.len() - k,
        {
            assert(names.take(k + 1).drop_last() =~= names.take(k as int));
            assert(names.take(k + 1).last() == packages@[k as int]@);
            if let Some(uid) = self.id_by_package(packages[k].as_str()) {
                v.push(uid);
            }
            k += 1;
        }
        assert(names.take(names.len() as int) =~= names);
        v
    }
}

/// The user ids of the names that a table knows.
pub open spec fn known_ids(ids: Map<Seq<char>, u32>, names: Seq<Seq<char>>) -> Seq<u32>
    decreases names.len(),
{
    if names.len() == 0 {
        Seq::empty()
    } else {
        let before = known_ids(ids, names.drop_last());
        if ids.contains_key(names.last()) {
            before.push(ids[names.last()])
        } else {
            before
        }
    }
}

} // verus!
