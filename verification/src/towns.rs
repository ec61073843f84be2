use crate::text::{
    lowercase, occurs_in, str_contains, str_to_lowercase, str_trim, str_trim_end_matches,
    str_trim_start_matches, strip_prefixes, strip_suffixes, trimmed,
};
use vstd::prelude::*;

verus! {

/// The key that opens the name of a key point.
pub open spec fn name_key() -> Seq<char> {
    "name=\""@
}

/// The key that opens the type of a key point.
pub open spec fn type_key() -> Seq<char> {
    "type=\""@
}

/// What closes a value.
pub open spec fn value_end() -> Seq<char> {
    "\";"@
}

/// The value of a trimmed line: what is left when the key is removed from
/// its start and the closing quote and semicolon from its end, each as
/// often as it stands there.
pub open spec fn value_of(line: Seq<char>, key: Seq<char>) -> Seq<char> {
    strip_suffixes(strip_prefixes(line, key), value_end())
}

/// A lower-case type that names a town.
pub open spec fn town_type(lowered: Seq<char>) -> bool {
    lowered == "namecity"@ || lowered == "namevillage"@
}

/// The name that is current after `line`: the value of the line if it
/// holds the name key, else the name that was current before.
pub open spec fn name_after(line: Seq<char>, name: Seq<char>) -> Seq<char> {
    if occurs_in(name_key(), line) {
        value_of(trimmed(line), name_key())
    } else {
        name
    }
}

/// `line` holds the type key, and its value names a town.
pub open spec fn closes_town(line: Seq<char>) -> bool {
    occurs_in(type_key(), line) && town_type(lowercase(value_of(trimmed(line), type_key())))
}

/// The town names that the lines give, after `found`: each line with a
/// town type adds the name that is current at that line.
pub open spec fn scan_towns(lines: Seq<Seq<char>>, name: Seq<char>, found: Seq<Seq<char>>) -> Seq<
    Seq<char>,
>
    decreases lines.len(),
{
    if lines.len() == 0 {
        found
    } else {
        let current = name_after(lines[0], name);
        scan_towns(
            lines.skip(1),
            current,
            if closes_town(lines[0]) {
                found.push(current)
            } else {
                found
            },
        )
    }
}

/// The texts of `lines`, in order.
pub open spec fn texts(lines: Seq<String>) -> Seq<Seq<char>> {
    lines.map_values(|s: String| s@)
}

/// The value of a trimmed line for a non-empty key.
pub fn field_value(line: &str, key: &str) -> (r: String)
    requires
        key@.len() > 0,
    ensures
        r@ == value_of(line@, key@),
{
    proof {
        reveal_strlit("\";");
    }
    let rest = str_trim_start_matches(line, key);
    str_trim_end_matches(rest, "\";").to_owned()
}

/// Whether a lower-case type names a town: `namecity` or `namevillage`.
pub fn is_town_type(lowered: &String) -> (r: bool)
    ensures
        r == town_type(lowered@),
{
    let city: String = "namecity".to_owned();
    let village: String = "namevillage".to_owned();
    *lowered == city || *lowered == village
}

/// The names of the towns in the lines of a key-point description. A line
/// that holds `name="` sets the current name; a line that holds `type="`
/// with the value `NameCity` or `NameVillage`, in any case, adds the current
/// name to the result.
pub fn collect_town_names(lines: &Vec<String>) -> (r: Vec<String>)
    ensures
        texts(r@) == scan_towns(texts(lines@), Seq::empty(), Seq::empty()),
{
    let mut town_names: Vec<String> = Vec::new();
    let mut name_buffer: String = String::new();
    let mut i: usize = 0;
    proof {
        reveal_strlit("name=\"");
        reveal_strlit("type=\"");
        assert(texts(lines@).skip(0) =~= texts(lines@));
        assert(texts(town_names@) =~= Seq::<Seq<char>>::empty());
    }
    while i < lines.len()
        invariant
            i <= lines.len(),
            name_key().len() > 0,
            type_key().len() > 0,
            scan_towns(texts(lines@), Seq::empty(), Seq::empty()) == scan_towns(
                texts(lines@).skip(i as int),
                name_buffer@,
                texts(town_names@),
            ),
        decreases lines.len() - i,
    {
        let line: &str = lines[i].as_str();
        proof {
            assert(texts(lines@).skip(i as int)[0] == line@);
            assert(texts(lines@).skip(i as int).skip(1) =~= texts(lines@).skip(i + 1));
        }
        if str_contains(line, "name=\"") {
            name_buffer = field_value(str_trim(line), "name=\"");
        }
        if str_contains(line, "type=\"") {
            let type_buffer = field_value(str_trim(line), "type=\"");
            let lowered = str_to_lowercase(type_buffer.as_str());
            if is_town_type(&lowered) {
                let name = name_buffer.clone();
                assert(texts(town_names@.push(name)) =~= texts(town_names@).push(name@));
                town_names.push(name);
            }
        }
        i = i + 1;
    }
    town_names
}

} // verus!
