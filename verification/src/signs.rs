use crate::text::{
    replaced, str_replace, str_trim_end_matches, str_unidecode, strip_suffixes, unidecoded,
};
use vstd::prelude::*;
use vstd::string::StringExecFns;

verus! {

/// The name of a map, from the name of its description file: the file name
/// without `.hpp` at its end.
pub open spec fn map_name_of(file_name: Seq<char>) -> Seq<char> {
    strip_suffixes(file_name, ".hpp"@)
}

/// The folder that holds the signs of a map.
pub open spec fn folder_of(map_name: Seq<char>) -> Seq<char> {
    map_name + "_signs"@
}

/// `text` with an underscore in place of each space.
pub open spec fn underscored_text(text: Seq<char>) -> Seq<char> {
    replaced(text, " "@, "_"@)
}

/// The file name that stands for a town: its ASCII transliteration with
/// underscores for spaces.
pub open spec fn file_name_of(town_name: Seq<char>) -> Seq<char> {
    underscored_text(unidecoded(town_name))
}

/// The path of a texture in the data folder of a sign folder.
pub open spec fn texture_of(folder: Seq<char>, file_name: Seq<char>) -> Seq<char> {
    folder + "\\data\\"@ + file_name + ".paa"@
}

/// The line that declares the sign of one town in the configuration.
pub open spec fn sign_line(file_name: Seq<char>, map_name: Seq<char>) -> Seq<char> {
    "SIGN("@ + file_name + ", "@ + map_name + ");\n"@
}

/// The sign lines of the towns, in order.
pub open spec fn sign_lines(town_names: Seq<String>, map_name: Seq<char>) -> Seq<char>
    decreases town_names.len(),
{
    if town_names.len() == 0 {
        Seq::empty()
    } else {
        sign_lines(town_names.drop_last(), map_name) + sign_line(
            file_name_of(town_names.last()@),
            map_name,
        )
    }
}

/// The text of the configuration of a map with the given towns.
pub open spec fn config_of(map_name: Seq<char>, town_names: Seq<String>) -> Seq<char> {
    "#include \"defines.hpp\"\n"@ + "PREAMBLE("@ + map_name + ");\n"@ + sign_lines(
        town_names,
        map_name,
    ) + "};"@
}

/// The name of the map that a description file of the given name describes.
pub fn map_name(file_name: &str) -> (r: String)
    ensures
        r@ == map_name_of(file_name@),
{
    proof {
        reveal_strlit(".hpp");
    }
    str_trim_end_matches(file_name, ".hpp").to_owned()
}

/// The name of the folder that holds the signs of a map.
pub fn folder_name(map_name: &str) -> (r: String)
    ensures
        r@ == folder_of(map_name@),
{
    map_name.to_owned().concat("_signs")
}

/// Puts an underscore in place of each space.
pub fn underscored(text: &str) -> (r: String)
    ensures
        r@ == underscored_text(text@),
{
    proof {
        reveal_strlit(" ");
    }
    str_replace(text, " ", "_")
}

/// The file name that stands for a town.
pub fn sign_file_name(town_name: &str) -> (r: String)
    ensures
        r@ == file_name_of(town_name@),
{
    let ascii = str_unidecode(town_name);
    underscored(ascii.as_str())
}

/// The path of the texture `file_name` in the data folder of `folder`.
pub fn texture_path(folder: &str, file_name: &str) -> (r: String)
    ensures
        r@ == texture_of(folder@, file_name@),
{
    folder.to_owned().concat("\\data\\").concat(file_name).concat(".paa")
}

/// The path of the base texture that every face of a sign carries.
pub fn base_texture_path(folder: &str) -> (r: String)
    ensures
        r@ == folder@ + "\\data\\sign_base_co.paa"@,
{
    folder.to_owned().concat("\\data\\sign_base_co.paa")
}

/// The path of the material that every face of a sign carries.
pub fn base_material_path(folder: &str) -> (r: String)
    ensures
        r@ == folder@ + "\\data\\sign_base.rvmat"@,
{
    folder.to_owned().concat("\\data\\sign_base.rvmat")
}

/// A line of the material template with the folder's name in place of
/// each `FOLDERNAME`.
pub fn material_line(line: &str, folder: &str) -> (r: String)
    ensures
        r@ == replaced(line@, "FOLDERNAME"@, folder@),
{
    proof {
        reveal_strlit("FOLDERNAME");
    }
    str_replace(line, "FOLDERNAME", folder)
}

/// The text of the configuration of a map: the include line, the preamble,
/// one sign line for each town in order, and the closing brace.
pub fn config_text(map_name: &str, town_names: &Vec<String>) -> (r: String)
    ensures
        r@ == config_of(map_name@, town_names@),
{
    let mut text: String = "#include \"defines.hpp\"\n".to_owned();
    text.append("PREAMBLE(");
    text.append(map_name);
    text.append(");\n");
    let ghost head = text@;
    let mut i: usize = 0;
    assert(town_names@.take(0) =~= Seq::<String>::empty());
    assert(text@ =~= head + sign_lines(town_names@.take(0), map_name@));
    while i < town_names.len()
        invariant
            i <= town_names.len(),
            text@ == head + sign_lines(town_names@.take(i as int), map_name@),
        decreases town_names.len() - i,
    {
        let ghost before = text@;
        let file_name = sign_file_name(town_names[i].as_str());
        text.append("SIGN(");
        text.append(file_name.as_str());
        text.append(", ");
        text.append(map_name);
        text.append(");\n");
        proof {
            let next = town_names@.take(i + 1);
            assert(next.drop_last() =~= town_names@.take(i as int));
            assert(next.last() == town_names@[i as int]);
            assert(text@ =~= before + sign_line(file_name@, map_name@));
            assert(text@ =~= head + sign_lines(next, map_name@));
        }
        i = i + 1;
    }
    assert(town_names@.take(i as int) =~= town_names@);
    text.append("};");
    assert(text@ =~= config_of(map_name@, town_names@));
    text
}

} // verus!
